//! What the hot paths must not cost: no allocation for a report nobody used, the per-entry
//! sizes that the memory estimates are built on, and lookups that stay exact at scale.
//! The time each takes is printed for a reader; no budget is enforced here.

use std::hint::black_box;
use std::time::Instant;

use openmobisim_core::diagnostics::{codes, Category, DiagKey, Diagnostics, ElementRef, Severity};
use openmobisim_core::ids::{EntityId, ExternalIdTableBuilder, LinkId};
use openmobisim_core::reduce::is_parallel_build;

#[test]
fn external_id_lookup_throughput() {
    let n = 100_000u32;
    let mut builder = ExternalIdTableBuilder::with_capacity(n as usize);
    for i in 0..n {
        builder.insert(&format!("way/{i:08}"));
    }
    let table = builder.build();

    let probes: Vec<String> = (0..n).step_by(7).map(|i| format!("way/{i:08}")).collect();
    let start = Instant::now();
    let mut found = 0u32;
    for p in &probes {
        found += u32::from(table.id_of(black_box(p)).is_some());
    }
    println!("ExternalIdTable::id_of: {} lookups in {:?}", probes.len(), start.elapsed());
    assert_eq!(found as usize, probes.len());
}

#[test]
fn diagnostics_recording_is_cheap_on_the_exception_path() {
    let n = 200_000u32;
    let start = Instant::now();
    let mut diag = Diagnostics::new();
    for i in 0..n {
        diag.record(DiagKey::new(
            Category::Modelling,
            codes::no_feasible_path(),
            Severity::Warning,
            ElementRef::of(LinkId::new(i % 2_000)),
        ));
    }
    println!("Diagnostics::record: {n} records in {:?}", start.elapsed());
    assert_eq!(diag.total(), u64::from(n));
}

#[test]
fn an_unused_diagnostics_report_allocates_nothing() {
    let diag = Diagnostics::new();
    assert_eq!(std::mem::size_of_val(&diag), std::mem::size_of::<Diagnostics>());
    assert!(diag.is_empty());
    assert_eq!(diag.rows().capacity(), 0, "an empty report must not allocate its rows either");
}

#[test]
fn memory_footprints_match_the_design_estimates() {
    let links = 50_000usize;
    let steps = 48usize;

    // Cumulative curves: links x steps x 2 (up and down) x 8 bytes.
    let curve_bytes = links * steps * 2 * std::mem::size_of::<f64>();
    assert_eq!(curve_bytes, 38_400_000);

    // A vehicle in flight: id, link, path position, four u32s at most.
    assert!(std::mem::size_of::<LinkId>() * 4 <= 16, "a vehicle record must stay within 16 bytes");
}

#[test]
fn this_build_reduces_in_parallel() {
    assert!(is_parallel_build());
}
