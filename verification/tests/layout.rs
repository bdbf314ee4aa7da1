//! Memory layout is a design commitment: these types sit in arrays with one entry per link,
//! per traveller or per step.

use std::mem::{align_of, size_of};

use openmobisim_core::diagnostics::{Category, DiagKey, DiagRow, ElementRef, Severity};
use openmobisim_core::ids::{EntityKind, LinkId, NodeId, TravellerId, TripId};
use openmobisim_core::rng::{DrawAddress, DrawBlock, RngKey};
use openmobisim_core::store::RouteKey;
use openmobisim_core::time::{EventKey, FastDivU32, Second, StepGrid, StepIndex};

#[test]
fn ids_are_four_bytes() {
    assert_eq!(size_of::<NodeId>(), 4, "an id must be exactly a u32");
    assert_eq!(size_of::<LinkId>(), 4);
    assert_eq!(size_of::<TravellerId>(), 4);
    assert_eq!(size_of::<TripId>(), 4);
    assert_eq!(align_of::<LinkId>(), 4);
}

#[test]
fn optional_ids_would_cost_double() {
    assert_eq!(size_of::<Option<LinkId>>(), 8);
    assert_eq!(size_of::<LinkId>(), 4);
}

#[test]
fn entity_kind_is_one_byte() {
    assert_eq!(size_of::<EntityKind>(), 1);
}

#[test]
fn clock_types_are_compact() {
    assert_eq!(size_of::<Second>(), 4, "the clock is u32 seconds");
    assert_eq!(size_of::<StepIndex>(), 4);
    assert_eq!(size_of::<EventKey>(), 12);
    assert_eq!(size_of::<FastDivU32>(), 16);
    assert!(size_of::<StepGrid>() <= 32, "StepGrid grew to {}", size_of::<StepGrid>());
}

#[test]
fn rng_types_are_the_expected_size() {
    assert_eq!(size_of::<DrawBlock>(), 64, "one ChaCha block is 64 bytes");
    assert_eq!(size_of::<DrawAddress>(), 16, "64 bits of stream, 64 of block counter");
    assert_eq!(size_of::<RngKey>(), 24, "seed, design, replication and the CRN flag");
}

#[test]
fn diagnostic_rows_stay_small() {
    assert_eq!(size_of::<Category>(), 1);
    assert_eq!(size_of::<Severity>(), 1);
    assert_eq!(size_of::<ElementRef>(), 8, "one byte of kind, four of id, padded");
    assert!(size_of::<DiagKey>() <= 32, "DiagKey grew to {}", size_of::<DiagKey>());
    assert!(size_of::<DiagRow>() <= 40, "DiagRow grew to {}", size_of::<DiagRow>());
}

#[test]
fn keys_are_eight_bytes() {
    assert_eq!(size_of::<RouteKey>(), 8);
}
