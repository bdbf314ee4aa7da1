//! The fixed-order reductions: the order in which chunks are combined is the order of the
//! input, whatever the threads do.

use openmobisim_core::reduce::{fixed_order_chunk_reduce, fixed_order_map, REDUCTION_CHUNK};

#[test]
fn chunk_reduce_combines_in_index_order() {
    let xs: Vec<u32> = (0..10_000u32).collect();
    let order = fixed_order_chunk_reduce(
        &xs,
        1_000,
        |chunk: &[u32]| vec![chunk[0]],
        Vec::new(),
        |mut a: Vec<u32>, b: Vec<u32>| {
            a.extend(b);
            a
        },
    );
    assert_eq!(order, vec![0, 1_000, 2_000, 3_000, 4_000, 5_000, 6_000, 7_000, 8_000, 9_000]);
}

#[test]
fn map_preserves_index_order() {
    let xs: Vec<u32> = (0..50_000u32).collect();
    let doubled = fixed_order_map(&xs, |&x: &u32| x * 2);
    assert!(doubled.iter().enumerate().all(|(i, &v)| v as usize == i * 2));
}

#[test]
fn an_empty_input_reduces_to_the_empty_value_and_maps_to_nothing() {
    let xs: Vec<u32> = Vec::new();
    let total = fixed_order_chunk_reduce(&xs, REDUCTION_CHUNK, |c: &[u32]| c.len() as u64, 7u64, |a: u64, b: u64| a + b);
    assert_eq!(total, 7);
    assert!(fixed_order_map(&xs, |&x: &u32| x).is_empty());
}

#[test]
fn a_chunked_integer_sum_is_the_plain_sum() {
    let xs: Vec<u64> = (0..100_000u64).collect();
    let total = fixed_order_chunk_reduce(&xs, REDUCTION_CHUNK, |c: &[u64]| c.iter().sum::<u64>(), 0u64, |a: u64, b: u64| a + b);
    assert_eq!(total, 100_000 * 99_999 / 2);
}

#[test]
fn a_last_partial_chunk_is_reduced_too() {
    let xs: Vec<u32> = (0..25u32).collect();
    let lens = fixed_order_chunk_reduce(
        &xs,
        10,
        |c: &[u32]| vec![c.len()],
        Vec::new(),
        |mut a: Vec<usize>, b: Vec<usize>| {
            a.extend(b);
            a
        },
    );
    assert_eq!(lens, vec![10, 10, 5]);
}
