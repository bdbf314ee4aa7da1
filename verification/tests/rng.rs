//! Counter-based draws: purity, separation, and common random numbers.

use std::collections::HashSet;

use openmobisim_core::rng::{DrawAddress, DrawBlock, RngKey, Stream, StreamRng};

fn choice_rng(seed: u64) -> StreamRng {
    StreamRng::new(RngKey::from_seed(seed), Stream::Choice)
}

/// The uniform draw a word stands for: the word over 2^32.
fn unit_of(block: &DrawBlock, i: usize) -> f64 {
    f64::from(block.word(i)) * (1.0 / 4_294_967_296.0)
}

#[test]
fn a_draw_is_a_pure_function_of_its_key() {
    let rng = choice_rng(1234);
    let addr = DrawAddress::from_quad(412_002, 3, 7, 19);
    let first = rng.block(addr);
    for _ in 0..50 {
        assert_eq!(rng.block(addr), first);
    }
    assert_eq!(choice_rng(1234).block(addr), first);
}

#[test]
fn every_identity_component_separates_draws() {
    let rng = choice_rng(7);
    let base = DrawAddress::from_quad(10, 20, 30, 40);
    let variants = [
        DrawAddress::from_quad(11, 20, 30, 40),
        DrawAddress::from_quad(10, 21, 30, 40),
        DrawAddress::from_quad(10, 20, 31, 40),
        DrawAddress::from_quad(10, 20, 30, 41),
    ];
    let b = rng.block(base);
    for v in variants {
        assert_ne!(rng.block(v), b, "changing one component left the draw unchanged");
    }
}

#[test]
fn address_packing_is_injective_within_one_arity() {
    let mut seen = HashSet::new();
    for a in 0u32..12 {
        for b in 0u32..12 {
            for c in 0u32..6 {
                for d in 0u32..6 {
                    assert!(seen.insert(DrawAddress::from_quad(a, b, c, d)), "address collision at ({a}, {b}, {c}, {d})");
                }
            }
        }
    }
    let mut pairs = HashSet::new();
    for a in 0u32..40 {
        for b in 0u32..40 {
            assert!(pairs.insert(DrawAddress::from_pair(a, b)), "pair collision at ({a}, {b})");
        }
    }
}

#[test]
fn arities_are_prefixes_of_each_other_by_design() {
    assert_eq!(DrawAddress::from_pair(1, 2), DrawAddress::from_triple(1, 2, 0));
    assert_eq!(DrawAddress::from_triple(1, 2, 3), DrawAddress::from_quad(1, 2, 0, 3));
    let key = RngKey::from_seed(1);
    let addr = DrawAddress::from_pair(1, 2);
    assert_ne!(
        StreamRng::new(key, Stream::DepartureTime).block(addr),
        StreamRng::new(key, Stream::MsaReselection).block(addr)
    );
}

#[test]
fn streams_are_independent() {
    let key = RngKey::from_seed(99);
    let addr = DrawAddress::from_pair(5, 5);
    let mut seen = HashSet::new();
    for stream in Stream::all() {
        let block = StreamRng::new(key, stream).block(addr);
        assert!(seen.insert(block.words().to_vec()), "{} collided with another stream", stream.as_str());
    }
}

#[test]
fn designs_share_random_numbers_by_default() {
    let addr = DrawAddress::from_quad(1, 0, 0, 5);
    let a = StreamRng::new(RngKey::new(42, 0, 0), Stream::Choice);
    let b = StreamRng::new(RngKey::new(42, 9_999, 0), Stream::Choice);
    assert_eq!(a.block(addr), b.block(addr));
}

#[test]
fn designs_can_be_given_independent_randomness_on_request() {
    let addr = DrawAddress::from_quad(1, 0, 0, 5);
    let shared = StreamRng::new(RngKey::new(42, 9, 0), Stream::Choice);
    let independent = StreamRng::new(RngKey::new(42, 9, 0).independent_per_design(), Stream::Choice);
    assert_ne!(shared.block(addr), independent.block(addr));
}

#[test]
fn replications_are_always_independent() {
    let addr = DrawAddress::from_quad(1, 0, 0, 5);
    let r0 = StreamRng::new(RngKey::new(42, 0, 0), Stream::Choice);
    let r1 = StreamRng::new(RngKey::new(42, 0, 1), Stream::Choice);
    assert_ne!(r0.block(addr), r1.block(addr));
}

#[test]
fn adding_an_alternative_leaves_the_others_alone() {
    let rng = choice_rng(555);
    let draw = |alt: u32| unit_of(&rng.block(DrawAddress::from_quad(100, 0, 3, alt)), 0);
    let before: Vec<f64> = [2u32, 5, 9].iter().map(|&a| draw(a)).collect();
    let _new_alternative = draw(7);
    let after: Vec<f64> = [2u32, 5, 9].iter().map(|&a| draw(a)).collect();
    assert_eq!(before, after);
}

#[test]
fn the_buffered_and_word_by_word_paths_agree() {
    let rng = choice_rng(4242);
    for i in 0..500u32 {
        let addr = DrawAddress::from_quad(i, i / 3, i / 7, i % 11);
        assert_eq!(rng.block(addr), rng.block_word_by_word(addr), "at {addr:?}");
    }
}

#[test]
fn uniform_draws_look_uniform() {
    let rng = choice_rng(2024);
    let n = 20_000;
    let mut total = 0.0;
    let mut buckets = [0u32; 10];
    for i in 0..n {
        let u = unit_of(&rng.block(DrawAddress::from_pair(i, 0)), 0);
        total += u;
        let bucket = (u * 10.0) as usize;
        buckets[bucket] += 1;
    }
    let mean = total / f64::from(n);
    assert!((mean - 0.5).abs() < 0.02, "mean {mean} is not near 0.5");
    let expected = f64::from(n) / 10.0;
    for (i, &count) in buckets.iter().enumerate() {
        let deviation = (f64::from(count) - expected).abs() / expected;
        assert!(deviation < 0.15, "bucket {i} holds {count}, expected about {expected}");
    }
}

#[test]
fn index_below_stays_in_range() {
    let rng = choice_rng(11);
    for n in [1u32, 2, 3, 7, 64, 1_000] {
        for i in 0..500 {
            let idx = rng.block(DrawAddress::from_pair(i, n)).index_below(0, n);
            assert!(idx < n, "index_below({n}) returned {idx}");
        }
    }
}

#[test]
fn distinct_addresses_give_distinct_blocks() {
    let rng = choice_rng(8);
    let mut state: u64 = 0x9e37_79b9_7f4a_7c15;
    for _ in 0..256 {
        state = state.wrapping_mul(6_364_136_223_846_793_005).wrapping_add(1_442_695_040_888_963_407);
        let a = (state >> 32) as u32;
        let b = state as u32;
        let c = (state >> 16) as u32;
        let d = (state >> 8) as u32;
        let base = DrawAddress::from_quad(a, b, c, d);
        let shifted = DrawAddress::from_quad(a, b, c, d.wrapping_add(1));
        assert_ne!(rng.block(base), rng.block(shifted));
    }
}

#[test]
fn advance_is_reproducible() {
    let rng = choice_rng(17);
    for (a, n) in [(0u32, 1u64), (7, 2), (123_456, 999), (u32::MAX, 500)] {
        let base = DrawAddress::from_one(a);
        assert_ne!(rng.block(base), rng.block(base.advance(n)));
        assert_eq!(rng.block(base.advance(n)), rng.block(base.advance(n)));
    }
}

#[test]
fn a_block_has_sixteen_words_and_word64_puts_the_even_word_high() {
    let rng = choice_rng(5);
    let block = rng.block(DrawAddress::from_pair(3, 4));
    assert_eq!(DrawBlock::LEN, 16);
    assert_eq!(block.words().len(), 16);
    for i in 0..8 {
        let joined = block.word64(i);
        assert_eq!((joined >> 32) as u32, block.word(2 * i));
        assert_eq!(joined as u32, block.word(2 * i + 1));
    }
}
