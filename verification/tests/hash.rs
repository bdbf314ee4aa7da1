use openmobisim_core::hash::{fingerprint_hex, Fnv1a};

#[test]
fn matches_the_published_fnv1a_test_vectors() {
    // From the FNV reference: the empty string is the offset basis, and
    // "a" and "foobar" have these 64-bit FNV-1a values.
    assert_eq!(Fnv1a::new().finish(), 0xcbf2_9ce4_8422_2325);
    let mut a = Fnv1a::new();
    a.write_bytes(b"a");
    assert_eq!(a.finish(), 0xaf63_dc4c_8601_ec8c);
    let mut foobar = Fnv1a::new();
    foobar.write_bytes(b"foobar");
    assert_eq!(foobar.finish(), 0x8594_4171_f739_67e8);
}

#[test]
fn strings_are_delimited_and_floats_are_exact() {
    let hash = |parts: &[&str]| {
        let mut h = Fnv1a::new();
        for p in parts {
            h.write_str(p);
        }
        h.finish()
    };
    assert_ne!(hash(&["ab", "c"]), hash(&["a", "bc"]));
    // A float is hashed as its bits, so zero and negative zero differ.
    let mut zero = Fnv1a::new();
    zero.write_u64(0.0f64.to_bits());
    let mut negative_zero = Fnv1a::new();
    negative_zero.write_u64((-0.0f64).to_bits());
    assert_ne!(zero.finish(), negative_zero.finish());
}

#[test]
fn hex_is_sixteen_digits() {
    assert_eq!(fingerprint_hex(0xabc), "0000000000000abc");
    assert_eq!(fingerprint_hex(u64::MAX).len(), 16);
}

#[test]
fn hex_reads_back_as_the_fingerprint() {
    for v in [0u64, 1, 0xabc, 0x0123_4567_89ab_cdef, u64::MAX, 1 << 63] {
        let text = fingerprint_hex(v);
        assert!(text.chars().all(|c| c.is_ascii_digit() || ('a'..='f').contains(&c)), "{text}");
        assert_eq!(u64::from_str_radix(&text, 16), Ok(v));
    }
}
