//! A small hash for fingerprints: FNV-1a, 64 bits.
//!
//! Not cryptographic: a fingerprint only has to tell apart inputs that differ by accident.
//! Every write is little-endian and fixed-width, so a fingerprint is the same on every
//! platform, and a string is written with its length first, so that `("ab", "c")` and
//! `("a", "bc")` are written differently.

use vstd::prelude::*;

use vstd::string::StringSliceAdditionalSpecFns;

use crate::text::{hex_digits, hex_limit, hex_value, lemma_hex_digits_read_back, lower_hex, push_hex_digits};

verus! {

/// The FNV-1a 64-bit offset basis: the hash of nothing.
pub const FNV_OFFSET_BASIS: u64 = 0xcbf2_9ce4_8422_2325u64;

/// The FNV-1a 64-bit prime.
pub const FNV_PRIME: u64 = 0x0000_0100_0000_01b3u64;

/// One FNV-1a step: fold byte `b` into hash `h`.
pub open spec fn fnv_step(h: u64, b: u8) -> u64 {
    vstd::wrapping::u64_specs::wrapping_mul(h ^ (b as u64), FNV_PRIME)
}

/// Fold `bytes` into `h`, first byte first.
pub open spec fn fnv_fold(h: u64, bytes: Seq<u8>) -> u64
    decreases bytes.len(),
{
    if bytes.len() == 0 {
        h
    } else {
        fnv_step(fnv_fold(h, bytes.drop_last()), bytes.last())
    }
}

/// The four bytes of `v`, least significant first.
pub open spec fn le_bytes_u32(v: u32) -> Seq<u8> {
    seq![
        (v % 0x100) as u8,
        ((v / 0x100) % 0x100) as u8,
        ((v / 0x1_0000) % 0x100) as u8,
        ((v / 0x100_0000) % 0x100) as u8,
    ]
}

/// The eight bytes of `v`, least significant first.
pub open spec fn le_bytes_u64(v: u64) -> Seq<u8> {
    le_bytes_u32((v % 0x1_0000_0000) as u32) + le_bytes_u32((v / 0x1_0000_0000) as u32)
}

/// The bytes a string is written as: its byte length as a `u32`, then its bytes.
pub open spec fn delimited(bytes: Seq<u8>) -> Seq<u8> {
    le_bytes_u32(bytes.len() as u32) + bytes
}

/// Hashing is a fold: writing `a` and then `b` is writing `a + b`.
pub proof fn lemma_fold_concat(h: u64, a: Seq<u8>, b: Seq<u8>)
    ensures
        fnv_fold(fnv_fold(h, a), b) == fnv_fold(h, a + b),
    decreases b.len(),
{
    if b.len() == 0 {
        assert(a + b =~= a);
    } else {
        lemma_fold_concat(h, a, b.drop_last());
        assert((a + b).drop_last() =~= a + b.drop_last());
        assert((a + b).last() == b.last());
    }
}

/// A running FNV-1a 64-bit hash.
#[derive(Clone, Copy, Debug)]
pub struct Fnv1a(u64);

impl View for Fnv1a {
    type V = u64;

    /// The hash of everything written so far.
    closed spec fn view(&self) -> u64 {
        self.0
    }
}

impl Fnv1a {
    /// A new hash, before anything is written.
    pub fn new() -> (r: Fnv1a)
        ensures
            r@ == FNV_OFFSET_BASIS,
    {
        Fnv1a(FNV_OFFSET_BASIS)
    }

    /// Write raw bytes, as they are.
    pub fn write_bytes(&mut self, bytes: &[u8])
        ensures
            final(self)@ == fnv_fold(old(self)@, bytes@),
    {
        let mut i: usize = 0;
        while i < bytes.len()
            invariant
                i <= bytes.len(),
                self@ == fnv_fold(old(self)@, bytes@.subrange(0, i as int)),
            decreases bytes.len() - i,
        {
            let b = bytes[i];
            self.0 = (self.0 ^ (b as u64)).wrapping_mul(FNV_PRIME);
            proof {
                let next = bytes@.subrange(0, i + 1);
                assert(next.drop_last() =~= bytes@.subrange(0, i as int));
                assert(next.last() == b);
            }
            i = i + 1;
        }
        proof {
            assert(bytes@.subrange(0, i as int) =~= bytes@);
        }
    }

    /// Write one byte.
    pub fn write_u8(&mut self, v: u8)
        ensures
            final(self)@ == fnv_fold(old(self)@, seq![v]),
    {
        let one = [v];
        self.write_bytes(&one);
        proof {
            assert(one@ =~= seq![v]);
        }
    }

    /// Write a `u32`, little-endian.
    pub fn write_u32(&mut self, v: u32)
        ensures
            final(self)@ == fnv_fold(old(self)@, le_bytes_u32(v)),
    {
        let bytes = [
            (v % 0x100) as u8,
            ((v / 0x100) % 0x100) as u8,
            ((v / 0x1_0000) % 0x100) as u8,
            ((v / 0x100_0000) % 0x100) as u8,
        ];
        self.write_bytes(&bytes);
        proof {
            assert(bytes@ =~= le_bytes_u32(v));
        }
    }

    /// Write a `u64`, little-endian.
    pub fn write_u64(&mut self, v: u64)
        ensures
            final(self)@ == fnv_fold(old(self)@, le_bytes_u64(v)),
    {
        let low = (v % 0x1_0000_0000) as u32;
        let high = (v / 0x1_0000_0000) as u32;
        let ghost h0 = self@;
        self.write_u32(low);
        self.write_u32(high);
        proof {
            lemma_fold_concat(h0, le_bytes_u32(low), le_bytes_u32(high));
        }
    }

    /// Write a flag as one byte: 1 for true, 0 for false.
    pub fn write_bool(&mut self, v: bool)
        ensures
            final(self)@ == fnv_fold(old(self)@, seq![if v { 1u8 } else { 0u8 }]),
    {
        self.write_u8(if v { 1 } else { 0 });
    }

    /// Write a string, its byte length first. A string is at most `u32::MAX` bytes long.
    pub fn write_str(&mut self, s: &str)
        requires
            s.spec_bytes().len() <= u32::MAX,
        ensures
            final(self)@ == fnv_fold(old(self)@, delimited(s.spec_bytes())),
    {
        let bytes = s.as_bytes();
        let len = bytes.len() as u32;
        let ghost h0 = self@;
        self.write_u32(len);
        self.write_bytes(bytes);
        proof {
            lemma_fold_concat(h0, le_bytes_u32(len), bytes@);
        }
    }

    /// The hash of everything written so far.
    pub fn finish(self) -> (r: u64)
        ensures
            r == self@,
    {
        self.0
    }
}

impl Default for Fnv1a {
    fn default() -> (r: Fnv1a)
        ensures
            r@ == FNV_OFFSET_BASIS,
    {
        Fnv1a::new()
    }
}

/// `hex_digits(n, width)` has exactly `width` digits.
pub proof fn lemma_hex_digits_len(n: nat, width: nat)
    ensures
        hex_digits(n, width).len() == width,
    decreases width,
{
    if width > 0 {
        lemma_hex_digits_len(n / 16, (width - 1) as nat);
    }
}

/// A 64-bit fingerprint as 16 lower-case hex digits: the form written to a manifest and a
/// results file.
pub fn fingerprint_hex(value: u64) -> (r: String)
    ensures
        r@ == hex_digits(value as nat, 16),
        r@.len() == 16,
        lower_hex(r@),
        hex_value(r@) == value,
{
    let mut s = String::new();
    push_hex_digits(&mut s, value, 16);
    proof {
        lemma_hex_digits_len(value as nat, 16);
        assert(Seq::<char>::empty() + hex_digits(value as nat, 16) =~= hex_digits(value as nat, 16));
        assert(hex_limit(16) == 0x1_0000_0000_0000_0000) by {
            reveal_with_fuel(hex_limit, 17);
        }
        lemma_hex_digits_read_back(value as nat, 16);
    }
    s
}

} // verus!
