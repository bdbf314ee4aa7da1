//! Counter-based random draws, addressed by entity identity.
//!
//! A draw is a pure function of its key: the run ([`RngKey`]), the stream ([`Stream`]),
//! the identity of what the draw belongs to ([`DrawAddress`]) and which word of the
//! 16-word ChaCha8 block at that address ([`DrawBlock`]). There is no shared mutable state,
//! so draws do not depend on order or threads.
//!
//! By default the design id does not enter the key, so two designs of one scenario see the
//! same draws (common random numbers); [`RngKey::independent_per_design`] folds it in.

use rand_chacha::rand_core::{Rng, SeedableRng};
use rand_chacha::ChaCha8Rng;
use vstd::prelude::*;

verus! {

/// Version of the seed-derivation scheme, written beside the master seed in a manifest.
pub const RNG_SCHEME_VERSION: u16 = 1u16;

/// The independent random streams. Each stream's number is folded into the key, so it is
/// stable.
#[derive(Clone, Copy, PartialEq, Eq, PartialOrd, Ord, Hash, Debug, Structural)]
pub enum Stream {
    /// Synthetic population, trips and locations. Keyed on (person, trip, draw).
    DemandSynthesis,
    /// Tie-breaks and locations when integerising OD matrices. Keyed on (cell, interval, draw).
    DemandIntegerisation,
    /// Departure times drawn from a profile. Keyed on (traveller, trip).
    DepartureTime,
    /// Discrete choice. Keyed on (traveller, trip, iteration, alternative).
    Choice,
    /// Which travellers re-choose at an iteration. Keyed on (traveller, iteration).
    MsaReselection,
    /// Handed to fleet policies. Keyed on (policy tick, draw).
    FleetPolicy,
    /// Optional stochastic disruption timing. Keyed on (event, draw).
    DisruptionJitter,
}

impl Stream {
    /// The stream's stable number.
    pub open spec fn number(self) -> u16 {
        match self {
            Stream::DemandSynthesis => 0,
            Stream::DemandIntegerisation => 1,
            Stream::DepartureTime => 2,
            Stream::Choice => 3,
            Stream::MsaReselection => 4,
            Stream::FleetPolicy => 5,
            Stream::DisruptionJitter => 6,
        }
    }

    /// The stable snake_case name written to a manifest.
    pub open spec fn name(self) -> Seq<char> {
        match self {
            Stream::DemandSynthesis => "demand_synthesis"@,
            Stream::DemandIntegerisation => "demand_integerisation"@,
            Stream::DepartureTime => "departure_time"@,
            Stream::Choice => "choice"@,
            Stream::MsaReselection => "msa_reselection"@,
            Stream::FleetPolicy => "fleet_policy"@,
            Stream::DisruptionJitter => "disruption_jitter"@,
        }
    }

    /// Every stream, in number order.
    pub fn all() -> (r: [Stream; 7])
        ensures
            forall|i: int| 0 <= i < 7 ==> (#[trigger] r@[i]).number() == i,
    {
        [
            Stream::DemandSynthesis,
            Stream::DemandIntegerisation,
            Stream::DepartureTime,
            Stream::Choice,
            Stream::MsaReselection,
            Stream::FleetPolicy,
            Stream::DisruptionJitter,
        ]
    }

    /// The stream's stable number.
    pub fn discriminant(self) -> (r: u16)
        ensures
            r == self.number(),
    {
        match self {
            Stream::DemandSynthesis => 0,
            Stream::DemandIntegerisation => 1,
            Stream::DepartureTime => 2,
            Stream::Choice => 3,
            Stream::MsaReselection => 4,
            Stream::FleetPolicy => 5,
            Stream::DisruptionJitter => 6,
        }
    }

    /// The stable snake_case name written to a manifest.
    pub fn as_str(self) -> (r: &'static str)
        ensures
            r@ == self.name(),
    {
        match self {
            Stream::DemandSynthesis => "demand_synthesis",
            Stream::DemandIntegerisation => "demand_integerisation",
            Stream::DepartureTime => "departure_time",
            Stream::Choice => "choice",
            Stream::MsaReselection => "msa_reselection",
            Stream::FleetPolicy => "fleet_policy",
            Stream::DisruptionJitter => "disruption_jitter",
        }
    }
}

/// Distinct streams have distinct numbers.
pub proof fn lemma_stream_numbers_distinct(a: Stream, b: Stream)
    requires
        a.number() == b.number(),
    ensures
        a == b,
{
}

/// The bytes of a `u16`, least significant first.
pub open spec fn le_bytes_u16(v: u16) -> Seq<u8> {
    seq![(v % 0x100) as u8, (v / 0x100) as u8]
}

/// The domain-separation tag mixed into every key: `mobisim-rng-v1`.
pub open spec fn domain_tag() -> Seq<u8> {
    seq![109u8, 111, 98, 105, 115, 105, 109, 45, 114, 110, 103, 45, 118, 49]
}

/// What identifies a run's randomness.
#[derive(Clone, Copy, PartialEq, Eq, Hash, Debug, Default, Structural)]
pub struct RngKey {
    /// The scenario's master seed.
    pub master_seed: u64,
    /// Which design in a batch. Ignored unless `independent_per_design` is set.
    pub design_id: u32,
    /// Which replication of that design. Always part of the key.
    pub replication: u32,
    /// Whether to give each design its own randomness.
    pub independent_per_design: bool,
}

/// The 32-byte ChaCha key of one stream of a run: the master seed, the stream number, the
/// design id (zero when designs share randomness), the replication, all little-endian, then
/// the domain tag.
pub open spec fn chacha_key_bytes(k: RngKey, stream: Stream) -> Seq<u8> {
    crate::hash::le_bytes_u64(k.master_seed) + le_bytes_u16(stream.number())
        + crate::hash::le_bytes_u32(if k.independent_per_design { k.design_id } else { 0 })
        + crate::hash::le_bytes_u32(k.replication) + domain_tag()
}

impl RngKey {
    /// A key for one replication of one design, with common random numbers.
    pub fn new(master_seed: u64, design_id: u32, replication: u32) -> (r: RngKey)
        ensures
            r == (RngKey { master_seed, design_id, replication, independent_per_design: false }),
    {
        RngKey { master_seed, design_id, replication, independent_per_design: false }
    }

    /// A key for replication zero of design zero.
    pub fn from_seed(master_seed: u64) -> (r: RngKey)
        ensures
            r == (RngKey { master_seed, design_id: 0, replication: 0, independent_per_design: false }),
    {
        RngKey::new(master_seed, 0, 0)
    }

    /// The same key, with the design id folded in.
    pub fn independent_per_design(self) -> (r: RngKey)
        ensures
            r == (RngKey { independent_per_design: true, ..self }),
    {
        RngKey { independent_per_design: true, ..self }
    }

    /// The 32-byte ChaCha key for one stream of this run.
    fn chacha_key(self, stream: Stream) -> (r: [u8; 32])
        ensures
            r@ == chacha_key_bytes(self, stream),
    {
        let design: u32 = if self.independent_per_design { self.design_id } else { 0 };
        let s = self.master_seed;
        let lo = (s % 0x1_0000_0000) as u32;
        let hi = (s / 0x1_0000_0000) as u32;
        let n = stream.discriminant();
        let r = self.replication;
        let key: [u8; 32] = [
            (lo % 0x100) as u8, ((lo / 0x100) % 0x100) as u8, ((lo / 0x1_0000) % 0x100) as u8, ((lo / 0x100_0000) % 0x100) as u8,
            (hi % 0x100) as u8, ((hi / 0x100) % 0x100) as u8, ((hi / 0x1_0000) % 0x100) as u8, ((hi / 0x100_0000) % 0x100) as u8,
            (n % 0x100) as u8, (n / 0x100) as u8,
            (design % 0x100) as u8, ((design / 0x100) % 0x100) as u8, ((design / 0x1_0000) % 0x100) as u8, ((design / 0x100_0000) % 0x100) as u8,
            (r % 0x100) as u8, ((r / 0x100) % 0x100) as u8, ((r / 0x1_0000) % 0x100) as u8, ((r / 0x100_0000) % 0x100) as u8,
            109, 111, 98, 105, 115, 105, 109, 45, 114, 110, 103, 45, 118, 49,
        ];
        proof {
            assert(key@ =~= chacha_key_bytes(self, stream));
        }
        key
    }
}

/// Two runs that differ only in the design id share every key unless designs were asked to
/// be independent: common random numbers across designs.
pub proof fn lemma_designs_share_keys(a: RngKey, b: RngKey, stream: Stream)
    requires
        a.master_seed == b.master_seed,
        a.replication == b.replication,
        !a.independent_per_design,
        !b.independent_per_design,
    ensures
        chacha_key_bytes(a, stream) == chacha_key_bytes(b, stream),
{
}

/// Where a draw lives inside a stream: 64 bits of ChaCha stream position and 64 bits of
/// block counter, packed from up to four `u32` identity components without hashing.
///
/// The 128 bits are exactly four `u32`s, so `from_pair(a, b)` and `from_triple(a, b, 0)`
/// are the same address: each stream addresses its draws with one arity throughout.
#[derive(Clone, Copy, PartialEq, Eq, PartialOrd, Ord, Hash, Debug, Default, Structural)]
pub struct DrawAddress {
    stream_pos: u64,
    block_pos: u64,
}

impl View for DrawAddress {
    type V = (u64, u64);

    /// The ChaCha stream position and block counter.
    closed spec fn view(&self) -> (u64, u64) {
        (self.stream_pos, self.block_pos)
    }
}

/// Two `u32`s packed into a `u64`, the first in the high half.
pub open spec fn pack(a: u32, b: u32) -> u64 {
    (a * 0x1_0000_0000 + b) as u64
}

/// Packing two `u32`s into a `u64` is the shift-and-or the hardware does.
proof fn lemma_pack_bits(a: u32, b: u32)
    ensures
        ((a as u64) << 32u64) | (b as u64) == pack(a, b),
        pack(a, b) < 0x1_0000_0000_0000_0000,
{
    assert(((a as u64) << 32u64) | (b as u64) == (a as u64) * 0x1_0000_0000u64 + (b as u64)) by (bit_vector);
}

/// Packing is injective: the two halves of a packed word determine the components.
pub proof fn lemma_pack_injective(a: u32, b: u32, c: u32, d: u32)
    requires
        pack(a, b) == pack(c, d),
    ensures
        a == c,
        b == d,
{
    assert(a == c && b == d) by (nonlinear_arith)
        requires a * 0x1_0000_0000 + b == c * 0x1_0000_0000 + d, 0 <= b < 0x1_0000_0000, 0 <= d < 0x1_0000_0000, a >= 0, c >= 0;
}

impl DrawAddress {
    /// Address a draw by one identity component.
    pub fn from_one(a: u32) -> (r: DrawAddress)
        ensures
            r@ == (a as u64, 0u64),
    {
        DrawAddress { stream_pos: a as u64, block_pos: 0 }
    }

    /// Address a draw by two identity components, such as (traveller, trip).
    pub fn from_pair(a: u32, b: u32) -> (r: DrawAddress)
        ensures
            r@ == (pack(a, b), 0u64),
    {
        proof {
            lemma_pack_bits(a, b);
        }
        DrawAddress { stream_pos: ((a as u64) << 32) | b as u64, block_pos: 0 }
    }

    /// Address a draw by three identity components, such as (traveller, trip, iteration).
    pub fn from_triple(a: u32, b: u32, c: u32) -> (r: DrawAddress)
        ensures
            r@ == (pack(a, b), c as u64),
    {
        proof {
            lemma_pack_bits(a, b);
        }
        DrawAddress { stream_pos: ((a as u64) << 32) | b as u64, block_pos: c as u64 }
    }

    /// Address a draw by four identity components: the choice stream's (traveller, trip,
    /// iteration, alternative).
    pub fn from_quad(a: u32, b: u32, c: u32, d: u32) -> (r: DrawAddress)
        ensures
            r@ == (pack(a, b), pack(c, d)),
    {
        proof {
            lemma_pack_bits(a, b);
            lemma_pack_bits(c, d);
        }
        DrawAddress { stream_pos: ((a as u64) << 32) | b as u64, block_pos: ((c as u64) << 32) | d as u64 }
    }

    /// Address the `n`-th block after this one (the block counter wraps).
    pub fn advance(self, n: u64) -> (r: DrawAddress)
        ensures
            r@ == (self@.0, vstd::wrapping::u64_specs::wrapping_add(self@.1, n)),
    {
        DrawAddress { stream_pos: self.stream_pos, block_pos: self.block_pos.wrapping_add(n) }
    }
}

/// Within one arity, distinct identities give distinct addresses, and a shorter arity is
/// the longer one with zeros in the missing places.
pub proof fn lemma_addresses_identify_draws(a: u32, b: u32, c: u32, d: u32, e: u32, f: u32, g: u32, h: u32)
    ensures
        (pack(a, b), pack(c, d)) == (pack(e, f), pack(g, h)) ==> a == e && b == f && c == g && d == h,
        (pack(a, b), 0u64) == (pack(a, b), c as u64) <==> c == 0,
        pack(0, c) == c as u64,
{
    if (pack(a, b), pack(c, d)) == (pack(e, f), pack(g, h)) {
        lemma_pack_injective(a, b, e, f);
        lemma_pack_injective(c, d, g, h);
    }
}

/// The ChaCha8 keystream bytes that `rand_chacha` produces for a 32-byte seed, a stream
/// number and a starting word position.
pub uninterp spec fn chacha8_keystream(seed: Seq<u8>, stream: u64, word_pos: u128) -> Seq<u8>;

/// Calls `ChaCha8Rng::from_seed`, `set_stream`, `set_word_pos` and `fill_bytes` of
/// `rand_chacha` to take 64 keystream bytes. The result is named, a function of the seed,
/// the stream and the word position alone; what ChaCha8 computes is not restated.
#[verifier::external_body]
fn chacha8_fill(seed: [u8; 32], stream: u64, word_pos: u128) -> (r: [u8; 64])
    ensures
        r@ == chacha8_keystream(seed@, stream, word_pos),
{
    let mut rng = ChaCha8Rng::from_seed(seed);
    rng.set_stream(stream);
    rng.set_word_pos(word_pos);
    let mut bytes = [0u8; 64];
    rng.fill_bytes(&mut bytes);
    bytes
}

/// Calls `ChaCha8Rng::from_seed`, `set_stream`, `set_word_pos` and sixteen `next_u32` of
/// `rand_chacha`. Both `next_u32` and `fill_bytes` read the words of the same block buffer
/// in order, `fill_bytes` writing each as its little-endian bytes, so the sixteen words are
/// the 64 bytes of [`chacha8_keystream`] at the same seed, stream and word position, read
/// as little-endian words.
#[verifier::external_body]
fn chacha8_words(seed: [u8; 32], stream: u64, word_pos: u128) -> (r: [u32; 16])
    ensures
        r@ == le_words(chacha8_keystream(seed@, stream, word_pos)),
{
    let mut rng = ChaCha8Rng::from_seed(seed);
    rng.set_stream(stream);
    rng.set_word_pos(word_pos);
    let mut words = [0u32; 16];
    for w in &mut words {
        *w = rng.next_u32();
    }
    words
}

/// The `u32` of four bytes, least significant first.
pub open spec fn le_u32(b0: u8, b1: u8, b2: u8, b3: u8) -> u32 {
    (b0 + b1 * 0x100 + b2 * 0x1_0000 + b3 * 0x100_0000) as u32
}

/// The sixteen little-endian words of 64 bytes.
pub open spec fn le_words(bytes: Seq<u8>) -> Seq<u32> {
    Seq::new(16, |i: int| le_u32(bytes[4 * i], bytes[4 * i + 1], bytes[4 * i + 2], bytes[4 * i + 3]))
}

/// The words a stream draws at an address: the keystream block at the address's stream
/// position and block counter, read as little-endian words.
pub open spec fn block_words(key: Seq<u8>, address: (u64, u64)) -> Seq<u32> {
    le_words(chacha8_keystream(key, address.0, (address.1 * 16) as u128))
}

/// One stream of one run: a ChaCha8 key, ready to be addressed.
#[derive(Clone, PartialEq, Eq, Debug)]
pub struct StreamRng {
    key: [u8; 32],
    stream: Stream,
}

impl View for StreamRng {
    type V = (Seq<u8>, Stream);

    /// The ChaCha key and the stream.
    closed spec fn view(&self) -> (Seq<u8>, Stream) {
        (self.key@, self.stream)
    }
}

impl StreamRng {
    /// Build the generator for one stream of one run.
    pub fn new(key: RngKey, stream: Stream) -> (r: StreamRng)
        ensures
            r@ == (chacha_key_bytes(key, stream), stream),
    {
        StreamRng { key: key.chacha_key(stream), stream }
    }

    /// Which stream this is.
    pub fn stream(&self) -> (r: Stream)
        ensures
            r == self@.1,
    {
        self.stream
    }

    /// The sixteen words at `address`: one ChaCha8 block.
    pub fn block(&self, address: DrawAddress) -> (r: DrawBlock)
        ensures
            r@ == block_words(self@.0, address@),
    {
        let word_pos: u128 = (address.block_pos as u128) * 16;
        let bytes = chacha8_fill(self.key, address.stream_pos, word_pos);
        let mut words = [0u32; 16];
        let mut i: usize = 0;
        while i < 16
            invariant
                i <= 16,
                bytes@ == chacha8_keystream(self.key@, address@.0, word_pos),
                words@.len() == 16,
                forall|j: int| 0 <= j < i ==> #[trigger] words@[j] == le_words(bytes@)[j],
            decreases 16 - i,
        {
            let b0 = bytes[4 * i] as u32;
            let b1 = bytes[4 * i + 1] as u32;
            let b2 = bytes[4 * i + 2] as u32;
            let b3 = bytes[4 * i + 3] as u32;
            words[i] = b0 + b1 * 0x100 + b2 * 0x1_0000 + b3 * 0x100_0000;
            i = i + 1;
        }
        proof {
            assert(words@ =~= le_words(bytes@));
        }
        DrawBlock { words }
    }

    /// The sixteen words at `address`, taken one `next_u32` at a time: the slower path that
    /// the buffered [`Self::block`] replaces, and the same words.
    pub fn block_word_by_word(&self, address: DrawAddress) -> (r: DrawBlock)
        ensures
            r@ == block_words(self@.0, address@),
    {
        let word_pos: u128 = (address.block_pos as u128) * 16;
        let words = chacha8_words(self.key, address.stream_pos, word_pos);
        DrawBlock { words }
    }
}

/// Sixteen random words drawn at one address.
#[derive(Clone, Copy, PartialEq, Eq, Debug)]
pub struct DrawBlock {
    words: [u32; 16],
}

impl View for DrawBlock {
    type V = Seq<u32>;

    /// The sixteen words.
    closed spec fn view(&self) -> Seq<u32> {
        self.words@
    }
}

impl DrawBlock {
    /// Words per block. One ChaCha block is 64 bytes.
    pub const LEN: usize = 16;

    /// The raw word at `i`.
    pub fn word(&self, i: usize) -> (r: u32)
        requires
            i < 16,
        ensures
            r == self@[i as int],
    {
        self.words[i]
    }

    /// All sixteen words.
    pub fn words(&self) -> (r: &[u32; 16])
        ensures
            r@ == self@,
    {
        &self.words
    }

    /// A 64-bit value from word pair `i`, `i` in `0..8`: word `2i` is the high half.
    pub fn word64(&self, i: usize) -> (r: u64)
        requires
            i < 8,
        ensures
            r == pack(self@[2 * i], self@[2 * i + 1]),
    {
        let hi = self.words[2 * i];
        let lo = self.words[2 * i + 1];
        proof {
            lemma_pack_bits(hi, lo);
        }
        ((hi as u64) << 32) | lo as u64
    }

    /// A uniform integer in `0..n` from word `i`, by the multiply-shift map: one multiply,
    /// no rejection loop, so it is branch-free.
    pub fn index_below(&self, i: usize, n: u32) -> (r: u32)
        requires
            i < 16,
            n > 0,
        ensures
            r == (self@[i as int] as int * n as int) / 0x1_0000_0000,
            r < n,
    {
        let w = self.words[i];
        proof {
            assert((w as u64) * (n as u64) <= 0xffff_fffe_0000_0001u64) by (nonlinear_arith)
                requires w <= 0xffff_ffffu32, n <= 0xffff_ffffu32;
        }
        let product: u64 = (w as u64) * (n as u64);
        proof {
            assert(product >> 32u64 == product / 0x1_0000_0000u64) by (bit_vector);
            assert(product / 0x1_0000_0000 < n) by (nonlinear_arith)
                requires product == w * n, w < 0x1_0000_0000, n > 0;
        }
        (product >> 32) as u32
    }
}

} // verus!
