//! The bookkeeping of a cache of generated route sets, and the key they are cached under.
//!
//! Generating route sets is a pure function of its inputs: the network, the
//! origin–destination pairs, the method and its options, and, for a method that reads the
//! demand, the demand itself. A cache hands back the sets a run would generate when it has
//! them. It keeps at most `capacity` of them, the least recently used evicted first.
//! [`CacheEntries`] is that policy; the lock around it and the sharing of the sets are
//! the caller's.

use vstd::prelude::*;

use vstd::string::StringSliceAdditionalSpecFns;

use crate::generate::TripDemand;
use crate::hash::{delimited, fnv_fold, le_bytes_u32, lemma_fold_concat, Fnv1a, FNV_OFFSET_BASIS};
use crate::store::{distinct_pairs, keys_sorted, lemma_sorted_keys_unique, RouteKey};
use crate::CODE_VERSION;

verus! {

/// How many stores a cache keeps unless it is asked for another number.
pub const DEFAULT_CAPACITY: usize = 4;

/// What a cache has done so far.
#[derive(Clone, Copy, Debug, PartialEq, Eq, Structural)]
pub struct CacheStats {
    /// Sets handed back without generating.
    pub hits: u64,
    /// Sets generated because they were not there.
    pub misses: u64,
    /// Stores held now.
    pub held: usize,
}

/// The entries of `entries` under another key than `key`, in order.
pub open spec fn without_key<T>(entries: Seq<(u64, T)>, key: u64) -> Seq<(u64, T)>
    decreases entries.len(),
{
    if entries.len() == 0 {
        Seq::empty()
    } else {
        let rest = without_key(entries.drop_last(), key);
        if entries.last().0 == key {
            rest
        } else {
            rest.push(entries.last())
        }
    }
}

/// The entries after storing `value` under `key`: any entry of that key dropped, the new
/// one last, and the oldest dropped while there are more than `capacity`.
pub open spec fn after_store<T>(entries: Seq<(u64, T)>, key: u64, value: T, capacity: nat) -> Seq<(u64, T)> {
    let grown = without_key(entries, key).push((key, value));
    if grown.len() > capacity {
        grown.skip(grown.len() - capacity)
    } else {
        grown
    }
}

/// Entries with no entry under `key` lose nothing to `without_key`.
proof fn lemma_without_absent<T>(entries: Seq<(u64, T)>, key: u64)
    requires
        forall|i: int| 0 <= i < entries.len() ==> (#[trigger] entries[i]).0 != key,
    ensures
        without_key(entries, key) == entries,
    decreases entries.len(),
{
    if entries.len() > 0 {
        let d = entries.drop_last();
        assert forall|i: int| 0 <= i < d.len() implies (#[trigger] d[i]).0 != key by {
            assert(d[i] == entries[i]);
        }
        lemma_without_absent(d, key);
        assert(entries.last() == entries[entries.len() - 1]);
        assert(d.push(entries.last()) =~= entries);
    }
}

/// Entries whose keys are distinct lose exactly the entry at `i` to `without_key`, if it is
/// under `key`.
proof fn lemma_without_at<T>(entries: Seq<(u64, T)>, key: u64, i: int)
    requires
        keys_distinct(entries),
        0 <= i < entries.len(),
        entries[i].0 == key,
    ensures
        without_key(entries, key) == entries.remove(i),
    decreases entries.len(),
{
    let d = entries.drop_last();
    let n = entries.len() - 1;
    if i == n {
        assert forall|q: int| 0 <= q < d.len() implies (#[trigger] d[q]).0 != key by {
            assert(d[q] == entries[q]);
            assert(entries[q].0 != entries[n].0);
        }
        lemma_without_absent(d, key);
        assert(entries.remove(i) =~= d);
    } else {
        assert(keys_distinct(d)) by {
            assert forall|a: int, b: int| 0 <= a < b < d.len() implies (#[trigger] d[a]).0 != (#[trigger] d[b]).0 by {
                assert(d[a] == entries[a] && d[b] == entries[b]);
            }
        }
        assert(d[i] == entries[i]);
        lemma_without_at(d, key, i);
        assert(entries.last() == entries[n]);
        assert(entries[n].0 != entries[i].0);
        assert(d.remove(i).push(entries.last()) =~= entries.remove(i));
    }
}

/// Storing into a cache evicts exactly the least recently used entry and nothing else. A new
/// key is added last, and, if the cache was full, the oldest entry, and only it, goes; a key
/// the cache holds moves to the end with its new value, and nothing is evicted.
pub proof fn lemma_store_evicts_least_recent<T>(entries: Seq<(u64, T)>, key: u64, value: T, capacity: nat)
    requires
        keys_distinct(entries),
        entries.len() <= capacity,
        capacity >= 1,
    ensures
        (forall|i: int| 0 <= i < entries.len() ==> (#[trigger] entries[i]).0 != key) ==> after_store(entries, key, value, capacity)
            == (if entries.len() == capacity { entries.drop_first() } else { entries }).push((key, value)),
        forall|i: int| 0 <= i < entries.len() && (#[trigger] entries[i]).0 == key ==> after_store(entries, key, value, capacity)
            == entries.remove(i).push((key, value)),
{
    if forall|i: int| 0 <= i < entries.len() ==> (#[trigger] entries[i]).0 != key {
        lemma_without_absent(entries, key);
        let grown = entries.push((key, value));
        if entries.len() == capacity {
            assert(grown.skip(1) =~= entries.drop_first().push((key, value)));
        }
    }
    assert forall|i: int| 0 <= i < entries.len() && (#[trigger] entries[i]).0 == key implies after_store(entries, key, value, capacity)
        == entries.remove(i).push((key, value)) by {
        lemma_without_at(entries, key, i);
    }
}

/// Whether no key occurs twice.
pub open spec fn keys_distinct<T>(entries: Seq<(u64, T)>) -> bool {
    forall|i: int, j: int| 0 <= i < j < entries.len() ==> (#[trigger] entries[i]).0 != (#[trigger] entries[j]).0
}

/// The stores a cache holds, least recently used first, and what it has done.
pub struct CacheEntries<T> {
    capacity: usize,
    entries: Vec<(u64, T)>,
    hits: u64,
    misses: u64,
}

impl<T> View for CacheEntries<T> {
    type V = Seq<(u64, T)>;

    /// The entries, least recently used first.
    closed spec fn view(&self) -> Seq<(u64, T)> {
        self.entries@
    }
}

impl<T> CacheEntries<T> {
    /// The most entries it keeps.
    pub closed spec fn capacity_spec(&self) -> nat {
        self.capacity as nat
    }

    /// Sets handed back so far.
    pub closed spec fn hits_spec(&self) -> u64 {
        self.hits
    }

    /// Sets generated so far.
    pub closed spec fn misses_spec(&self) -> u64 {
        self.misses
    }

    #[verifier::type_invariant]
    spec fn consistent(self) -> bool {
        &&& self.capacity >= 1
        &&& self.entries@.len() <= self.capacity
        &&& keys_distinct(self.entries@)
    }

    /// An empty cache keeping at most `capacity` entries (at least 1).
    pub fn new(capacity: usize) -> (r: CacheEntries<T>)
        ensures
            r@ == Seq::<(u64, T)>::empty(),
            r.capacity_spec() == if capacity >= 1 { capacity as nat } else { 1 },
            r.hits_spec() == 0,
            r.misses_spec() == 0,
    {
        let capacity = if capacity >= 1 { capacity } else { 1 };
        CacheEntries { capacity, entries: Vec::new(), hits: 0, misses: 0 }
    }

    /// Every cache's entries have distinct keys and are no more than its capacity.
    pub fn check_consistent(&self)
        ensures
            keys_distinct(self@),
            self@.len() <= self.capacity_spec(),
            self.capacity_spec() >= 1,
    {
        proof {
            use_type_invariant(self);
        }
    }

    /// If an entry has `key`, make it the most recently used and count a hit; otherwise
    /// change nothing.
    pub fn touch(&mut self, key: u64) -> (found: bool)
        requires
            old(self).hits_spec() < u64::MAX,
        ensures
            found == exists|i: int| 0 <= i < old(self)@.len() && (#[trigger] old(self)@[i]).0 == key,
            found ==> exists|i: int| 0 <= i < old(self)@.len() && (#[trigger] old(self)@[i]).0 == key
                && final(self)@ == old(self)@.remove(i).push(old(self)@[i]),
            found ==> final(self).hits_spec() == old(self).hits_spec() + 1,
            !found ==> final(self)@ == old(self)@ && final(self).hits_spec() == old(self).hits_spec(),
            final(self).misses_spec() == old(self).misses_spec(),
            final(self).capacity_spec() == old(self).capacity_spec(),
    {
        proof {
            use_type_invariant(&*self);
        }
        let mut i: usize = 0;
        while i < self.entries.len()
            invariant
                i <= self.entries@.len(),
                *self == *old(self),
                old(self).hits < u64::MAX,
                forall|q: int| 0 <= q < i ==> (#[trigger] self.entries@[q]).0 != key,
            decreases self.entries@.len() - i,
        {
            if self.entries[i].0 == key {
                let ghost before = self.entries@;
                let ghost prev = *self;
                let mut taken = CacheEntries::new(1);
                std::mem::swap(&mut taken, self);
                proof {
                    use_type_invariant(&taken);
                    assert(taken == prev);
                    assert(prev == *old(self));
                    assert(old(self)@[i as int].0 == key);
                }
                let CacheEntries { capacity, mut entries, hits, misses } = taken;
                let entry = entries.remove(i);
                entries.push(entry);
                proof {
                    assert(entries@ == before.remove(i as int).push(before[i as int]));
                    assert forall|a: int, b: int| 0 <= a < b < entries@.len() implies (#[trigger] entries@[a]).0 != (#[trigger] entries@[b]).0 by {
                        let n = before.len();
                        if b == n - 1 {
                            if a < i {
                                assert(entries@[a] == before[a]);
                            } else {
                                assert(entries@[a] == before[a + 1]);
                            }
                        } else {
                            if a < i {
                                assert(entries@[a] == before[a]);
                            } else {
                                assert(entries@[a] == before[a + 1]);
                            }
                            if b < i {
                                assert(entries@[b] == before[b]);
                            } else {
                                assert(entries@[b] == before[b + 1]);
                            }
                        }
                    }
                }
                *self = CacheEntries { capacity, entries, hits: hits + 1, misses };
                return true;
            }
            i = i + 1;
        }
        false
    }

    /// The most recently used entry's value.
    pub fn newest(&self) -> (r: &T)
        requires
            self@.len() > 0,
        ensures
            *r == self@.last().1,
    {
        let n = self.entries.len();
        &self.entries[n - 1].1
    }

    /// Store `value` under `key` after generating it, counting a miss: an older entry of the
    /// same key is dropped, the new one is the most recently used, and the least recently used
    /// are evicted beyond the capacity.
    pub fn store(&mut self, key: u64, value: T)
        requires
            old(self).misses_spec() < u64::MAX,
        ensures
            final(self)@ == after_store(old(self)@, key, value, old(self).capacity_spec()),
            (forall|i: int| 0 <= i < old(self)@.len() ==> (#[trigger] old(self)@[i]).0 != key) ==> final(self)@
                == (if old(self)@.len() == old(self).capacity_spec() { old(self)@.drop_first() } else { old(self)@ }).push((key, value)),
            forall|i: int| 0 <= i < old(self)@.len() && (#[trigger] old(self)@[i]).0 == key ==> final(self)@
                == old(self)@.remove(i).push((key, value)),
            final(self).misses_spec() == old(self).misses_spec() + 1,
            final(self).hits_spec() == old(self).hits_spec(),
            final(self).capacity_spec() == old(self).capacity_spec(),
    {
        proof {
            use_type_invariant(&*self);
        }
        let mut taken = CacheEntries::new(1);
        std::mem::swap(&mut taken, self);
        proof {
            use_type_invariant(&taken);
        }
        let CacheEntries { capacity, entries, hits, misses } = taken;
        let ghost before = entries@;
        proof {
            lemma_store_evicts_least_recent(before, key, value, capacity as nat);
        }
        let mut kept: Vec<(u64, T)> = Vec::new();
        let n = entries.len();
        let mut j: usize = 0;
        proof {
            assert(before.take(0) =~= Seq::<(u64, T)>::empty());
        }
        for e in it: entries
            invariant
                before == it.seq(),
                n == before.len(),
                j == it.index(),
                j <= n,
                keys_distinct(before),
                kept@ == without_key(before.take(j as int), key),
                kept@.len() <= j,
                forall|q: int| 0 <= q < kept@.len() ==> (#[trigger] kept@[q]).0 != key,
                keys_distinct(kept@),
                forall|q: int| 0 <= q < kept@.len() ==> exists|p: int| 0 <= p < j && before[p] == #[trigger] kept@[q],
        {
            proof {
                assert(before.take(j + 1).drop_last() =~= before.take(j as int));
                assert(before.take(j + 1).last() == e);
            }
            if e.0 != key {
                let ghost k0 = kept@;
                kept.push(e);
                proof {
                    assert forall|a: int, b: int| 0 <= a < b < kept@.len() implies (#[trigger] kept@[a]).0 != (#[trigger] kept@[b]).0 by {
                        if b == k0.len() {
                            let p = choose|p: int| 0 <= p < j && before[p] == k0[a];
                            assert(before[p].0 != before[j as int].0);
                        }
                    }
                    assert forall|q: int| 0 <= q < kept@.len() implies exists|p: int| 0 <= p < j + 1 && before[p] == #[trigger] kept@[q] by {
                        if q == k0.len() {
                            assert(before[j as int] == kept@[q]);
                        } else {
                            let p = choose|p: int| 0 <= p < j && before[p] == k0[q];
                            assert(before[p] == kept@[q]);
                        }
                    }
                }
            }
            j = j + 1;
        }
        proof {
            assert(before.take(j as int) =~= before);
        }
        let ghost w = kept@;
        kept.push((key, value));
        let ghost grown = kept@;
        proof {
            assert(grown == without_key(before, key).push((key, value)));
            assert(grown.len() <= capacity + 1);
        }
        let excess = kept.len() > capacity;
        if excess {
            kept.remove(0);
            proof {
                assert(kept@ =~= grown.skip(grown.len() - capacity));
            }
        }
        proof {
            assert forall|a: int, b: int| 0 <= a < b < kept@.len() implies (#[trigger] kept@[a]).0 != (#[trigger] kept@[b]).0 by {
                let off: int = if excess { 1 } else { 0 };
                assert(kept@[a] == grown[a + off]);
                assert(kept@[b] == grown[b + off]);
                if b + off == w.len() {
                    assert(grown[a + off] == w[a + off]);
                }
            }
        }
        *self = CacheEntries { capacity, entries: kept, hits, misses: misses + 1 };
    }

    /// What the cache has done, and what it holds.
    pub fn stats(&self) -> (r: CacheStats)
        ensures
            r.hits == self.hits_spec(),
            r.misses == self.misses_spec(),
            r.held == self@.len(),
    {
        CacheStats { hits: self.hits, misses: self.misses, held: self.entries.len() }
    }

    /// Forget every entry; the counters stay.
    pub fn clear(&mut self)
        ensures
            final(self)@ == Seq::<(u64, T)>::empty(),
            final(self).hits_spec() == old(self).hits_spec(),
            final(self).misses_spec() == old(self).misses_spec(),
            final(self).capacity_spec() == old(self).capacity_spec(),
    {
        let mut taken = CacheEntries::new(1);
        std::mem::swap(&mut taken, self);
        proof {
            use_type_invariant(&taken);
        }
        let CacheEntries { capacity, entries, hits, misses } = taken;
        *self = CacheEntries { capacity, entries: Vec::new(), hits, misses };
    }
}

/// The distinct pairs of `trip_keys` that have something to route: origin and destination
/// differ.
pub open spec fn pairs_of(trip_keys: Seq<RouteKey>) -> Set<RouteKey> {
    Set::new(|k: RouteKey| trip_keys.contains(k) && k.origin != k.destination)
}

/// The keys of `s` in increasing order, each once.
pub open spec fn sorted_pairs(s: Set<RouteKey>) -> Seq<RouteKey> {
    choose|ks: Seq<RouteKey>| keys_sorted(ks) && ks.to_set() == s
}

/// The bytes a list of pairs is hashed as: each origin, then destination, little-endian.
pub open spec fn pair_bytes(ks: Seq<RouteKey>) -> Seq<u8>
    decreases ks.len(),
{
    if ks.len() == 0 {
        Seq::empty()
    } else {
        pair_bytes(ks.drop_last()) + le_bytes_u32(ks.last().origin) + le_bytes_u32(ks.last().destination)
    }
}

/// The bytes a demand is hashed as: each trip's origin, destination, weight and departure.
pub open spec fn trip_bytes(ts: Seq<TripDemand>) -> Seq<u8>
    decreases ts.len(),
{
    if ts.len() == 0 {
        Seq::empty()
    } else {
        trip_bytes(ts.drop_last()) + le_bytes_u32(ts.last().key.origin) + le_bytes_u32(ts.last().key.destination)
            + le_bytes_u32(ts.last().weight) + le_bytes_u32(ts.last().departure)
    }
}

/// Four little-endian bytes are the `u32` they were written from.
proof fn lemma_le_bytes_u32_injective(a: u32, b: u32)
    requires
        le_bytes_u32(a) == le_bytes_u32(b),
    ensures
        a == b,
{
    let (sa, sb) = (le_bytes_u32(a), le_bytes_u32(b));
    assert(sa[0] == sb[0] && sa[1] == sb[1] && sa[2] == sb[2] && sa[3] == sb[3]);
    assert(a % 0x100 == b % 0x100);
    assert((a / 0x100) % 0x100 == (b / 0x100) % 0x100);
    assert((a / 0x1_0000) % 0x100 == (b / 0x1_0000) % 0x100);
    assert((a / 0x100_0000) % 0x100 == (b / 0x100_0000) % 0x100);
    assert(a == a % 0x100 + 0x100 * ((a / 0x100) % 0x100) + 0x1_0000 * ((a / 0x1_0000) % 0x100)
        + 0x100_0000 * ((a / 0x100_0000) % 0x100)) by (nonlinear_arith);
    assert(b == b % 0x100 + 0x100 * ((b / 0x100) % 0x100) + 0x1_0000 * ((b / 0x1_0000) % 0x100)
        + 0x100_0000 * ((b / 0x100_0000) % 0x100)) by (nonlinear_arith);
}

/// Every trip is hashed as sixteen bytes.
proof fn lemma_trip_bytes_len(ts: Seq<TripDemand>)
    ensures
        trip_bytes(ts).len() == 16 * ts.len(),
    decreases ts.len(),
{
    if ts.len() > 0 {
        lemma_trip_bytes_len(ts.drop_last());
    }
}

/// The sixteen bytes one trip is hashed as.
spec fn trip_block(t: TripDemand) -> Seq<u8> {
    le_bytes_u32(t.key.origin) + le_bytes_u32(t.key.destination) + le_bytes_u32(t.weight) + le_bytes_u32(t.departure)
}

/// The sixteen bytes of a trip are the trip.
proof fn lemma_trip_block_injective(t: TripDemand, u: TripDemand)
    requires
        trip_block(t) == trip_block(u),
    ensures
        t == u,
{
    let (tt, tu) = (trip_block(t), trip_block(u));
    assert(tt.subrange(0, 4) =~= le_bytes_u32(t.key.origin));
    assert(tu.subrange(0, 4) =~= le_bytes_u32(u.key.origin));
    assert(tt.subrange(4, 8) =~= le_bytes_u32(t.key.destination));
    assert(tu.subrange(4, 8) =~= le_bytes_u32(u.key.destination));
    assert(tt.subrange(8, 12) =~= le_bytes_u32(t.weight));
    assert(tu.subrange(8, 12) =~= le_bytes_u32(u.weight));
    assert(tt.subrange(12, 16) =~= le_bytes_u32(t.departure));
    assert(tu.subrange(12, 16) =~= le_bytes_u32(u.departure));
    lemma_le_bytes_u32_injective(t.key.origin, u.key.origin);
    lemma_le_bytes_u32_injective(t.key.destination, u.key.destination);
    lemma_le_bytes_u32_injective(t.weight, u.weight);
    lemma_le_bytes_u32_injective(t.departure, u.departure);
    assert(t.key == u.key);
}

/// A demand's bytes are those of all its trips but the last, then the last trip's.
proof fn lemma_trip_bytes_split(ts: Seq<TripDemand>)
    requires
        ts.len() > 0,
    ensures
        trip_bytes(ts) == trip_bytes(ts.drop_last()) + trip_block(ts.last()),
        trip_bytes(ts.drop_last()).len() == 16 * (ts.len() - 1),
        trip_block(ts.last()).len() == 16,
{
    lemma_trip_bytes_len(ts.drop_last());
    assert(trip_bytes(ts) =~= trip_bytes(ts.drop_last()) + trip_block(ts.last()));
}

/// Two byte strings cut at the same place agree on both parts.
proof fn lemma_concat_parts(a: Seq<u8>, b: Seq<u8>, c: Seq<u8>, d: Seq<u8>)
    requires
        a + b == c + d,
        a.len() == c.len(),
    ensures
        a == c,
        b == d,
{
    assert(a =~= (a + b).subrange(0, a.len() as int));
    assert(c =~= (c + d).subrange(0, c.len() as int));
    assert(b =~= (a + b).subrange(a.len() as int, (a + b).len() as int));
    assert(d =~= (c + d).subrange(c.len() as int, (c + d).len() as int));
}

/// The bytes of a demand are the demand: two demands of one length hashed as the same bytes
/// agree on every trip's pair, weight and departure.
proof fn lemma_trip_bytes_injective(ts: Seq<TripDemand>, us: Seq<TripDemand>)
    requires
        ts.len() == us.len(),
        trip_bytes(ts) == trip_bytes(us),
    ensures
        ts == us,
    decreases ts.len(),
{
    if ts.len() > 0 {
        lemma_trip_bytes_split(ts);
        lemma_trip_bytes_split(us);
        lemma_concat_parts(trip_bytes(ts.drop_last()), trip_block(ts.last()), trip_bytes(us.drop_last()), trip_block(us.last()));
        lemma_trip_block_injective(ts.last(), us.last());
        lemma_trip_bytes_injective(ts.drop_last(), us.drop_last());
        assert(ts =~= ts.drop_last().push(ts.last()));
        assert(us =~= us.drop_last().push(us.last()));
    }
}

/// A method that reads the demand is keyed by every trip's pair, weight and departure: two
/// demands that differ in anything, a trip's weight included, give different bytes to hash,
/// whatever the pairs asked for.
pub proof fn lemma_demand_keys_tell_demands_apart(
    name: Seq<u8>,
    descriptor: Seq<u8>,
    keys: Seq<RouteKey>,
    other_keys: Seq<RouteKey>,
    ts: Seq<TripDemand>,
    us: Seq<TripDemand>,
)
    requires
        ts.len() <= u32::MAX,
        us.len() <= u32::MAX,
        ts != us,
    ensures
        generation_tail_bytes(name, descriptor, keys, Some(ts)) != generation_tail_bytes(name, descriptor, other_keys, Some(us)),
{
    let p = delimited(name) + delimited(descriptor);
    let a = generation_tail_bytes(name, descriptor, keys, Some(ts));
    let b = generation_tail_bytes(name, descriptor, other_keys, Some(us));
    if a == b {
        let ra = seq![1u8] + le_bytes_u32(ts.len() as u32) + trip_bytes(ts);
        let rb = seq![1u8] + le_bytes_u32(us.len() as u32) + trip_bytes(us);
        assert(a =~= p + ra);
        assert(b =~= p + rb);
        assert(ra =~= a.subrange(p.len() as int, a.len() as int));
        assert(rb =~= b.subrange(p.len() as int, b.len() as int));
        assert(ra.subrange(1, 5) =~= le_bytes_u32(ts.len() as u32));
        assert(rb.subrange(1, 5) =~= le_bytes_u32(us.len() as u32));
        lemma_le_bytes_u32_injective(ts.len() as u32, us.len() as u32);
        assert(trip_bytes(ts) =~= ra.subrange(5, ra.len() as int));
        assert(trip_bytes(us) =~= rb.subrange(5, rb.len() as int));
        lemma_trip_bytes_injective(ts, us);
    }
}

/// A count as the `u32` it is hashed as: itself, or `u32::MAX` if it does not fit.
pub open spec fn clamped(n: nat) -> u32 {
    if n <= u32::MAX { n as u32 } else { u32::MAX }
}

/// What the key of a generation hashes before the network.
pub open spec fn generation_head_bytes() -> Seq<u8> {
    delimited("openmobisim-route-sets".spec_bytes()) + le_bytes_u32(CODE_VERSION)
}

/// What the key of a generation hashes after the network: the method's name and descriptor,
/// then either every trip of the demand the method reads, or, for a method that does not,
/// the distinct pairs asked for, in increasing order.
pub open spec fn generation_tail_bytes(name: Seq<u8>, descriptor: Seq<u8>, trip_keys: Seq<RouteKey>, demand: Option<Seq<TripDemand>>) -> Seq<u8> {
    delimited(name) + delimited(descriptor) + match demand {
        Some(ts) => seq![1u8] + le_bytes_u32(clamped(ts.len())) + trip_bytes(ts),
        None => {
            let ks = sorted_pairs(pairs_of(trip_keys));
            seq![0u8] + le_bytes_u32(clamped(ks.len())) + pair_bytes(ks)
        },
    }
}

/// The hash a generation key starts from: the purpose and the code version.
pub fn generation_key_head() -> (r: Fnv1a)
    ensures
        r@ == fnv_fold(FNV_OFFSET_BASIS, generation_head_bytes()),
{
    let mut h = Fnv1a::new();
    let tag = "openmobisim-route-sets";
    proof {
        reveal_strlit("openmobisim-route-sets");
        broadcast use vstd::string::is_ascii_spec_bytes;
        assert(vstd::string::is_ascii(tag));
        assert(tag.spec_bytes().len() == 22);
    }
    h.write_str(tag);
    h.write_u32(CODE_VERSION);
    proof {
        lemma_fold_concat(FNV_OFFSET_BASIS, delimited(tag.spec_bytes()), le_bytes_u32(CODE_VERSION));
    }
    h
}

/// The count of a list as it is hashed.
fn clamp_count(n: usize) -> (r: u32)
    ensures
        r == clamped(n as nat),
{
    if n <= 0xffff_ffff { n as u32 } else { 0xffff_ffff }
}

/// Finish the key of a generation from `h`, the hash of its head and of the network: the
/// method's name and descriptor, then what the method reads.
pub fn generation_key_from(h: Fnv1a, name: &str, descriptor: &str, trip_keys: &[RouteKey], demand: Option<&[TripDemand]>) -> (r: u64)
    requires
        name.spec_bytes().len() <= u32::MAX,
        descriptor.spec_bytes().len() <= u32::MAX,
    ensures
        r == fnv_fold(h@, generation_tail_bytes(name.spec_bytes(), descriptor.spec_bytes(), trip_keys@,
            match demand { Some(ts) => Some(ts@), None => None })),
{
    let mut h = h;
    let ghost h0 = h@;
    h.write_str(name);
    h.write_str(descriptor);
    let ghost named = delimited(name.spec_bytes()) + delimited(descriptor.spec_bytes());
    proof {
        lemma_fold_concat(h0, delimited(name.spec_bytes()), delimited(descriptor.spec_bytes()));
    }
    match demand {
        Some(trips) => {
            h.write_bool(true);
            h.write_u32(clamp_count(trips.len()));
            let ghost h1 = h@;
            proof {
                lemma_fold_concat(h0, named, seq![1u8]);
                lemma_fold_concat(h0, named + seq![1u8], le_bytes_u32(clamped(trips@.len())));
                assert(trips@.take(0) =~= Seq::<TripDemand>::empty());
            }
            let mut i: usize = 0;
            while i < trips.len()
                invariant
                    i <= trips@.len(),
                    h@ == fnv_fold(h1, trip_bytes(trips@.take(i as int))),
                decreases trips@.len() - i,
            {
                let t = trips[i];
                let ghost before = h@;
                h.write_u32(t.key.origin);
                h.write_u32(t.key.destination);
                h.write_u32(t.weight);
                h.write_u32(t.departure);
                proof {
                    let a = le_bytes_u32(t.key.origin);
                    let b = le_bytes_u32(t.key.destination);
                    let c = le_bytes_u32(t.weight);
                    let d = le_bytes_u32(t.departure);
                    lemma_fold_concat(before, a, b);
                    lemma_fold_concat(before, a + b, c);
                    lemma_fold_concat(before, a + b + c, d);
                    let prev = trip_bytes(trips@.take(i as int));
                    lemma_fold_concat(h1, prev, a + b + c + d);
                    assert(trips@.take(i + 1).drop_last() =~= trips@.take(i as int));
                    assert(trips@.take(i + 1).last() == t);
                    assert(prev + (a + b + c + d) =~= prev + a + b + c + d);
                }
                i = i + 1;
            }
            proof {
                assert(trips@.take(i as int) =~= trips@);
                let all = trip_bytes(trips@);
                lemma_fold_concat(h0, named + seq![1u8] + le_bytes_u32(clamped(trips@.len())), all);
                assert(named + seq![1u8] + le_bytes_u32(clamped(trips@.len())) + all
                    =~= generation_tail_bytes(name.spec_bytes(), descriptor.spec_bytes(), trip_keys@, Some(trips@)));
            }
        },
        None => {
            h.write_bool(false);
            let keys = distinct_pairs(trip_keys);
            let ghost ks = keys@;
            proof {
                assert(ks.to_set() =~= pairs_of(trip_keys@)) by {
                    assert forall|k: RouteKey| ks.to_set().contains(k) <==> pairs_of(trip_keys@).contains(k) by {
                        if ks.contains(k) {
                            assert(ks.to_set().contains(k));
                        }
                    }
                }
                let c = sorted_pairs(pairs_of(trip_keys@));
                assert(keys_sorted(c) && c.to_set() == pairs_of(trip_keys@));
                assert forall|k: RouteKey| ks.contains(k) <==> c.contains(k) by {
                    assert(ks.to_set().contains(k) == ks.contains(k));
                    assert(c.to_set().contains(k) == c.contains(k));
                }
                lemma_sorted_keys_unique(ks, c);
            }
            h.write_u32(clamp_count(keys.len()));
            let ghost h1 = h@;
            proof {
                lemma_fold_concat(h0, named, seq![0u8]);
                lemma_fold_concat(h0, named + seq![0u8], le_bytes_u32(clamped(ks.len())));
                assert(ks.take(0) =~= Seq::<RouteKey>::empty());
            }
            let mut i: usize = 0;
            while i < keys.len()
                invariant
                    ks == keys@,
                    i <= ks.len(),
                    h@ == fnv_fold(h1, pair_bytes(ks.take(i as int))),
                decreases ks.len() - i,
            {
                let k = keys[i];
                let ghost before = h@;
                h.write_u32(k.origin);
                h.write_u32(k.destination);
                proof {
                    let a = le_bytes_u32(k.origin);
                    let b = le_bytes_u32(k.destination);
                    lemma_fold_concat(before, a, b);
                    let prev = pair_bytes(ks.take(i as int));
                    lemma_fold_concat(h1, prev, a + b);
                    assert(ks.take(i + 1).drop_last() =~= ks.take(i as int));
                    assert(ks.take(i + 1).last() == k);
                    assert(prev + (a + b) =~= prev + a + b);
                }
                i = i + 1;
            }
            proof {
                assert(ks.take(i as int) =~= ks);
                let all = pair_bytes(ks);
                lemma_fold_concat(h0, named + seq![0u8] + le_bytes_u32(clamped(ks.len())), all);
                assert(named + seq![0u8] + le_bytes_u32(clamped(ks.len())) + all
                    =~= generation_tail_bytes(name.spec_bytes(), descriptor.spec_bytes(), trip_keys@, None));
            }
        },
    }
    h.finish()
}

/// A method that does not read the demand is keyed by the distinct pairs asked for alone: two
/// lists of pairs with the same pairs to route, in any order and with any repeats, give the
/// same key.
pub proof fn lemma_generation_key_pairs_only(name: Seq<u8>, descriptor: Seq<u8>, a: Seq<RouteKey>, b: Seq<RouteKey>)
    requires
        forall|k: RouteKey| (a.contains(k) && k.origin != k.destination) <==> (b.contains(k) && k.origin != k.destination),
    ensures
        generation_tail_bytes(name, descriptor, a, None) == generation_tail_bytes(name, descriptor, b, None),
{
    assert(pairs_of(a) =~= pairs_of(b));
}

} // verus!
