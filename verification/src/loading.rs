//! The order in which a loading takes up the trips of the day.
//!
//! Every traveller's first trip is queued at its departure; the loading takes up the queued
//! trip that comes first in the order of [`EventKey`], and queues that traveller's next trip
//! when it takes one up. A traveller's trips are one contiguous range of trip ids, in the
//! order of the day.

use vstd::prelude::*;
use vstd::multiset::Multiset;
use vstd::set_lib::{lemma_int_range, lemma_len_subset, set_int_range};

use crate::ids::EntityKind;
use crate::queue::{key_le, lemma_key_order, EventQueue};
use crate::time::{EventKey, Second};

verus! {

/// The event of trip `trip`: its departure, the trip kind, its id.
pub open spec fn trip_key(departures: Seq<Second>, trip: int) -> EventKey {
    EventKey { second: departures[trip], kind: EntityKind::Trip, entity: trip as u32 }
}

/// Whether `day_start` lays trips `0..n` out by traveller: traveller `t`'s trips are
/// `day_start[t]..day_start[t + 1]`, and every traveller has at least one.
pub open spec fn days_ok(day_start: Seq<u32>, n: int) -> bool {
    &&& day_start.len() >= 1
    &&& day_start[0] == 0
    &&& forall|i: int, j: int| 0 <= i < j < day_start.len() ==> #[trigger] day_start[i] < #[trigger] day_start[j]
    &&& day_start[day_start.len() - 1] == n
}

/// Whether trip `trip` is one of traveller `t`'s.
pub open spec fn in_day(day_start: Seq<u32>, t: int, trip: int) -> bool {
    0 <= t < day_start.len() - 1 && day_start[t] <= trip < day_start[t + 1]
}

/// Whether every traveller's trips depart in the order of the day.
pub open spec fn days_in_order(day_start: Seq<u32>, departures: Seq<Second>) -> bool {
    forall|t: int, a: int, b: int|
        #![trigger in_day(day_start, t, a), in_day(day_start, t, b)]
        in_day(day_start, t, a) && in_day(day_start, t, b) && a <= b ==> departures[a].0 <= departures[b].0
}

/// Whether trip `q` is traveller `t`'s next trip once the trips `taken` have been taken up:
/// it is one of `t`'s, it is not taken, and it is the first of the day or the one before it
/// is taken. These are the trips the queue holds.
pub open spec fn next_of_day(day_start: Seq<u32>, taken: Seq<u32>, t: int, q: int) -> bool {
    &&& in_day(day_start, t, q)
    &&& !taken.contains(q as u32)
    &&& (q == day_start[t] || taken.contains((q - 1) as u32))
}

/// A trip belongs to one traveller only.
proof fn lemma_one_day(day_start: Seq<u32>, n: int, a: int, b: int, trip: int)
    requires
        days_ok(day_start, n),
        in_day(day_start, a, trip),
        in_day(day_start, b, trip),
    ensures
        a == b,
{
    if a < b {
        if a + 1 < b {
            assert(day_start[a + 1] < day_start[b]);
        }
    } else if b < a {
        if b + 1 < a {
            assert(day_start[b + 1] < day_start[a]);
        }
    }
}

/// Whether `owner` names the traveller of each of trips `0..n`.
spec fn owners_ok(day_start: Seq<u32>, owner: Seq<u32>, n: int) -> bool {
    &&& owner.len() == n
    &&& forall|q: int| 0 <= q < n ==> in_day(day_start, #[trigger] owner[q] as int, q)
}

/// Whether event `k` is queued, when each traveller `t`'s next trip is `next[t]`: it is the
/// event of a trip that is its traveller's next.
spec fn queued(departures: Seq<Second>, owner: Seq<u32>, next: Seq<int>, k: EventKey) -> bool {
    &&& (k.entity as int) < departures.len()
    &&& k == trip_key(departures, k.entity as int)
    &&& next[owner[k.entity as int] as int] == k.entity
}

/// A list of distinct trips below `n` has at most `n` entries.
proof fn lemma_distinct_at_most(s: Seq<u32>, n: int)
    requires
        0 <= n,
        s.no_duplicates(),
        forall|i: int| 0 <= i < s.len() ==> (#[trigger] s[i] as int) < n,
    ensures
        s.len() <= n,
{
    let t = s.map_values(|x: u32| x as int);
    assert forall|i: int, j: int| 0 <= i < t.len() && 0 <= j < t.len() && i != j implies t[i] != t[j] by {
        assert(s[i] != s[j]);
    }
    assert(t.no_duplicates());
    t.unique_seq_to_set();
    lemma_int_range(0, n);
    assert forall|x: int| t.to_set().contains(x) implies set_int_range(0, n).contains(x) by {
        let i = choose|i: int| 0 <= i < t.len() && t[i] == x;
        assert(s[i] < n);
    }
    lemma_len_subset(t.to_set(), set_int_range(0, n));
}

/// A list holding every trip below `n` has at least `n` entries.
proof fn lemma_covering_at_least(s: Seq<u32>, n: int)
    requires
        0 <= n <= u32::MAX,
        forall|x: u32| (x as int) < n ==> #[trigger] s.contains(x),
    ensures
        s.len() >= n,
{
    let t = s.map_values(|x: u32| x as int);
    t.lemma_cardinality_of_set();
    lemma_int_range(0, n);
    assert forall|x: int| set_int_range(0, n).contains(x) implies t.to_set().contains(x) by {
        assert(s.contains(x as u32));
        let i = choose|i: int| 0 <= i < s.len() && s[i] == x as u32;
        assert(t[i] == x);
    }
    lemma_len_subset(set_int_range(0, n), t.to_set());
}

/// The traveller of each trip.
fn owners(day_start: &[u32], n: usize) -> (owner: Vec<u32>)
    requires
        days_ok(day_start@, n as int),
    ensures
        owners_ok(day_start@, owner@, n as int),
{
    let m = day_start.len() - 1;
    let mut owner: Vec<u32> = Vec::new();
    let mut t: usize = 0;
    while t < m
        invariant
            m == day_start@.len() - 1,
            days_ok(day_start@, n as int),
            t <= m,
            t <= day_start@[t as int],
            owner@.len() == day_start@[t as int],
            forall|q: int| 0 <= q < owner@.len() ==> in_day(day_start@, #[trigger] owner@[q] as int, q),
        decreases m - t,
    {
        let end = day_start[t + 1] as usize;
        proof {
            assert(day_start@[t as int] < day_start@[t + 1]);
            if t + 1 < m {
                assert(day_start@[t + 1] < day_start@[m as int]);
            }
        }
        while owner.len() < end
            invariant
                m == day_start@.len() - 1,
                days_ok(day_start@, n as int),
                t < m,
                t <= day_start@[t as int],
                end == day_start@[t + 1],
                day_start@[t as int] <= owner@.len() <= end,
                forall|q: int| 0 <= q < owner@.len() ==> in_day(day_start@, #[trigger] owner@[q] as int, q),
            decreases end - owner@.len(),
        {
            let ghost q = owner@.len() as int;
            owner.push(t as u32);
            proof {
                assert(in_day(day_start@, owner@[q] as int, q));
            }
        }
        t = t + 1;
    }
    owner
}

/// The trips of one loading, in the order the loading takes them up.
///
/// Trip ids are `0..departures.len()`; traveller `t`'s trips are
/// `day_start[t]..day_start[t + 1]`, in the order of the day, and every traveller has at
/// least one. Every traveller's first trip is queued; the loading takes up the queued trip
/// whose [`EventKey`] (departure, trip kind, trip id) comes first, and queues that
/// traveller's next trip. So every trip is taken up once, a traveller's trips in the order of
/// the day, and, where each traveller's trips depart in the order of the day, all trips in
/// the order of their events.
pub fn loading_order(day_start: &[u32], departures: &[Second]) -> (r: Vec<u32>)
    requires
        days_ok(day_start@, departures@.len() as int),
    ensures
        r@.len() == departures@.len(),
        r@.no_duplicates(),
        forall|i: int| 0 <= i < r@.len() ==> (#[trigger] r@[i] as int) < departures@.len(),
        forall|t: int, i: int, j: int|
            #![trigger in_day(day_start@, t, r@[i] as int), in_day(day_start@, t, r@[j] as int)]
            0 <= i < j < r@.len() && in_day(day_start@, t, r@[i] as int) && in_day(day_start@, t, r@[j] as int)
                ==> r@[i] < r@[j],
        forall|i: int, t: int, q: int|
            #![trigger r@[i], next_of_day(day_start@, r@.take(i), t, q)]
            0 <= i < r@.len() && next_of_day(day_start@, r@.take(i), t, q)
                ==> key_le(trip_key(departures@, r@[i] as int), trip_key(departures@, q)),
        days_in_order(day_start@, departures@) ==> forall|i: int, j: int|
            0 <= i < j < r@.len() ==> key_le(
                #[trigger] trip_key(departures@, r@[i] as int),
                #[trigger] trip_key(departures@, r@[j] as int),
            ),
{
    broadcast use vstd::multiset::group_multiset_axioms;

    let n = departures.len();
    let m = day_start.len() - 1;
    let owner = owners(day_start, n);
    let ghost ds = day_start@;
    let ghost dep = departures@;
    let ghost ow = owner@;
    let ghost mut next: Seq<int> = Seq::new(m as nat, |t: int| ds[t] as int);

    let mut queue = EventQueue::new();
    let mut u: usize = 0;
    while u < m
        invariant
            ds == day_start@,
            dep == departures@,
            ow == owner@,
            n == dep.len(),
            m == ds.len() - 1,
            days_ok(ds, n as int),
            owners_ok(ds, ow, n as int),
            next == Seq::new(m as nat, |t: int| ds[t] as int),
            u <= m,
            forall|k: EventKey| #[trigger] queue@.count(k) == if queued(dep, ow, next, k) && ow[k.entity as int] < u { 1nat } else { 0nat },
        decreases m - u,
    {
        let trip = day_start[u];
        proof {
            assert(ds[u as int] < ds[u + 1]);
            if u + 1 < m {
                assert(ds[u + 1] < ds[m as int]);
            }
            assert(in_day(ds, ow[trip as int] as int, trip as int));
            lemma_one_day(ds, n as int, ow[trip as int] as int, u as int, trip as int);
        }
        let key = EventKey::new(departures[trip as usize], EntityKind::Trip, trip);
        queue.push(key);
        proof {
            assert forall|k: EventKey| #[trigger] queue@.count(k) == if queued(dep, ow, next, k) && ow[k.entity as int] < u + 1 { 1nat } else { 0nat } by {
                if queued(dep, ow, next, k) && ow[k.entity as int] == u {
                    let o = ow[k.entity as int] as int;
                    assert(next[o] == ds[o]);
                    assert(k == key);
                }
            }
        }
        u = u + 1;
    }

    let mut out: Vec<u32> = Vec::new();
    loop
        invariant
            ds == day_start@,
            dep == departures@,
            ow == owner@,
            n == dep.len(),
            m == ds.len() - 1,
            days_ok(ds, n as int),
            owners_ok(ds, ow, n as int),
            next.len() == m,
            forall|t: int| 0 <= t < m ==> ds[t] <= #[trigger] next[t] <= ds[t + 1],
            forall|k: EventKey| #[trigger] queue@.count(k) == if queued(dep, ow, next, k) { 1nat } else { 0nat },
            out@.len() <= n,
            out@.no_duplicates(),
            forall|i: int| 0 <= i < out@.len() ==> (#[trigger] out@[i] as int) < n,
            forall|q: int| 0 <= q < n ==> (out@.contains(q as u32) <==> q < #[trigger] next[ow[q] as int]),
            forall|i: int, j: int|
                0 <= i < j < out@.len() && ow[out@[i] as int] == ow[out@[j] as int] ==> #[trigger] out@[i] < #[trigger] out@[j],
            forall|i: int, q: int|
                #![trigger out@[i], next_of_day(ds, out@.take(i), ow[q] as int, q)]
                0 <= i < out@.len() && 0 <= q < n && next_of_day(ds, out@.take(i), ow[q] as int, q)
                    ==> key_le(trip_key(dep, out@[i] as int), trip_key(dep, q)),
            days_in_order(ds, dep) ==> forall|i: int, j: int|
                0 <= i < j < out@.len() ==> key_le(#[trigger] trip_key(dep, out@[i] as int), #[trigger] trip_key(dep, out@[j] as int)),
            days_in_order(ds, dep) ==> forall|i: int, q: int|
                0 <= i < out@.len() && 0 <= q < n && q >= next[ow[q] as int] ==> key_le(#[trigger] trip_key(dep, out@[i] as int), #[trigger] trip_key(dep, q)),
        ensures
            out@.len() == n,
            out@.no_duplicates(),
            forall|i: int| 0 <= i < out@.len() ==> (#[trigger] out@[i] as int) < n,
            forall|i: int, j: int|
                0 <= i < j < out@.len() && ow[out@[i] as int] == ow[out@[j] as int] ==> #[trigger] out@[i] < #[trigger] out@[j],
            forall|i: int, q: int|
                #![trigger out@[i], next_of_day(ds, out@.take(i), ow[q] as int, q)]
                0 <= i < out@.len() && 0 <= q < n && next_of_day(ds, out@.take(i), ow[q] as int, q)
                    ==> key_le(trip_key(dep, out@[i] as int), trip_key(dep, q)),
            days_in_order(ds, dep) ==> forall|i: int, j: int|
                0 <= i < j < out@.len() ==> key_le(#[trigger] trip_key(dep, out@[i] as int), #[trigger] trip_key(dep, out@[j] as int)),
        decreases n - out@.len(),
    {
        let ghost before = queue@;
        match queue.pop() {
            None => {
                proof {
                    assert forall|xx: u32| (xx as int) < n implies out@.contains(xx) by {
                        let x = xx as int;
                        let o = ow[x] as int;
                        assert(in_day(ds, o, x));
                        if next[o] < ds[o + 1] {
                            let y = next[o];
                            assert(in_day(ds, o, y));
                            assert(in_day(ds, ow[y] as int, y));
                            lemma_one_day(ds, n as int, o, ow[y] as int, y);
                            let k = trip_key(dep, y);
                            assert(queued(dep, ow, next, k));
                            assert(before.count(k) == 1);
                        }
                    }
                    lemma_covering_at_least(out@, n as int);
                }
                break;
            },
            Some(k) => {
                let trip = k.entity;
                proof {
                    assert(before.count(k) > 0);
                    assert(queued(dep, ow, next, k));
                }
                let ghost t = ow[trip as int] as int;
                let ghost old_out = out@;
                let ghost old_next = next;
                proof {
                    assert(in_day(ds, t, trip as int));
                    assert(!out@.contains(trip));
                }
                out.push(trip);
                proof {
                    next = next.update(t, next[t] + 1);
                }
                let after_last = trip as usize + 1;
                let end = day_start[(owner[trip as usize]) as usize + 1] as usize;
                if after_last < end {
                    let key = EventKey::new(departures[after_last], EntityKind::Trip, after_last as u32);
                    proof {
                        assert(in_day(ds, t, after_last as int));
                        assert(in_day(ds, ow[after_last as int] as int, after_last as int));
                        lemma_one_day(ds, n as int, t, ow[after_last as int] as int, after_last as int);
                    }
                    queue.push(key);
                }
                proof {
                    lemma_loading_step(ds, dep, ow, old_next, next, before, queue@, old_out, out@, k, t, n as int, m as int);
                }
            },
        }
    }
    proof {
        assert forall|t: int, i: int, j: int|
            0 <= i < j < out@.len() && in_day(ds, t, out@[i] as int) && in_day(ds, t, out@[j] as int)
                implies out@[i] < out@[j] by {
            assert(in_day(ds, ow[out@[i] as int] as int, out@[i] as int));
            assert(in_day(ds, ow[out@[j] as int] as int, out@[j] as int));
            lemma_one_day(ds, n as int, t, ow[out@[i] as int] as int, out@[i] as int);
            lemma_one_day(ds, n as int, t, ow[out@[j] as int] as int, out@[j] as int);
        }
        assert forall|i: int, t: int, q: int|
            0 <= i < out@.len() && next_of_day(ds, out@.take(i), t, q)
                implies key_le(trip_key(dep, out@[i] as int), trip_key(dep, q)) by {
            if t + 1 < m {
                assert(ds[t + 1] < ds[m as int]);
            }
            assert(0 <= q < n);
            assert(in_day(ds, ow[q] as int, q));
            lemma_one_day(ds, n as int, t, ow[q] as int, q);
            assert(next_of_day(ds, out@.take(i), ow[q] as int, q));
        }
    }
    out
}

/// One step of the loading keeps its invariants: the popped trip `k.entity`, traveller `t`'s
/// next, is taken up and `t`'s following trip, if it has one, is queued.
proof fn lemma_loading_step(
    ds: Seq<u32>,
    dep: Seq<Second>,
    ow: Seq<u32>,
    next: Seq<int>,
    next2: Seq<int>,
    before: Multiset<EventKey>,
    after: Multiset<EventKey>,
    out: Seq<u32>,
    out2: Seq<u32>,
    k: EventKey,
    t: int,
    n: int,
    m: int,
)
    requires
        n == dep.len(),
        m == ds.len() - 1,
        days_ok(ds, n),
        owners_ok(ds, ow, n),
        next.len() == m,
        forall|u: int| 0 <= u < m ==> ds[u] <= #[trigger] next[u] <= ds[u + 1],
        forall|x: EventKey| #[trigger] before.count(x) == if queued(dep, ow, next, x) { 1nat } else { 0nat },
        before.contains(k),
        forall|x: EventKey| #[trigger] before.contains(x) ==> key_le(k, x),
        queued(dep, ow, next, k),
        t == ow[k.entity as int],
        next2 == next.update(t, next[t] + 1),
        after == (if k.entity + 1 < ds[t + 1] {
            before.remove(k).insert(trip_key(dep, k.entity + 1))
        } else {
            before.remove(k)
        }),
        out2 == out.push(k.entity),
        out.len() <= n,
        out.no_duplicates(),
        forall|i: int| 0 <= i < out.len() ==> (#[trigger] out[i] as int) < n,
        forall|q: int| 0 <= q < n ==> (out.contains(q as u32) <==> q < #[trigger] next[ow[q] as int]),
        forall|i: int, j: int|
            0 <= i < j < out.len() && ow[out[i] as int] == ow[out[j] as int] ==> #[trigger] out[i] < #[trigger] out[j],
        forall|i: int, q: int|
            #![trigger out[i], next_of_day(ds, out.take(i), ow[q] as int, q)]
            0 <= i < out.len() && 0 <= q < n && next_of_day(ds, out.take(i), ow[q] as int, q)
                ==> key_le(trip_key(dep, out[i] as int), trip_key(dep, q)),
        days_in_order(ds, dep) ==> forall|i: int, j: int|
            0 <= i < j < out.len() ==> key_le(#[trigger] trip_key(dep, out[i] as int), #[trigger] trip_key(dep, out[j] as int)),
        days_in_order(ds, dep) ==> forall|i: int, q: int|
            0 <= i < out.len() && 0 <= q < n && q >= next[ow[q] as int] ==> key_le(#[trigger] trip_key(dep, out[i] as int), #[trigger] trip_key(dep, q)),
    ensures
        next2.len() == m,
        forall|u: int| 0 <= u < m ==> ds[u] <= #[trigger] next2[u] <= ds[u + 1],
        forall|x: EventKey| #[trigger] after.count(x) == if queued(dep, ow, next2, x) { 1nat } else { 0nat },
        out2.len() <= n,
        out2.no_duplicates(),
        forall|i: int| 0 <= i < out2.len() ==> (#[trigger] out2[i] as int) < n,
        forall|q: int| 0 <= q < n ==> (out2.contains(q as u32) <==> q < #[trigger] next2[ow[q] as int]),
        forall|i: int, j: int|
            0 <= i < j < out2.len() && ow[out2[i] as int] == ow[out2[j] as int] ==> #[trigger] out2[i] < #[trigger] out2[j],
        forall|i: int, q: int|
            #![trigger out2[i], next_of_day(ds, out2.take(i), ow[q] as int, q)]
            0 <= i < out2.len() && 0 <= q < n && next_of_day(ds, out2.take(i), ow[q] as int, q)
                ==> key_le(trip_key(dep, out2[i] as int), trip_key(dep, q)),
        days_in_order(ds, dep) ==> forall|i: int, j: int|
            0 <= i < j < out2.len() ==> key_le(#[trigger] trip_key(dep, out2[i] as int), #[trigger] trip_key(dep, out2[j] as int)),
        days_in_order(ds, dep) ==> forall|i: int, q: int|
            0 <= i < out2.len() && 0 <= q < n && q >= next2[ow[q] as int] ==> key_le(#[trigger] trip_key(dep, out2[i] as int), #[trigger] trip_key(dep, q)),
{
    broadcast use vstd::multiset::group_multiset_axioms;

    let trip = k.entity as int;
    assert(in_day(ds, t, trip));
    assert(next[t] == trip);
    assert(!out.contains(trip as u32));
    // What is queued after the step.
    assert forall|x: EventKey| #[trigger] after.count(x) == if queued(dep, ow, next2, x) { 1nat } else { 0nat } by {
        if (x.entity as int) < n {
            let o = ow[x.entity as int] as int;
            assert(in_day(ds, o, x.entity as int));
            if o != t {
                assert(next2[o] == next[o]);
                assert(x != k);
                if k.entity + 1 < ds[t + 1] {
                    assert(x != trip_key(dep, k.entity + 1)) by {
                        if x == trip_key(dep, k.entity + 1) {
                            assert(in_day(ds, t, trip + 1));
                            lemma_one_day(ds, n, t, o, trip + 1);
                        }
                    }
                }
            } else {
                assert(next2[o] == trip + 1);
                if queued(dep, ow, next, x) {
                    assert(x == k);
                }
                if x == trip_key(dep, k.entity + 1) && k.entity + 1 < ds[t + 1] {
                    assert(queued(dep, ow, next2, x));
                }
                if queued(dep, ow, next2, x) {
                    assert(x.entity == trip + 1);
                    assert(x == trip_key(dep, k.entity + 1));
                }
            }
        } else {
            assert(x != k);
            if k.entity + 1 < ds[t + 1] {
                assert(k.entity + 1 < n) by {
                    if t + 1 < m {
                        assert(ds[t + 1] < ds[m]);
                    }
                }
                assert(x != trip_key(dep, k.entity + 1));
            }
        }
    }
    // The trips taken up.
    assert forall|q: int| 0 <= q < n implies (out2.contains(q as u32) <==> q < #[trigger] next2[ow[q] as int]) by {
        let o = ow[q] as int;
        assert(in_day(ds, o, q));
        if out2.contains(q as u32) {
            let i = choose|i: int| 0 <= i < out2.len() && out2[i] == q as u32;
            if i < out.len() {
                assert(out.contains(q as u32));
            }
        }
        if q < next2[o] {
            if o == t && q == trip {
                assert(out2[out.len() as int] == q as u32);
            } else {
                assert(out.contains(q as u32));
                let i = choose|i: int| 0 <= i < out.len() && out[i] == q as u32;
                assert(out2[i] == q as u32);
            }
        }
    }
    assert(out2.no_duplicates()) by {
        assert forall|i: int, j: int| 0 <= i < j < out2.len() implies out2[i] != out2[j] by {
            if j == out.len() {
                assert(out[i] == out2[i]);
                assert(out.contains(out2[i]));
            } else {
                assert(out[i] != out[j]);
            }
        }
    }
    assert forall|i: int| 0 <= i < out2.len() implies (#[trigger] out2[i] as int) < n by {
        if i < out.len() {
            assert(out2[i] == out[i]);
        }
    }
    lemma_distinct_at_most(out2, n);
    assert forall|i: int, j: int|
        0 <= i < j < out2.len() && ow[out2[i] as int] == ow[out2[j] as int] implies #[trigger] out2[i] < #[trigger] out2[j] by {
        if j == out.len() {
            assert(out2[i] == out[i]);
            let q = out[i] as int;
            assert(out.contains(q as u32));
            assert(q < next[ow[q] as int]);
        } else {
            assert(out2[i] == out[i] && out2[j] == out[j]);
        }
    }
    // The trip taken up comes no later than any traveller's next trip.
    assert forall|i: int, q: int|
        0 <= i < out2.len() && 0 <= q < n && next_of_day(ds, out2.take(i), ow[q] as int, q)
            implies key_le(trip_key(dep, out2[i] as int), trip_key(dep, q)) by {
        if i == out.len() {
            assert(out2.take(i) =~= out);
            let o = ow[q] as int;
            assert(in_day(ds, o, q));
            assert(!(q < next[o]));
            if q != ds[o] {
                assert(out.contains((q - 1) as u32));
                assert(in_day(ds, o, q - 1));
                assert(in_day(ds, ow[q - 1] as int, q - 1));
                lemma_one_day(ds, n, o, ow[q - 1] as int, q - 1);
                assert(q - 1 < next[ow[q - 1] as int]);
            }
            assert(next[o] == q);
            let kq = trip_key(dep, q);
            assert(queued(dep, ow, next, kq));
            assert(before.count(kq) == 1);
            assert(before.contains(kq));
            assert(out2[i] == k.entity);
        } else {
            assert(out2.take(i) =~= out.take(i));
            assert(out2[i] == out[i]);
        }
    }
    if days_in_order(ds, dep) {
        let kk = trip_key(dep, trip);
        assert(kk == k);
        // Every trip still to come comes no earlier than the one taken up.
        assert forall|q: int| 0 <= q < n && q >= next2[ow[q] as int] implies key_le(k, #[trigger] trip_key(dep, q)) by {
            let o = ow[q] as int;
            assert(in_day(ds, o, q));
            let y = next[o];
            assert(y <= q);
            assert(in_day(ds, o, y));
            assert(in_day(ds, ow[y] as int, y));
            lemma_one_day(ds, n, o, ow[y] as int, y);
            let ky = trip_key(dep, y);
            assert(queued(dep, ow, next, ky));
            assert(before.count(ky) == 1);
            assert(before.contains(ky));
            assert(key_le(k, ky));
            assert(in_day(ds, o, y) && in_day(ds, o, q));
            assert(dep[y].0 <= dep[q].0);
            assert(key_le(ky, trip_key(dep, q)));
            lemma_key_order(k, ky, trip_key(dep, q));
        }
        assert forall|i: int, j: int|
            0 <= i < j < out2.len() implies key_le(#[trigger] trip_key(dep, out2[i] as int), #[trigger] trip_key(dep, out2[j] as int)) by {
            if j == out.len() {
                assert(out2[i] == out[i]);
                assert(trip >= next[ow[trip] as int]);
                assert(key_le(trip_key(dep, out[i] as int), trip_key(dep, trip)));
            } else {
                assert(out2[i] == out[i] && out2[j] == out[j]);
            }
        }
        assert forall|i: int, q: int|
            0 <= i < out2.len() && 0 <= q < n && q >= next2[ow[q] as int] implies key_le(#[trigger] trip_key(dep, out2[i] as int), #[trigger] trip_key(dep, q)) by {
            if i == out.len() {
                assert(out2[i] == trip as u32);
            } else {
                assert(out2[i] == out[i]);
                let o = ow[q] as int;
                assert(next[o] <= next2[o]);
            }
        }
    }
}

} // verus!
