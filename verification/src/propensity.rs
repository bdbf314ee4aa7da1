//! Where the demand meets capacity: for each link, the busiest departure bin's load of the
//! persons whose pair's best route uses it.
//!
//! Every trip is put on its pair's first route (the free-flow shortest one, for a store of
//! shortest routes), and counted in the bin of its departure. A link's load in a bin is the
//! sum, over the trips of the bin, of the trip's weight times the number of times its route
//! uses the link; its peak is the largest load over the bins. Loads are sums of whole
//! numbers, so the result does not depend on the order of the trips. Dividing a peak by
//! what the link carries in a bin is left to the caller, in floating point.

use vstd::prelude::*;

use crate::generate::{TripDemand, PROPENSITY_BIN_SECONDS};
use crate::grouping::{group_rows, lemma_rows_with_bounded, rows_with};
use crate::store::{keys_sorted, occurrences, pair_lt, RouteKey, RouteSets, StoreView};

verus! {

/// The first route of `key`'s set, if the store has the key and its set holds a route.
pub open spec fn best_route_of(v: StoreView, key: RouteKey) -> Option<int> {
    if exists|k: int| 0 <= k < v.keys.len() && v.keys[k] == key && v.set_start[k] < v.set_start[k + 1] {
        let k = choose|k: int| 0 <= k < v.keys.len() && v.keys[k] == key && v.set_start[k] < v.set_start[k + 1];
        Some(v.set_start[k] as int)
    } else {
        None
    }
}

/// How many times a trip's best route uses link `l` (none if its pair has no route).
pub open spec fn trip_uses(v: StoreView, t: TripDemand, l: u32) -> nat {
    match best_route_of(v, t.key) {
        Some(r) => occurrences(v.routes[r].links, l),
        None => 0,
    }
}

/// What the trips at `rows` put on link `l`: each one's weight times its route's uses of it.
pub open spec fn rows_load(v: StoreView, trips: Seq<TripDemand>, rows: Seq<u32>, l: u32) -> nat
    decreases rows.len(),
{
    if rows.len() == 0 {
        0
    } else {
        rows_load(v, trips, rows.drop_last(), l) + (trips[rows.last() as int].weight as nat) * trip_uses(v, trips[rows.last() as int], l)
    }
}

/// The departure bin of a trip.
pub open spec fn bin_of(t: TripDemand) -> u32 {
    t.departure / PROPENSITY_BIN_SECONDS
}

/// Every trip's departure bin, in trip order.
pub open spec fn bins_of(trips: Seq<TripDemand>) -> Seq<u32> {
    trips.map_values(|t: TripDemand| bin_of(t))
}

/// The load on link `l` of the trips leaving in bin `b`.
pub open spec fn bin_load(v: StoreView, trips: Seq<TripDemand>, b: u32, l: u32) -> nat {
    rows_load(v, trips, rows_with(bins_of(trips), b), l)
}

/// Whether some trip at `rows` has a route that uses link `l`.
pub open spec fn rows_touch(v: StoreView, trips: Seq<TripDemand>, rows: Seq<u32>, l: u32) -> bool {
    exists|j: int| 0 <= j < rows.len() && trip_uses(v, trips[#[trigger] rows[j] as int], l) > 0
}

/// A load that is not zero comes from a trip whose route uses the link.
proof fn lemma_load_touch(v: StoreView, trips: Seq<TripDemand>, rows: Seq<u32>, l: u32)
    requires
        rows_load(v, trips, rows, l) > 0,
    ensures
        rows_touch(v, trips, rows, l),
    decreases rows.len(),
{
    let last = rows.last();
    if trips[last as int].weight * trip_uses(v, trips[last as int], l) > 0 {
        assert(trip_uses(v, trips[last as int], l) > 0) by (nonlinear_arith)
            requires trips[last as int].weight * trip_uses(v, trips[last as int], l) > 0;
        assert(rows[rows.len() - 1] == last);
    } else {
        lemma_load_touch(v, trips, rows.drop_last(), l);
        let j = choose|j: int| 0 <= j < rows.drop_last().len() && trip_uses(v, trips[#[trigger] rows.drop_last()[j] as int], l) > 0;
        assert(rows[j] == rows.drop_last()[j]);
    }
}

/// `rows_with` holds exactly the rows whose key is `k`.
pub proof fn lemma_rows_with_contains(keys: Seq<u32>, k: u32, i: u32)
    requires
        keys.len() <= u32::MAX,
    ensures
        rows_with(keys, k).contains(i) <==> (i < keys.len() && keys[i as int] == k),
    decreases keys.len(),
{
    if keys.len() > 0 {
        let d = keys.drop_last();
        lemma_rows_with_contains(d, k, i);
        let rest = rows_with(d, k);
        let tail: Seq<u32> = if keys.last() == k { seq![(keys.len() - 1) as u32] } else { Seq::empty() };
        assert(rows_with(keys, k) == rest + tail);
        if i < d.len() {
            assert(d[i as int] == keys[i as int]);
        }
        if rows_with(keys, k).contains(i) {
            let j = choose|j: int| 0 <= j < rows_with(keys, k).len() && rows_with(keys, k)[j] == i;
            if j < rest.len() {
                assert(rest[j] == i);
                assert(rest.contains(i));
            } else {
                assert(tail[j - rest.len()] == i);
                assert(i == keys.len() - 1);
            }
        }
        if i < keys.len() && keys[i as int] == k {
            if i < keys.len() - 1 {
                assert(rest.contains(i));
                let j = choose|j: int| 0 <= j < rest.len() && rest[j] == i;
                assert(rows_with(keys, k)[j] == i);
            } else {
                assert(rows_with(keys, k)[rest.len() as int] == i);
            }
        }
    }
}

/// A load is at most `rows × u32::MAX × most`, where no route uses a link more than `most`
/// times.
proof fn lemma_rows_load_bounded(v: StoreView, trips: Seq<TripDemand>, rows: Seq<u32>, l: u32, most: nat)
    requires
        forall|j: int| 0 <= j < rows.len() ==> trip_uses(v, trips[#[trigger] rows[j] as int], l) <= most,
    ensures
        rows_load(v, trips, rows, l) <= rows.len() * (u32::MAX as nat) * most,
    decreases rows.len(),
{
    if rows.len() > 0 {
        assert forall|j: int| 0 <= j < rows.drop_last().len() implies trip_uses(v, trips[#[trigger] rows.drop_last()[j] as int], l) <= most by {
            assert(rows.drop_last()[j] == rows[j]);
        }
        lemma_rows_load_bounded(v, trips, rows.drop_last(), l, most);
        let t = trips[rows.last() as int];
        assert(trip_uses(v, t, l) <= most) by {
            assert(rows[rows.len() - 1] == rows.last());
        }
        assert(t.weight * trip_uses(v, t, l) <= (u32::MAX as nat) * most) by (nonlinear_arith)
            requires t.weight <= u32::MAX, trip_uses(v, t, l) <= most;
        assert((rows.len() - 1) * (u32::MAX as nat) * most + (u32::MAX as nat) * most == rows.len() * (u32::MAX as nat) * most) by (nonlinear_arith);
    }
}

/// Whether `m` is the peak of link `l`'s loads: no bin loads it more, and some bin loads it
/// exactly that much.
pub open spec fn is_peak(v: StoreView, trips: Seq<TripDemand>, l: u32, m: u128) -> bool {
    &&& forall|b: u32| #[trigger] bin_load(v, trips, b, l) <= m
    &&& exists|b: u32| #[trigger] bin_load(v, trips, b, l) == m
}

/// Whether some trip's route uses link `l`.
pub open spec fn link_used(v: StoreView, trips: Seq<TripDemand>, l: u32) -> bool {
    exists|i: int| 0 <= i < trips.len() && trip_uses(v, #[trigger] trips[i], l) > 0
}

/// The first route of each trip's pair, if it has one.
fn best_routes(shortest: &RouteSets, trips: &[TripDemand]) -> (r: Vec<Option<usize>>)
    ensures
        r@.len() == trips.len(),
        forall|i: int| 0 <= i < trips.len() ==> match #[trigger] r@[i] {
            Some(x) => best_route_of(shortest@, trips@[i].key) == Some(x as int) && x < shortest@.routes.len(),
            None => best_route_of(shortest@, trips@[i].key) is None,
        },
{
    shortest.check_consistent();
    let ghost v = shortest@;
    let mut out: Vec<Option<usize>> = Vec::new();
    let mut i: usize = 0;
    while i < trips.len()
        invariant
            v == shortest@,
            crate::store::store_ok(v),
            i <= trips.len(),
            out@.len() == i,
            forall|q: int| 0 <= q < i ==> match #[trigger] out@[q] {
                Some(x) => best_route_of(v, trips@[q].key) == Some(x as int) && x < v.routes.len(),
                None => best_route_of(v, trips@[q].key) is None,
            },
        decreases trips.len() - i,
    {
        let key = trips[i].key;
        let found = match shortest.key_index(key) {
            Some(k) => {
                let (lo, hi) = shortest.route_range(k);
                proof {
                    assert forall|k2: int| 0 <= k2 < v.keys.len() && v.keys[k2] == key implies k2 == k by {
                        if k2 < k {
                            assert(pair_lt(v.keys[k2], v.keys[k as int]));
                        } else if k2 > k {
                            assert(pair_lt(v.keys[k as int], v.keys[k2]));
                        }
                    }
                }
                if lo < hi {
                    proof {
                        let c = choose|k2: int| 0 <= k2 < v.keys.len() && v.keys[k2] == key && v.set_start[k2] < v.set_start[k2 + 1];
                        assert(c == k);
                    }
                    Some(lo)
                } else {
                    None
                }
            },
            None => None,
        };
        out.push(found);
        i = i + 1;
    }
    out
}

/// Add `w` to the load of every link of `links`, once per use.
fn add_route(load: &mut Vec<u128>, links: &[u32], w: u32)
    requires
        old(load)@.len() <= u32::MAX,
        forall|p: int| 0 <= p < links.len() ==> (#[trigger] links@[p]) < old(load)@.len(),
        forall|m: int| 0 <= m < old(load)@.len() ==> #[trigger] old(load)@[m] + w * occurrences(links@, m as u32) <= u128::MAX,
    ensures
        final(load)@.len() == old(load)@.len(),
        forall|m: int| 0 <= m < old(load)@.len() ==> #[trigger] final(load)@[m] == old(load)@[m] + w * occurrences(links@, m as u32),
{
    let mut p: usize = 0;
    proof {
        assert(links@.take(0) =~= Seq::<u32>::empty());
        assert forall|m: int| 0 <= m < old(load)@.len() implies #[trigger] load@[m] == old(load)@[m] + w * occurrences(links@.take(0), m as u32) by {
            assert(occurrences(links@.take(0), m as u32) == 0);
        }
    }
    while p < links.len()
        invariant
            p <= links.len(),
            load@.len() == old(load)@.len(),
            old(load)@.len() <= u32::MAX,
            forall|q: int| 0 <= q < links.len() ==> (#[trigger] links@[q]) < old(load)@.len(),
            forall|m: int| 0 <= m < old(load)@.len() ==> #[trigger] old(load)@[m] + w * occurrences(links@, m as u32) <= u128::MAX,
            forall|m: int| 0 <= m < old(load)@.len() ==> #[trigger] load@[m] == old(load)@[m] + w * occurrences(links@.take(p as int), m as u32),
        decreases links.len() - p,
    {
        let l = links[p] as usize;
        proof {
            assert(links@.take(p + 1).drop_last() =~= links@.take(p as int));
            assert(links@.take(p + 1).last() == links@[p as int]);
            crate::store::lemma_occurrences_prefix(links@, p + 1, l as u32);
            assert(w * occurrences(links@.take(p + 1), l as u32) <= w * occurrences(links@, l as u32)) by (nonlinear_arith)
                requires occurrences(links@.take(p + 1), l as u32) <= occurrences(links@, l as u32);
            assert(w * occurrences(links@.take(p + 1), l as u32) == w * occurrences(links@.take(p as int), l as u32) + w) by (nonlinear_arith)
                requires occurrences(links@.take(p + 1), l as u32) == occurrences(links@.take(p as int), l as u32) + 1;
        }
        let now = load[l];
        load.set(l, now + w as u128);
        proof {
            assert forall|m: int| 0 <= m < old(load)@.len() implies #[trigger] load@[m] == old(load)@[m] + w * occurrences(links@.take(p + 1), m as u32) by {
                if m != l {
                    assert(occurrences(links@.take(p + 1), m as u32) == occurrences(links@.take(p as int), m as u32));
                }
            }
        }
        p = p + 1;
    }
    proof {
        assert(links@.take(p as int) =~= links@);
    }
}

/// The larger of two numbers.
pub open spec fn max_of(a: u128, b: u128) -> u128 {
    if a < b { b } else { a }
}

/// What folding one route into the peaks did to link `m`: if the route uses it, its load is
/// folded into its peak, it is marked used and its load cleared; otherwise nothing changed.
pub open spec fn flushed(uses: nat, load0: u128, peak0: u128, used0: bool, load: u128, peak: u128, used: bool) -> bool {
    if uses > 0 {
        load == 0 && peak == max_of(peak0, load0) && used
    } else {
        load == load0 && peak == peak0 && used == used0
    }
}

/// Fold the load of every link of `links` into its peak, mark it used, and clear it.
fn flush_route(load: &mut Vec<u128>, peak: &mut Vec<u128>, used: &mut Vec<bool>, links: &[u32])
    requires
        old(load)@.len() <= u32::MAX,
        old(peak)@.len() == old(load)@.len(),
        old(used)@.len() == old(load)@.len(),
        forall|p: int| 0 <= p < links.len() ==> (#[trigger] links@[p]) < old(load)@.len(),
    ensures
        final(load)@.len() == old(load)@.len(),
        final(peak)@.len() == old(load)@.len(),
        final(used)@.len() == old(load)@.len(),
        forall|m: int| #![trigger final(load)@[m]] #![trigger final(peak)@[m]] #![trigger final(used)@[m]]
            0 <= m < old(load)@.len() ==> flushed(occurrences(links@, m as u32), old(load)@[m], old(peak)@[m], old(used)@[m],
                final(load)@[m], final(peak)@[m], final(used)@[m]),
{
    let mut p: usize = 0;
    proof {
        assert(links@.take(0) =~= Seq::<u32>::empty());
    }
    while p < links.len()
        invariant
            p <= links.len(),
            old(load)@.len() <= u32::MAX,
            load@.len() == old(load)@.len(),
            peak@.len() == old(load)@.len(),
            used@.len() == old(load)@.len(),
            forall|q: int| 0 <= q < links.len() ==> (#[trigger] links@[q]) < old(load)@.len(),
            forall|m: int| #![trigger load@[m]] #![trigger peak@[m]] #![trigger used@[m]]
                0 <= m < old(load)@.len() ==> flushed(occurrences(links@.take(p as int), m as u32), old(load)@[m], old(peak)@[m], old(used)@[m],
                    load@[m], peak@[m], used@[m]),
        decreases links.len() - p,
    {
        let l = links[p] as usize;
        proof {
            assert(links@.take(p + 1).drop_last() =~= links@.take(p as int));
            assert(links@.take(p + 1).last() == links@[p as int]);
        }
        let ghost load0 = load@;
        let ghost peak0 = peak@;
        let ghost used0 = used@;
        let now = load[l];
        let top = peak[l];
        if now > top {
            peak.set(l, now);
        }
        load.set(l, 0);
        used.set(l, true);
        proof {
            assert forall|m: int| #![trigger load@[m]] #![trigger peak@[m]] #![trigger used@[m]]
                0 <= m < old(load)@.len() implies flushed(occurrences(links@.take(p + 1), m as u32), old(load)@[m], old(peak)@[m], old(used)@[m],
                    load@[m], peak@[m], used@[m]) by {
                assert(flushed(occurrences(links@.take(p as int), m as u32), old(load)@[m], old(peak)@[m], old(used)@[m],
                    load0[m], peak0[m], used0[m]));
                if m != l {
                    assert(occurrences(links@.take(p + 1), m as u32) == occurrences(links@.take(p as int), m as u32));
                }
            }
        }
        p = p + 1;
    }
    proof {
        assert(links@.take(p as int) =~= links@);
    }
}

/// No row has a key that no entry has.
proof fn lemma_rows_with_empty(keys: Seq<u32>, k: u32)
    requires
        keys.len() <= u32::MAX,
        forall|i: int| 0 <= i < keys.len() ==> keys[i] != k,
    ensures
        rows_with(keys, k).len() == 0,
{
    if rows_with(keys, k).len() > 0 {
        let i = rows_with(keys, k)[0];
        assert(rows_with(keys, k).contains(i));
        lemma_rows_with_contains(keys, k, i);
    }
}

/// The trips of bin `b` touch link `l` exactly when some trip leaving in `b` has a route that
/// uses it.
proof fn lemma_touch_bin(v: StoreView, trips: Seq<TripDemand>, b: u32, l: u32)
    requires
        trips.len() <= u32::MAX,
    ensures
        rows_touch(v, trips, rows_with(bins_of(trips), b), l)
            <==> exists|i: int| 0 <= i < trips.len() && bins_of(trips)[i] == b && trip_uses(v, #[trigger] trips[i], l) > 0,
{
    let keys = bins_of(trips);
    let rows = rows_with(keys, b);
    if rows_touch(v, trips, rows, l) {
        let j = choose|j: int| 0 <= j < rows.len() && trip_uses(v, trips[#[trigger] rows[j] as int], l) > 0;
        let i = rows[j];
        assert(rows.contains(i));
        lemma_rows_with_contains(keys, b, i);
        assert(keys[i as int] == b);
    }
    if exists|i: int| 0 <= i < trips.len() && bins_of(trips)[i] == b && trip_uses(v, #[trigger] trips[i], l) > 0 {
        let i = choose|i: int| 0 <= i < trips.len() && bins_of(trips)[i] == b && trip_uses(v, #[trigger] trips[i], l) > 0;
        lemma_rows_with_contains(keys, b, i as u32);
        let j = choose|j: int| 0 <= j < rows.len() && rows[j] == i as u32;
        assert(trip_uses(v, trips[rows[j] as int], l) > 0);
    }
}

/// A trip's route uses a link at most `u32::MAX` times, in a store whose routes are no longer.
proof fn lemma_trip_uses_bounded(v: StoreView, t: TripDemand, l: u32)
    requires
        crate::store::store_ok(v),
        forall|r: int| 0 <= r < v.routes.len() ==> (#[trigger] v.routes[r]).links.len() <= u32::MAX,
    ensures
        trip_uses(v, t, l) <= u32::MAX,
{
    match best_route_of(v, t.key) {
        Some(r) => {
            let k = choose|k: int| 0 <= k < v.keys.len() && v.keys[k] == t.key && v.set_start[k] < v.set_start[k + 1];
            assert(v.set_start[k + 1] <= v.set_start[v.keys.len() as int]);
            crate::store::lemma_occurrences_bounded(v.routes[r].links, l);
        },
        None => {},
    }
}

/// Whether `value` is the peak of link `m` over the bins before `b`: none of them loads it
/// more, and one loads it exactly that much unless it is 0.
pub open spec fn peak_upto(v: StoreView, trips: Seq<TripDemand>, m: u32, b: u32, value: u128) -> bool {
    &&& forall|c: u32| c < b ==> #[trigger] bin_load(v, trips, c, m) <= value
    &&& (value == 0 || exists|c: u32| c < b && #[trigger] bin_load(v, trips, c, m) == value)
}

/// Whether `flag` says that some trip leaving before bin `b` uses link `m`.
pub open spec fn used_upto(v: StoreView, trips: Seq<TripDemand>, m: u32, b: u32, flag: bool) -> bool {
    flag == exists|i: int| 0 <= i < trips.len() && bins_of(trips)[i] < b && trip_uses(v, #[trigger] trips[i], m) > 0
}

/// For each of the first `link_count` links, the peak over departure bins of the load of the
/// trips whose pair's first route uses it, and whether any trip's route uses it at all.
/// Every link of the store is below `link_count`.
pub fn peak_loads(shortest: &RouteSets, trips: &[TripDemand], link_count: u32) -> (r: (Vec<u128>, Vec<bool>))
    requires
        forall|q: int, p: int| 0 <= q < shortest@.routes.len() && 0 <= p < shortest@.routes[q].links.len()
            ==> #[trigger] shortest@.routes[q].links[p] < link_count,
        trips.len() <= u32::MAX,
    ensures
        r.0@.len() == link_count,
        r.1@.len() == link_count,
        forall|l: int| 0 <= l < link_count ==> #[trigger] is_peak(shortest@, trips@, l as u32, r.0@[l]),
        forall|l: int| 0 <= l < link_count ==> (#[trigger] r.1@[l] <==> link_used(shortest@, trips@, l as u32)),
{
    shortest.check_consistent();
    let ghost v = shortest@;
    let ghost ts = trips@;
    let ghost keys = bins_of(ts);
    let best = best_routes(shortest, trips);
    let mut bins: Vec<u32> = Vec::new();
    let mut top: u32 = 0;
    let mut i: usize = 0;
    while i < trips.len()
        invariant
            ts == trips@,
            keys == bins_of(ts),
            i <= trips.len(),
            bins@ == keys.take(i as int),
            top <= 0xffff_ffffu32 / PROPENSITY_BIN_SECONDS + 1,
            forall|q: int| 0 <= q < i ==> #[trigger] bins@[q] < top,
        decreases trips.len() - i,
    {
        let b = trips[i].departure / PROPENSITY_BIN_SECONDS;
        bins.push(b);
        if b >= top {
            top = b + 1;
        }
        proof {
            assert(keys.take(i + 1) =~= keys.take(i as int).push(b));
        }
        i = i + 1;
    }
    proof {
        assert(keys.take(i as int) =~= keys);
    }
    let (start, order) = group_rows(bins.as_slice(), top);
    let n = link_count as usize;
    let mut load: Vec<u128> = vec![0u128; n];
    let mut peak: Vec<u128> = vec![0u128; n];
    let mut used: Vec<bool> = vec![false; n];
    let mut b: u32 = 0;
    proof {
        assert forall|m: int| 0 <= m < n implies #[trigger] peak_upto(v, ts, m as u32, 0, peak@[m]) && used_upto(v, ts, m as u32, 0, used@[m]) by {
        }
    }
    while b < top
        invariant
            v == shortest@,
            ts == trips@,
            keys == bins_of(ts),
            bins@ == keys,
            crate::store::store_ok(v),
            forall|r: int| 0 <= r < v.routes.len() ==> (#[trigger] v.routes[r]).links.len() <= u32::MAX,
            forall|q: int, p: int| 0 <= q < v.routes.len() && 0 <= p < v.routes[q].links.len()
                ==> #[trigger] v.routes[q].links[p] < link_count,
            best@.len() == ts.len(),
            forall|q: int| 0 <= q < ts.len() ==> match #[trigger] best@[q] {
                Some(x) => best_route_of(v, ts[q].key) == Some(x as int) && x < v.routes.len(),
                None => best_route_of(v, ts[q].key) is None,
            },
            ts.len() <= u32::MAX,
            forall|q: int| 0 <= q < ts.len() ==> #[trigger] keys[q] < top,
            top <= 0xffff_ffffu32 / PROPENSITY_BIN_SECONDS + 1,
            start@.len() == top + 1,
            order@.len() == ts.len(),
            start@[top as int] == ts.len(),
            forall|a: int, c: int| 0 <= a <= c <= top ==> #[trigger] start@[a] <= #[trigger] start@[c],
            forall|k: int| 0 <= k < top ==> #[trigger] order@.subrange(start@[k] as int, start@[k + 1] as int) == rows_with(keys, k as u32),
            n == link_count,
            load@.len() == n,
            peak@.len() == n,
            used@.len() == n,
            b <= top,
            forall|m: int| 0 <= m < n ==> #[trigger] load@[m] == 0,
            forall|m: int| #![trigger peak@[m]] #![trigger used@[m]]
                0 <= m < n ==> peak_upto(v, ts, m as u32, b, peak@[m]) && used_upto(v, ts, m as u32, b, used@[m]),
        decreases top - b,
    {
        let lo = start[b as usize] as usize;
        let hi = start[b as usize + 1] as usize;
        let ghost rows = rows_with(keys, b);
        proof {
            assert(start@[b as int] <= start@[b + 1]);
            assert(start@[b + 1] <= start@[top as int]);
            assert(order@.subrange(lo as int, hi as int) == rows);
            lemma_rows_with_bounded(keys, b);
            assert(rows.len() == hi - lo);
            assert(rows.take(0) =~= Seq::<u32>::empty());
        }
        // the load of the bin
        let mut x: usize = lo;
        while x < hi
            invariant
                v == shortest@,
                ts == trips@,
                crate::store::store_ok(v),
                forall|r: int| 0 <= r < v.routes.len() ==> (#[trigger] v.routes[r]).links.len() <= u32::MAX,
                forall|q: int, p: int| 0 <= q < v.routes.len() && 0 <= p < v.routes[q].links.len()
                    ==> #[trigger] v.routes[q].links[p] < link_count,
                best@.len() == ts.len(),
                forall|q: int| 0 <= q < ts.len() ==> match #[trigger] best@[q] {
                    Some(x) => best_route_of(v, ts[q].key) == Some(x as int) && x < v.routes.len(),
                    None => best_route_of(v, ts[q].key) is None,
                },
                ts.len() <= u32::MAX,
                lo <= x <= hi <= order@.len(),
                order@.len() == ts.len(),
                order@.subrange(lo as int, hi as int) == rows,
                forall|j: int| 0 <= j < rows.len() ==> #[trigger] rows[j] < ts.len(),
                rows.len() <= ts.len(),
                n == link_count,
                load@.len() == n,
                forall|m: int| 0 <= m < n ==> #[trigger] load@[m] == rows_load(v, ts, rows.take(x - lo), m as u32),
            decreases hi - x,
        {
            let row = order[x] as usize;
            let ghost j = x - lo;
            proof {
                assert(order@.subrange(lo as int, hi as int)[j] == order@[x as int]);
                assert(rows[j] == row);
                assert(rows.take(j + 1).drop_last() =~= rows.take(j));
                assert(rows.take(j + 1).last() == row as u32);
            }
            match best[row] {
                Some(r) => {
                    let w = trips[row].weight;
                    let view = shortest.route(r);
                    let links = view.links;
                    proof {
                        assert(links@ == v.routes[r as int].links);
                        assert forall|m: int| 0 <= m < n implies #[trigger] load@[m] + w * occurrences(links@, m as u32) <= u128::MAX by {
                            assert(trip_uses(v, ts[row as int], m as u32) == occurrences(links@, m as u32));
                            assert(rows_load(v, ts, rows.take(j + 1), m as u32) == load@[m] + w * occurrences(links@, m as u32));
                            assert forall|jj: int| 0 <= jj < rows.take(j + 1).len() implies trip_uses(v, ts[#[trigger] rows.take(j + 1)[jj] as int], m as u32) <= u32::MAX by {
                                lemma_trip_uses_bounded(v, ts[rows.take(j + 1)[jj] as int], m as u32);
                            }
                            lemma_rows_load_bounded(v, ts, rows.take(j + 1), m as u32, u32::MAX as nat);
                            assert(rows.take(j + 1).len() <= u32::MAX);
                            assert(rows.take(j + 1).len() * (u32::MAX as nat) * (u32::MAX as nat) <= u128::MAX) by (nonlinear_arith)
                                requires rows.take(j + 1).len() <= u32::MAX;
                        }
                        assert forall|p: int| 0 <= p < links.len() implies (#[trigger] links@[p]) < load@.len() by {
                            assert(v.routes[r as int].links[p] < link_count);
                        }
                    }
                    add_route(&mut load, links, w);
                    proof {
                        assert forall|m: int| 0 <= m < n implies #[trigger] load@[m] == rows_load(v, ts, rows.take(j + 1), m as u32) by {
                            assert(trip_uses(v, ts[row as int], m as u32) == occurrences(links@, m as u32));
                        }
                    }
                },
                None => {
                    proof {
                        assert forall|m: int| 0 <= m < n implies #[trigger] load@[m] == rows_load(v, ts, rows.take(j + 1), m as u32) by {
                            assert(trip_uses(v, ts[row as int], m as u32) == 0);
                        }
                    }
                },
            }
            x = x + 1;
        }
        let ghost bin = load@;
        let ghost pb = peak@;
        let ghost ub = used@;
        proof {
            assert(rows.take(hi - lo) =~= rows);
            assert forall|m: int| 0 <= m < n implies #[trigger] bin[m] == bin_load(v, ts, b, m as u32) by {
            }
            assert forall|m: int| #![trigger load@[m]] #![trigger peak@[m]] #![trigger used@[m]]
                0 <= m < n implies flushed(if rows_touch(v, ts, rows.take(0), m as u32) { 1nat } else { 0nat }, bin[m], pb[m], ub[m], load@[m], peak@[m], used@[m]) by {
            }
        }
        // fold it into the peaks
        let mut x: usize = lo;
        while x < hi
            invariant
                v == shortest@,
                ts == trips@,
                crate::store::store_ok(v),
                forall|q: int, p: int| 0 <= q < v.routes.len() && 0 <= p < v.routes[q].links.len()
                    ==> #[trigger] v.routes[q].links[p] < link_count,
                best@.len() == ts.len(),
                forall|q: int| 0 <= q < ts.len() ==> match #[trigger] best@[q] {
                    Some(x) => best_route_of(v, ts[q].key) == Some(x as int) && x < v.routes.len(),
                    None => best_route_of(v, ts[q].key) is None,
                },
                lo <= x <= hi <= order@.len(),
                order@.len() == ts.len(),
                order@.subrange(lo as int, hi as int) == rows,
                forall|j: int| 0 <= j < rows.len() ==> #[trigger] rows[j] < ts.len(),
                n == link_count,
                n <= u32::MAX,
                load@.len() == n,
                peak@.len() == n,
                used@.len() == n,
                forall|m: int| #![trigger load@[m]] #![trigger peak@[m]] #![trigger used@[m]]
                    0 <= m < n ==> flushed(if rows_touch(v, ts, rows.take(x - lo), m as u32) { 1nat } else { 0nat },
                        bin[m], pb[m], ub[m], load@[m], peak@[m], used@[m]),
            decreases hi - x,
        {
            let row = order[x] as usize;
            let ghost j = x - lo;
            let ghost load0 = load@;
            let ghost peak0 = peak@;
            let ghost used0 = used@;
            proof {
                assert(order@.subrange(lo as int, hi as int)[j] == order@[x as int]);
                assert(rows[j] == row);
                assert(rows.take(j + 1).drop_last() =~= rows.take(j));
                assert(rows.take(j + 1).last() == row as u32);
            }
            match best[row] {
                Some(r) => {
                    let view = shortest.route(r);
                    let links = view.links;
                    proof {
                        assert(links@ == v.routes[r as int].links);
                        assert forall|p: int| 0 <= p < links.len() implies (#[trigger] links@[p]) < load@.len() by {
                            assert(v.routes[r as int].links[p] < link_count);
                        }
                    }
                    flush_route(&mut load, &mut peak, &mut used, links);
                    proof {
                        assert forall|m: int| #![trigger load@[m]] #![trigger peak@[m]] #![trigger used@[m]]
                            0 <= m < n implies flushed(if rows_touch(v, ts, rows.take(j + 1), m as u32) { 1nat } else { 0nat },
                                bin[m], pb[m], ub[m], load@[m], peak@[m], used@[m]) by {
                            assert(flushed(if rows_touch(v, ts, rows.take(j), m as u32) { 1nat } else { 0nat },
                                bin[m], pb[m], ub[m], load0[m], peak0[m], used0[m]));
                            assert(flushed(occurrences(links@, m as u32), load0[m], peak0[m], used0[m], load@[m], peak@[m], used@[m]));
                            assert(trip_uses(v, ts[row as int], m as u32) == occurrences(links@, m as u32));
                            let t1 = rows.take(j + 1);
                            if rows_touch(v, ts, rows.take(j), m as u32) {
                                let jj = choose|jj: int| 0 <= jj < rows.take(j).len() && trip_uses(v, ts[#[trigger] rows.take(j)[jj] as int], m as u32) > 0;
                                assert(t1[jj] == rows.take(j)[jj]);
                                assert(rows_touch(v, ts, t1, m as u32));
                            }
                            if occurrences(links@, m as u32) > 0 {
                                assert(t1[j] == row as u32);
                                assert(rows_touch(v, ts, t1, m as u32));
                            }
                            if rows_touch(v, ts, t1, m as u32) && !rows_touch(v, ts, rows.take(j), m as u32) {
                                let jj = choose|jj: int| 0 <= jj < t1.len() && trip_uses(v, ts[#[trigger] t1[jj] as int], m as u32) > 0;
                                if jj < j {
                                    assert(rows.take(j)[jj] == t1[jj]);
                                }
                            }
                        }
                    }
                },
                None => {
                    proof {
                        assert forall|m: int| #![trigger load@[m]] #![trigger peak@[m]] #![trigger used@[m]]
                            0 <= m < n implies flushed(if rows_touch(v, ts, rows.take(j + 1), m as u32) { 1nat } else { 0nat },
                                bin[m], pb[m], ub[m], load@[m], peak@[m], used@[m]) by {
                            assert(trip_uses(v, ts[row as int], m as u32) == 0);
                            let t1 = rows.take(j + 1);
                            if rows_touch(v, ts, rows.take(j), m as u32) {
                                let jj = choose|jj: int| 0 <= jj < rows.take(j).len() && trip_uses(v, ts[#[trigger] rows.take(j)[jj] as int], m as u32) > 0;
                                assert(t1[jj] == rows.take(j)[jj]);
                            }
                            if rows_touch(v, ts, t1, m as u32) {
                                let jj = choose|jj: int| 0 <= jj < t1.len() && trip_uses(v, ts[#[trigger] t1[jj] as int], m as u32) > 0;
                                if jj < j {
                                    assert(rows.take(j)[jj] == t1[jj]);
                                }
                            }
                        }
                    }
                },
            }
            x = x + 1;
        }
        proof {
            assert(rows.take(hi - lo) =~= rows);
            assert forall|m: int| 0 <= m < n implies #[trigger] load@[m] == 0 by {
                assert(flushed(if rows_touch(v, ts, rows, m as u32) { 1nat } else { 0nat }, bin[m], pb[m], ub[m], load@[m], peak@[m], used@[m]));
                if !rows_touch(v, ts, rows, m as u32) && bin[m] > 0 {
                    lemma_load_touch(v, ts, rows, m as u32);
                }
            }
            assert forall|m: int| #![trigger peak@[m]] #![trigger used@[m]]
                0 <= m < n implies peak_upto(v, ts, m as u32, (b + 1) as u32, peak@[m]) && used_upto(v, ts, m as u32, (b + 1) as u32, used@[m]) by {
                assert(flushed(if rows_touch(v, ts, rows, m as u32) { 1nat } else { 0nat }, bin[m], pb[m], ub[m], load@[m], peak@[m], used@[m]));
                if !rows_touch(v, ts, rows, m as u32) && bin[m] > 0 {
                    lemma_load_touch(v, ts, rows, m as u32);
                }
                assert(peak_upto(v, ts, m as u32, b, pb[m]) && used_upto(v, ts, m as u32, b, ub[m]));
                assert(peak@[m] == max_of(pb[m], bin[m]));
                assert(bin[m] == bin_load(v, ts, b, m as u32));
                assert forall|c: u32| c < b + 1 implies #[trigger] bin_load(v, ts, c, m as u32) <= peak@[m] by {
                    if c < b {
                        assert(bin_load(v, ts, c, m as u32) <= pb[m]);
                    }
                }
                if peak@[m] != 0 {
                    if pb[m] < bin[m] {
                        assert(bin_load(v, ts, b, m as u32) == peak@[m]);
                    } else {
                        let c = choose|c: u32| c < b && #[trigger] bin_load(v, ts, c, m as u32) == pb[m];
                        assert(bin_load(v, ts, c, m as u32) == peak@[m]);
                    }
                }
                lemma_touch_bin(v, ts, b, m as u32);
                assert(used@[m] == (ub[m] || rows_touch(v, ts, rows, m as u32)));
                if used@[m] {
                    if ub[m] {
                        let i = choose|i: int| 0 <= i < ts.len() && bins_of(ts)[i] < b && trip_uses(v, #[trigger] ts[i], m as u32) > 0;
                        assert(bins_of(ts)[i] < b + 1);
                    } else {
                        let i = choose|i: int| 0 <= i < ts.len() && bins_of(ts)[i] == b && trip_uses(v, #[trigger] ts[i], m as u32) > 0;
                        assert(bins_of(ts)[i] < b + 1);
                    }
                }
                if exists|i: int| 0 <= i < ts.len() && bins_of(ts)[i] < b + 1 && trip_uses(v, #[trigger] ts[i], m as u32) > 0 {
                    let i = choose|i: int| 0 <= i < ts.len() && bins_of(ts)[i] < b + 1 && trip_uses(v, #[trigger] ts[i], m as u32) > 0;
                    if bins_of(ts)[i] < b {
                        assert(ub[m]);
                    } else {
                        assert(rows_touch(v, ts, rows, m as u32));
                    }
                }
            }
        }
        b = b + 1;
    }
    proof {
        assert forall|l: int| 0 <= l < link_count implies #[trigger] is_peak(v, ts, l as u32, peak@[l]) by {
            assert(peak_upto(v, ts, l as u32, top, peak@[l]));
            assert forall|c: u32| #[trigger] bin_load(v, ts, c, l as u32) <= peak@[l] by {
                if c >= top {
                    lemma_rows_with_empty(keys, c);
                    assert(rows_with(keys, c) =~= Seq::<u32>::empty());
                }
            }
            if peak@[l] == 0 {
                let c: u32 = 0xffff_ffff;
                lemma_rows_with_empty(keys, c);
                assert(rows_with(keys, c) =~= Seq::<u32>::empty());
                assert(bin_load(v, ts, c, l as u32) == 0);
            }
        }
        assert forall|l: int| 0 <= l < link_count implies (#[trigger] used@[l] <==> link_used(v, ts, l as u32)) by {
            assert(used_upto(v, ts, l as u32, top, used@[l]));
            if link_used(v, ts, l as u32) {
                let i = choose|i: int| 0 <= i < ts.len() && trip_uses(v, #[trigger] ts[i], l as u32) > 0;
                assert(keys[i] < top);
            }
        }
    }
    (peak, used)
}

/// What trip `t` puts on link `l` in bin `b`: its weight times its route's uses of the link
/// if it leaves in the bin, nothing otherwise.
pub open spec fn share_of(v: StoreView, t: TripDemand, b: u32, l: u32) -> nat {
    if bin_of(t) == b {
        (t.weight as nat) * trip_uses(v, t, l)
    } else {
        0
    }
}

/// The load on link `l` of the trips leaving in bin `b`, summed trip by trip.
pub open spec fn load_of(v: StoreView, trips: Seq<TripDemand>, b: u32, l: u32) -> nat
    decreases trips.len(),
{
    if trips.len() == 0 {
        0
    } else {
        load_of(v, trips.drop_last(), b, l) + share_of(v, trips.last(), b, l)
    }
}

/// Rows that all lie before the last trip load the same with or without it.
proof fn lemma_rows_load_without_last(v: StoreView, trips: Seq<TripDemand>, rows: Seq<u32>, l: u32)
    requires
        trips.len() > 0,
        forall|j: int| 0 <= j < rows.len() ==> (#[trigger] rows[j] as int) < trips.len() - 1,
    ensures
        rows_load(v, trips, rows, l) == rows_load(v, trips.drop_last(), rows, l),
    decreases rows.len(),
{
    if rows.len() > 0 {
        assert forall|j: int| 0 <= j < rows.drop_last().len() implies (#[trigger] rows.drop_last()[j] as int) < trips.len() - 1 by {
            assert(rows.drop_last()[j] == rows[j]);
        }
        lemma_rows_load_without_last(v, trips, rows.drop_last(), l);
        assert(rows[rows.len() - 1] == rows.last());
        assert(trips.drop_last()[rows.last() as int] == trips[rows.last() as int]);
    }
}

/// A bin's load is the trip-by-trip sum of the trips' shares.
proof fn lemma_bin_load_is_sum(v: StoreView, trips: Seq<TripDemand>, b: u32, l: u32)
    requires
        trips.len() <= u32::MAX,
    ensures
        bin_load(v, trips, b, l) == load_of(v, trips, b, l),
    decreases trips.len(),
{
    if trips.len() > 0 {
        let d = trips.drop_last();
        let keys = bins_of(trips);
        assert(keys.drop_last() =~= bins_of(d));
        lemma_bin_load_is_sum(v, d, b, l);
        let rest = rows_with(bins_of(d), b);
        lemma_rows_with_bounded(bins_of(d), b);
        lemma_rows_load_without_last(v, trips, rest, l);
        if keys.last() == b {
            let x = (keys.len() - 1) as u32;
            assert(rows_with(keys, b) == rest + seq![x]);
            assert((rest + seq![x]).drop_last() =~= rest);
            assert((rest + seq![x]).last() == x);
            assert(trips[x as int] == trips.last());
        } else {
            assert(rows_with(keys, b) =~= rest);
        }
    }
}

/// Taking trip `j` out of a list takes its share out of the sum.
proof fn lemma_load_of_remove(v: StoreView, trips: Seq<TripDemand>, j: int, b: u32, l: u32)
    requires
        0 <= j < trips.len(),
    ensures
        load_of(v, trips, b, l) == load_of(v, trips.remove(j), b, l) + share_of(v, trips[j], b, l),
    decreases trips.len(),
{
    if j == trips.len() - 1 {
        assert(trips.remove(j) =~= trips.drop_last());
    } else {
        let d = trips.drop_last();
        lemma_load_of_remove(v, d, j, b, l);
        assert(trips.remove(j).drop_last() =~= d.remove(j));
        assert(trips.remove(j).last() == trips.last());
        assert(d[j] == trips[j]);
    }
}

/// The sum of the shares does not depend on the order of the trips.
proof fn lemma_load_of_permuted(v: StoreView, trips: Seq<TripDemand>, other: Seq<TripDemand>, b: u32, l: u32)
    requires
        trips.to_multiset() == other.to_multiset(),
    ensures
        load_of(v, trips, b, l) == load_of(v, other, b, l),
    decreases trips.len(),
{
    broadcast use vstd::seq_lib::group_to_multiset_ensures;
    broadcast use vstd::multiset::group_multiset_axioms;

    vstd::seq_lib::to_multiset_len(trips);
    vstd::seq_lib::to_multiset_len(other);
    if trips.len() == 0 {
        assert(other.len() == 0);
    } else {
        let x = trips.last();
        assert(trips.contains(x)) by {
            assert(trips[trips.len() - 1] == x);
        }
        vstd::seq_lib::to_multiset_contains(trips, x);
        vstd::seq_lib::to_multiset_contains(other, x);
        assert(other.contains(x));
        let j = choose|j: int| 0 <= j < other.len() && other[j] == x;
        let o2 = other.remove(j);
        let t2 = trips.drop_last();
        assert(t2 =~= trips.remove(trips.len() - 1));
        vstd::seq_lib::to_multiset_remove(trips, trips.len() - 1);
        vstd::seq_lib::to_multiset_remove(other, j);
        assert(t2.to_multiset() == o2.to_multiset());
        lemma_load_of_permuted(v, t2, o2, b, l);
        lemma_load_of_remove(v, other, j, b, l);
    }
}

/// The peaks do not depend on the order of the trips: two lists of the same trips, in any
/// order, load every link in every bin alike, use the same links, and so have the same peaks.
pub proof fn lemma_peaks_ignore_order(v: StoreView, trips: Seq<TripDemand>, other: Seq<TripDemand>)
    requires
        trips.to_multiset() == other.to_multiset(),
        trips.len() <= u32::MAX,
    ensures
        forall|b: u32, l: u32| #[trigger] bin_load(v, trips, b, l) == bin_load(v, other, b, l),
        forall|l: u32| #[trigger] link_used(v, trips, l) == link_used(v, other, l),
        forall|l: u32, m: u128| #[trigger] is_peak(v, trips, l, m) == is_peak(v, other, l, m),
{
    broadcast use vstd::seq_lib::group_to_multiset_ensures;

    vstd::seq_lib::to_multiset_len(trips);
    vstd::seq_lib::to_multiset_len(other);
    assert(other.len() == trips.len());
    assert forall|b: u32, l: u32| #[trigger] bin_load(v, trips, b, l) == bin_load(v, other, b, l) by {
        lemma_bin_load_is_sum(v, trips, b, l);
        lemma_bin_load_is_sum(v, other, b, l);
        lemma_load_of_permuted(v, trips, other, b, l);
    }
    assert forall|l: u32| #[trigger] link_used(v, trips, l) == link_used(v, other, l) by {
        if link_used(v, trips, l) {
            let i = choose|i: int| 0 <= i < trips.len() && trip_uses(v, #[trigger] trips[i], l) > 0;
            assert(trips.contains(trips[i]));
            vstd::seq_lib::to_multiset_contains(trips, trips[i]);
            vstd::seq_lib::to_multiset_contains(other, trips[i]);
            assert(other.contains(trips[i]));
            let k = choose|k: int| 0 <= k < other.len() && other[k] == trips[i];
            assert(trip_uses(v, other[k], l) > 0);
        }
        if link_used(v, other, l) {
            let i = choose|i: int| 0 <= i < other.len() && trip_uses(v, #[trigger] other[i], l) > 0;
            assert(other.contains(other[i]));
            vstd::seq_lib::to_multiset_contains(trips, other[i]);
            vstd::seq_lib::to_multiset_contains(other, other[i]);
            assert(trips.contains(other[i]));
            let k = choose|k: int| 0 <= k < trips.len() && trips[k] == other[i];
            assert(trip_uses(v, trips[k], l) > 0);
        }
    }
    assert forall|l: u32, m: u128| #[trigger] is_peak(v, trips, l, m) == is_peak(v, other, l, m) by {
        if is_peak(v, trips, l, m) {
            let b = choose|b: u32| #[trigger] bin_load(v, trips, b, l) == m;
            assert(bin_load(v, other, b, l) == m);
            assert forall|c: u32| #[trigger] bin_load(v, other, c, l) <= m by {
                assert(bin_load(v, trips, c, l) <= m);
            }
        }
        if is_peak(v, other, l, m) {
            let b = choose|b: u32| #[trigger] bin_load(v, other, b, l) == m;
            assert(bin_load(v, trips, b, l) == m);
            assert forall|c: u32| #[trigger] bin_load(v, trips, c, l) <= m by {
                assert(bin_load(v, other, c, l) <= m);
            }
        }
    }
}

/// A trip leaves in bin `b` exactly when it departs in the `b`-th half hour: from `b × 1800`
/// seconds up to, and not including, `(b + 1) × 1800`.
pub proof fn lemma_bins_are_half_hours(t: TripDemand, b: u32)
    ensures
        (bin_of(t) == b) <==> (b * 1800 <= t.departure < (b + 1) * 1800),
{
    assert(PROPENSITY_BIN_SECONDS == 1800);
    let q = t.departure / 1800;
    assert(q * 1800 <= t.departure < (q + 1) * 1800);
    if b * 1800 <= t.departure < (b + 1) * 1800 {
        if b < q {
            assert(b + 1 <= q);
            assert((b + 1) * 1800 <= q * 1800) by (nonlinear_arith) requires b + 1 <= q;
        } else if b > q {
            assert(q + 1 <= b);
            assert((q + 1) * 1800 <= b * 1800) by (nonlinear_arith) requires q + 1 <= b;
        }
    }
}

/// The load on link `l` of the trips that depart in the `b`-th half hour, trip by trip.
pub open spec fn half_hour_load(v: StoreView, trips: Seq<TripDemand>, b: u32, l: u32) -> nat
    decreases trips.len(),
{
    if trips.len() == 0 {
        0
    } else {
        half_hour_load(v, trips.drop_last(), b, l) + if b * 1800 <= trips.last().departure < (b + 1) * 1800 {
            (trips.last().weight as nat) * trip_uses(v, trips.last(), l)
        } else {
            0
        }
    }
}

/// A bin's load is what the trips departing in its half hour put on the link: two trips
/// leaving in the same half hour add up in one bin, and no other trip counts there.
pub proof fn lemma_bin_load_is_half_hour_load(v: StoreView, trips: Seq<TripDemand>, b: u32, l: u32)
    requires
        trips.len() <= u32::MAX,
    ensures
        bin_load(v, trips, b, l) == half_hour_load(v, trips, b, l),
{
    lemma_bin_load_is_sum(v, trips, b, l);
    lemma_load_of_half_hours(v, trips, b, l);
}

/// The trip-by-trip sum by bins is the sum by half hours.
proof fn lemma_load_of_half_hours(v: StoreView, trips: Seq<TripDemand>, b: u32, l: u32)
    ensures
        load_of(v, trips, b, l) == half_hour_load(v, trips, b, l),
    decreases trips.len(),
{
    if trips.len() > 0 {
        lemma_load_of_half_hours(v, trips.drop_last(), b, l);
        lemma_bins_are_half_hours(trips.last(), b);
    }
}

} // verus!
