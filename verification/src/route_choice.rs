//! Route choice, the parts that are not arithmetic on travel times: which route a trip
//! takes is a number into the store, or "no route"; a route's identity in a choice is a
//! hash of its links, nudged so that no two routes of one set share one; and when the
//! sets grow, every trip's route is renumbered so that it keeps the route it had.

use vstd::prelude::*;

use crate::hash::{fnv_fold, le_bytes_u32, lemma_fold_concat, Fnv1a, FNV_OFFSET_BASIS};
use crate::rng::{pack, DrawAddress};
use crate::store::{keeps_routes, routes_of, RouteKey, RouteSets, StoreView};

verus! {

/// "No route": a trip with no set, or whose origin and destination are one node.
pub const NO_ROUTE: u32 = 0xffff_ffffu32;

/// The key that marks a draw made to pick the trips for the network-wide gap.
pub const GAP_SAMPLE_KEY: u32 = 0xffff_ffffu32;

/// The first bit of every key that marks a floor draw: a fresh sample from the model's
/// probabilities, independent of every draw the run itself uses.
pub const FLOOR_KEY: u32 = 0x8000_0000u32;

/// The bytes a route's links are hashed as: each link id, little-endian.
pub open spec fn links_bytes(links: Seq<u32>) -> Seq<u8>
    decreases links.len(),
{
    if links.len() == 0 {
        Seq::empty()
    } else {
        links_bytes(links.drop_last()) + le_bytes_u32(links.last())
    }
}

/// A 64-bit hash folded into 32 bits: its two halves xor-ed.
pub open spec fn fold_halves(v: u64) -> u32 {
    ((v ^ (v >> 32u64)) % 0x1_0000_0000u64) as u32
}

/// The identity of a route with these links.
pub open spec fn route_identity_spec(links: Seq<u32>) -> u32 {
    fold_halves(fnv_fold(FNV_OFFSET_BASIS, links_bytes(links)))
}

/// The identity of a route: a 32-bit hash of its links, so it does not change when other
/// routes are added to or removed from the set.
pub fn route_identity(links: &[u32]) -> (r: u32)
    ensures
        r == route_identity_spec(links@),
{
    let mut h = Fnv1a::new();
    let mut i: usize = 0;
    while i < links.len()
        invariant
            i <= links.len(),
            h@ == fnv_fold(FNV_OFFSET_BASIS, links_bytes(links@.take(i as int))),
        decreases links.len() - i,
    {
        let ghost before = h@;
        h.write_u32(links[i]);
        proof {
            let t = links@.take(i + 1);
            assert(t.drop_last() =~= links@.take(i as int));
            assert(t.last() == links@[i as int]);
            lemma_fold_concat(FNV_OFFSET_BASIS, links_bytes(links@.take(i as int)), le_bytes_u32(links@[i as int]));
        }
        i = i + 1;
    }
    proof {
        assert(links@.take(i as int) =~= links@);
    }
    let v = h.finish();
    let folded = v ^ (v >> 32);
    (folded % 0x1_0000_0000) as u32
}

/// `h + t`, wrapping at 32 bits.
pub open spec fn wrap_add(h: u32, t: int) -> u32 {
    ((h + t) % 0x1_0000_0000) as u32
}

/// Whether `id` is what the identity `h` becomes among the identities `taken`: the first of
/// `h`, `h + 1`, ... (wrapping) that none of them holds.
pub open spec fn nudged_from(taken: Seq<u32>, h: u32, id: u32) -> bool {
    exists|t: nat| #![trigger wrap_add(h, t as int)]
        wrap_add(h, t as int) == id && !taken.contains(id)
            && forall|u: nat| u < t ==> taken.contains(#[trigger] wrap_add(h, u as int))
}

/// If `m + 1` consecutive values (wrapping) all occur in `taken`, it holds at least `m + 1`
/// entries.
proof fn lemma_consecutive_in(taken: Seq<u32>, h: u32, m: nat)
    requires
        m < 0x1_0000_0000,
        forall|t: nat| t <= m ==> taken.contains(#[trigger] wrap_add(h, t as int)),
    ensures
        taken.len() >= m + 1,
    decreases m,
{
    assert(taken.contains(wrap_add(h, m as int)));
    let at = choose|i: int| 0 <= i < taken.len() && taken[i] == wrap_add(h, m as int);
    if m > 0 {
        let rest = taken.remove(at);
        assert forall|t: nat| t <= (m - 1) as nat implies rest.contains(#[trigger] wrap_add(h, t as int)) by {
            assert(taken.contains(wrap_add(h, t as int)));
            let i = choose|i: int| 0 <= i < taken.len() && taken[i] == wrap_add(h, t as int);
            assert(wrap_add(h, t as int) != wrap_add(h, m as int));
            if i < at {
                assert(rest[i] == taken[i]);
            } else {
                assert(i != at);
                assert(rest[i - 1] == taken[i]);
            }
        }
        lemma_consecutive_in(rest, h, (m - 1) as nat);
    }
}

/// Whether `x` is among `v[lo..hi]`.
fn holds(v: &Vec<u32>, lo: usize, hi: usize, x: u32) -> (r: bool)
    requires
        lo <= hi <= v.len(),
    ensures
        r == v@.subrange(lo as int, hi as int).contains(x),
{
    let mut i: usize = lo;
    while i < hi
        invariant
            lo <= i <= hi <= v.len(),
            forall|q: int| lo <= q < i ==> v@[q] != x,
        decreases hi - i,
    {
        if v[i] == x {
            proof {
                assert(v@.subrange(lo as int, hi as int)[i - lo] == x);
            }
            return true;
        }
        i = i + 1;
    }
    proof {
        if v@.subrange(lo as int, hi as int).contains(x) {
            let k = choose|k: int| 0 <= k < hi - lo && v@.subrange(lo as int, hi as int)[k] == x;
            assert(v@[lo + k] == x);
        }
    }
    false
}

/// Whether `ids` gives every route of the set of the key at `k` its identity: its links'
/// hash, nudged to the first value no earlier route of the set holds.
pub open spec fn set_nudged(v: StoreView, ids: Seq<u32>, k: int) -> bool {
    forall|r: int| v.set_start[k] <= r < v.set_start[k + 1] ==>
        nudged_from(ids.subrange(v.set_start[k] as int, r), route_identity_spec(v.routes[r].links), #[trigger] ids[r])
}

/// Whether `ids` gives every route of the store its identity.
pub open spec fn identities_ok(v: StoreView, ids: Seq<u32>) -> bool {
    &&& ids.len() == v.routes.len()
    &&& forall|k: int| 0 <= k < v.keys.len() ==> #[trigger] set_nudged(v, ids, k)
}

impl RouteSets {
    /// Every route's identity: the hash of its links, nudged (in the vanishingly rare case of
    /// a clash) so that within each set no two routes share one.
    pub fn identities(&self) -> (r: Vec<u32>)
        ensures
            identities_ok(self@, r@),
            forall|k: int, a: int, b: int| #![trigger self@.set_start[k], r@[a], r@[b]]
                0 <= k < self@.keys.len() && self@.set_start[k] <= a < b < self@.set_start[k + 1] ==> r@[a] != r@[b],
    {
        self.check_consistent();
        let count = self.route_count();
        let mut ids: Vec<u32> = Vec::new();
        let mut r: usize = 0;
        while r < count
            invariant
                count == self@.routes.len(),
                r <= count,
                ids@.len() == r,
                forall|q: int| 0 <= q < r ==> #[trigger] ids@[q] == route_identity_spec(self@.routes[q].links),
            decreases count - r,
        {
            let view = self.route(r);
            ids.push(route_identity(view.links));
            r = r + 1;
        }
        let n = self.keys().len();
        let mut k: usize = 0;
        proof {
            assert(self@.set_start[n as int] == count);
        }
        while k < n
            invariant
                crate::store::store_ok(self@),
                n == self@.keys.len(),
                count == self@.routes.len(),
                count <= 0xffff_ffff,
                k <= n,
                ids@.len() == count,
                forall|q: int| self@.set_start[k as int] <= q < count ==> #[trigger] ids@[q] == route_identity_spec(self@.routes[q].links),
                forall|kk: int| 0 <= kk < k ==> #[trigger] set_nudged(self@, ids@, kk),
            decreases n - k,
        {
            let (lo, hi) = self.route_range(k);
            let mut q: usize = lo;
            while q < hi
                invariant
                    crate::store::store_ok(self@),
                    n == self@.keys.len(),
                    count == self@.routes.len(),
                    count <= 0xffff_ffff,
                    k < n,
                    lo == self@.set_start[k as int],
                    hi == self@.set_start[k + 1],
                    lo <= q <= hi <= count,
                    ids@.len() == count,
                    forall|p: int| q <= p < count ==> #[trigger] ids@[p] == route_identity_spec(self@.routes[p].links),
                    forall|kk: int| 0 <= kk < k ==> #[trigger] set_nudged(self@, ids@, kk),
                    forall|p: int| lo <= p < q ==>
                        nudged_from(ids@.subrange(lo as int, p), route_identity_spec(self@.routes[p].links), #[trigger] ids@[p]),
                decreases hi - q,
            {
                let h = ids[q];
                let ghost taken = ids@.subrange(lo as int, q as int);
                let mut id = h;
                let mut tries: usize = 0;
                proof {
                    assert(wrap_add(h, 0) == h);
                }
                while holds(&ids, lo, q, id)
                    invariant
                        lo <= q < hi <= count,
                        count <= 0xffff_ffff,
                        ids@.len() == count,
                        taken == ids@.subrange(lo as int, q as int),
                        tries <= q - lo,
                        id == wrap_add(h, tries as int),
                        forall|u: nat| u < tries ==> taken.contains(#[trigger] wrap_add(h, u as int)),
                    decreases q - lo - tries,
                {
                    proof {
                        if tries == q - lo {
                            assert forall|u: nat| u <= tries implies taken.contains(#[trigger] wrap_add(h, u as int)) by {
                                if u < tries {
                                } else {
                                    assert(u == tries);
                                }
                            }
                            lemma_consecutive_in(taken, h, tries as nat);
                        }
                    }
                    id = id.wrapping_add(1);
                    proof {
                        assert(wrap_add(h, tries + 1) == id);
                    }
                    tries = tries + 1;
                }
                let ghost before = ids@;
                ids.set(q, id);
                proof {
                    assert(ids@.subrange(lo as int, q as int) =~= taken);
                    assert(nudged_from(taken, h, id)) by {
                        assert(wrap_add(h, tries as nat as int) == id);
                    }
                    assert forall|kk: int| 0 <= kk < k implies #[trigger] set_nudged(self@, ids@, kk) by {
                        assert(set_nudged(self@, before, kk));
                        assert(self@.set_start[kk + 1] <= self@.set_start[k as int]);
                        assert forall|p: int| self@.set_start[kk] <= p < self@.set_start[kk + 1] implies
                            nudged_from(ids@.subrange(self@.set_start[kk] as int, p), route_identity_spec(self@.routes[p].links), #[trigger] ids@[p]) by {
                            assert(ids@.subrange(self@.set_start[kk] as int, p) =~= before.subrange(self@.set_start[kk] as int, p));
                            assert(ids@[p] == before[p]);
                        }
                    }
                    assert forall|p: int| lo <= p < q + 1 implies
                        nudged_from(ids@.subrange(lo as int, p), route_identity_spec(self@.routes[p].links), #[trigger] ids@[p]) by {
                        if p < q {
                            assert(ids@.subrange(lo as int, p) =~= before.subrange(lo as int, p));
                        }
                    }
                }
                q = q + 1;
            }
            proof {
                assert(self@.set_start[k as int] <= self@.set_start[k + 1]);
                assert(set_nudged(self@, ids@, k as int));
            }
            k = k + 1;
        }
        proof {
            assert forall|kk: int, a: int, b: int| #![trigger self@.set_start[kk], ids@[a], ids@[b]]
                0 <= kk < self@.keys.len() && self@.set_start[kk] <= a < b < self@.set_start[kk + 1]
                implies ids@[a] != ids@[b] by {
                let lo = self@.set_start[kk] as int;
                assert(set_nudged(self@, ids@, kk));
                assert(nudged_from(ids@.subrange(lo, b), route_identity_spec(self@.routes[b].links), ids@[b]));
                assert(ids@.subrange(lo, b)[a - lo] == ids@[a]);
            }
        }
        ids
    }
}

/// The address of the draw that decides whether trip `trip` is in the sample tested against
/// the whole network.
pub fn gap_sample_address(trip: u32) -> (r: DrawAddress)
    ensures
        r@ == (pack(trip, GAP_SAMPLE_KEY), 0u64),
{
    DrawAddress::from_pair(trip, GAP_SAMPLE_KEY)
}

/// The address of the floor draw of a trip's situation at `iteration`: keyed on the
/// traveller, the trip, the floor bit with the iteration, and 0.
pub fn floor_draw_address(traveller: u32, trip: u32, iteration: u32) -> (r: DrawAddress)
    ensures
        r@ == (pack(traveller, trip), pack(FLOOR_KEY | iteration, 0)),
{
    DrawAddress::from_quad(traveller, trip, FLOOR_KEY | iteration, 0)
}

/// The key at `q` whose routes hold route `r`, given that the key's range holds it.
pub open spec fn key_holds(v: StoreView, q: int, r: int) -> bool {
    0 <= q < v.keys.len() && v.set_start[q] <= r < v.set_start[q + 1]
}

/// Whether `new` is route `r` moved by the shift of the key whose set holds it.
pub open spec fn renumbered(v: StoreView, shift: Seq<u32>, r: u32, new: u32) -> bool {
    exists|q: int| #[trigger] key_holds(v, q, r as int) && new == r + shift[q]
}

/// Whether `n` is the number of routes in the set of `key`.
pub open spec fn set_size_of(v: StoreView, key: RouteKey, n: u32) -> bool {
    exists|q: int| 0 <= q < v.keys.len() && #[trigger] v.keys[q] == key && n == v.set_start[q + 1] - v.set_start[q]
}

/// Renumber every trip's route after the sets grew: `shift` is what extending the store
/// `previous` into `grown` gave. A trip keeps the route it had, under its new number, and its
/// number of alternatives becomes the size of its pair's grown set. Trips with no route
/// keep [`NO_ROUTE`] and their count.
pub fn renumber_choices(
    route: &mut Vec<u32>,
    alternatives: &mut Vec<u32>,
    previous: &RouteSets,
    shift: &[u32],
    grown: &RouteSets,
    trip_keys: &[RouteKey],
)
    requires
        old(alternatives)@.len() == old(route)@.len(),
        trip_keys@.len() >= old(route)@.len(),
        shift@.len() == previous@.keys.len(),
        forall|t: int| 0 <= t < old(route)@.len() && #[trigger] old(route)@[t] != NO_ROUTE ==> {
            &&& old(route)@[t] < previous@.routes.len()
            &&& forall|q: int| key_holds(previous@, q, old(route)@[t] as int) ==> old(route)@[t] + shift@[q] < NO_ROUTE
            &&& grown@.keys.contains(trip_keys@[t])
            &&& forall|q: int| 0 <= q < grown@.keys.len() && grown@.keys[q] == trip_keys@[t] ==> grown@.set_start[q + 1] - grown@.set_start[q] <= u32::MAX
        },
    ensures
        final(route)@.len() == old(route)@.len(),
        final(alternatives)@.len() == old(alternatives)@.len(),
        forall|t: int| 0 <= t < old(route)@.len() && #[trigger] old(route)@[t] == NO_ROUTE ==>
            final(route)@[t] == NO_ROUTE && final(alternatives)@[t] == old(alternatives)@[t],
        forall|t: int| 0 <= t < old(route)@.len() && #[trigger] old(route)@[t] != NO_ROUTE ==> {
            &&& renumbered(previous@, shift@, old(route)@[t], final(route)@[t])
            &&& set_size_of(grown@, trip_keys@[t], final(alternatives)@[t])
        },
{
    previous.check_consistent();
    grown.check_consistent();
    let n = route.len();
    let mut t: usize = 0;
    while t < n
        invariant
            n == old(route)@.len(),
            route@.len() == n,
            alternatives@.len() == n,
            old(alternatives)@.len() == n,
            trip_keys@.len() >= n,
            shift@.len() == previous@.keys.len(),
            crate::store::store_ok(previous@),
            crate::store::store_ok(grown@),
            t <= n,
            forall|u: int| 0 <= u < n && #[trigger] old(route)@[u] != NO_ROUTE ==> {
                &&& old(route)@[u] < previous@.routes.len()
                &&& forall|q: int| key_holds(previous@, q, old(route)@[u] as int) ==> old(route)@[u] + shift@[q] < NO_ROUTE
                &&& grown@.keys.contains(trip_keys@[u])
                &&& forall|q: int| 0 <= q < grown@.keys.len() && grown@.keys[q] == trip_keys@[u] ==> grown@.set_start[q + 1] - grown@.set_start[q] <= u32::MAX
            },
            forall|u: int| t <= u < n ==> route@[u] == old(route)@[u] && alternatives@[u] == old(alternatives)@[u],
            forall|u: int| 0 <= u < t && #[trigger] old(route)@[u] == NO_ROUTE ==>
                route@[u] == NO_ROUTE && alternatives@[u] == old(alternatives)@[u],
            forall|u: int| 0 <= u < t && #[trigger] old(route)@[u] != NO_ROUTE ==> {
                &&& renumbered(previous@, shift@, old(route)@[u], route@[u])
                &&& set_size_of(grown@, trip_keys@[u], alternatives@[u])
            },
        decreases n - t,
    {
        let r = route[t];
        if r != NO_ROUTE {
            let k = previous.key_of_route(r as usize);
            proof {
                assert(k < previous@.keys.len()) by {
                    if k == previous@.keys.len() {
                        assert(previous@.set_start[k as int] == previous@.routes.len());
                    }
                }
                assert(previous@.set_start[k + 1] > r) by {
                    if previous@.set_start[k + 1] <= r {
                        assert(k + 1 <= previous@.keys.len());
                    }
                }
                assert(key_holds(previous@, k as int, r as int));
            }
            let moved = r + shift[k];
            route.set(t, moved);
            match grown.key_index(trip_keys[t]) {
                Some(g) => {
                    let (lo, hi) = grown.route_range(g);
                    alternatives.set(t, (hi - lo) as u32);
                    proof {
                        assert(key_holds(previous@, k as int, r as int) && route@[t as int] == old(route)@[t as int] + shift@[k as int]);
                        assert(grown@.keys[g as int] == trip_keys@[t as int]);
                        assert(renumbered(previous@, shift@, old(route)@[t as int], route@[t as int]));
                        assert(set_size_of(grown@, trip_keys@[t as int], alternatives@[t as int]));
                    }
                },
                None => {
                    proof {
                        assert(false);
                    }
                },
            }
        }
        t = t + 1;
    }
}

/// A trip keeps its route when the sets grow: if extending `before` into `grown` moved every
/// route by its key's `shift`, a route number renumbered by its key's shift is the same
/// route in the grown store.
pub proof fn lemma_renumbered_route_kept(before: StoreView, grown: StoreView, shift: Seq<u32>, r: u32, new: u32)
    requires
        crate::store::store_ok(before),
        keeps_routes(before, grown, shift),
        renumbered(before, shift, r, new),
    ensures
        grown.routes[new as int] == before.routes[r as int],
{
    let q = choose|q: int| #[trigger] key_holds(before, q, r as int) && new == r + shift[q];
    let j = r - before.set_start[q];
    assert(before.set_start[q + 1] <= before.set_start[before.keys.len() as int]);
    assert(0 <= j < routes_of(before, q).len());
    assert(grown.routes[before.set_start[q] + j + shift[q]] == before.routes[before.set_start[q] + j]);
}

} // verus!
