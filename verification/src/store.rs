//! The route-set store: every route of every origin–destination key, flat.
//!
//! Routes are one flat array of link ids with offsets (CSR); a key's routes are a range of
//! route numbers; per-route metadata (cost, overlap, the iteration that added the route)
//! lives in parallel arrays. Costs and overlaps are kept as the bit patterns of the `f32`
//! values the store holds, so the store is plain integers. A store can be extended with
//! routes found later: a key's new routes go after its old ones, and every route that
//! already has a number keeps it but for a fixed shift per key.

use vstd::prelude::*;

use crate::hash::{fnv_fold, le_bytes_u64, lemma_fold_concat, Fnv1a, FNV_OFFSET_BASIS};
use crate::ids::{utf8, EntityId, NodeId};

verus! {

/// What a set of routes is keyed by: an origin and a destination node.
#[derive(Clone, Copy, PartialEq, Eq, PartialOrd, Ord, Hash, Debug, Structural)]
pub struct RouteKey {
    /// The origin node's id.
    pub origin: u32,
    /// The destination node's id.
    pub destination: u32,
}

impl RouteKey {
    /// The key for a pair of nodes.
    pub fn new(origin: NodeId, destination: NodeId) -> (r: RouteKey)
        ensures
            r.origin == origin.raw_value(),
            r.destination == destination.raw_value(),
    {
        RouteKey { origin: origin.raw(), destination: destination.raw() }
    }
}

/// The order of keys: by origin, then by destination.
pub open spec fn pair_lt(a: RouteKey, b: RouteKey) -> bool {
    a.origin < b.origin || (a.origin == b.origin && a.destination < b.destination)
}

/// Whether keys are strictly increasing, so each occurs once.
pub open spec fn keys_sorted(keys: Seq<RouteKey>) -> bool {
    forall|i: int, j: int| 0 <= i < j < keys.len() ==> pair_lt(#[trigger] keys[i], #[trigger] keys[j])
}

/// A route as the store holds it: its links, the bits of its `f32` cost and overlap, and
/// the iteration that added it (0 for a route the generator made).
pub struct RouteSpec {
    pub links: Seq<u32>,
    pub cost: u32,
    pub overlap: u32,
    pub stamp: u32,
}

/// A route to be stored: its links as raw link ids in driving order, and the bits of its
/// `f32` free-flow cost and overlap.
#[derive(Clone, Debug)]
pub struct StoredRoute {
    /// The links, as raw link ids.
    pub links: Vec<u32>,
    /// The bits of the route's free-flow travel time in seconds, as an `f32`.
    pub cost_bits: u32,
    /// The bits of the route's largest share of cost with a route found before it, as an `f32`.
    pub overlap_bits: u32,
}

/// The spec of a stored route, with the stamp it is stored under.
pub open spec fn stored_spec(r: StoredRoute, stamp: u32) -> RouteSpec {
    RouteSpec { links: r.links@, cost: r.cost_bits, overlap: r.overlap_bits, stamp }
}

/// Every route's links, end to end.
pub open spec fn all_links(routes: Seq<RouteSpec>) -> Seq<u32>
    decreases routes.len(),
{
    if routes.len() == 0 {
        Seq::empty()
    } else {
        all_links(routes.drop_last()) + routes.last().links
    }
}

/// Routes in flat arrays: route `r` is `links[route_start[r]..route_start[r + 1]]`.
#[derive(Debug)]
struct RouteArrays {
    route_start: Vec<u32>,
    links: Vec<u32>,
    cost: Vec<u32>,
    overlap: Vec<u32>,
    stamp: Vec<u32>,
}

impl RouteArrays {
    /// Whether the offsets bracket the links and the arrays agree in length.
    spec fn ok(&self) -> bool {
        &&& self.route_start@.len() == self.cost@.len() + 1
        &&& self.overlap@.len() == self.cost@.len()
        &&& self.stamp@.len() == self.cost@.len()
        &&& self.route_start@[0] == 0
        &&& forall|i: int, j: int| 0 <= i <= j < self.route_start@.len() ==> #[trigger] self.route_start@[i] <= #[trigger] self.route_start@[j]
        &&& self.route_start@[self.cost@.len() as int] == self.links@.len()
    }

    /// The routes the arrays hold.
    spec fn routes(&self) -> Seq<RouteSpec> {
        Seq::new(self.cost@.len(), |r: int| RouteSpec {
            links: self.links@.subrange(self.route_start@[r] as int, self.route_start@[r + 1] as int),
            cost: self.cost@[r],
            overlap: self.overlap@[r],
            stamp: self.stamp@[r],
        })
    }

    fn new() -> (r: RouteArrays)
        ensures
            r.ok(),
            r.routes() == Seq::<RouteSpec>::empty(),
            r.links@ == Seq::<u32>::empty(),
    {
        let mut route_start: Vec<u32> = Vec::new();
        route_start.push(0);
        let r = RouteArrays { route_start, links: Vec::new(), cost: Vec::new(), overlap: Vec::new(), stamp: Vec::new() };
        proof {
            assert(r.routes() =~= Seq::<RouteSpec>::empty());
        }
        r
    }

    fn len(&self) -> (r: usize)
        requires
            self.ok(),
        ensures
            r == self.routes().len(),
    {
        self.cost.len()
    }

    /// Append one route.
    fn push_route(&mut self, links: &[u32], cost: u32, overlap: u32, stamp: u32)
        requires
            old(self).ok(),
            old(self).links@.len() + links@.len() <= u32::MAX,
        ensures
            final(self).ok(),
            final(self).routes() == old(self).routes().push(RouteSpec { links: links@, cost, overlap, stamp }),
            final(self).links@ == old(self).links@ + links@,
    {
        let ghost old_links = self.links@;
        let ghost old_starts = self.route_start@;
        let mut i: usize = 0;
        while i < links.len()
            invariant
                i <= links.len(),
                self.links@ == old_links + links@.subrange(0, i as int),
                self.route_start@ == old_starts,
                self.cost@ == old(self).cost@,
                self.overlap@ == old(self).overlap@,
                self.stamp@ == old(self).stamp@,
                old_links.len() + links@.len() <= u32::MAX,
            decreases links.len() - i,
        {
            self.links.push(links[i]);
            proof {
                assert(links@.subrange(0, i + 1) =~= links@.subrange(0, i as int).push(links@[i as int]));
            }
            i = i + 1;
        }
        proof {
            assert(links@.subrange(0, i as int) =~= links@);
        }
        let end = self.links.len() as u32;
        self.route_start.push(end);
        self.cost.push(cost);
        self.overlap.push(overlap);
        self.stamp.push(stamp);
        proof {
            let n = old(self).cost@.len() as int;
            assert forall|a: int, b: int| 0 <= a <= b < self.route_start@.len() implies #[trigger] self.route_start@[a] <= #[trigger] self.route_start@[b] by {
                if b == n + 1 {
                    if a < n + 1 {
                        assert(old_starts[a] <= old_starts[n]);
                    }
                } else {
                    assert(old_starts[a] <= old_starts[b]);
                }
            }
            let r = self.routes();
            let o = old(self).routes();
            assert(r.len() == n + 1);
            assert(o.len() == n);
            assert forall|q: int| 0 <= q < n implies #[trigger] r[q] == o[q] by {
                assert(old_starts[q] <= old_starts[q + 1]);
                assert(old_starts[q + 1] <= old_starts[n]);
                assert(self.route_start@[q] == old_starts[q]);
                assert(self.route_start@[q + 1] == old_starts[q + 1]);
                assert(self.cost@[q] == old(self).cost@[q]);
                assert(self.overlap@[q] == old(self).overlap@[q]);
                assert(self.stamp@[q] == old(self).stamp@[q]);
                assert(self.links@.subrange(old_starts[q] as int, old_starts[q + 1] as int) =~= old_links.subrange(old_starts[q] as int, old_starts[q + 1] as int));
            }
            assert(self.links@.subrange(old_starts[n] as int, end as int) =~= links@);
            assert(r[n] == RouteSpec { links: links@, cost, overlap, stamp });
            assert(r =~= o.push(RouteSpec { links: links@, cost, overlap, stamp }));
        }
    }
}


/// Routes of several keys, end to end, key by key.
pub open spec fn concat_sets(sets: Seq<Seq<RouteSpec>>) -> Seq<RouteSpec>
    decreases sets.len(),
{
    if sets.len() == 0 {
        Seq::empty()
    } else {
        concat_sets(sets.drop_last()) + sets.last()
    }
}

/// A store as the contracts see it: its keys, where each key's routes start, and every
/// route by number.
pub struct StoreView {
    pub keys: Seq<RouteKey>,
    pub set_start: Seq<u32>,
    pub routes: Seq<RouteSpec>,
}

/// The routes of the key at `k`.
pub open spec fn routes_of(v: StoreView, k: int) -> Seq<RouteSpec> {
    v.routes.subrange(v.set_start[k] as int, v.set_start[k + 1] as int)
}

/// The routes of many keys.
#[derive(Debug)]
pub struct RouteSets {
    network: u64,
    method: String,
    descriptor: String,
    update: String,
    keys: Vec<RouteKey>,
    set_start: Vec<u32>,
    arrays: RouteArrays,
}

impl View for RouteSets {
    type V = StoreView;

    closed spec fn view(&self) -> StoreView {
        StoreView { keys: self.keys@, set_start: self.set_start@, routes: self.arrays.routes() }
    }
}

/// Whether `v` is a store: keys strictly increasing, each key's routes a range of route
/// numbers, the ranges one after another from 0 to the last route.
pub open spec fn store_ok(v: StoreView) -> bool {
    &&& keys_sorted(v.keys)
    &&& v.set_start.len() == v.keys.len() + 1
    &&& v.set_start[0] == 0
    &&& forall|i: int, j: int| 0 <= i <= j < v.set_start.len() ==> #[trigger] v.set_start[i] <= #[trigger] v.set_start[j]
    &&& v.set_start[v.keys.len() as int] == v.routes.len()
}

impl RouteSets {
    #[verifier::type_invariant]
    spec fn consistent(self) -> bool {
        &&& self.arrays.ok()
        &&& store_ok(self@)
    }

    /// The fingerprint of the network the store was made from.
    pub closed spec fn network_spec(&self) -> u64 {
        self.network
    }

    /// The name of the method that made the store.
    pub closed spec fn method_spec(&self) -> Seq<char> {
        self.method@
    }

    /// The method's descriptor.
    pub closed spec fn descriptor_spec(&self) -> Seq<char> {
        self.descriptor@
    }

    /// The descriptor of the update that grew the store, empty if none did.
    pub closed spec fn update_spec(&self) -> Seq<char> {
        self.update@
    }

    /// Every store's view is a store, and no route has more links than a `u32` counts.
    pub fn check_consistent(&self)
        ensures
            store_ok(self@),
            forall|r: int| 0 <= r < self@.routes.len() ==> (#[trigger] self@.routes[r]).links.len() <= u32::MAX,
    {
        proof {
            use_type_invariant(self);
            assert forall|r: int| 0 <= r < self@.routes.len() implies (#[trigger] self@.routes[r]).links.len() <= u32::MAX by {
                assert(self.arrays.route_start@[r] <= self.arrays.route_start@[r + 1]);
                assert(self.arrays.route_start@[r + 1] <= self.arrays.route_start@[self.arrays.cost@.len() as int]);
            }
        }
    }

    /// The name of the method that made this store.
    pub fn method(&self) -> (r: &str)
        ensures
            r@ == self.method_spec(),
    {
        self.method.as_str()
    }

    /// The method's descriptor: its name and every option.
    pub fn descriptor(&self) -> (r: &str)
        ensures
            r@ == self.descriptor_spec(),
    {
        self.descriptor.as_str()
    }

    /// The descriptor of the update that grew these sets after they were generated; empty
    /// for a store as its method made it.
    pub fn update(&self) -> (r: &str)
        ensures
            r@ == self.update_spec(),
    {
        self.update.as_str()
    }

    /// Whether this store was made from the network with fingerprint `network`.
    pub fn matches(&self, network: u64) -> (r: bool)
        ensures
            r == (self.network_spec() == network),
    {
        self.network == network
    }

    /// The keys, sorted.
    pub fn keys(&self) -> (r: &[RouteKey])
        ensures
            r@ == self@.keys,
    {
        self.keys.as_slice()
    }

    /// How many routes in all.
    pub fn route_count(&self) -> (r: usize)
        ensures
            r == self@.routes.len(),
    {
        proof {
            use_type_invariant(self);
        }
        self.arrays.len()
    }

    /// The route numbers of the key at `key_index`: `start..end`.
    pub fn route_range(&self, key_index: usize) -> (r: (usize, usize))
        requires
            key_index < self@.keys.len(),
        ensures
            r.0 == self@.set_start[key_index as int],
            r.1 == self@.set_start[key_index + 1],
            r.0 <= r.1 <= self@.routes.len(),
    {
        proof {
            use_type_invariant(self);
            assert(self@.set_start[key_index + 1] <= self@.set_start[self@.keys.len() as int]);
        }
        let n = self.set_start.len();
        assert(key_index + 1 < n);
        (self.set_start[key_index] as usize, self.set_start[key_index + 1] as usize)
    }

    /// Every route's links, one flat array.
    pub closed spec fn link_array(&self) -> Seq<u32> {
        self.arrays.links@
    }

    /// `route_count + 1` offsets into [`Self::links`].
    pub closed spec fn route_starts(&self) -> Seq<u32> {
        self.arrays.route_start@
    }

    /// Route `r`'s links are `links[route_start[r]..route_start[r + 1]]`, and the offsets
    /// bracket the flat array.
    pub proof fn lemma_route_links(&self, r: int)
        requires
            0 <= r < self@.routes.len(),
        ensures
            self@.routes[r].links == self.link_array().subrange(self.route_starts()[r] as int, self.route_starts()[r + 1] as int),
    {
    }

    /// Every route's links, one flat array; route `r` is
    /// `links[route_start[r]..route_start[r + 1]]`.
    pub fn links(&self) -> (r: &[u32])
        ensures
            r@ == self.link_array(),
    {
        self.arrays.links.as_slice()
    }

    /// `route_count + 1` offsets into [`Self::links`].
    pub fn route_start(&self) -> (r: &[u32])
        ensures
            r@ == self.route_starts(),
            r@.len() == self@.routes.len() + 1,
            r@[0] == 0,
            r@[self@.routes.len() as int] == self.link_array().len(),
    {
        proof {
            use_type_invariant(self);
        }
        self.arrays.route_start.as_slice()
    }

    /// `keys + 1` offsets into the routes.
    pub fn set_start(&self) -> (r: &[u32])
        ensures
            r@ == self@.set_start,
    {
        self.set_start.as_slice()
    }

    /// Every route's cost in seconds, as the bits of an `f32`.
    pub fn costs(&self) -> (r: &[u32])
        ensures
            r@ == self@.routes.map_values(|x: RouteSpec| x.cost),
    {
        proof {
            assert(self.arrays.cost@ =~= self@.routes.map_values(|x: RouteSpec| x.cost));
        }
        self.arrays.cost.as_slice()
    }

    /// Every route's overlap with the routes found before it, as the bits of an `f32`.
    pub fn overlaps(&self) -> (r: &[u32])
        ensures
            r@ == self@.routes.map_values(|x: RouteSpec| x.overlap),
    {
        proof {
            use_type_invariant(self);
            assert(self.arrays.overlap@ =~= self@.routes.map_values(|x: RouteSpec| x.overlap));
        }
        self.arrays.overlap.as_slice()
    }

    /// Every route's stamp: 0 for a route the generator made, otherwise the iteration that
    /// added it.
    pub fn stamps(&self) -> (r: &[u32])
        ensures
            r@ == self@.routes.map_values(|x: RouteSpec| x.stamp),
    {
        proof {
            use_type_invariant(self);
            assert(self.arrays.stamp@ =~= self@.routes.map_values(|x: RouteSpec| x.stamp));
        }
        self.arrays.stamp.as_slice()
    }
}


/// Concatenating the routes of two runs of keys is concatenating their concatenations.
proof fn lemma_concat_sets_add(a: Seq<Seq<RouteSpec>>, b: Seq<Seq<RouteSpec>>)
    ensures
        concat_sets(a + b) == concat_sets(a) + concat_sets(b),
    decreases b.len(),
{
    if b.len() == 0 {
        assert(a + b =~= a);
        assert(concat_sets(a) + concat_sets(b) =~= concat_sets(a));
    } else {
        lemma_concat_sets_add(a, b.drop_last());
        assert((a + b).drop_last() =~= a + b.drop_last());
        assert((a + b).last() == b.last());
        assert(concat_sets(a) + concat_sets(b) =~= concat_sets(a) + concat_sets(b.drop_last()) + b.last());
    }
}

/// In the routes of several keys end to end, key `k`'s routes stand between the routes of
/// the keys before it and those of the keys up to it.
proof fn lemma_concat_sets_slice(sets: Seq<Seq<RouteSpec>>, k: int)
    requires
        0 <= k < sets.len(),
    ensures
        concat_sets(sets.take(k + 1)) == concat_sets(sets.take(k)) + sets[k],
        concat_sets(sets).subrange(concat_sets(sets.take(k)).len() as int, concat_sets(sets.take(k + 1)).len() as int) == sets[k],
{
    assert(sets.take(k + 1).drop_last() =~= sets.take(k));
    assert(sets.take(k + 1).last() == sets[k]);
    assert(sets =~= sets.take(k + 1) + sets.skip(k + 1));
    lemma_concat_sets_add(sets.take(k + 1), sets.skip(k + 1));
    let a = concat_sets(sets.take(k));
    assert((a + sets[k] + concat_sets(sets.skip(k + 1))).subrange(a.len() as int, (a.len() + sets[k].len()) as int) =~= sets[k]);
}

/// The links of two runs of routes are the links of each, end to end.
proof fn lemma_all_links_add(a: Seq<RouteSpec>, b: Seq<RouteSpec>)
    ensures
        all_links(a + b) == all_links(a) + all_links(b),
    decreases b.len(),
{
    if b.len() == 0 {
        assert(a + b =~= a);
        assert(all_links(a) + all_links(b) =~= all_links(a));
    } else {
        lemma_all_links_add(a, b.drop_last());
        assert((a + b).drop_last() =~= a + b.drop_last());
        assert((a + b).last() == b.last());
        assert(all_links(a) + all_links(b) =~= all_links(a) + all_links(b.drop_last()) + b.last().links);
    }
}

/// The routes of a list of stored routes, under one stamp.
pub open spec fn specs_of(routes: Seq<StoredRoute>, stamp: u32) -> Seq<RouteSpec> {
    routes.map_values(|r: StoredRoute| stored_spec(r, stamp))
}

/// The routes of each key, as generated: stamp 0.
pub open spec fn generated_sets(per_key: Seq<Vec<StoredRoute>>) -> Seq<Seq<RouteSpec>> {
    per_key.map_values(|rs: Vec<StoredRoute>| specs_of(rs@, 0))
}

impl RouteArrays {
    /// The links array is every route's links, end to end.
    spec fn links_are_routes(&self) -> bool {
        self.links@ == all_links(self.routes())
    }
}

impl RouteSets {
    /// A store from routes already generated: `per_key[k]` are the routes of `keys[k]`,
    /// best first. Keys are strictly increasing, and the links and the routes fit the
    /// `u32` id space.
    pub fn from_generated(network: u64, method: &str, descriptor: &str, keys: Vec<RouteKey>, per_key: Vec<Vec<StoredRoute>>) -> (r: RouteSets)
        requires
            keys_sorted(keys@),
            per_key.len() == keys.len(),
            concat_sets(generated_sets(per_key@)).len() <= u32::MAX,
            all_links(concat_sets(generated_sets(per_key@))).len() <= u32::MAX,
        ensures
            r@.keys == keys@,
            r@.routes == concat_sets(generated_sets(per_key@)),
            forall|k: int| 0 <= k <= keys.len() ==> #[trigger] r@.set_start[k] == concat_sets(generated_sets(per_key@).take(k)).len(),
            forall|k: int| 0 <= k < keys.len() ==> #[trigger] routes_of(r@, k) == specs_of(per_key@[k]@, 0),
            r.network_spec() == network,
            r.method_spec() == method@,
            r.descriptor_spec() == descriptor@,
            r.update_spec() == Seq::<char>::empty(),
    {
        let ghost ps = generated_sets(per_key@);
        let ghost total = concat_sets(ps);
        let mut arrays = RouteArrays::new();
        let mut set_start: Vec<u32> = Vec::new();
        set_start.push(0);
        let mut k: usize = 0;
        proof {
            assert(ps.take(0) =~= Seq::<Seq<RouteSpec>>::empty());
            assert(arrays.links@ =~= all_links(arrays.routes()));
        }
        while k < per_key.len()
            invariant
                ps == generated_sets(per_key@),
                total == concat_sets(ps),
                total.len() <= u32::MAX,
                all_links(total).len() <= u32::MAX,
                per_key.len() == keys.len(),
                k <= per_key.len(),
                arrays.ok(),
                arrays.links_are_routes(),
                arrays.routes() == concat_sets(ps.take(k as int)),
                set_start@.len() == k + 1,
                forall|q: int| 0 <= q <= k ==> #[trigger] set_start@[q] == concat_sets(ps.take(q)).len(),
            decreases per_key.len() - k,
        {
            let routes = &per_key[k];
            let ghost before = concat_sets(ps.take(k as int));
            proof {
                assert(ps.take(k + 1) =~= ps.take(k as int).push(ps[k as int]));
                assert(ps.take(k + 1).drop_last() =~= ps.take(k as int));
                assert(ps.take(k + 1).last() == ps[k as int]);
                assert(ps =~= ps.take(k + 1) + ps.skip(k + 1));
                lemma_concat_sets_add(ps.take(k + 1), ps.skip(k + 1));
                lemma_all_links_add(concat_sets(ps.take(k + 1)), concat_sets(ps.skip(k + 1)));
                assert(ps[k as int] == specs_of(routes@, 0));
            }
            let mut j: usize = 0;
            while j < routes.len()
                invariant
                    ps == generated_sets(per_key@),
                    k < per_key.len(),
                    ps.len() == per_key.len(),
                    routes@ == per_key@[k as int]@,
                    ps[k as int] == specs_of(routes@, 0),
                    before == concat_sets(ps.take(k as int)),
                    concat_sets(ps.take(k + 1)) == before + ps[k as int],
                    total == concat_sets(ps.take(k + 1)) + concat_sets(ps.skip(k + 1)),
                    all_links(total) == all_links(concat_sets(ps.take(k + 1))) + all_links(concat_sets(ps.skip(k + 1))),
                    total.len() <= u32::MAX,
                    all_links(total).len() <= u32::MAX,
                    j <= routes.len(),
                    arrays.ok(),
                    arrays.links_are_routes(),
                    arrays.routes() == before + ps[k as int].take(j as int),
                decreases routes.len() - j,
            {
                let route = &routes[j];
                let ghost x = stored_spec(*route, 0);
                proof {
                    assert(ps[k as int][j as int] == x);
                    let pre = before + ps[k as int].take(j as int);
                    assert(ps[k as int].take(j + 1) =~= ps[k as int].take(j as int).push(x));
                    assert(before + ps[k as int] =~= pre.push(x) + ps[k as int].skip(j + 1));
                    lemma_all_links_add(pre.push(x), ps[k as int].skip(j + 1));
                    assert(pre.push(x).drop_last() =~= pre);
                    assert(all_links(pre.push(x)) == all_links(pre) + x.links);
                }
                arrays.push_route(route.links.as_slice(), route.cost_bits, route.overlap_bits, 0);
                proof {
                    assert(before + ps[k as int].take(j + 1) =~= (before + ps[k as int].take(j as int)).push(x));
                }
                j = j + 1;
            }
            proof {
                assert(ps[k as int].take(j as int) =~= ps[k as int]);
                assert(arrays.routes() == concat_sets(ps.take(k + 1)));
                assert(concat_sets(ps.take(k + 1)).len() <= total.len());
            }
            let count = arrays.len() as u32;
            set_start.push(count);
            k = k + 1;
        }
        proof {
            assert(ps.take(k as int) =~= ps);
            assert forall|a: int, b: int| 0 <= a <= b < set_start@.len() implies #[trigger] set_start@[a] <= #[trigger] set_start@[b] by {
                assert(ps.take(b) =~= ps.take(a) + ps.subrange(a, b));
                lemma_concat_sets_add(ps.take(a), ps.subrange(a, b));
            }
            assert forall|q: int| 0 <= q < keys.len() implies #[trigger] concat_sets(ps).subrange(set_start@[q] as int, set_start@[q + 1] as int) == specs_of(per_key@[q]@, 0) by {
                lemma_concat_sets_slice(ps, q);
            }
        }
        RouteSets {
            network,
            method: method.to_owned(),
            descriptor: descriptor.to_owned(),
            update: String::new(),
            keys,
            set_start,
            arrays,
        }
    }
}


/// Whether additions name keys in strictly increasing order, all below `n`.
pub open spec fn additions_ok(adds: Seq<(usize, Vec<StoredRoute>)>, n: int) -> bool {
    &&& forall|i: int, j: int| 0 <= i < j < adds.len() ==> (#[trigger] adds[i]).0 < (#[trigger] adds[j]).0
    &&& forall|i: int| 0 <= i < adds.len() ==> (#[trigger] adds[i]).0 < n
}

/// The routes the additions give key `k`, stamped `stamp`: none if no addition names it.
pub open spec fn added_for(adds: Seq<(usize, Vec<StoredRoute>)>, k: int, stamp: u32) -> Seq<RouteSpec> {
    if exists|i: int| 0 <= i < adds.len() && (#[trigger] adds[i]).0 == k {
        let i = choose|i: int| 0 <= i < adds.len() && (#[trigger] adds[i]).0 == k;
        specs_of(adds[i].1@, stamp)
    } else {
        Seq::empty()
    }
}

/// Each key's routes after an extension: its old routes, then those added to it.
pub open spec fn grown_sets(v: StoreView, adds: Seq<(usize, Vec<StoredRoute>)>, stamp: u32) -> Seq<Seq<RouteSpec>> {
    Seq::new(v.keys.len(), |k: int| routes_of(v, k) + added_for(adds, k, stamp))
}

/// Whether every route of `before` is a route of `after`, moved by its key's `shift`: route
/// `j` of the key at `k` in `before` is route `set_start[k] + j + shift[k]` of `after`.
pub open spec fn keeps_routes(before: StoreView, after: StoreView, shift: Seq<u32>) -> bool {
    forall|k: int, j: int| 0 <= k < before.keys.len() && 0 <= j < routes_of(before, k).len() ==>
        after.routes[before.set_start[k] + j + #[trigger] shift[k]] == #[trigger] before.routes[before.set_start[k] + j]
}

impl RouteSets {
    /// These sets with routes added to some keys: `additions` are `(key index, routes)` in
    /// strictly increasing key order; a key's new routes go after its old ones, in the
    /// order given, each stamped `stamp`. `update` names what found them and becomes part
    /// of the new store's identity.
    ///
    /// Returns the new store and, per key, how many routes were added to the keys before
    /// it: route `r` of key `k` of this store is route `r + shift[k]` of the new one.
    pub fn extended(&self, additions: &[(usize, Vec<StoredRoute>)], stamp: u32, update: &str) -> (r: (RouteSets, Vec<u32>))
        requires
            additions_ok(additions@, self@.keys.len() as int),
            concat_sets(grown_sets(self@, additions@, stamp)).len() <= u32::MAX,
            all_links(concat_sets(grown_sets(self@, additions@, stamp))).len() <= u32::MAX,
        ensures
            r.0@.keys == self@.keys,
            r.0@.routes == concat_sets(grown_sets(self@, additions@, stamp)),
            forall|k: int| 0 <= k <= self@.keys.len() ==> #[trigger] r.0@.set_start[k] == concat_sets(grown_sets(self@, additions@, stamp).take(k)).len(),
            r.1@.len() == self@.keys.len(),
            forall|k: int| 0 <= k < self@.keys.len() ==> #[trigger] r.1@[k] == r.0@.set_start[k] - self@.set_start[k],
            forall|k: int| 0 <= k < self@.keys.len() ==> #[trigger] routes_of(r.0@, k) == routes_of(self@, k) + added_for(additions@, k, stamp),
            keeps_routes(self@, r.0@, r.1@),
            r.0.network_spec() == self.network_spec(),
            r.0.method_spec() == self.method_spec(),
            r.0.descriptor_spec() == self.descriptor_spec(),
            r.0.update_spec() == update@,
    {
        proof {
            use_type_invariant(self);
        }
        let ghost v = self@;
        let ghost adds = additions@;
        let ghost gs = grown_sets(v, adds, stamp);
        let ghost total = concat_sets(gs);
        let n = self.keys.len();
        let mut arrays = RouteArrays::new();
        let mut set_start: Vec<u32> = Vec::new();
        set_start.push(0);
        let mut shift: Vec<u32> = Vec::new();
        let mut before: u32 = 0;
        let mut next: usize = 0;
        let mut k: usize = 0;
        proof {
            assert(gs.take(0) =~= Seq::<Seq<RouteSpec>>::empty());
            assert(arrays.links@ =~= all_links(arrays.routes()));
        }
        while k < n
            invariant
                v == self@,
                store_ok(v),
                self.arrays.ok(),
                n == v.keys.len(),
                adds == additions@,
                additions_ok(adds, n as int),
                gs == grown_sets(v, adds, stamp),
                gs.len() == n,
                total == concat_sets(gs),
                total.len() <= u32::MAX,
                all_links(total).len() <= u32::MAX,
                k <= n,
                arrays.ok(),
                arrays.links_are_routes(),
                arrays.routes() == concat_sets(gs.take(k as int)),
                set_start@.len() == k + 1,
                forall|q: int| 0 <= q <= k ==> #[trigger] set_start@[q] == concat_sets(gs.take(q)).len(),
                shift@.len() == k,
                forall|q: int| 0 <= q < k ==> #[trigger] shift@[q] == set_start@[q] - v.set_start[q],
                before + v.set_start[k as int] == arrays.routes().len(),
                next <= adds.len(),
                forall|i: int| 0 <= i < next ==> (#[trigger] adds[i]).0 < k,
                forall|i: int| next <= i < adds.len() ==> (#[trigger] adds[i]).0 >= k,
            decreases n - k,
        {
            shift.push(before);
            let ghost prefix = concat_sets(gs.take(k as int));
            proof {
                assert(gs.take(k + 1) =~= gs.take(k as int).push(gs[k as int]));
                assert(gs.take(k + 1).drop_last() =~= gs.take(k as int));
                assert(gs =~= gs.take(k + 1) + gs.skip(k + 1));
                lemma_concat_sets_add(gs.take(k + 1), gs.skip(k + 1));
                lemma_all_links_add(concat_sets(gs.take(k + 1)), concat_sets(gs.skip(k + 1)));
                assert(v.set_start[k as int] <= v.set_start[k + 1]);
                assert(v.set_start[k + 1] <= v.set_start[n as int]);
            }
            let (lo, hi) = self.route_range(k);
            let mut r: usize = lo;
            while r < hi
                invariant
                    v == self@,
                    store_ok(v),
                    self.arrays.ok(),
                    k < n,
                    n == v.keys.len(),
                    gs == grown_sets(v, adds, stamp),
                    gs.len() == n,
                    lo == v.set_start[k as int],
                    hi == v.set_start[k + 1],
                    lo <= r <= hi <= v.routes.len(),
                    prefix == concat_sets(gs.take(k as int)),
                    concat_sets(gs.take(k + 1)) == prefix + gs[k as int],
                    gs[k as int] == routes_of(v, k as int) + added_for(adds, k as int, stamp),
                    total == concat_sets(gs.take(k + 1)) + concat_sets(gs.skip(k + 1)),
                    all_links(total) == all_links(concat_sets(gs.take(k + 1))) + all_links(concat_sets(gs.skip(k + 1))),
                    total.len() <= u32::MAX,
                    all_links(total).len() <= u32::MAX,
                    arrays.ok(),
                    arrays.links_are_routes(),
                    arrays.routes() == prefix + v.routes.subrange(lo as int, r as int),
                decreases hi - r,
            {
                let a = self.arrays.route_start[r] as usize;
                let b = self.arrays.route_start[r + 1] as usize;
                proof {
                    assert(self.arrays.route_start@[r as int] <= self.arrays.route_start@[r + 1]);
                    assert(self.arrays.route_start@[r + 1] <= self.arrays.route_start@[v.routes.len() as int]);
                }
                let links = vstd::slice::slice_subrange(self.arrays.links.as_slice(), a, b);
                let ghost x = v.routes[r as int];
                proof {
                    assert(links@ == x.links);
                    let pre = prefix + v.routes.subrange(lo as int, r as int);
                    let rk = routes_of(v, k as int);
                    assert(rk[r - lo] == x);
                    assert(gs[k as int] =~= v.routes.subrange(lo as int, r as int).push(x) + (v.routes.subrange(r + 1, hi as int) + added_for(adds, k as int, stamp)));
                    assert(prefix + gs[k as int] =~= pre.push(x) + (v.routes.subrange(r + 1, hi as int) + added_for(adds, k as int, stamp)));
                    lemma_all_links_add(pre.push(x), v.routes.subrange(r + 1, hi as int) + added_for(adds, k as int, stamp));
                    assert(pre.push(x).drop_last() =~= pre);
                }
                arrays.push_route(links, self.arrays.cost[r], self.arrays.overlap[r], self.arrays.stamp[r]);
                proof {
                    assert(prefix + v.routes.subrange(lo as int, r + 1) =~= (prefix + v.routes.subrange(lo as int, r as int)).push(x));
                }
                r = r + 1;
            }
            let ghost mid = arrays.routes();
            proof {
                assert(mid == prefix + routes_of(v, k as int));
                assert(mid.len() == before + v.set_start[k + 1]);
                assert(concat_sets(gs.take(k + 1)).len() <= total.len());
            }
            if next < additions.len() && additions[next].0 == k {
                let ghost idx = next as int;
                proof {
                    assert(exists|i: int| 0 <= i < adds.len() && (#[trigger] adds[i]).0 == k);
                    let c = choose|i: int| 0 <= i < adds.len() && (#[trigger] adds[i]).0 == k;
                    if c != idx {
                        if c < idx {
                            assert(adds[c].0 < adds[idx].0);
                        } else {
                            assert(adds[idx].0 < adds[c].0);
                        }
                    }
                    assert(added_for(adds, k as int, stamp) == specs_of(adds[idx].1@, stamp));
                }
                let routes = &additions[next].1;
                let mut j: usize = 0;
                while j < routes.len()
                    invariant
                        k < n,
                        gs == grown_sets(v, adds, stamp),
                        gs.len() == n,
                        routes@ == adds[idx].1@,
                        added_for(adds, k as int, stamp) == specs_of(routes@, stamp),
                        mid == prefix + routes_of(v, k as int),
                        concat_sets(gs.take(k + 1)) == prefix + gs[k as int],
                        gs[k as int] == routes_of(v, k as int) + added_for(adds, k as int, stamp),
                        total == concat_sets(gs.take(k + 1)) + concat_sets(gs.skip(k + 1)),
                        all_links(total) == all_links(concat_sets(gs.take(k + 1))) + all_links(concat_sets(gs.skip(k + 1))),
                        total.len() <= u32::MAX,
                        all_links(total).len() <= u32::MAX,
                        j <= routes.len(),
                        arrays.ok(),
                        arrays.links_are_routes(),
                        arrays.routes() == mid + specs_of(routes@, stamp).take(j as int),
                        store_ok(v),
                        n == v.keys.len(),
                        before + v.set_start[k + 1] == arrays.routes().len(),
                        arrays.routes().len() <= total.len(),
                    decreases routes.len() - j,
                {
                    let route = &routes[j];
                    let ghost x = stored_spec(*route, stamp);
                    let ghost added = specs_of(routes@, stamp);
                    proof {
                        assert(added[j as int] == x);
                        let pre = mid + added.take(j as int);
                        assert(prefix + gs[k as int] =~= pre.push(x) + added.skip(j + 1));
                        lemma_all_links_add(pre.push(x), added.skip(j + 1));
                        assert(pre.push(x).drop_last() =~= pre);
                        assert(pre.push(x).len() <= (prefix + gs[k as int]).len());
                        lemma_concat_sets_add(gs.take(k + 1), gs.skip(k + 1));
                    }
                    arrays.push_route(route.links.as_slice(), route.cost_bits, route.overlap_bits, stamp);
                    proof {
                        assert(mid + added.take(j + 1) =~= (mid + added.take(j as int)).push(x));
                    }
                    before = before + 1;
                    j = j + 1;
                }
                proof {
                    assert(specs_of(routes@, stamp).take(j as int) =~= specs_of(routes@, stamp));
                }
                next = next + 1;
            } else {
                proof {
                    assert forall|i: int| 0 <= i < adds.len() implies (#[trigger] adds[i]).0 != k by {
                        if i >= next {
                            if next < adds.len() && i > next {
                                assert(adds[next as int].0 < adds[i].0);
                            }
                        }
                    }
                    assert(added_for(adds, k as int, stamp) =~= Seq::<RouteSpec>::empty());
                    assert(gs[k as int] =~= routes_of(v, k as int));
                }
            }
            proof {
                assert(arrays.routes() == concat_sets(gs.take(k + 1)));
                assert(concat_sets(gs.take(k + 1)).len() <= total.len());
                assert(routes_of(v, k as int).len() == v.set_start[k + 1] - v.set_start[k as int]);
            }
            let count = arrays.len() as u32;
            set_start.push(count);
            k = k + 1;
        }
        proof {
            assert(gs.take(k as int) =~= gs);
            assert forall|a: int, b: int| 0 <= a <= b < set_start@.len() implies #[trigger] set_start@[a] <= #[trigger] set_start@[b] by {
                assert(gs.take(b) =~= gs.take(a) + gs.subrange(a, b));
                lemma_concat_sets_add(gs.take(a), gs.subrange(a, b));
            }
        }
        proof {
            assert forall|q: int| 0 <= q < n implies #[trigger] concat_sets(gs).subrange(set_start@[q] as int, set_start@[q + 1] as int) == gs[q] by {
                lemma_concat_sets_slice(gs, q);
            }
            assert forall|q: int, j: int| 0 <= q < n && 0 <= j < routes_of(v, q).len() implies
                concat_sets(gs)[v.set_start[q] + j + #[trigger] shift@[q]] == #[trigger] v.routes[v.set_start[q] + j] by {
                lemma_concat_sets_slice(gs, q);
                assert(set_start@[q] == concat_sets(gs.take(q)).len());
                assert(set_start@[q + 1] == concat_sets(gs.take(q + 1)).len());
                assert(shift@[q] == set_start@[q] - v.set_start[q]);
                assert(v.set_start[q] <= v.set_start[q + 1]);
                assert(gs[q] == routes_of(v, q) + added_for(adds, q, stamp));
                assert(gs[q][j] == routes_of(v, q)[j]);
                assert(v.set_start[q + 1] <= v.set_start[n as int]);
                assert(routes_of(v, q)[j] == v.routes[v.set_start[q] + j]);
                assert(set_start@[q + 1] <= set_start@[n as int]);
                assert(set_start@[n as int] == concat_sets(gs).len());
                assert(concat_sets(gs).subrange(set_start@[q] as int, set_start@[q + 1] as int)[j] == gs[q][j]);
            }
        }
        let out = RouteSets {
            network: self.network,
            method: self.method.clone(),
            descriptor: self.descriptor.clone(),
            update: update.to_owned(),
            keys: self.keys.clone(),
            set_start,
            arrays,
        };
        (out, shift)
    }
}


/// One route as the store holds it.
#[derive(Clone, Copy, Debug)]
pub struct RouteView<'a> {
    /// The links, as raw link ids, in driving order.
    pub links: &'a [u32],
    /// The bits of the route's free-flow travel time in seconds, as an `f32`.
    pub cost_bits: u32,
    /// The bits of the largest share of its cost shared with a route found before it.
    pub overlap_bits: u32,
}

/// Whether `v` shows route `r`.
pub open spec fn shows(v: RouteView, r: RouteSpec) -> bool {
    &&& v.links@ == r.links
    &&& v.cost_bits == r.cost
    &&& v.overlap_bits == r.overlap
}

/// The bytes a store of this shape holds: 8 per key (two `u32`), 4 per offset and per link,
/// and 12 per route (cost, overlap and stamp).
pub open spec fn store_bytes(keys: nat, routes: nat, links: nat) -> nat {
    8 * keys + 4 * ((keys + 1) + (routes + 1) + links) + 12 * routes
}

/// The bytes `"+update:"`, which mark where an update's descriptor starts in an identity.
pub open spec fn update_marker() -> Seq<u8> {
    seq![0x2bu8, 0x75u8, 0x70u8, 0x64u8, 0x61u8, 0x74u8, 0x65u8, 0x3au8]
}

/// What a store's identity hashes: the network fingerprint (little-endian), the
/// descriptor, and, if the store was grown, the marker and the update's descriptor.
pub open spec fn identity_bytes(network: u64, descriptor: Seq<u8>, update: Seq<u8>) -> Seq<u8> {
    le_bytes_u64(network) + descriptor + if update.len() == 0 {
        Seq::empty()
    } else {
        update_marker() + update
    }
}

impl RouteSets {
    /// The position of `key` among the keys, if it has a set.
    pub fn key_index(&self, key: RouteKey) -> (r: Option<usize>)
        ensures
            match r {
                Some(i) => i < self@.keys.len() && self@.keys[i as int] == key,
                None => !self@.keys.contains(key),
            },
    {
        proof {
            use_type_invariant(self);
        }
        let mut lo: usize = 0;
        let mut hi: usize = self.keys.len();
        while lo < hi
            invariant
                lo <= hi <= self.keys@.len(),
                keys_sorted(self.keys@),
                forall|i: int| 0 <= i < lo ==> pair_lt(#[trigger] self.keys@[i], key),
                forall|i: int| hi <= i < self.keys@.len() ==> pair_lt(key, #[trigger] self.keys@[i]),
            decreases hi - lo,
        {
            let mid = lo + (hi - lo) / 2;
            let m = self.keys[mid];
            if m.origin < key.origin || (m.origin == key.origin && m.destination < key.destination) {
                proof {
                    assert forall|i: int| 0 <= i < mid + 1 implies pair_lt(#[trigger] self.keys@[i], key) by {
                        if i < mid {
                            assert(pair_lt(self.keys@[i], self.keys@[mid as int]));
                        }
                    }
                }
                lo = mid + 1;
            } else if m.origin == key.origin && m.destination == key.destination {
                return Some(mid);
            } else {
                proof {
                    assert forall|i: int| mid <= i < self.keys@.len() implies pair_lt(key, #[trigger] self.keys@[i]) by {
                        if i > mid {
                            assert(pair_lt(self.keys@[mid as int], self.keys@[i]));
                        }
                    }
                }
                hi = mid;
            }
        }
        proof {
            if self.keys@.contains(key) {
                let i = choose|i: int| 0 <= i < self.keys@.len() && self.keys@[i] == key;
                assert(pair_lt(self.keys@[i], key) || pair_lt(key, self.keys@[i]));
            }
        }
        None
    }

    /// Route number `route`.
    pub fn route(&self, route: usize) -> (v: RouteView<'_>)
        requires
            route < self@.routes.len(),
        ensures
            shows(v, self@.routes[route as int]),
    {
        proof {
            use_type_invariant(self);
            assert(self.arrays.route_start@[route as int] <= self.arrays.route_start@[route + 1]);
            assert(self.arrays.route_start@[route + 1] <= self.arrays.route_start@[self.arrays.cost@.len() as int]);
        }
        let a = self.arrays.route_start[route] as usize;
        let b = self.arrays.route_start[route + 1] as usize;
        RouteView {
            links: vstd::slice::slice_subrange(self.arrays.links.as_slice(), a, b),
            cost_bits: self.arrays.cost[route],
            overlap_bits: self.arrays.overlap[route],
        }
    }

    /// The routes of the key at `key_index`, best first.
    pub fn routes(&self, key_index: usize) -> (r: Vec<RouteView<'_>>)
        requires
            key_index < self@.keys.len(),
        ensures
            r@.len() == routes_of(self@, key_index as int).len(),
            forall|j: int| 0 <= j < r@.len() ==> shows(#[trigger] r@[j], routes_of(self@, key_index as int)[j]),
    {
        let (lo, hi) = self.route_range(key_index);
        let mut out: Vec<RouteView<'_>> = Vec::new();
        let mut r: usize = lo;
        while r < hi
            invariant
                lo <= r <= hi <= self@.routes.len(),
                lo == self@.set_start[key_index as int],
                hi == self@.set_start[key_index + 1],
                out@.len() == r - lo,
                forall|j: int| 0 <= j < out@.len() ==> shows(#[trigger] out@[j], self@.routes[lo + j]),
            decreases hi - r,
        {
            let v = self.route(r);
            out.push(v);
            r = r + 1;
        }
        out
    }

    /// The best route of `key`, if it has one: the first route of its set.
    pub fn best(&self, key: RouteKey) -> (r: Option<RouteView<'_>>)
        ensures
            match r {
                Some(v) => exists|i: int|
                    0 <= i < self@.keys.len() && self@.keys[i] == key && self@.set_start[i] < self@.set_start[i + 1]
                        && shows(v, #[trigger] self@.routes[self@.set_start[i] as int]),
                None => forall|i: int|
                    0 <= i < self@.keys.len() && #[trigger] self@.keys[i] == key ==> self@.set_start[i] == self@.set_start[i + 1],
            },
    {
        proof {
            use_type_invariant(self);
        }
        match self.key_index(key) {
            None => None,
            Some(i) => {
                let (lo, hi) = self.route_range(i);
                proof {
                    assert forall|q: int| 0 <= q < self@.keys.len() && #[trigger] self@.keys[q] == key implies q == i by {
                        if q < i {
                            assert(pair_lt(self@.keys[q], self@.keys[i as int]));
                        } else if q > i {
                            assert(pair_lt(self@.keys[i as int], self@.keys[q]));
                        }
                    }
                }
                if lo < hi {
                    let v = self.route(lo);
                    Some(v)
                } else {
                    None
                }
            },
        }
    }

    /// The key that route number `route` belongs to: the last key whose routes start at or
    /// before it (the number of keys, for a route past the last).
    pub fn key_of_route(&self, route: usize) -> (r: usize)
        ensures
            r <= self@.keys.len(),
            self@.set_start[r as int] <= route,
            forall|q: int| r < q <= self@.keys.len() ==> route < #[trigger] self@.set_start[q],
    {
        proof {
            use_type_invariant(self);
        }
        let mut lo: usize = 0;
        let mut hi: usize = self.set_start.len();
        while lo < hi
            invariant
                store_ok(self@),
                lo <= hi <= self.set_start@.len(),
                forall|i: int| 0 <= i < lo ==> #[trigger] self.set_start@[i] <= route,
                forall|i: int| hi <= i < self.set_start@.len() ==> route < #[trigger] self.set_start@[i],
            decreases hi - lo,
        {
            let mid = lo + (hi - lo) / 2;
            if self.set_start[mid] as usize <= route {
                proof {
                    assert forall|i: int| 0 <= i < mid + 1 implies #[trigger] self.set_start@[i] <= route by {
                        assert(self.set_start@[i] <= self.set_start@[mid as int]);
                    }
                }
                lo = mid + 1;
            } else {
                proof {
                    assert forall|i: int| mid <= i < self.set_start@.len() implies route < #[trigger] self.set_start@[i] by {
                        assert(self.set_start@[mid as int] <= self.set_start@[i]);
                    }
                }
                hi = mid;
            }
        }
        proof {
            assert(self.set_start@[0] <= route);
        }
        lo - 1
    }

    /// A number that is equal when the network and the method with all its options are the
    /// same, and the sets have been grown by the same update if they have: FNV-1a over the
    /// fingerprint, the descriptor and the update.
    pub fn identity(&self) -> (r: u64)
        ensures
            r == fnv_fold(FNV_OFFSET_BASIS, identity_bytes(self.network_spec(), utf8(self.descriptor_spec()), utf8(self.update_spec()))),
    {
        let mut h = Fnv1a::new();
        h.write_u64(self.network);
        h.write_bytes(self.descriptor.as_str().as_bytes());
        let ghost head = le_bytes_u64(self.network) + utf8(self.descriptor@);
        proof {
            lemma_fold_concat(FNV_OFFSET_BASIS, le_bytes_u64(self.network), utf8(self.descriptor@));
        }
        let update = self.update.as_str().as_bytes();
        if update.len() != 0 {
            let marker: [u8; 8] = [0x2b, 0x75, 0x70, 0x64, 0x61, 0x74, 0x65, 0x3a];
            h.write_bytes(&marker);
            h.write_bytes(update);
            proof {
                assert(marker@ =~= update_marker());
                lemma_fold_concat(FNV_OFFSET_BASIS, head, update_marker());
                lemma_fold_concat(FNV_OFFSET_BASIS, head + update_marker(), update@);
                assert(head + update_marker() + update@ =~= identity_bytes(self.network, utf8(self.descriptor@), utf8(self.update@)));
            }
        } else {
            proof {
                assert(head =~= identity_bytes(self.network, utf8(self.descriptor@), utf8(self.update@)));
            }
        }
        h.finish()
    }

    /// The bytes this store holds.
    pub fn bytes(&self) -> (r: usize)
        requires
            store_bytes(self@.keys.len(), self@.routes.len(), self.link_array().len()) <= usize::MAX,
        ensures
            r == store_bytes(self@.keys.len(), self@.routes.len(), self.link_array().len()),
    {
        proof {
            use_type_invariant(self);
        }
        let keys = self.keys.len();
        let routes = self.arrays.len();
        let links = self.arrays.links.len();
        8 * keys + 4 * (self.set_start.len() + self.arrays.route_start.len() + links) + 12 * routes
    }
}


/// How many times `l` occurs in `links`.
pub open spec fn occurrences(links: Seq<u32>, l: u32) -> nat
    decreases links.len(),
{
    if links.len() == 0 {
        0
    } else {
        occurrences(links.drop_last(), l) + if links.last() == l { 1nat } else { 0nat }
    }
}

/// How many entries of `links` are below `q`.
pub open spec fn count_below(links: Seq<u32>, q: int) -> nat
    decreases links.len(),
{
    if links.len() == 0 {
        0
    } else {
        count_below(links.drop_last(), q) + if links.last() < q { 1nat } else { 0nat }
    }
}

/// The route numbers that use link `l`, once per use, in route order.
pub open spec fn routes_using_spec(routes: Seq<RouteSpec>, l: u32) -> Seq<u32>
    decreases routes.len(),
{
    if routes.len() == 0 {
        Seq::empty()
    } else {
        routes_using_spec(routes.drop_last(), l) + Seq::new(occurrences(routes.last().links, l), |_i: int| (routes.len() - 1) as u32)
    }
}

/// Counting below `q + 1` counts what is below `q` and the occurrences of `q`.
pub(crate) proof fn lemma_count_below_step(links: Seq<u32>, q: u32)
    ensures
        count_below(links, q + 1) == count_below(links, q as int) + occurrences(links, q),
    decreases links.len(),
{
    if links.len() > 0 {
        lemma_count_below_step(links.drop_last(), q);
    }
}

/// Counting below a larger bound counts no fewer.
pub(crate) proof fn lemma_count_below_monotone(links: Seq<u32>, a: int, b: int)
    requires
        a <= b,
    ensures
        count_below(links, a) <= count_below(links, b),
    decreases links.len(),
{
    if links.len() > 0 {
        lemma_count_below_monotone(links.drop_last(), a, b);
    }
}

/// Nothing is counted twice: at most every entry is below `q`, and every entry is when all
/// are.
pub(crate) proof fn lemma_count_below_all(links: Seq<u32>, q: int)
    ensures
        count_below(links, q) <= links.len(),
        (forall|p: int| 0 <= p < links.len() ==> links[p] < q) ==> count_below(links, q) == links.len(),
    decreases links.len(),
{
    if links.len() > 0 {
        lemma_count_below_all(links.drop_last(), q);
        if forall|p: int| 0 <= p < links.len() ==> links[p] < q {
            assert forall|p: int| 0 <= p < links.drop_last().len() implies links.drop_last()[p] < q by {
                assert(links.drop_last()[p] == links[p]);
            }
        }
    }
}

/// A prefix holds no more occurrences than the whole.
pub(crate) proof fn lemma_occurrences_prefix(links: Seq<u32>, p: int, l: u32)
    requires
        0 <= p <= links.len(),
    ensures
        occurrences(links.take(p), l) <= occurrences(links, l),
    decreases links.len(),
{
    if p < links.len() {
        lemma_occurrences_prefix(links.drop_last(), p, l);
        assert(links.drop_last().take(p) =~= links.take(p));
    } else {
        assert(links.take(p) =~= links);
    }
}

impl RouteArrays {
    /// The links of the first `r` routes are the first `route_start[r]` links.
    proof fn lemma_links_prefix(&self, r: int)
        requires
            self.ok(),
            0 <= r <= self.cost@.len(),
        ensures
            all_links(self.routes().take(r)) == self.links@.take(self.route_start@[r] as int),
        decreases r,
    {
        if r == 0 {
            assert(self.routes().take(0) =~= Seq::<RouteSpec>::empty());
            assert(self.links@.take(0) =~= Seq::<u32>::empty());
        } else {
            self.lemma_links_prefix(r - 1);
            let rs = self.routes().take(r);
            assert(rs.drop_last() =~= self.routes().take(r - 1));
            assert(self.route_start@[r - 1] <= self.route_start@[r]);
            assert(self.route_start@[r] <= self.route_start@[self.cost@.len() as int]);
            assert(self.links@.take(self.route_start@[r] as int) =~= self.links@.take(self.route_start@[r - 1] as int)
                + self.links@.subrange(self.route_start@[r - 1] as int, self.route_start@[r] as int));
        }
    }
}

/// For each link, the route numbers that use it, ascending, once per use.
#[derive(Debug)]
pub struct LinkIndex {
    start: Vec<u32>,
    routes: Vec<u32>,
}

impl View for LinkIndex {
    type V = Seq<Seq<u32>>;

    /// Per link, the routes that use it.
    closed spec fn view(&self) -> Seq<Seq<u32>> {
        Seq::new((self.start@.len() - 1) as nat, |l: int| self.routes@.subrange(self.start@[l] as int, self.start@[l + 1] as int))
    }
}

impl LinkIndex {
    #[verifier::type_invariant]
    spec fn consistent(self) -> bool {
        &&& self.start@.len() >= 1
        &&& forall|i: int, j: int| 0 <= i <= j < self.start@.len() ==> #[trigger] self.start@[i] <= #[trigger] self.start@[j]
        &&& self.start@[self.start@.len() - 1] == self.routes@.len()
    }

    /// The routes that use `link`.
    pub fn routes_using(&self, link: u32) -> (r: &[u32])
        requires
            link < self@.len(),
        ensures
            r@ == self@[link as int],
    {
        proof {
            use_type_invariant(self);
            assert(self.start@[link as int] <= self.start@[link + 1]);
            assert(self.start@[link + 1] <= self.start@[self.start@.len() - 1]);
            assert(link + 1 < self.start@.len());
        }
        let len = self.start.len();
        let a = self.start[link as usize] as usize;
        let b = self.start[link as usize + 1] as usize;
        vstd::slice::slice_subrange(self.routes.as_slice(), a, b)
    }
}

impl Clone for LinkIndex {
    fn clone(&self) -> (r: LinkIndex)
        ensures
            r@ == self@,
    {
        proof {
            use_type_invariant(self);
        }
        let start = self.start.clone();
        let routes = self.routes.clone();
        proof {
            assert(start@ =~= self.start@);
            assert(routes@ =~= self.routes@);
        }
        LinkIndex { start, routes }
    }
}

impl RouteSets {
    /// The inverted index: for each of the first `link_count` links, the routes that use
    /// it. Every link of the store is below `link_count`.
    pub fn link_index(&self, link_count: u32) -> (r: LinkIndex)
        requires
            forall|p: int| 0 <= p < self.link_array().len() ==> #[trigger] self.link_array()[p] < link_count,
            link_count < usize::MAX,
        ensures
            r@.len() == link_count,
            forall|l: int| 0 <= l < link_count ==> #[trigger] r@[l] == routes_using_spec(self@.routes, l as u32),
    {
        proof {
            use_type_invariant(self);
        }
        let links = self.arrays.links.as_slice();
        let n: usize = link_count as usize;
        let ghost all = links@;
        proof {
            assert forall|p: int| 0 <= p < all.len() implies #[trigger] all[p] < link_count by {
                assert(self.link_array()[p] < link_count);
            }
            lemma_count_below_zero(all);
        }
        // how many times each link occurs, one place up
        let mut start: Vec<u32> = vec![0u32; n + 1];
        let mut i: usize = 0;
        while i < links.len()
            invariant
                links@ == all,
                all.len() <= u32::MAX,
                forall|p: int| 0 <= p < all.len() ==> #[trigger] all[p] < link_count,
                n == link_count,
                i <= all.len(),
                start@.len() == n + 1,
                start@[0] == 0,
                forall|m: int| 0 <= m < n ==> #[trigger] start@[m + 1] == occurrences(all.take(i as int), m as u32),
            decreases all.len() - i,
        {
            let l = links[i];
            proof {
                assert(all.take(i + 1).drop_last() =~= all.take(i as int));
                lemma_occurrences_prefix(all.take(i + 1), i as int, l);
                lemma_occurrences_bounded(all.take(i + 1), l);
            }
            let c = start[l as usize + 1];
            start.set(l as usize + 1, c + 1);
            i = i + 1;
        }
        proof {
            assert(all.take(i as int) =~= all);
            assert forall|m: int| 1 <= m <= n implies #[trigger] start@[m] == occurrences(all, (m - 1) as u32) by {
                assert(start@[(m - 1) + 1] == occurrences(all.take(i as int), (m - 1) as u32));
            }
        }
        // running sums: where each link's routes start
        let mut q: usize = 1;
        while q < n + 1
            invariant
                links@ == all,
                all.len() <= u32::MAX,
                n == link_count,
                n < usize::MAX,
                1 <= q <= n + 1,
                start@.len() == n + 1,
                forall|m: int| 0 <= m < q ==> #[trigger] start@[m] == count_below(all, m),
                forall|m: int| q <= m <= n ==> #[trigger] start@[m] == occurrences(all, (m - 1) as u32),
            decreases n + 1 - q,
        {
            proof {
                lemma_count_below_step(all, (q - 1) as u32);
                lemma_count_below_all(all, q as int);
            }
            let a = start[q];
            let b = start[q - 1];
            start.set(q, a + b);
            q = q + 1;
        }
        proof {
            lemma_count_below_all(all, n as int);
            assert forall|a: int, b: int| 0 <= a <= b < start@.len() implies #[trigger] start@[a] <= #[trigger] start@[b] by {
                lemma_count_below_monotone(all, a, b);
            }
            assert forall|m: int| 0 <= m < n implies #[trigger] start@[m + 1] == start@[m] + occurrences(all, m as u32) by {
                lemma_count_below_step(all, m as u32);
            }
        }
        // every use, in route order
        let mut fill = start.clone();
        let mut listed: Vec<u32> = vec![0u32; links.len()];
        let route_count = self.arrays.len();
        let ghost routes = self@.routes;
        let mut r: usize = 0;
        proof {
            assert(self@.set_start[self@.keys.len() as int] == routes.len());
            assert(fill@ =~= start@);
            assert(self.arrays.route_start@[0] == 0);
            assert(all.take(0) =~= Seq::<u32>::empty());
            assert(routes.take(0) =~= Seq::<RouteSpec>::empty());
            assert forall|m: int| 0 <= m < n implies #[trigger] listed@.subrange(start@[m] as int, fill@[m] as int) == routes_using_spec(routes.take(0), m as u32) by {
                assert(start@[m] <= start@[n as int]);
                assert(listed@.subrange(start@[m] as int, fill@[m] as int) =~= Seq::<u32>::empty());
            }
        }
        while r < route_count
            invariant
                self.arrays.ok(),
                links@ == all,
                all == self.arrays.links@,
                routes == self.arrays.routes(),
                route_count == routes.len(),
                route_count <= u32::MAX,
                n == link_count,
                forall|p: int| 0 <= p < all.len() ==> #[trigger] all[p] < link_count,
                r <= route_count,
                start@.len() == n + 1,
                fill@.len() == n + 1,
                listed@.len() == all.len(),
                start@[n as int] == all.len(),
                forall|a: int, b: int| 0 <= a <= b < start@.len() ==> #[trigger] start@[a] <= #[trigger] start@[b],
                forall|m: int| 0 <= m < n ==> #[trigger] start@[m + 1] == start@[m] + occurrences(all, m as u32),
                forall|m: int| 0 <= m < n ==> #[trigger] fill@[m] == start@[m] + occurrences(all.take(self.arrays.route_start@[r as int] as int), m as u32),
                forall|m: int| 0 <= m < n ==> #[trigger] listed@.subrange(start@[m] as int, fill@[m] as int) == routes_using_spec(routes.take(r as int), m as u32),
            decreases route_count - r,
        {
            let lo = self.arrays.route_start[r] as usize;
            let hi = self.arrays.route_start[r + 1] as usize;
            proof {
                assert(self.arrays.route_start@[r as int] <= self.arrays.route_start@[r + 1]);
                assert(self.arrays.route_start@[r + 1] <= self.arrays.route_start@[route_count as int]);
            }
            let ghost own = routes[r as int].links;
            let mut p: usize = lo;
            while p < hi
                invariant
                    links@ == all,
                    routes[r as int].links == all.subrange(lo as int, hi as int),
                    own == routes[r as int].links,
                    r < route_count,
                    route_count == routes.len(),
                    route_count <= u32::MAX,
                    lo <= p <= hi <= all.len(),
                    n == link_count,
                    forall|p: int| 0 <= p < all.len() ==> #[trigger] all[p] < link_count,
                    start@.len() == n + 1,
                    fill@.len() == n + 1,
                    listed@.len() == all.len(),
                    start@[n as int] == all.len(),
                    forall|a: int, b: int| 0 <= a <= b < start@.len() ==> #[trigger] start@[a] <= #[trigger] start@[b],
                    forall|m: int| 0 <= m < n ==> #[trigger] start@[m + 1] == start@[m] + occurrences(all, m as u32),
                    forall|m: int| 0 <= m < n ==> #[trigger] fill@[m] == start@[m] + occurrences(all.take(p as int), m as u32),
                    forall|m: int| 0 <= m < n ==> #[trigger] listed@.subrange(start@[m] as int, fill@[m] as int)
                        == routes_using_spec(routes.take(r as int), m as u32)
                            + Seq::new(occurrences(own.take(p - lo), m as u32), |_i: int| r as u32),
                decreases hi - p,
            {
                let l = links[p];
                let li = l as usize;
                let ghost before = listed@;
                let ghost f = fill@;
                proof {
                    assert(all.take(p + 1).drop_last() =~= all.take(p as int));
                    lemma_occurrences_prefix(all, p + 1, l);
                    assert(fill@[li as int] < start@[li + 1]);
                    assert(start@[li + 1] <= start@[n as int]);
                }
                let at = fill[li];
                listed.set(at as usize, r as u32);
                fill.set(li, at + 1);
                proof {
                    assert(own.take(p + 1 - lo).drop_last() =~= own.take(p - lo));
                    assert(own.take(p + 1 - lo).last() == l);
                    assert forall|m: int| 0 <= m < n implies #[trigger] listed@.subrange(start@[m] as int, fill@[m] as int)
                        == routes_using_spec(routes.take(r as int), m as u32)
                            + Seq::new(occurrences(own.take(p + 1 - lo), m as u32), |_i: int| r as u32) by {
                        let old_part = Seq::new(occurrences(own.take(p - lo), m as u32), |_i: int| r as u32);
                        let new_part = Seq::new(occurrences(own.take(p + 1 - lo), m as u32), |_i: int| r as u32);
                        lemma_occurrences_prefix(all, p as int, m as u32);
                        if m == li {
                            assert(new_part =~= old_part.push(r as u32));
                            assert(listed@.subrange(start@[m] as int, fill@[m] as int) =~= before.subrange(start@[m] as int, f[m] as int).push(r as u32));
                        } else {
                            assert(new_part =~= old_part);
                            assert(fill@[m] == f[m]);
                            assert(f[m] == start@[m] + occurrences(all.take(p as int), m as u32));
                            assert(start@[m + 1] == start@[m] + occurrences(all, m as u32));
                            assert(f[m] <= start@[m + 1]);
                            assert(listed@ == before.update(at as int, r as u32));
                            if m < li {
                                assert(start@[m + 1] <= start@[li as int]);
                            } else {
                                assert(start@[li + 1] <= start@[m]);
                            }
                            assert(start@[m + 1] <= start@[n as int]);
                            assert(listed@.subrange(start@[m] as int, fill@[m] as int) =~= before.subrange(start@[m] as int, f[m] as int));
                        }
                    }
                }
                p = p + 1;
            }
            proof {
                assert(own.take(p - lo) =~= own);
                let next = routes.take(r + 1);
                assert(next.drop_last() =~= routes.take(r as int));
                assert(next.last() == routes[r as int]);
                assert forall|m: int| 0 <= m < n implies #[trigger] listed@.subrange(start@[m] as int, fill@[m] as int)
                    == routes_using_spec(routes.take(r + 1), m as u32) by {
                }
            }
            r = r + 1;
        }
        proof {
            assert(routes.take(r as int) =~= routes);
            assert(self.arrays.route_start@[r as int] == all.len());
            assert(all.take(self.arrays.route_start@[r as int] as int) =~= all);
        }
        let out = LinkIndex { start, routes: listed };
        proof {
            assert forall|l: int| 0 <= l < link_count implies #[trigger] out@[l] == routes_using_spec(self@.routes, l as u32) by {
                assert(out@[l] == listed@.subrange(start@[l] as int, start@[l + 1] as int));
                assert(fill@[l] == start@[l] + occurrences(all.take(self.arrays.route_start@[r as int] as int), l as u32));
                assert(start@[l + 1] == start@[l] + occurrences(all, l as u32));
                assert(fill@[l] == start@[l + 1]);
                assert(listed@.subrange(start@[l] as int, fill@[l] as int) == routes_using_spec(routes.take(r as int), l as u32));
            }
        }
        out
    }
}

/// Nothing is below 0.
pub(crate) proof fn lemma_count_below_zero(links: Seq<u32>)
    ensures
        count_below(links, 0) == 0,
    decreases links.len(),
{
    if links.len() > 0 {
        lemma_count_below_zero(links.drop_last());
    }
}

/// A sequence holds no more occurrences of a value than it has entries.
pub(crate) proof fn lemma_occurrences_bounded(links: Seq<u32>, l: u32)
    ensures
        occurrences(links, l) <= links.len(),
    decreases links.len(),
{
    if links.len() > 0 {
        lemma_occurrences_bounded(links.drop_last(), l);
    }
}


/// Whether `a` comes before `b`: by origin, then by destination.
fn key_before(a: RouteKey, b: RouteKey) -> (r: bool)
    ensures
        r == pair_lt(a, b),
{
    a.origin < b.origin || (a.origin == b.origin && a.destination < b.destination)
}

/// Two strictly increasing key lists with the same keys are the same list.
pub proof fn lemma_sorted_keys_unique(s: Seq<RouteKey>, t: Seq<RouteKey>)
    requires
        keys_sorted(s),
        keys_sorted(t),
        forall|k: RouteKey| s.contains(k) <==> t.contains(k),
    ensures
        s == t,
    decreases s.len() + t.len(),
{
    if s.len() == 0 || t.len() == 0 {
        if s.len() > 0 {
            assert(s.contains(s[0]));
        }
        if t.len() > 0 {
            assert(t.contains(t[0]));
        }
        assert(s =~= t);
    } else {
        let a = s[0];
        let c = t[0];
        assert(s.contains(a));
        assert(t.contains(c));
        let ia = choose|k: int| 0 <= k < t.len() && t[k] == a;
        let ic = choose|k: int| 0 <= k < s.len() && s[k] == c;
        if a != c {
            if ia > 0 {
                assert(pair_lt(t[0], t[ia]));
            }
            if ic > 0 {
                assert(pair_lt(s[0], s[ic]));
            }
        }
        let s1 = s.drop_first();
        let t1 = t.drop_first();
        assert forall|k: RouteKey| s1.contains(k) <==> t1.contains(k) by {
            if s1.contains(k) {
                let x = choose|x: int| 0 <= x < s1.len() && s1[x] == k;
                assert(s[x + 1] == k);
                assert(pair_lt(s[0], s[x + 1]));
                assert(s.contains(k));
                let m = choose|m: int| 0 <= m < t.len() && t[m] == k;
                assert(m != 0);
                assert(t1[m - 1] == k);
            }
            if t1.contains(k) {
                let x = choose|x: int| 0 <= x < t1.len() && t1[x] == k;
                assert(t[x + 1] == k);
                assert(pair_lt(t[0], t[x + 1]));
                assert(t.contains(k));
                let m = choose|m: int| 0 <= m < s.len() && s[m] == k;
                assert(m != 0);
                assert(s1[m - 1] == k);
            }
        }
        lemma_sorted_keys_unique(s1, t1);
        assert(s =~= seq![a] + s1);
        assert(t =~= seq![c] + t1);
    }
}

/// Merge two strictly increasing key lists into one, each key once.
fn merge_keys(left: Vec<RouteKey>, right: Vec<RouteKey>) -> (r: Vec<RouteKey>)
    requires
        keys_sorted(left@),
        keys_sorted(right@),
    ensures
        keys_sorted(r@),
        forall|k: RouteKey| r@.contains(k) <==> (left@.contains(k) || right@.contains(k)),
{
    let mut out: Vec<RouteKey> = Vec::new();
    let mut i: usize = 0;
    let mut j: usize = 0;
    while i < left.len() || j < right.len()
        invariant
            i <= left.len(),
            j <= right.len(),
            keys_sorted(left@),
            keys_sorted(right@),
            keys_sorted(out@),
            forall|k: RouteKey| out@.contains(k) <==> (left@.take(i as int).contains(k) || right@.take(j as int).contains(k)),
            out@.len() > 0 ==> (forall|q: int| i <= q < left.len() ==> pair_lt(out@.last(), #[trigger] left@[q])),
            out@.len() > 0 ==> (forall|q: int| j <= q < right.len() ==> pair_lt(out@.last(), #[trigger] right@[q])),
        decreases left.len() - i + right.len() - j,
    {
        let ghost o = out@;
        let take_left = j >= right.len() || (i < left.len() && key_before(left[i], right[j]));
        let take_right = i >= left.len() || (j < right.len() && key_before(right[j], left[i]));
        if take_left {
            let x = left[i];
            out.push(x);
            proof {
                assert(left@.take(i + 1) =~= left@.take(i as int).push(x));
                assert forall|q: int| i + 1 <= q < left.len() implies pair_lt(out@.last(), #[trigger] left@[q]) by {
                    assert(pair_lt(left@[i as int], left@[q]));
                }
                assert forall|q: int| j <= q < right.len() implies pair_lt(out@.last(), #[trigger] right@[q]) by {
                    if q > j {
                        assert(pair_lt(right@[j as int], right@[q]));
                    }
                }
                assert forall|a: int, b: int| 0 <= a < b < out@.len() implies pair_lt(#[trigger] out@[a], #[trigger] out@[b]) by {
                    if b == o.len() && a < o.len() {
                        assert(pair_lt(o[a], o.last()) || a == o.len() - 1);
                    }
                }
                assert forall|k: RouteKey| out@.contains(k) <==> (left@.take(i + 1).contains(k) || right@.take(j as int).contains(k)) by {
                    if out@.contains(k) && k != x {
                        let w = choose|w: int| 0 <= w < out@.len() && out@[w] == k;
                        assert(o[w] == k);
                        assert(o.contains(k));
                    }
                    if k == x {
                        assert(out@[o.len() as int] == x);
                        assert(left@.take(i + 1)[i as int] == x);
                    }
                    if o.contains(k) {
                        let w = choose|w: int| 0 <= w < o.len() && o[w] == k;
                        assert(out@[w] == k);
                    }
                    if left@.take(i + 1).contains(k) && k != x {
                        let w = choose|w: int| 0 <= w < i + 1 && #[trigger] left@[w] == k;
                        assert(left@.take(i as int)[w] == k);
                    }
                    if left@.take(i as int).contains(k) {
                        let w = choose|w: int| 0 <= w < i && #[trigger] left@[w] == k;
                        assert(left@.take(i + 1)[w] == k);
                    }
                }
            }
            i = i + 1;
        } else if take_right {
            let x = right[j];
            out.push(x);
            proof {
                assert(right@.take(j + 1) =~= right@.take(j as int).push(x));
                assert forall|q: int| j + 1 <= q < right.len() implies pair_lt(out@.last(), #[trigger] right@[q]) by {
                    assert(pair_lt(right@[j as int], right@[q]));
                }
                assert forall|q: int| i <= q < left.len() implies pair_lt(out@.last(), #[trigger] left@[q]) by {
                    if q > i {
                        assert(pair_lt(left@[i as int], left@[q]));
                    }
                }
                assert forall|a: int, b: int| 0 <= a < b < out@.len() implies pair_lt(#[trigger] out@[a], #[trigger] out@[b]) by {
                    if b == o.len() && a < o.len() {
                        assert(pair_lt(o[a], o.last()) || a == o.len() - 1);
                    }
                }
                assert forall|k: RouteKey| out@.contains(k) <==> (left@.take(i as int).contains(k) || right@.take(j + 1).contains(k)) by {
                    if out@.contains(k) && k != x {
                        let w = choose|w: int| 0 <= w < out@.len() && out@[w] == k;
                        assert(o[w] == k);
                        assert(o.contains(k));
                    }
                    if k == x {
                        assert(out@[o.len() as int] == x);
                        assert(right@.take(j + 1)[j as int] == x);
                    }
                    if o.contains(k) {
                        let w = choose|w: int| 0 <= w < o.len() && o[w] == k;
                        assert(out@[w] == k);
                    }
                    if right@.take(j + 1).contains(k) && k != x {
                        let w = choose|w: int| 0 <= w < j + 1 && #[trigger] right@[w] == k;
                        assert(right@.take(j as int)[w] == k);
                    }
                    if right@.take(j as int).contains(k) {
                        let w = choose|w: int| 0 <= w < j && #[trigger] right@[w] == k;
                        assert(right@.take(j + 1)[w] == k);
                    }
                }
            }
            j = j + 1;
        } else {
            let x = left[i];
            proof {
                assert(x == right@[j as int]);
            }
            out.push(x);
            proof {
                assert(left@.take(i + 1) =~= left@.take(i as int).push(x));
                assert(right@.take(j + 1) =~= right@.take(j as int).push(x));
                assert forall|q: int| i + 1 <= q < left.len() implies pair_lt(out@.last(), #[trigger] left@[q]) by {
                    assert(pair_lt(left@[i as int], left@[q]));
                }
                assert forall|q: int| j + 1 <= q < right.len() implies pair_lt(out@.last(), #[trigger] right@[q]) by {
                    assert(pair_lt(right@[j as int], right@[q]));
                }
                assert forall|a: int, b: int| 0 <= a < b < out@.len() implies pair_lt(#[trigger] out@[a], #[trigger] out@[b]) by {
                    if b == o.len() && a < o.len() {
                        assert(pair_lt(o[a], o.last()) || a == o.len() - 1);
                    }
                }
                assert forall|k: RouteKey| out@.contains(k) <==> (left@.take(i + 1).contains(k) || right@.take(j + 1).contains(k)) by {
                    if out@.contains(k) && k != x {
                        let w = choose|w: int| 0 <= w < out@.len() && out@[w] == k;
                        assert(o[w] == k);
                        assert(o.contains(k));
                    }
                    if k == x {
                        assert(out@[o.len() as int] == x);
                        assert(left@.take(i + 1)[i as int] == x);
                        assert(right@.take(j + 1)[j as int] == x);
                    }
                    if o.contains(k) {
                        let w = choose|w: int| 0 <= w < o.len() && o[w] == k;
                        assert(out@[w] == k);
                    }
                    if left@.take(i + 1).contains(k) && k != x {
                        let w = choose|w: int| 0 <= w < i + 1 && #[trigger] left@[w] == k;
                        assert(left@.take(i as int)[w] == k);
                    }
                    if left@.take(i as int).contains(k) {
                        let w = choose|w: int| 0 <= w < i && #[trigger] left@[w] == k;
                        assert(left@.take(i + 1)[w] == k);
                    }
                    if right@.take(j + 1).contains(k) && k != x {
                        let w = choose|w: int| 0 <= w < j + 1 && #[trigger] right@[w] == k;
                        assert(right@.take(j as int)[w] == k);
                    }
                    if right@.take(j as int).contains(k) {
                        let w = choose|w: int| 0 <= w < j && #[trigger] right@[w] == k;
                        assert(right@.take(j + 1)[w] == k);
                    }
                }
            }
            i = i + 1;
            j = j + 1;
        }
    }
    proof {
        assert(left@.take(i as int) =~= left@);
        assert(right@.take(j as int) =~= right@);
    }
    out
}

/// The keys of `keys[lo..hi]`, strictly increasing, each once.
fn sorted_keys(keys: &Vec<RouteKey>, lo: usize, hi: usize) -> (r: Vec<RouteKey>)
    requires
        lo <= hi <= keys.len(),
    ensures
        keys_sorted(r@),
        forall|k: RouteKey| r@.contains(k) <==> keys@.subrange(lo as int, hi as int).contains(k),
    decreases hi - lo,
{
    if hi - lo == 0 {
        let r: Vec<RouteKey> = Vec::new();
        proof {
            assert(keys@.subrange(lo as int, hi as int) =~= Seq::<RouteKey>::empty());
        }
        r
    } else if hi - lo == 1 {
        let mut r: Vec<RouteKey> = Vec::new();
        r.push(keys[lo]);
        proof {
            assert(keys@.subrange(lo as int, hi as int) =~= r@);
        }
        r
    } else {
        let mid = lo + (hi - lo) / 2;
        let left = sorted_keys(keys, lo, mid);
        let right = sorted_keys(keys, mid, hi);
        let r = merge_keys(left, right);
        proof {
            assert(keys@.subrange(lo as int, hi as int) =~= keys@.subrange(lo as int, mid as int) + keys@.subrange(mid as int, hi as int));
            assert forall|k: RouteKey| r@.contains(k) <==> keys@.subrange(lo as int, hi as int).contains(k) by {
                let whole = keys@.subrange(lo as int, hi as int);
                let a = keys@.subrange(lo as int, mid as int);
                let b = keys@.subrange(mid as int, hi as int);
                if a.contains(k) {
                    let w = choose|w: int| 0 <= w < a.len() && a[w] == k;
                    assert(whole[w] == k);
                }
                if b.contains(k) {
                    let w = choose|w: int| 0 <= w < b.len() && b[w] == k;
                    assert(whole[a.len() + w] == k);
                }
                if whole.contains(k) {
                    let w = choose|w: int| 0 <= w < whole.len() && whole[w] == k;
                    if w < a.len() {
                        assert(a[w] == k);
                    } else {
                        assert(b[w - a.len()] == k);
                    }
                }
            }
        }
        r
    }
}

/// The keys to route: those of `keys` whose origin and destination differ, strictly
/// increasing, each once. What comes out depends on which keys are asked for, not on their
/// order or how often each is asked for.
pub fn distinct_pairs(keys: &[RouteKey]) -> (r: Vec<RouteKey>)
    ensures
        keys_sorted(r@),
        forall|k: RouteKey| r@.contains(k) <==> (keys@.contains(k) && k.origin != k.destination),
{
    let mut kept: Vec<RouteKey> = Vec::new();
    let mut i: usize = 0;
    while i < keys.len()
        invariant
            i <= keys.len(),
            forall|k: RouteKey| kept@.contains(k) <==> (keys@.take(i as int).contains(k) && k.origin != k.destination),
        decreases keys.len() - i,
    {
        let k = keys[i];
        let ghost before = kept@;
        if k.origin != k.destination {
            kept.push(k);
        }
        proof {
            assert(keys@.take(i + 1) =~= keys@.take(i as int).push(k));
            assert forall|x: RouteKey| kept@.contains(x) <==> (keys@.take(i + 1).contains(x) && x.origin != x.destination) by {
                if keys@.take(i + 1).contains(x) && x != k {
                    let w = choose|w: int| 0 <= w < i + 1 && #[trigger] keys@[w] == x;
                    assert(keys@.take(i as int)[w] == x);
                }
                if keys@.take(i as int).contains(x) {
                    let w = choose|w: int| 0 <= w < i && #[trigger] keys@[w] == x;
                    assert(keys@.take(i + 1)[w] == x);
                }
                if before.contains(x) {
                    let w = choose|w: int| 0 <= w < before.len() && before[w] == x;
                    assert(kept@[w] == x);
                }
                if kept@.contains(x) && x != k {
                    let w = choose|w: int| 0 <= w < kept@.len() && kept@[w] == x;
                    assert(before[w] == x);
                }
                if x == k && k.origin != k.destination {
                    assert(kept@[before.len() as int] == k);
                    assert(keys@.take(i + 1)[i as int] == k);
                }
            }
        }
        i = i + 1;
    }
    proof {
        assert(keys@.take(i as int) =~= keys@);
    }
    let n = kept.len();
    let r = sorted_keys(&kept, 0, n);
    proof {
        assert(kept@.subrange(0, n as int) =~= kept@);
    }
    r
}

} // verus!
