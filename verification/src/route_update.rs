//! Route updates: growing the choice sets between iterations.
//!
//! After a loading an update may add routes to the sets, found on the link times that
//! loading produced, before travellers choose again: the set is fixed within an iteration
//! and may grow between iterations. This module holds what an update is made of besides the
//! searches themselves: its errors and options, the update that adds nothing, the settings
//! of the best-response update, and the bookkeeping of what was found.

use vstd::prelude::*;

use crate::factory::{first_unknown, is_known_name};
use crate::generate::{to_vec_strs, MAX_ROUTES_PER_SET};
use crate::registry::{debug_quoted, debug_text};
use crate::grouping::{ascending, group_rows, lemma_ascending_sorted, lemma_rows_with_bounded, leq_u32, rows_with, sort_ascending};
use crate::store::{keys_sorted, pair_lt, routes_of, RouteKey, RouteSets, StoreView, StoredRoute};
use crate::text::{decimal, joined, push_decimal, push_joined, push_joined_strs};

verus! {

/// The update used unless another is asked for.
pub const DEFAULT_UPDATE: &'static str = "none";

/// The most routes a set may hold, as an option's value.
pub const MAX_ROUTES: u32 = 32;

/// Why an update could not be made.
#[derive(Clone, Debug)]
pub enum RouteUpdateError {
    /// No update has this name.
    UnknownUpdate {
        /// The name asked for.
        name: String,
        /// The names that exist.
        known: Vec<String>,
    },
    /// The update has no such option.
    UnknownOption {
        /// The update.
        update: String,
        /// The option asked for.
        option: String,
        /// The options it has.
        known: Vec<&'static str>,
    },
    /// An option's value is not allowed.
    BadOption {
        /// The update.
        update: String,
        /// The option.
        option: String,
        /// What is wrong with it.
        reason: String,
    },
}

/// What a [`RouteUpdateError`] says to a reader.
pub open spec fn route_update_error_text(e: RouteUpdateError) -> Seq<char> {
    match e {
        RouteUpdateError::UnknownUpdate { name, known } =>
            "no route update called "@ + debug_text(name@) + "; the updates are: "@
                + joined(known@.map_values(|s: String| s@)),
        RouteUpdateError::UnknownOption { update, option, known } =>
            "route update "@ + debug_text(update@) + " has no option "@ + debug_text(option@)
                + if known@.len() == 0 {
                    "; it has no options"@
                } else {
                    "; its options are: "@ + joined(known@.map_values(|s: &str| s@))
                },
        RouteUpdateError::BadOption { update, option, reason } =>
            "route update "@ + debug_text(update@) + ", option "@ + debug_text(option@) + ": "@ + reason@,
    }
}

impl RouteUpdateError {
    /// The error as a sentence.
    pub fn to_string(&self) -> (r: String)
        ensures
            r@ == route_update_error_text(*self),
    {
        match self {
            RouteUpdateError::UnknownUpdate { name, known } => {
                let mut s = String::from_str("no route update called ");
                let q = debug_quoted(name.as_str());
                s.append(q.as_str());
                s.append("; the updates are: ");
                push_joined(&mut s, known.as_slice());
                s
            },
            RouteUpdateError::UnknownOption { update, option, known } => {
                let mut s = String::from_str("route update ");
                let q = debug_quoted(update.as_str());
                s.append(q.as_str());
                s.append(" has no option ");
                let q = debug_quoted(option.as_str());
                s.append(q.as_str());
                if known.len() == 0 {
                    s.append("; it has no options");
                } else {
                    s.append("; its options are: ");
                    push_joined_strs(&mut s, known.as_slice());
                }
                s
            },
            RouteUpdateError::BadOption { update, option, reason } => {
                let mut s = String::from_str("route update ");
                let q = debug_quoted(update.as_str());
                s.append(q.as_str());
                s.append(", option ");
                let q = debug_quoted(option.as_str());
                s.append(q.as_str());
                s.append(": ");
                s.append(reason.as_str());
                s
            },
        }
    }
}

/// Check that every option a caller gives `update` is one it has. `options` are the names
/// given, in ascending order; the first unknown one is reported.
pub fn check_known(update: &str, options: &[String], known: &[&'static str]) -> (r: Result<(), RouteUpdateError>)
    ensures
        r is Ok <==> forall|i: int| 0 <= i < options.len() ==> is_known_name(#[trigger] options@[i]@, known@),
        r matches Err(e) ==> exists|i: int| 0 <= i < options.len() && !is_known_name(options@[i]@, known@)
            && (forall|q: int| 0 <= q < i ==> is_known_name(#[trigger] options@[q]@, known@))
            && (e matches RouteUpdateError::UnknownOption { update: u, option: o, known: k }
                && u@ == update@ && o@ == options@[i]@ && k@ == known@),
{
    match first_unknown(options, known) {
        None => Ok(()),
        Some(i) => Err(RouteUpdateError::UnknownOption {
            update: String::from_str(update),
            option: options[i].clone(),
            known: to_vec_strs(known),
        }),
    }
}

/// The routes an update found.
#[derive(Clone, Debug, Default)]
pub struct Additions {
    /// `(key index, routes to add)`, in strictly ascending key order, one entry per key, none
    /// empty.
    pub routes: Vec<(usize, Vec<StoredRoute>)>,
    /// How many searches it took.
    pub searches: u32,
}

/// How many routes the entries hold in all.
pub open spec fn route_total(routes: Seq<(usize, Vec<StoredRoute>)>) -> nat
    decreases routes.len(),
{
    if routes.len() == 0 {
        0
    } else {
        route_total(routes.drop_last()) + routes.last().1@.len()
    }
}

impl Additions {
    /// How many routes in all.
    pub fn route_count(&self) -> (r: usize)
        requires
            route_total(self.routes@) <= usize::MAX,
        ensures
            r == route_total(self.routes@),
    {
        let mut total: usize = 0;
        let mut i: usize = 0;
        while i < self.routes.len()
            invariant
                i <= self.routes@.len(),
                total == route_total(self.routes@.take(i as int)),
                route_total(self.routes@) <= usize::MAX,
            decreases self.routes@.len() - i,
        {
            proof {
                assert(self.routes@.take(i + 1).drop_last() =~= self.routes@.take(i as int));
                assert(self.routes@ =~= self.routes@.take(i + 1) + self.routes@.skip(i + 1));
                lemma_route_total_add(self.routes@.take(i + 1), self.routes@.skip(i + 1));
            }
            total = total + self.routes[i].1.len();
            i = i + 1;
        }
        proof {
            assert(self.routes@.take(i as int) =~= self.routes@);
        }
        total
    }
}

/// The total of two runs of entries is the sum of their totals.
proof fn lemma_route_total_add(a: Seq<(usize, Vec<StoredRoute>)>, b: Seq<(usize, Vec<StoredRoute>)>)
    ensures
        route_total(a + b) == route_total(a) + route_total(b),
    decreases b.len(),
{
    if b.len() == 0 {
        assert(a + b =~= a);
    } else {
        lemma_route_total_add(a, b.drop_last());
        assert((a + b).drop_last() =~= a + b.drop_last());
    }
}

/// How many searches the found lists took in all.
pub open spec fn search_total(found: Seq<(Vec<StoredRoute>, u32)>) -> nat
    decreases found.len(),
{
    if found.len() == 0 {
        0
    } else {
        search_total(found.drop_last()) + found.last().1 as nat
    }
}

/// The entries of what each key's searches found, keeping the keys that found something.
pub open spec fn found_entries(keys: Seq<usize>, found: Seq<(Vec<StoredRoute>, u32)>) -> Seq<(usize, Vec<StoredRoute>)>
    decreases found.len(),
{
    if found.len() == 0 {
        Seq::empty()
    } else {
        let rest = found_entries(keys, found.drop_last());
        if found.last().0@.len() == 0 {
            rest
        } else {
            rest.push((keys[found.len() - 1], found.last().0))
        }
    }
}

impl Additions {
    /// What the searches of several keys found, as additions: `keys[j]` is the key of the
    /// `j`-th search job and `found[j]` its routes and how many searches it made. Keys that
    /// found nothing are left out; the searches are counted in all.
    pub fn from_found(keys: &[usize], found: Vec<(Vec<StoredRoute>, u32)>) -> (r: Additions)
        requires
            keys@.len() == found@.len(),
            search_total(found@) <= u32::MAX,
        ensures
            r.searches == search_total(found@),
            r.routes@ == found_entries(keys@, found@),
    {
        let mut out = Additions { routes: Vec::new(), searches: 0 };
        let ghost all = found@;
        let rest = found;
        let n = rest.len();
        let mut j: usize = 0;
        proof {
            assert(all.take(0) =~= Seq::<(Vec<StoredRoute>, u32)>::empty());
        }
        for item in it: rest
            invariant
                all == it.seq(),
                all.len() == n,
                keys@.len() == all.len(),
                search_total(all) <= u32::MAX,
                j == it.index(),
                j <= all.len(),
                out.searches == search_total(all.take(j as int)),
                out.routes@ == found_entries(keys@, all.take(j as int)),
        {
            proof {
                assert(all.take(j + 1).drop_last() =~= all.take(j as int));
                assert(all.take(j + 1).last() == item);
                assert(all =~= all.take(j + 1) + all.skip(j + 1));
                lemma_search_total_add(all.take(j + 1), all.skip(j + 1));
            }
            let (routes, searches) = item;
            out.searches = out.searches + searches;
            if routes.len() != 0 {
                out.routes.push((keys[j], routes));
            }
            j = j + 1;
        }
        proof {
            assert(all.take(j as int) =~= all);
        }
        out
    }
}

/// The search totals of two runs add up.
proof fn lemma_search_total_add(a: Seq<(Vec<StoredRoute>, u32)>, b: Seq<(Vec<StoredRoute>, u32)>)
    ensures
        search_total(a + b) == search_total(a) + search_total(b),
    decreases b.len(),
{
    if b.len() == 0 {
        assert(a + b =~= a);
    } else {
        lemma_search_total_add(a, b.drop_last());
        assert((a + b).drop_last() =~= a + b.drop_last());
    }
}

/// Leave the sets as the generator made them.
#[derive(Clone, Copy, Debug, Default, PartialEq, Eq, Structural)]
pub struct NoRouteUpdate;

impl NoRouteUpdate {
    /// Make the update from the names of its options (it has none).
    pub fn from_options(options: &[String]) -> (r: Result<NoRouteUpdate, RouteUpdateError>)
        ensures
            r is Ok <==> options.len() == 0,
            r matches Err(e) ==> e matches RouteUpdateError::UnknownOption { update, option, known }
                && update@ == "none"@ && option@ == options@[0]@ && known@.len() == 0,
    {
        let none: [&'static str; 0] = [];
        match check_known("none", options, &none) {
            Ok(()) => {
                proof {
                    if options.len() > 0 {
                        assert(is_known_name(options@[0]@, none@));
                    }
                }
                Ok(NoRouteUpdate)
            },
            Err(e) => {
                proof {
                    let i = choose|i: int| 0 <= i < options.len() && !is_known_name(options@[i]@, none@)
                        && (forall|q: int| 0 <= q < i ==> is_known_name(#[trigger] options@[q]@, none@));
                    if i > 0 {
                        assert(is_known_name(options@[0]@, none@));
                    }
                }
                Err(e)
            },
        }
    }

    /// The update's name, as it is selected.
    pub fn name(&self) -> (r: &'static str)
        ensures
            r@ == "none"@,
    {
        "none"
    }

    /// The update's descriptor: its name, as it has no options.
    pub fn descriptor(&self) -> (r: String)
        ensures
            r@ == "none"@,
    {
        String::from_str("none")
    }

    /// It never adds anything, so a run never calls it.
    pub fn is_active(&self) -> (r: bool)
        ensures
            !r,
    {
        false
    }

    /// Nothing to add.
    pub fn update(&self) -> (r: Additions)
        ensures
            r.routes@.len() == 0,
            r.searches == 0,
    {
        Additions { routes: Vec::new(), searches: 0 }
    }
}

/// The bits of the default slack: 0.02, as an `f64`.
pub const DEFAULT_SLACK_BITS: u64 = 0x3F94_7AE1_47AE_147Bu64;

/// Whether the `f64` with bits `bits` is a valid slack: a number from 0 to 1. The bits of
/// non-negative numbers order as the numbers do, so these are the bits of 0 up to those of
/// 1, and negative zero; NaN and every negative number or number above 1 are refused.
pub open spec fn slack_ok(bits: u64) -> bool {
    bits <= 0x3FF0_0000_0000_0000u64 || bits == 0x8000_0000_0000_0000u64
}

/// Whether the `f64` with bits `bits` is a valid slack, from 0 to 1.
pub fn slack_in_range(bits: u64) -> (r: bool)
    ensures
        r == slack_ok(bits),
{
    bits <= 0x3FF0_0000_0000_0000u64 || bits == 0x8000_0000_0000_0000u64
}

/// Add each pair's fastest route at the congested times, if it is new and no slower than the
/// set's best.
#[derive(Clone, Copy, Debug, PartialEq, Eq, Structural)]
pub struct BestResponse {
    /// How many searches per pair per iteration, at evenly spread quantiles of the pair's
    /// departures (1 is the median).
    pub searches: u32,
    /// The most routes a pair's set may hold (1 to 32); a pair at the limit is not searched.
    pub max_routes: u32,
    /// The bits of the slack, an `f64` from 0 to 1: a departure at which the set's best route
    /// takes at most `1 + slack` times its free-flow time has nothing to gain and is not
    /// searched.
    pub slack_bits: u64,
}

impl Default for BestResponse {
    fn default() -> (r: BestResponse)
        ensures
            r.searches == 1,
            r.max_routes == 10,
            r.slack_bits == DEFAULT_SLACK_BITS,
    {
        BestResponse { searches: 1, max_routes: 10, slack_bits: DEFAULT_SLACK_BITS }
    }
}

/// The descriptor of a best-response update with these settings, its slack written `slack`.
pub open spec fn best_response_descriptor(max_routes: u32, searches: u32, slack: Seq<char>) -> Seq<char> {
    "best_response;max_routes="@ + decimal(max_routes as nat) + ";searches="@ + decimal(searches as nat)
        + ";slack="@ + slack
}

impl BestResponse {
    /// The names of its options, in ascending order.
    pub fn option_names() -> (r: [&'static str; 3])
        ensures
            r@[0]@ == "max_routes"@,
            r@[1]@ == "searches"@,
            r@[2]@ == "slack"@,
    {
        ["max_routes", "searches", "slack"]
    }

    /// The update's name, as it is selected.
    pub fn name(&self) -> (r: &'static str)
        ensures
            r@ == "best_response"@,
    {
        "best_response"
    }

    /// The name and every option, canonical. `slack` is how the slack is written: the
    /// shortest decimal text of the `f64` with bits [`Self::slack_bits`], as floating-point
    /// formatting gives it (`0.02` for the default).
    pub fn descriptor(&self, slack: &str) -> (r: String)
        ensures
            r@ == best_response_descriptor(self.max_routes, self.searches, slack@),
    {
        let mut s = String::from_str("best_response;max_routes=");
        push_decimal(&mut s, self.max_routes as u64);
        s.append(";searches=");
        push_decimal(&mut s, self.searches as u64);
        s.append(";slack=");
        s.append(slack);
        s
    }

    /// It adds routes.
    pub fn is_active(&self) -> (r: bool)
        ensures
            r,
    {
        true
    }
}

/// Whether two link lists are the same.
fn same_links(a: &[u32], b: &[u32]) -> (r: bool)
    ensures
        r == (a@ == b@),
{
    if a.len() != b.len() {
        return false;
    }
    let mut i: usize = 0;
    while i < a.len()
        invariant
            a.len() == b.len(),
            i <= a.len(),
            forall|q: int| 0 <= q < i ==> a@[q] == b@[q],
        decreases a.len() - i,
    {
        if a[i] != b[i] {
            return false;
        }
        i = i + 1;
    }
    proof {
        assert(a@ =~= b@);
    }
    true
}

/// Whether `links` is a route of the key at `key` already, or one of the routes `added` to
/// it a moment ago.
pub fn is_known(sets: &RouteSets, key: usize, added: &[StoredRoute], links: &[u32]) -> (r: bool)
    requires
        key < sets@.keys.len(),
    ensures
        r == ((exists|j: int| 0 <= j < routes_of(sets@, key as int).len() && (#[trigger] routes_of(sets@, key as int)[j]).links == links@)
            || (exists|j: int| 0 <= j < added.len() && (#[trigger] added@[j]).links@ == links@)),
{
    let set = sets.routes(key);
    let mut i: usize = 0;
    while i < set.len()
        invariant
            i <= set@.len(),
            set@.len() == routes_of(sets@, key as int).len(),
            forall|j: int| 0 <= j < set@.len() ==> crate::store::shows(#[trigger] set@[j], routes_of(sets@, key as int)[j]),
            forall|j: int| 0 <= j < i ==> (#[trigger] routes_of(sets@, key as int)[j]).links != links@,
        decreases set@.len() - i,
    {
        if same_links(set[i].links, links) {
            proof {
                assert(crate::store::shows(set@[i as int], routes_of(sets@, key as int)[i as int]));
            }
            return true;
        }
        proof {
            assert(crate::store::shows(set@[i as int], routes_of(sets@, key as int)[i as int]));
        }
        i = i + 1;
    }
    let mut j: usize = 0;
    while j < added.len()
        invariant
            j <= added.len(),
            forall|q: int| 0 <= q < j ==> (#[trigger] added@[q]).links@ != links@,
        decreases added.len() - j,
    {
        if same_links(added[j].links.as_slice(), links) {
            return true;
        }
        j = j + 1;
    }
    false
}


/// One pair's searches: its key's index, and where its departures are in the flat list of
/// departures to search at (`start..end`).
#[derive(Clone, Copy, Debug, PartialEq, Eq, Structural)]
pub struct Job {
    /// The key's index in the store.
    pub key: usize,
    /// Where the pair's departures start.
    pub start: usize,
    /// Where they end.
    pub end: usize,
}

/// Whether the set of the key at `k` has room to grow: it holds a route, and fewer than
/// `max_routes`.
pub open spec fn has_room(v: StoreView, k: int, max_routes: u32) -> bool {
    0 < v.set_start[k + 1] - v.set_start[k] < max_routes
}

/// The group a trip's searches fall in: its pair's key index if the pair has a set with room
/// to grow, else the number of keys (searched for in no group).
pub open spec fn trip_group(v: StoreView, key: RouteKey, max_routes: u32) -> u32 {
    if exists|k: int| 0 <= k < v.keys.len() && v.keys[k] == key && has_room(v, k, max_routes) {
        (choose|k: int| 0 <= k < v.keys.len() && v.keys[k] == key && has_room(v, k, max_routes)) as u32
    } else {
        v.keys.len() as u32
    }
}

/// The departures of the trips of group `k`, in trip order.
pub open spec fn group_departures(v: StoreView, trip_keys: Seq<RouteKey>, departures: Seq<u32>, max_routes: u32, k: int) -> Seq<u32> {
    let groups = trip_keys.map_values(|t: RouteKey| trip_group(v, t, max_routes));
    rows_with(groups, k as u32).map_values(|i: u32| departures[i as int])
}

/// The index of the `i`-th of `n` evenly spread quantiles of `len` sorted values.
pub open spec fn quantile_index(len: nat, n: nat, i: nat) -> int {
    let q = ((2 * i + 1) * len) / (2 * n);
    if q < len - 1 { q as int } else { len - 1 }
}

/// The departures to search at among the sorted departures `g`, after the first `i` of `n`
/// quantiles: two quantiles that land on the same second are one search.
pub open spec fn quantile_picks(g: Seq<u32>, n: nat, i: nat) -> Seq<u32>
    decreases i,
{
    if i == 0 {
        Seq::empty()
    } else {
        let p = quantile_picks(g, n, (i - 1) as nat);
        let at = g[quantile_index(g.len(), n, (i - 1) as nat)];
        if p.len() == 0 || p.last() != at {
            p.push(at)
        } else {
            p
        }
    }
}

/// The departures a pair's trips are searched at: `searches` evenly spread quantiles of its
/// departures, sorted, fewer if it has fewer trips.
pub open spec fn pair_picks(group: Seq<u32>, searches: u32) -> Seq<u32> {
    let n: nat = if (searches as nat) < group.len() { searches as nat } else { group.len() };
    quantile_picks(group.sort_by(leq_u32()), n, n)
}

impl BestResponse {
    /// The searches to make: for each key whose set has room to grow and whose pair some trip
    /// takes, the departures to search at (evenly spread quantiles of its trips'
    /// departures), flat, with each key's range. Keys ascend. `departures[i]` is trip `i`'s
    /// departure and `trip_keys[i]` its pair.
    pub fn plan(&self, sets: &RouteSets, trip_keys: &[RouteKey], departures: &[u32]) -> (r: (Vec<u32>, Vec<Job>))
        requires
            departures.len() == trip_keys.len(),
            trip_keys.len() <= u32::MAX,
            sets@.keys.len() + 1 < u32::MAX,
            2 * self.searches * trip_keys.len() <= usize::MAX,
        ensures
            ({
                let (flat, jobs) = r;
                &&& forall|j: int| 0 <= j < jobs@.len() ==> (#[trigger] jobs@[j]).key < sets@.keys.len()
                &&& forall|a: int, b: int| 0 <= a < b < jobs@.len() ==> (#[trigger] jobs@[a]).key < (#[trigger] jobs@[b]).key
                &&& forall|k: int| 0 <= k < sets@.keys.len() ==>
                    ((exists|j: int| 0 <= j < jobs@.len() && (#[trigger] jobs@[j]).key == k)
                        <==> (#[trigger] group_departures(sets@, trip_keys@, departures@, self.max_routes, k)).len() > 0)
                &&& jobs@.len() == 0 ==> flat@.len() == 0
                &&& jobs@.len() > 0 ==> jobs@[0].start == 0 && jobs@.last().end == flat@.len()
                &&& forall|j: int| 0 <= j < jobs@.len() - 1 ==> (#[trigger] jobs@[j]).end == jobs@[j + 1].start
                &&& forall|j: int| 0 <= j < jobs@.len() ==> (#[trigger] jobs@[j]).start <= jobs@[j].end <= flat@.len()
                    && flat@.subrange(jobs@[j].start as int, jobs@[j].end as int)
                        == pair_picks(group_departures(sets@, trip_keys@, departures@, self.max_routes, jobs@[j].key as int), self.searches)
            }),
    {
        sets.check_consistent();
        let ghost v = sets@;
        let n = sets.keys().len();
        let none = n as u32;
        let max_routes = self.max_routes as usize;
        let mut groups: Vec<u32> = Vec::new();
        let mut i: usize = 0;
        while i < trip_keys.len()
            invariant
                v == sets@,
                crate::store::store_ok(v),
                n == v.keys.len(),
                none == n,
                n + 1 < u32::MAX,
                max_routes == self.max_routes,
                i <= trip_keys.len(),
                groups@.len() == i,
                forall|q: int| 0 <= q < i ==> #[trigger] groups@[q] == trip_group(v, trip_keys@[q], self.max_routes),
                forall|q: int| 0 <= q < i ==> #[trigger] groups@[q] <= none,
            decreases trip_keys.len() - i,
        {
            let t = trip_keys[i];
            let g = match sets.key_index(t) {
                Some(k) => {
                    let (lo, hi) = sets.route_range(k);
                    proof {
                        assert forall|k2: int| 0 <= k2 < v.keys.len() && v.keys[k2] == t implies k2 == k by {
                            if k2 < k {
                                assert(pair_lt(v.keys[k2], v.keys[k as int]));
                            } else if k2 > k {
                                assert(pair_lt(v.keys[k as int], v.keys[k2]));
                            }
                        }
                    }
                    if lo < hi && hi - lo < max_routes {
                        proof {
                            assert(has_room(v, k as int, self.max_routes));
                            let c = choose|k2: int| 0 <= k2 < v.keys.len() && v.keys[k2] == t && has_room(v, k2, self.max_routes);
                            assert(c == k);
                        }
                        k as u32
                    } else {
                        proof {
                            assert(!(exists|k2: int| 0 <= k2 < v.keys.len() && v.keys[k2] == t && has_room(v, k2, self.max_routes)));
                        }
                        none
                    }
                },
                None => none,
            };
            groups.push(g);
            i = i + 1;
        }
        let ghost gs = groups@;
        proof {
            assert(gs =~= trip_keys@.map_values(|t: RouteKey| trip_group(v, t, self.max_routes)));
        }
        let (start, order) = group_rows(groups.as_slice(), none + 1);
        let mut flat: Vec<u32> = Vec::new();
        let mut jobs: Vec<Job> = Vec::new();
        let mut k: usize = 0;
        while k < n
            invariant
                v == sets@,
                n == v.keys.len(),
                none == n,
                n + 1 < u32::MAX,
                gs == trip_keys@.map_values(|t: RouteKey| trip_group(v, t, self.max_routes)),
                gs.len() == trip_keys.len(),
                departures.len() == trip_keys.len(),
                trip_keys.len() <= u32::MAX,
                2 * self.searches * trip_keys.len() <= usize::MAX,
                start@.len() == n + 2,
                order@.len() == gs.len(),
                start@[(n + 1) as int] == gs.len(),
                forall|a: int, b: int| 0 <= a <= b <= n + 1 ==> #[trigger] start@[a] <= #[trigger] start@[b],
                forall|q: int| 0 <= q < n + 1 ==> #[trigger] order@.subrange(start@[q] as int, start@[q + 1] as int) == rows_with(gs, q as u32),
                k <= n,
                forall|j: int| 0 <= j < jobs@.len() ==> (#[trigger] jobs@[j]).key < k,
                forall|a: int, b: int| 0 <= a < b < jobs@.len() ==> (#[trigger] jobs@[a]).key < (#[trigger] jobs@[b]).key,
                forall|q: int| 0 <= q < k ==>
                    ((exists|j: int| 0 <= j < jobs@.len() && (#[trigger] jobs@[j]).key == q)
                        <==> (#[trigger] group_departures(v, trip_keys@, departures@, self.max_routes, q)).len() > 0),
                jobs@.len() == 0 ==> flat@.len() == 0,
                jobs@.len() > 0 ==> jobs@[0].start == 0 && jobs@.last().end == flat@.len(),
                forall|j: int| 0 <= j < jobs@.len() - 1 ==> (#[trigger] jobs@[j]).end == jobs@[j + 1].start,
                forall|j: int| 0 <= j < jobs@.len() ==> (#[trigger] jobs@[j]).start <= jobs@[j].end <= flat@.len()
                    && flat@.subrange(jobs@[j].start as int, jobs@[j].end as int)
                        == pair_picks(group_departures(v, trip_keys@, departures@, self.max_routes, jobs@[j].key as int), self.searches),
            decreases n - k,
        {
            let lo = start[k] as usize;
            let hi = start[k + 1] as usize;
            let ghost group = group_departures(v, trip_keys@, departures@, self.max_routes, k as int);
            proof {
                assert(start@[k as int] <= start@[k + 1]);
                assert(start@[k + 1] <= start@[(n + 1) as int]);
                assert(order@.subrange(lo as int, hi as int) == rows_with(gs, k as u32));
                lemma_rows_with_bounded(gs, k as u32);
                assert(group.len() == hi - lo);
            }
            if lo < hi {
                let mut vals: Vec<u32> = Vec::new();
                let mut x: usize = lo;
                while x < hi
                    invariant
                        lo <= x <= hi <= order@.len(),
                        order@.len() == gs.len(),
                        departures.len() == gs.len(),
                        order@.subrange(lo as int, hi as int) == rows_with(gs, k as u32),
                        forall|j: int| 0 <= j < rows_with(gs, k as u32).len() ==> #[trigger] rows_with(gs, k as u32)[j] < gs.len(),
                        group == rows_with(gs, k as u32).map_values(|i: u32| departures@[i as int]),
                        vals@ == group.take(x - lo),
                    decreases hi - x,
                {
                    let row = order[x] as usize;
                    proof {
                        assert(order@.subrange(lo as int, hi as int)[x - lo] == order@[x as int]);
                        assert(rows_with(gs, k as u32)[x - lo] == order@[x as int]);
                    }
                    vals.push(departures[row]);
                    proof {
                        assert(group.take(x + 1 - lo) =~= group.take(x - lo).push(group[x - lo]));
                    }
                    x = x + 1;
                }
                proof {
                    assert(group.take(hi - lo) =~= group);
                }
                let len = vals.len();
                let sorted = sort_ascending(&vals, 0, len);
                let ghost g = group.sort_by(leq_u32());
                proof {
                    assert(vals@.subrange(0, len as int) =~= vals@);
                    lemma_ascending_sorted(sorted@);
                    group.lemma_sort_by_ensures(leq_u32());
                    vstd::seq_lib::lemma_sorted_unique(sorted@, g, leq_u32());
                    assert(sorted@ == g);
                    vstd::seq_lib::to_multiset_len(sorted@);
                    vstd::seq_lib::to_multiset_len(vals@);
                    assert(sorted@.len() == len);
                    assert(len <= trip_keys.len());
                }
                let m: usize = if (self.searches as usize) < len { self.searches as usize } else { len };
                let first = flat.len();
                let ghost before = flat@;
                let mut q: usize = 0;
                proof {
                    assert(flat@.subrange(first as int, flat@.len() as int) =~= quantile_picks(g, m as nat, 0));
                }
                while q < m
                    invariant
                        sorted@ == g,
                        g.len() == len,
                        len > 0,
                        len <= trip_keys.len(),
                        m <= len,
                        m <= self.searches,
                        2 * self.searches * trip_keys.len() <= usize::MAX,
                        q <= m,
                        first == before.len(),
                        first <= flat@.len(),
                        flat@.subrange(0, first as int) == before,
                        flat@.subrange(first as int, flat@.len() as int) == quantile_picks(g, m as nat, q as nat),
                    decreases m - q,
                {
                    proof {
                        assert((2 * q + 1) * len <= 2 * self.searches * trip_keys.len()) by (nonlinear_arith)
                            requires q < m, m <= self.searches, len <= trip_keys.len();
                        assert(2 * m <= 2 * self.searches * trip_keys.len()) by (nonlinear_arith)
                            requires m <= self.searches, 1 <= trip_keys.len();
                        assert(2 * q + 1 <= (2 * q + 1) * len) by (nonlinear_arith)
                            requires 1 <= len;
                    }
                    let raw = (2 * q + 1) * len / (2 * m);
                    let idx = if raw < len - 1 { raw } else { len - 1 };
                    let at = sorted[idx];
                    let ghost p = quantile_picks(g, m as nat, q as nat);
                    proof {
                        assert(idx == quantile_index(len as nat, m as nat, q as nat));
                        assert(p == flat@.subrange(first as int, flat@.len() as int));
                        if p.len() > 0 {
                            assert(p.last() == flat@[flat@.len() - 1]);
                        }
                    }
                    if flat.len() == first || flat[flat.len() - 1] != at {
                        flat.push(at);
                        proof {
                            assert(flat@.subrange(first as int, flat@.len() as int) =~= p.push(at));
                            assert(flat@.subrange(0, first as int) =~= before);
                        }
                    }
                    q = q + 1;
                }
                let ghost job_key = k;
                let job = Job { key: k, start: first, end: flat.len() };
                let ghost old_jobs = jobs@;
                jobs.push(job);
                proof {
                    assert(flat@.subrange(first as int, flat@.len() as int) == pair_picks(group, self.searches));
                    assert forall|j: int| 0 <= j < jobs@.len() implies (#[trigger] jobs@[j]).start <= jobs@[j].end <= flat@.len()
                        && flat@.subrange(jobs@[j].start as int, jobs@[j].end as int)
                            == pair_picks(group_departures(v, trip_keys@, departures@, self.max_routes, jobs@[j].key as int), self.searches) by {
                        if j < old_jobs.len() {
                            assert(jobs@[j] == old_jobs[j]);
                            assert(old_jobs[j].end <= first);
                            assert(flat@.subrange(jobs@[j].start as int, jobs@[j].end as int)
                                =~= before.subrange(jobs@[j].start as int, jobs@[j].end as int));
                        }
                    }
                    assert forall|qq: int| 0 <= qq < k + 1 implies
                        ((exists|j: int| 0 <= j < jobs@.len() && (#[trigger] jobs@[j]).key == qq)
                            <==> (#[trigger] group_departures(v, trip_keys@, departures@, self.max_routes, qq)).len() > 0) by {
                        if qq < k {
                            if exists|j: int| 0 <= j < jobs@.len() && (#[trigger] jobs@[j]).key == qq {
                                let j = choose|j: int| 0 <= j < jobs@.len() && (#[trigger] jobs@[j]).key == qq;
                                assert(j < old_jobs.len());
                                assert(old_jobs[j].key == qq);
                            }
                            if exists|j: int| 0 <= j < old_jobs.len() && (#[trigger] old_jobs[j]).key == qq {
                                let j = choose|j: int| 0 <= j < old_jobs.len() && (#[trigger] old_jobs[j]).key == qq;
                                assert(jobs@[j].key == qq);
                            }
                        } else {
                            assert(jobs@[old_jobs.len() as int].key == qq);
                        }
                    }
                }
            } else {
                proof {
                    assert forall|qq: int| 0 <= qq < k + 1 implies
                        ((exists|j: int| 0 <= j < jobs@.len() && (#[trigger] jobs@[j]).key == qq)
                            <==> (#[trigger] group_departures(v, trip_keys@, departures@, self.max_routes, qq)).len() > 0) by {
                        if qq == k {
                            if exists|j: int| 0 <= j < jobs@.len() && (#[trigger] jobs@[j]).key == qq {
                                let j = choose|j: int| 0 <= j < jobs@.len() && (#[trigger] jobs@[j]).key == qq;
                                assert(jobs@[j].key < k);
                            }
                        }
                    }
                }
            }
            k = k + 1;
        }
        (flat, jobs)
    }
}

} // verus!
