//! The route-set store built by hand: layout, lookups, growth and the inverted index.

use openmobisim_core::hash::Fnv1a;
use openmobisim_core::ids::{EntityId, NodeId};
use openmobisim_core::store::{distinct_pairs, RouteKey, RouteSets, StoredRoute};

fn key(o: u32, d: u32) -> RouteKey {
    RouteKey { origin: o, destination: d }
}

fn route(links: &[u32], cost: f32, overlap: f32) -> StoredRoute {
    StoredRoute { links: links.to_vec(), cost_bits: cost.to_bits(), overlap_bits: overlap.to_bits() }
}

/// Two keys: (1, 2) with two routes, (3, 4) with one; (5, 6) with none.
fn small() -> RouteSets {
    RouteSets::from_generated(
        0xfeed,
        "penalty",
        "penalty;max_paths=5",
        vec![key(1, 2), key(3, 4), key(5, 6)],
        vec![
            vec![route(&[10, 11], 60.0, 0.0), route(&[12, 13, 11], 75.0, 0.5)],
            vec![route(&[20], 30.0, 0.0)],
            vec![],
        ],
    )
}

#[test]
fn a_store_lays_routes_out_flat() {
    let s = small();
    assert_eq!(s.keys(), &[key(1, 2), key(3, 4), key(5, 6)]);
    assert_eq!(s.route_count(), 3);
    assert_eq!(s.set_start(), &[0, 2, 3, 3]);
    assert_eq!(s.route_start(), &[0, 2, 5, 6]);
    assert_eq!(s.links(), &[10, 11, 12, 13, 11, 20]);
    assert_eq!(s.costs(), &[60.0f32.to_bits(), 75.0f32.to_bits(), 30.0f32.to_bits()]);
    assert_eq!(s.overlaps(), &[0.0f32.to_bits(), 0.5f32.to_bits(), 0.0f32.to_bits()]);
    assert_eq!(s.stamps(), &[0, 0, 0]);
    assert_eq!(s.route_range(0), (0, 2));
    assert_eq!(s.route_range(2), (3, 3));
    assert_eq!(s.method(), "penalty");
    assert_eq!(s.descriptor(), "penalty;max_paths=5");
    assert_eq!(s.update(), "");
    assert!(s.matches(0xfeed));
    assert!(!s.matches(0xbeef));
}

#[test]
fn routes_are_found_by_number_and_by_key() {
    let s = small();
    let r = s.route(1);
    assert_eq!(r.links, &[12, 13, 11]);
    assert_eq!(f32::from_bits(r.cost_bits), 75.0);
    assert_eq!(f32::from_bits(r.overlap_bits), 0.5);
    assert_eq!(s.key_index(key(3, 4)), Some(1));
    assert_eq!(s.key_index(key(3, 5)), None);
    assert_eq!(s.key_index(key(0, 0)), None);
    let routes = s.routes(0);
    assert_eq!(routes.len(), 2);
    assert_eq!(routes[0].links, &[10, 11]);
    assert_eq!(routes[1].links, &[12, 13, 11]);
    assert_eq!(s.best(key(1, 2)).unwrap().links, &[10, 11]);
    assert!(s.best(key(5, 6)).is_none(), "a key with an empty set has no best route");
    assert!(s.best(key(9, 9)).is_none());
}

#[test]
fn a_route_belongs_to_the_last_key_starting_at_or_before_it() {
    let s = small();
    assert_eq!(s.key_of_route(0), 0);
    assert_eq!(s.key_of_route(1), 0);
    assert_eq!(s.key_of_route(2), 1);
    assert_eq!(s.key_of_route(3), 3, "past the last route is the number of keys");
}

#[test]
fn the_inverted_index_lists_each_use_of_a_link_in_route_order() {
    let s = small();
    let index = s.link_index(21);
    assert_eq!(index.routes_using(11), &[0, 1]);
    assert_eq!(index.routes_using(10), &[0]);
    assert_eq!(index.routes_using(20), &[2]);
    assert!(index.routes_using(0).is_empty());
    assert!(index.routes_using(15).is_empty());
    let looped = RouteSets::from_generated(1, "m", "m", vec![key(1, 2)], vec![vec![route(&[4, 5, 4], 1.0, 0.0)]]);
    assert_eq!(looped.link_index(6).routes_using(4), &[0, 0], "one entry per use");
}

#[test]
fn a_store_counts_its_bytes() {
    let s = small();
    // 8 per key, 4 per offset and per link, 12 per route
    assert_eq!(s.bytes(), 8 * 3 + 4 * (4 + 4 + 6) + 12 * 3);
}

#[test]
fn growing_a_store_puts_new_routes_after_a_keys_old_ones() {
    let s = small();
    let (grown, shift) = s.extended(&[(0, vec![route(&[14, 11], 80.0, 0.7)]), (2, vec![route(&[30, 31], 40.0, 0.0)])], 3, "best_response;max_routes=10;searches=1;slack=0.02");
    assert_eq!(shift, vec![0, 1, 1]);
    assert_eq!(grown.keys(), s.keys());
    assert_eq!(grown.set_start(), &[0, 3, 4, 5]);
    assert_eq!(grown.links(), &[10, 11, 12, 13, 11, 14, 11, 20, 30, 31]);
    assert_eq!(grown.stamps(), &[0, 0, 3, 0, 3]);
    assert_eq!(grown.update(), "best_response;max_routes=10;searches=1;slack=0.02");
    assert_eq!(grown.method(), "penalty");
    // Every old route is where the shift says.
    for k in 0..s.keys().len() {
        let (lo, hi) = s.route_range(k);
        for r in lo..hi {
            let moved = r + shift[k] as usize;
            assert_eq!(grown.route(moved).links, s.route(r).links);
            assert_eq!(grown.route(moved).cost_bits, s.route(r).cost_bits);
        }
    }
}

#[test]
fn a_store_nobody_grew_hashes_without_an_update() {
    let s = small();
    let mut h = Fnv1a::new();
    h.write_u64(0xfeed);
    h.write_bytes("penalty;max_paths=5".as_bytes());
    assert_eq!(s.identity(), h.finish());
    let (grown, _) = s.extended(&[], 1, "x");
    let mut g = Fnv1a::new();
    g.write_u64(0xfeed);
    g.write_bytes("penalty;max_paths=5".as_bytes());
    g.write_bytes("+update:".as_bytes());
    g.write_bytes("x".as_bytes());
    assert_eq!(grown.identity(), g.finish());
    assert_ne!(grown.identity(), s.identity());
}

#[test]
fn the_keys_to_route_are_sorted_distinct_and_not_loops() {
    let keys = [key(3, 4), key(1, 2), key(7, 7), key(3, 4), key(1, 1), key(1, 0)];
    assert_eq!(distinct_pairs(&keys), vec![key(1, 0), key(1, 2), key(3, 4)]);
    let mut reversed = keys.to_vec();
    reversed.reverse();
    assert_eq!(distinct_pairs(&reversed), distinct_pairs(&keys), "the order asked in does not matter");
    assert!(distinct_pairs(&[]).is_empty());
}

#[test]
fn a_key_is_made_from_two_nodes() {
    let k = RouteKey::new(NodeId::new(5), NodeId::new(9));
    assert_eq!(k, key(5, 9));
}
