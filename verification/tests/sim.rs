//! The pieces of a run that are not arithmetic on travel times.

use openmobisim_core::equilibration::{EquilibrationError, GapVerdict, NoEquilibration, DEFAULT_STRATEGY, MAX_ITERATIONS};
use openmobisim_core::events::{EventRow, EventType, TripCompletionStats};
use openmobisim_core::factory::{first_unknown, Methods};
use openmobisim_core::generate::{check_known, draw_seed, BiasSource, RouteError, Shortest, DEFAULT_METHOD, MAX_ROUTES_PER_SET};
use openmobisim_core::hash::Fnv1a;
use openmobisim_core::ids::{EntityId, EntityKind, TripId};
use openmobisim_core::iterate::{unfinished_trips, IterationPlan};
use openmobisim_core::route_cache::{generation_key_from, generation_key_head, CacheEntries, DEFAULT_CAPACITY};
use openmobisim_core::route_choice::{floor_draw_address, gap_sample_address, renumber_choices, route_identity, NO_ROUTE};
use openmobisim_core::route_update::{
    check_known as check_update_options, is_known, slack_in_range, Additions, BestResponse, NoRouteUpdate, RouteUpdateError,
    DEFAULT_SLACK_BITS, DEFAULT_UPDATE,
};
use openmobisim_core::rng::DrawAddress;
use openmobisim_core::store::{RouteKey, RouteSets, StoredRoute};
use openmobisim_core::time::Second;

fn key(o: u32, d: u32) -> RouteKey {
    RouteKey { origin: o, destination: d }
}

fn route(links: &[u32]) -> StoredRoute {
    StoredRoute { links: links.to_vec(), cost_bits: 1.0f32.to_bits(), overlap_bits: 0 }
}

fn names(v: &[&str]) -> Vec<String> {
    v.iter().map(|s| s.to_string()).collect()
}

#[test]
fn event_rows_name_the_trip_and_what_happened() {
    let row = EventRow::trip(Second(90), EventType::TripTruncated, TripId::new(7));
    assert_eq!(row.second, Second(90));
    assert_eq!(row.entity_kind, EntityKind::Trip);
    assert_eq!(row.entity_id, 7);
    assert_eq!(EventType::TripCompleted.as_str(), "trip_completed");
    assert_eq!(EventType::TripTruncated.as_str(), "trip_truncated");
    assert_eq!(EventType::NoVehicleAvailable.as_str(), "no_vehicle_available");
    assert_eq!(EventType::NoFeasiblePath.as_str(), "no_feasible_path");
}

#[test]
fn attempted_trips_are_the_completed_and_the_truncated() {
    let stats = TripCompletionStats { total_trips: 10, no_vehicle_available: 2, no_feasible_path: 1, completed: 5, truncated: 2 };
    assert_eq!(stats.attempted(), 7);
    assert_eq!(TripCompletionStats::default().attempted(), 0);
}

#[test]
fn verdicts_have_names() {
    assert_eq!(GapVerdict::Good.as_str(), "good");
    assert_eq!(GapVerdict::Acceptable.as_str(), "acceptable");
    assert_eq!(GapVerdict::Poor.as_str(), "poor");
}

#[test]
fn the_strategy_that_does_not_iterate_loads_once_and_takes_no_options() {
    let none = NoEquilibration::from_options(&[]).unwrap();
    assert_eq!(none.name(), "none");
    assert_eq!(none.descriptor(), "none");
    assert_eq!(none.max_iterations(), 1);
    assert_eq!(none.cost_bin_seconds(), 300);
    assert!(!none.draws_reselection());
    assert_eq!(DEFAULT_STRATEGY, "none");
    assert_eq!(MAX_ITERATIONS, 1000);
    let err = NoEquilibration::from_options(&names(&["iterations"])).unwrap_err();
    assert_eq!(err.to_string(), "equilibration \"none\" has no option \"iterations\"; it has no options");
}

#[test]
fn equilibration_errors_say_what_is_wrong() {
    let e = EquilibrationError::UnknownStrategy { name: "fast".to_string(), known: names(&["none", "msa"]) };
    assert_eq!(e.to_string(), "no equilibration strategy called \"fast\"; the strategies are: none, msa");
    let e = EquilibrationError::UnknownOption { strategy: "msa".to_string(), option: "x".to_string(), known: vec!["iterations", "warmup"] };
    assert_eq!(e.to_string(), "equilibration \"msa\" has no option \"x\"; its options are: iterations, warmup");
    let e = EquilibrationError::BadOption { strategy: "msa".to_string(), option: "iterations".to_string(), reason: "must be a whole number from 1 to 1000, got 0".to_string() };
    assert_eq!(e.to_string(), "equilibration \"msa\", option \"iterations\": must be a whole number from 1 to 1000, got 0");
}

#[test]
fn route_errors_say_what_is_wrong() {
    let e = RouteError::UnknownMethod { name: "best".to_string(), known: names(&["penalty", "shortest"]) };
    assert_eq!(e.to_string(), "unknown route-set method \"best\"; choose from [\"penalty\", \"shortest\"]");
    let e = RouteError::UnknownOption { method: "shortest".to_string(), option: "k".to_string(), known: vec![] };
    assert_eq!(e.to_string(), "method \"shortest\" has no option \"k\"; its options are []");
    let e = RouteError::BadOption { method: "penalty".to_string(), option: "penalty".to_string(), reason: "must be above 1, got 1".to_string() };
    assert_eq!(e.to_string(), "method \"penalty\", option \"penalty\": must be above 1, got 1");
}

#[test]
fn route_update_errors_say_what_is_wrong() {
    let e = RouteUpdateError::UnknownUpdate { name: "more".to_string(), known: names(&["none", "best_response"]) };
    assert_eq!(e.to_string(), "no route update called \"more\"; the updates are: none, best_response");
    let e = RouteUpdateError::UnknownOption { update: "best_response".to_string(), option: "x".to_string(), known: vec!["max_routes", "searches"] };
    assert_eq!(e.to_string(), "route update \"best_response\" has no option \"x\"; its options are: max_routes, searches");
    let e = NoRouteUpdate::from_options(&names(&["searches"])).unwrap_err();
    assert_eq!(e.to_string(), "route update \"none\" has no option \"searches\"; it has no options");
}

#[test]
fn the_first_unknown_option_is_reported() {
    let known = ["draws", "seed", "sigma"];
    assert_eq!(first_unknown(&names(&["draws", "seed"]), &known), None);
    assert_eq!(first_unknown(&names(&["draws", "alpha", "zeta"]), &known), Some(1));
    match check_known("montecarlo", &names(&["draws", "alpha", "zeta"]), &known) {
        Err(RouteError::UnknownOption { method, option, known }) => {
            assert_eq!(method, "montecarlo");
            assert_eq!(option, "alpha");
            assert_eq!(known, vec!["draws", "seed", "sigma"]);
        }
        other => panic!("expected an unknown option, got {other:?}"),
    }
    assert!(check_known("montecarlo", &[], &known).is_ok());
}

#[test]
fn the_shortest_method_has_no_options() {
    let m = Shortest::from_options(&[]).unwrap();
    assert_eq!(m.name(), "shortest");
    assert_eq!(m.descriptor(), "shortest");
    assert!(Shortest::from_options(&names(&["max_paths"])).is_err());
    assert_eq!(DEFAULT_METHOD, "penalty");
    assert_eq!(MAX_ROUTES_PER_SET, 32);
    assert_eq!(BiasSource::Unbiased.name(), "none");
    assert_eq!(BiasSource::Demand.name(), "demand");
    assert_eq!(BiasSource::Given.name(), "given");
}

#[test]
fn a_draw_seed_mixes_the_pair_the_draw_and_the_seed() {
    let expected = ((3u64 << 32) | 5).wrapping_mul(0x9E37_79B9_7F4A_7C15)
        ^ 8u64.wrapping_mul(0xD6E8_FEB8_6659_FD93)
        ^ 11u64.wrapping_mul(0xA24B_AED4_963E_E407);
    assert_eq!(draw_seed(3, 5, 7, 11), expected);
    assert_ne!(draw_seed(3, 5, 7, 11), draw_seed(5, 3, 7, 11));
    assert_ne!(draw_seed(3, 5, 7, 11), draw_seed(3, 5, 8, 11));
}

#[test]
fn factories_keep_their_place_when_replaced() {
    let mut m: Methods<u32> = Methods::new();
    m.register("penalty", 1);
    m.register("shortest", 2);
    m.register("penalty", 3);
    assert_eq!(m.names(), vec!["penalty", "shortest"]);
    assert_eq!(*m.lookup("penalty").unwrap(), 3);
    assert_eq!(*m.lookup("shortest").unwrap(), 2);
    assert_eq!(m.lookup("montecarlo").unwrap_err(), names(&["penalty", "shortest"]));
}

#[test]
fn best_response_defaults_and_descriptor() {
    let b = BestResponse::default();
    assert_eq!(b.searches, 1);
    assert_eq!(b.max_routes, 10);
    assert_eq!(b.name(), "best_response");
    assert_eq!(b.slack_bits, 0.02f64.to_bits());
    assert_eq!(b.descriptor(&f64::from_bits(b.slack_bits).to_string()), "best_response;max_routes=10;searches=1;slack=0.02");
    let wide = BestResponse { searches: 16, max_routes: 32, slack_bits: DEFAULT_SLACK_BITS };
    assert_eq!(wide.descriptor(&f64::from_bits(wide.slack_bits).to_string()), "best_response;max_routes=32;searches=16;slack=0.02");
    assert!(b.is_active());
    let none = NoRouteUpdate::from_options(&[]).unwrap();
    assert!(!none.is_active());
    assert_eq!(none.name(), "none");
    assert_eq!(none.descriptor(), "none");
    assert_eq!(none.update().routes.len(), 0);
    assert_eq!(DEFAULT_UPDATE, "none");
}

#[test]
fn additions_keep_the_keys_that_found_something_and_count_every_search() {
    let found = vec![(vec![route(&[1])], 2), (vec![], 1), (vec![route(&[2]), route(&[3])], 1)];
    let a = Additions::from_found(&[0, 4, 9], found);
    assert_eq!(a.searches, 4);
    assert_eq!(a.routes.len(), 2);
    assert_eq!(a.routes[0].0, 0);
    assert_eq!(a.routes[1].0, 9);
    assert_eq!(a.route_count(), 3);
}

#[test]
fn a_route_is_known_if_the_set_or_the_added_hold_it() {
    let sets = RouteSets::from_generated(1, "m", "m", vec![key(1, 2)], vec![vec![route(&[1, 2]), route(&[3])]]);
    assert!(is_known(&sets, 0, &[], &[3]));
    assert!(!is_known(&sets, 0, &[], &[1]));
    assert!(is_known(&sets, 0, &[route(&[1])], &[1]));
    assert!(!is_known(&sets, 0, &[route(&[1])], &[2, 1]));
}

#[test]
fn a_route_identity_is_a_folded_hash_of_its_links() {
    let mut h = Fnv1a::new();
    h.write_u32(4);
    h.write_u32(9);
    let v = h.finish();
    assert_eq!(route_identity(&[4, 9]), (v ^ (v >> 32)) as u32);
    assert_ne!(route_identity(&[4, 9]), route_identity(&[9, 4]));
}

#[test]
fn identities_within_a_set_differ_and_keep_the_hash_when_they_can() {
    let sets = RouteSets::from_generated(
        1,
        "m",
        "m",
        vec![key(1, 2), key(3, 4)],
        vec![vec![route(&[1, 2]), route(&[1, 2]), route(&[5])], vec![route(&[1, 2])]],
    );
    let ids = sets.identities();
    let h = route_identity(&[1, 2]);
    assert_eq!(ids[0], h);
    assert_eq!(ids[1], h.wrapping_add(1), "a clash is nudged to the next free value");
    assert_eq!(ids[2], route_identity(&[5]));
    assert_eq!(ids[3], h, "another set does not clash");
}

#[test]
fn a_trip_keeps_its_route_when_the_sets_grow() {
    let old = RouteSets::from_generated(1, "m", "m", vec![key(1, 2), key(3, 4)], vec![vec![route(&[1]), route(&[2])], vec![route(&[3])]]);
    let (grown, shift) = old.extended(&[(0, vec![route(&[4])])], 1, "u");
    let mut chosen = vec![1, NO_ROUTE, 2];
    let mut alternatives = vec![2, 0, 1];
    let trip_keys = [key(1, 2), key(5, 5), key(3, 4)];
    renumber_choices(&mut chosen, &mut alternatives, &old, &shift, &grown, &trip_keys);
    assert_eq!(chosen, vec![1, NO_ROUTE, 3]);
    assert_eq!(alternatives, vec![3, 0, 1]);
    assert_eq!(grown.route(3).links, old.route(2).links);
}

#[test]
fn draw_addresses_of_the_choice_layer() {
    assert_eq!(gap_sample_address(12), DrawAddress::from_pair(12, u32::MAX));
    assert_eq!(floor_draw_address(1, 2, 3), DrawAddress::from_quad(1, 2, 0x8000_0003, 0));
}

#[test]
fn the_cache_keeps_the_most_recently_used_and_forgets_on_request() {
    let mut cache: CacheEntries<&str> = CacheEntries::new(2);
    let mut made = 0;
    let mut get = |cache: &mut CacheEntries<&str>, key: u64| {
        if !cache.touch(key) {
            made += 1;
            cache.store(key, "sets");
        }
        made
    };
    get(&mut cache, 1);
    get(&mut cache, 2);
    assert_eq!(get(&mut cache, 1), 2, "the third was a hit");
    get(&mut cache, 3);
    assert_eq!(cache.stats().held, 2);
    assert_eq!(get(&mut cache, 1), 3, "1 stayed");
    assert_eq!(get(&mut cache, 2), 4, "2 was forgotten");
    assert_eq!(cache.stats().hits, 2);
    assert_eq!(cache.stats().misses, 4);
    cache.clear();
    assert_eq!(cache.stats().held, 0);
    let mut one: CacheEntries<u8> = CacheEntries::new(0);
    one.store(7, 1);
    one.store(8, 2);
    assert_eq!(one.stats().held, 1, "a capacity of 0 is 1");
    assert_eq!(*one.newest(), 2);
    assert_eq!(DEFAULT_CAPACITY, 4);
}

#[test]
fn the_key_does_not_depend_on_the_order_of_the_pairs_only_on_which_they_are() {
    let (a, b, c) = (key(1, 2), key(1, 3), key(3, 2));
    let head = generation_key_head();
    let k = |keys: &[RouteKey]| generation_key_from(head, "shortest", "shortest", keys, None);
    assert_eq!(k(&[a, b, c]), k(&[c, a, b, a, a]), "order and repeats do not matter");
    assert_ne!(k(&[a, b, c]), k(&[a, b]));
    // A pair from a node to itself is nothing to route and is not part of the key.
    let same = key(1, 1);
    assert_eq!(k(&[a, b]), k(&[a, same, b]));
    let other = generation_key_from(head, "penalty", "penalty;max_paths=5", &[a, b, c], None);
    assert_ne!(k(&[a, b, c]), other);
}

#[test]
fn a_run_without_iterations_records_only_the_bins_it_was_asked_for() {
    let plan = IterationPlan::new(1, 300, 0, None);
    assert_eq!(plan, IterationPlan { max_iterations: 1, record_bins: None, warmup: 0 });
    assert!(!plan.wants_entry());
    let asked = IterationPlan::new(1, 300, 0, Some(900));
    assert_eq!(asked.record_bins, Some(900));
    // A strategy that asks for no loading still gets one.
    assert_eq!(IterationPlan::new(0, 300, 5, None).max_iterations, 1);
    assert_eq!(IterationPlan::new(0, 300, 5, None).warmup, 0);
}

#[test]
fn an_iterating_run_records_link_times_and_never_warms_up_on_its_last_loading() {
    let plan = IterationPlan::new(10, 300, 3, None);
    assert_eq!(plan, IterationPlan { max_iterations: 10, record_bins: Some(300), warmup: 3 });
    assert!(plan.wants_entry());
    assert!(plan.point_queue_at(2));
    assert!(!plan.point_queue_at(3));
    assert_eq!(IterationPlan::new(10, 300, 3, Some(60)).record_bins, Some(60));
    let long = IterationPlan::new(10, 300, 50, None);
    assert_eq!(long.warmup, 9);
    assert!(!long.point_queue_at(9));
}

#[test]
fn a_run_stops_at_its_last_loading_or_once_converged() {
    let plan = IterationPlan::new(10, 300, 0, None);
    assert_eq!(plan.after(3, false), (false, false));
    assert_eq!(plan.after(3, true), (true, true));
    assert_eq!(plan.after(9, false), (true, false));
    assert_eq!(plan.after(9, true), (true, false));
    assert!(plan.grows_after(8, true));
    assert!(!plan.grows_after(9, true));
    assert!(!plan.grows_after(3, false));
}

#[test]
fn the_trips_still_under_way_are_those_truncated() {
    let events = [
        EventRow::trip(Second(10), EventType::TripCompleted, TripId::new(0)),
        EventRow::trip(Second(99), EventType::TripTruncated, TripId::new(2)),
        EventRow::trip(Second(5), EventType::NoFeasiblePath, TripId::new(1)),
        EventRow::trip(Second(99), EventType::TripTruncated, TripId::new(4)),
    ];
    assert_eq!(unfinished_trips(&events, 5), vec![false, false, true, false, true]);
    assert_eq!(unfinished_trips(&[], 2), vec![false, false]);
}

#[test]
fn the_best_response_slack_is_an_option_from_zero_to_one() {
    let known = BestResponse::option_names();
    assert_eq!(known, ["max_routes", "searches", "slack"]);
    assert!(check_update_options("best_response", &names(&["slack", "searches", "max_routes"]), &known).is_ok());
    let e = check_update_options("best_response", &names(&["nope"]), &known).unwrap_err();
    assert!(e.to_string().contains("max_routes, searches"), "{}", e.to_string());
    for bad in [-0.1f64, 1.5, f64::NAN, -f64::NAN, f64::INFINITY, -1e-300, 1.0000000000000002] {
        assert!(!slack_in_range(bad.to_bits()), "{bad}");
    }
    for good in [0.0f64, -0.0, 0.02, 0.5, 1.0, 5e-324] {
        assert!(slack_in_range(good.to_bits()), "{good}");
    }
}
