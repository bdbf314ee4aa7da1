//! Planning the searches of a route update, the load a demand puts on each link, and the
//! accounting of a loading.

use openmobisim_core::diagnostics::{Category, DiagKey, Diagnostics, ElementRef, Severity};
use openmobisim_core::events::EventType;
use openmobisim_core::generate::TripDemand;
use openmobisim_core::grouping::{group_rows, sort_ascending};
use openmobisim_core::ids::{EntityId, TripId};
use openmobisim_core::loading::loading_order;
use openmobisim_core::propensity::peak_loads;
use openmobisim_core::route_choice::NO_ROUTE;
use openmobisim_core::route_update::{BestResponse, Job, DEFAULT_SLACK_BITS};
use openmobisim_core::run::{next_trip_of, no_vehicle_available, static_route, trip_route, StaticRoute, TripLedger, TripRoute};
use openmobisim_core::store::{RouteKey, RouteSets, StoredRoute};
use openmobisim_core::time::Second;

fn key(o: u32, d: u32) -> RouteKey {
    RouteKey { origin: o, destination: d }
}

fn route(links: &[u32]) -> StoredRoute {
    StoredRoute { links: links.to_vec(), cost_bits: 1.0f32.to_bits(), overlap_bits: 0 }
}

fn sets() -> RouteSets {
    RouteSets::from_generated(
        1,
        "m",
        "m",
        vec![key(1, 2), key(3, 4), key(5, 6)],
        vec![vec![route(&[0, 1]), route(&[3])], vec![route(&[1, 2, 1])], vec![]],
    )
}

#[test]
fn one_search_a_pair_is_at_its_median_departure() {
    let s = sets();
    let trip_keys = [key(1, 2), key(3, 4), key(1, 2), key(5, 6), key(1, 2), key(9, 9)];
    let departures = [100, 50, 10, 5, 30, 1];
    let (flat, jobs) = BestResponse { searches: 1, max_routes: 10, slack_bits: DEFAULT_SLACK_BITS }.plan(&s, &trip_keys, &departures);
    assert_eq!(flat, vec![30, 50]);
    assert_eq!(jobs, vec![Job { key: 0, start: 0, end: 1 }, Job { key: 1, start: 1, end: 2 }]);
}

#[test]
fn several_searches_a_pair_spread_over_its_departures() {
    let s = sets();
    let trip_keys = [key(1, 2), key(3, 4), key(1, 2), key(1, 2)];
    let departures = [100, 50, 10, 30];
    let (flat, jobs) = BestResponse { searches: 3, max_routes: 10, slack_bits: DEFAULT_SLACK_BITS }.plan(&s, &trip_keys, &departures);
    assert_eq!(flat, vec![10, 30, 100, 50]);
    assert_eq!(jobs, vec![Job { key: 0, start: 0, end: 3 }, Job { key: 1, start: 3, end: 4 }]);
}

#[test]
fn quantiles_on_one_second_are_one_search() {
    let s = sets();
    let trip_keys = [key(3, 4), key(3, 4), key(3, 4)];
    let departures = [70, 70, 70];
    let (flat, jobs) = BestResponse { searches: 3, max_routes: 10, slack_bits: DEFAULT_SLACK_BITS }.plan(&s, &trip_keys, &departures);
    assert_eq!(flat, vec![70]);
    assert_eq!(jobs, vec![Job { key: 1, start: 0, end: 1 }]);
}

#[test]
fn a_pair_at_its_limit_is_not_planned() {
    let s = sets();
    let trip_keys = [key(1, 2), key(3, 4)];
    let departures = [10, 20];
    let (flat, jobs) = BestResponse { searches: 1, max_routes: 2, slack_bits: DEFAULT_SLACK_BITS }.plan(&s, &trip_keys, &departures);
    assert_eq!(flat, vec![20]);
    assert_eq!(jobs, vec![Job { key: 1, start: 0, end: 1 }]);
}

#[test]
fn the_peak_is_the_busiest_bin_of_each_link() {
    let s = RouteSets::from_generated(1, "shortest", "shortest", vec![key(1, 2), key(3, 4)], vec![vec![route(&[0, 1])], vec![route(&[1, 2, 1])]]);
    let trips = [
        TripDemand { key: key(1, 2), weight: 2, departure: 0 },
        TripDemand { key: key(3, 4), weight: 3, departure: 100 },
        TripDemand { key: key(1, 2), weight: 5, departure: 2_000 },
        TripDemand { key: key(7, 8), weight: 9, departure: 0 },
    ];
    let (peak, used) = peak_loads(&s, &trips, 4);
    assert_eq!(peak, vec![5, 8, 3, 0]);
    assert_eq!(used, vec![true, true, true, false]);
    let mut reversed = trips.to_vec();
    reversed.reverse();
    assert_eq!(peak_loads(&s, &reversed, 4), (peak, used), "the order of the trips does not matter");
}

#[test]
fn rows_are_grouped_by_key_in_order() {
    let (start, order) = group_rows(&[2, 0, 2, 1, 0], 3);
    assert_eq!(start, vec![0, 2, 3, 5]);
    assert_eq!(order, vec![1, 4, 3, 0, 2]);
    assert_eq!(sort_ascending(&vec![5, 1, 4, 1, 3], 0, 5), vec![1, 1, 3, 4, 5]);
    assert_eq!(sort_ascending(&vec![5, 1, 4, 1, 3], 1, 3), vec![1, 4]);
}

#[test]
fn a_trip_goes_nowhere_follows_its_route_or_has_none() {
    assert_eq!(trip_route(key(3, 3), 7), TripRoute::InPlace);
    assert_eq!(trip_route(key(3, 4), NO_ROUTE), TripRoute::NoRoute);
    assert_eq!(trip_route(key(3, 4), 7), TripRoute::Route(7));
}

#[test]
fn completion_counts_always_sum_to_the_rows() {
    let mut diagnostics = Diagnostics::new();
    let mut ledger = TripLedger::new(5);
    ledger.no_vehicle(TripId::new(0), Second(10), &mut diagnostics);
    ledger.completed(TripId::new(1), Second(400));
    ledger.no_path(TripId::new(2), Second(30), &mut diagnostics);
    ledger.truncated(TripId::new(3), Second(3_600), &mut diagnostics);
    ledger.completed(TripId::new(4), Second(500));
    let (stats, events) = ledger.finish();
    assert_eq!(stats.total_trips, 5);
    assert_eq!((stats.completed, stats.truncated, stats.no_vehicle_available, stats.no_feasible_path), (2, 1, 1, 1));
    assert_eq!(events.len(), 5);
    assert_eq!(events[3].event_type, EventType::TripTruncated);
    assert_eq!(events[3].second, Second(3_600));
    assert_eq!(events[0].entity_id, 0);
    assert_eq!(diagnostics.len(), 3);
    let key = DiagKey::new(Category::Modelling, no_vehicle_available(), Severity::Info, ElementRef::of(TripId::new(0)));
    assert_eq!(diagnostics.count_of_key(key), 1);
}

#[test]
fn a_static_trip_is_here_on_its_first_route_or_unreachable() {
    let s = sets();
    assert_eq!(static_route(&s, key(7, 7)), StaticRoute::Here);
    assert_eq!(static_route(&s, key(1, 2)), StaticRoute::Route(0));
    assert_eq!(static_route(&s, key(3, 4)), StaticRoute::Route(2));
    assert_eq!(static_route(&s, key(5, 6)), StaticRoute::Unreachable);
    assert_eq!(static_route(&s, key(8, 9)), StaticRoute::Unreachable);
}

#[test]
fn the_next_trip_of_a_day_is_the_next_id_until_the_last() {
    let last = Some(TripId::new(7));
    assert_eq!(next_trip_of(last, TripId::new(5)), Some(TripId::new(6)));
    assert_eq!(next_trip_of(last, TripId::new(6)), Some(TripId::new(7)));
    assert_eq!(next_trip_of(last, TripId::new(7)), None);
    assert_eq!(next_trip_of(None, TripId::new(0)), None);
}

#[test]
fn a_loading_takes_up_the_earliest_queued_trip_and_then_that_travellers_next() {
    let days = [0u32, 2, 3, 5];
    let seconds = |d: &[u32]| d.iter().map(|&s| Second(s)).collect::<Vec<Second>>();
    // Each day in order: every trip in the order of its departure, ties by trip id.
    assert_eq!(loading_order(&days, &seconds(&[10, 20, 15, 5, 30])), vec![3, 0, 2, 1, 4]);
    assert_eq!(loading_order(&days, &seconds(&[10, 10, 10, 10, 10])), vec![0, 1, 2, 3, 4]);
    // A day out of order: its second trip is only queued once its first is taken up.
    assert_eq!(loading_order(&days, &seconds(&[100, 50, 60, 10, 200])), vec![3, 2, 0, 1, 4]);
    assert_eq!(loading_order(&[0], &[]), Vec::<u32>::new());
}
