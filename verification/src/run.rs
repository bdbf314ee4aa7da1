//! The accounting of one loading of the demand: every trip ends in exactly one of four
//! outcomes, each outcome is counted, each trip gets one event row, and the outcomes that are
//! conditions worth reporting are recorded as diagnostics. What route a trip takes, if any,
//! is decided here too; moving vehicles and timing trajectories is the loading engine's.

use vstd::prelude::*;

use crate::diagnostics::{codes, key_view, record_fits, recorded, Category, DiagCode, DiagKey, Diagnostics, ElementRef, KeyView, Severity};
use crate::events::{EventRow, EventType, TripCompletionStats};
use crate::ids::{utf8, EntityId, EntityKind, TripId, NULL_ID};
use crate::route_choice::NO_ROUTE;
use crate::store::{pair_lt, RouteKey, RouteSets};
use crate::time::Second;

verus! {

/// The diagnostic code of a trip whose traveller owns no car reachable from its origin.
pub fn no_vehicle_available() -> (r: DiagCode)
    ensures
        r.0@ == "no_vehicle_available"@,
{
    DiagCode("no_vehicle_available")
}

/// How many events of kind `t` there are.
pub open spec fn count_of(events: Seq<EventRow>, t: EventType) -> nat
    decreases events.len(),
{
    if events.len() == 0 {
        0
    } else {
        count_of(events.drop_last(), t) + if events.last().event_type == t { 1nat } else { 0nat }
    }
}

/// Every event is of one of the four kinds.
pub proof fn lemma_counts_add_up(events: Seq<EventRow>)
    ensures
        count_of(events, EventType::TripCompleted) + count_of(events, EventType::TripTruncated)
            + count_of(events, EventType::NoVehicleAvailable) + count_of(events, EventType::NoFeasiblePath) == events.len(),
    decreases events.len(),
{
    if events.len() > 0 {
        lemma_counts_add_up(events.drop_last());
    }
}

/// What a trip does with the route it was given.
#[derive(Clone, Copy, Debug, PartialEq, Eq, Structural)]
pub enum TripRoute {
    /// Its origin and destination are one node: nothing to traverse, it completes at once.
    InPlace,
    /// Its pair has no route.
    NoRoute,
    /// It follows this route of the store.
    Route(usize),
}

/// The route a trip from the pair `key` takes, given the route `chosen` for it.
pub fn trip_route(key: RouteKey, chosen: u32) -> (r: TripRoute)
    ensures
        key.origin == key.destination ==> r == TripRoute::InPlace,
        key.origin != key.destination && chosen == NO_ROUTE ==> r == TripRoute::NoRoute,
        key.origin != key.destination && chosen != NO_ROUTE ==> r == TripRoute::Route(chosen as usize),
{
    if key.origin == key.destination {
        TripRoute::InPlace
    } else if chosen == NO_ROUTE {
        TripRoute::NoRoute
    } else {
        TripRoute::Route(chosen as usize)
    }
}

/// The trip right after `current` in a traveller's day, given the last trip of that day (none
/// for a traveller without trips). A traveller's trips are one contiguous range of trip ids
/// in the order of the day, so the next trip is `current + 1` while `current` is before the
/// last.
pub fn next_trip_of(last: Option<TripId>, current: TripId) -> (r: Option<TripId>)
    requires
        last matches Some(l) ==> l.raw_value() != NULL_ID,
    ensures
        match last {
            Some(l) => if current.raw_value() < l.raw_value() {
                r matches Some(n) && n.raw_value() == current.raw_value() + 1
            } else {
                r is None
            },
            None => r is None,
        },
{
    match last {
        Some(l) => {
            if current.raw() < l.raw() {
                Some(TripId::new(current.raw() + 1))
            } else {
                None
            }
        },
        None => None,
    }
}

/// A bike or walk trip's route on its static layer.
#[derive(Clone, Copy, Debug, PartialEq, Eq, Structural)]
pub enum StaticRoute {
    /// Not a trip on a static layer, or its layer is missing.
    NoLayer,
    /// Origin and destination are one node: nothing to traverse.
    Here,
    /// The layer has no route between them.
    Unreachable,
    /// The route with this number in its layer's sets.
    Route(u32),
}

/// The route on its layer of a trip whose ends snapped to the pair `key`, given the sets the
/// layer's shortest routes were generated into: nowhere to go for a pair of one node, the
/// first route of the pair's set if it has one, and unreachable otherwise.
pub fn static_route(sets: &RouteSets, key: RouteKey) -> (r: StaticRoute)
    ensures
        key.origin == key.destination ==> r == StaticRoute::Here,
        key.origin != key.destination ==> match r {
            StaticRoute::Route(first) => exists|i: int|
                0 <= i < sets@.keys.len() && sets@.keys[i] == key && sets@.set_start[i] < sets@.set_start[i + 1]
                    && first == #[trigger] sets@.set_start[i],
            StaticRoute::Unreachable => forall|i: int|
                0 <= i < sets@.keys.len() && #[trigger] sets@.keys[i] == key ==> sets@.set_start[i] == sets@.set_start[i + 1],
            _ => false,
        },
{
    if key.origin == key.destination {
        return StaticRoute::Here;
    }
    sets.check_consistent();
    match sets.key_index(key) {
        None => StaticRoute::Unreachable,
        Some(i) => {
            let (lo, hi) = sets.route_range(i);
            let starts = sets.set_start();
            proof {
                assert forall|q: int| 0 <= q < sets@.keys.len() && #[trigger] sets@.keys[q] == key implies q == i by {
                    if q < i {
                        assert(pair_lt(sets@.keys[q], sets@.keys[i as int]));
                    } else if q > i {
                        assert(pair_lt(sets@.keys[i as int], sets@.keys[q]));
                    }
                }
            }
            if lo < hi {
                StaticRoute::Route(starts[i])
            } else {
                StaticRoute::Unreachable
            }
        },
    }
}

/// The outcomes of the trips of one loading so far: the counts and one event row per trip.
pub struct TripLedger {
    completion: TripCompletionStats,
    events: Vec<EventRow>,
}

impl View for TripLedger {
    type V = (TripCompletionStats, Seq<EventRow>);

    closed spec fn view(&self) -> (TripCompletionStats, Seq<EventRow>) {
        (self.completion, self.events@)
    }
}

/// Whether `stats` counts exactly the events of each kind.
pub open spec fn counts_match(stats: TripCompletionStats, events: Seq<EventRow>) -> bool {
    &&& stats.completed == count_of(events, EventType::TripCompleted)
    &&& stats.truncated == count_of(events, EventType::TripTruncated)
    &&& stats.no_vehicle_available == count_of(events, EventType::NoVehicleAvailable)
    &&& stats.no_feasible_path == count_of(events, EventType::NoFeasiblePath)
}

/// The key of a modelling condition about trip `trip`.
pub open spec fn trip_condition(code: Seq<char>, severity: Severity, trip: TripId) -> KeyView {
    KeyView {
        category: Category::Modelling.number(),
        code: utf8(code),
        severity: severity.number(),
        kind: EntityKind::Trip.number(),
        id: trip.raw_value(),
    }
}

impl TripLedger {
    #[verifier::type_invariant]
    spec fn consistent(self) -> bool {
        counts_match(self.completion, self.events@)
    }

    /// Nothing recorded yet, for a demand of `total_trips` trips.
    pub fn new(total_trips: u32) -> (r: TripLedger)
        ensures
            r@.0 == (TripCompletionStats { total_trips, no_vehicle_available: 0, no_feasible_path: 0, completed: 0, truncated: 0 }),
            r@.1 == Seq::<EventRow>::empty(),
    {
        TripLedger {
            completion: TripCompletionStats { total_trips, no_vehicle_available: 0, no_feasible_path: 0, completed: 0, truncated: 0 },
            events: Vec::new(),
        }
    }

    /// Every ledger counts exactly its events of each kind, and has no more counts than
    /// events.
    pub fn check_consistent(&self)
        ensures
            counts_match(self@.0, self@.1),
    {
        proof {
            use_type_invariant(self);
        }
    }

    /// Add one trip's outcome.
    fn add(&mut self, row: EventRow)
        requires
            old(self)@.1.len() < u32::MAX,
        ensures
            final(self)@.1 == old(self)@.1.push(row),
            final(self)@.0.total_trips == old(self)@.0.total_trips,
            final(self)@.0.completed == old(self)@.0.completed + if row.event_type == EventType::TripCompleted { 1int } else { 0int },
            final(self)@.0.truncated == old(self)@.0.truncated + if row.event_type == EventType::TripTruncated { 1int } else { 0int },
            final(self)@.0.no_vehicle_available == old(self)@.0.no_vehicle_available + if row.event_type == EventType::NoVehicleAvailable { 1int } else { 0int },
            final(self)@.0.no_feasible_path == old(self)@.0.no_feasible_path + if row.event_type == EventType::NoFeasiblePath { 1int } else { 0int },
    {
        proof {
            use_type_invariant(&*self);
            lemma_counts_add_up(self.events@);
        }
        let mut taken = TripLedger::new(0);
        std::mem::swap(&mut taken, self);
        proof {
            use_type_invariant(&taken);
        }
        let TripLedger { mut completion, mut events } = taken;
        let ghost before = events@;
        match row.event_type {
            EventType::TripCompleted => completion.completed = completion.completed + 1,
            EventType::TripTruncated => completion.truncated = completion.truncated + 1,
            EventType::NoVehicleAvailable => completion.no_vehicle_available = completion.no_vehicle_available + 1,
            EventType::NoFeasiblePath => completion.no_feasible_path = completion.no_feasible_path + 1,
        }
        events.push(row);
        proof {
            assert(events@.drop_last() =~= before);
        }
        *self = TripLedger { completion, events };
    }

    /// A trip whose traveller had no car at its origin: counted, an event at its departure,
    /// and an `Info` diagnostic about it.
    pub fn no_vehicle(&mut self, trip: TripId, departure: Second, diagnostics: &mut Diagnostics)
        requires
            old(self)@.1.len() < u32::MAX,
            record_fits(old(diagnostics)@, trip_condition("no_vehicle_available"@, Severity::Info, trip), 1),
        ensures
            final(self)@.1 == old(self)@.1.push(EventRow { second: departure, event_type: EventType::NoVehicleAvailable, entity_kind: EntityKind::Trip, entity_id: trip.raw_value() }),
            final(self)@.0 == (TripCompletionStats { no_vehicle_available: (old(self)@.0.no_vehicle_available + 1) as u32, ..old(self)@.0 }),
            final(diagnostics)@ == recorded(old(diagnostics)@, trip_condition("no_vehicle_available"@, Severity::Info, trip), 1),
    {
        let key = DiagKey::new(Category::Modelling, no_vehicle_available(), Severity::Info, ElementRef::of(trip));
        diagnostics.record(key);
        self.add(EventRow::trip(departure, EventType::NoVehicleAvailable, trip));
    }

    /// A trip with a car but no route: counted, an event at its departure, and a `Warning`
    /// diagnostic about it.
    pub fn no_path(&mut self, trip: TripId, departure: Second, diagnostics: &mut Diagnostics)
        requires
            old(self)@.1.len() < u32::MAX,
            record_fits(old(diagnostics)@, trip_condition("no_feasible_path"@, Severity::Warning, trip), 1),
        ensures
            final(self)@.1 == old(self)@.1.push(EventRow { second: departure, event_type: EventType::NoFeasiblePath, entity_kind: EntityKind::Trip, entity_id: trip.raw_value() }),
            final(self)@.0 == (TripCompletionStats { no_feasible_path: (old(self)@.0.no_feasible_path + 1) as u32, ..old(self)@.0 }),
            final(diagnostics)@ == recorded(old(diagnostics)@, trip_condition("no_feasible_path"@, Severity::Warning, trip), 1),
    {
        let key = DiagKey::new(Category::Modelling, codes::no_feasible_path(), Severity::Warning, ElementRef::of(trip));
        diagnostics.record(key);
        self.add(EventRow::trip(departure, EventType::NoFeasiblePath, trip));
    }

    /// A trip that arrived within the window, at `arrival`: counted, and an event then.
    pub fn completed(&mut self, trip: TripId, arrival: Second)
        requires
            old(self)@.1.len() < u32::MAX,
        ensures
            final(self)@.1 == old(self)@.1.push(EventRow { second: arrival, event_type: EventType::TripCompleted, entity_kind: EntityKind::Trip, entity_id: trip.raw_value() }),
            final(self)@.0 == (TripCompletionStats { completed: (old(self)@.0.completed + 1) as u32, ..old(self)@.0 }),
    {
        self.add(EventRow::trip(arrival, EventType::TripCompleted, trip));
    }

    /// A trip still under way when the window ended: counted, an event at the window's end,
    /// and an `Info` diagnostic about it.
    pub fn truncated(&mut self, trip: TripId, window: Second, diagnostics: &mut Diagnostics)
        requires
            old(self)@.1.len() < u32::MAX,
            record_fits(old(diagnostics)@, trip_condition("trip_truncated"@, Severity::Info, trip), 1),
        ensures
            final(self)@.1 == old(self)@.1.push(EventRow { second: window, event_type: EventType::TripTruncated, entity_kind: EntityKind::Trip, entity_id: trip.raw_value() }),
            final(self)@.0 == (TripCompletionStats { truncated: (old(self)@.0.truncated + 1) as u32, ..old(self)@.0 }),
            final(diagnostics)@ == recorded(old(diagnostics)@, trip_condition("trip_truncated"@, Severity::Info, trip), 1),
    {
        let key = DiagKey::new(Category::Modelling, codes::trip_truncated(), Severity::Info, ElementRef::of(trip));
        diagnostics.record(key);
        self.add(EventRow::trip(window, EventType::TripTruncated, trip));
    }

    /// The counts and the event rows: one row per trip recorded, the counts those of each
    /// kind, and together as many as the rows.
    pub fn finish(self) -> (r: (TripCompletionStats, Vec<EventRow>))
        ensures
            r.0 == self@.0,
            r.1@ == self@.1,
            counts_match(r.0, r.1@),
            r.0.completed + r.0.truncated + r.0.no_vehicle_available + r.0.no_feasible_path == r.1@.len(),
    {
        proof {
            use_type_invariant(&self);
            lemma_counts_add_up(self.events@);
        }
        let TripLedger { completion, events } = self;
        (completion, events)
    }
}

} // verus!
