//! Per-trip outcomes of a run: the event rows an events table is written from, and the
//! completion counts they add up to.

use vstd::prelude::*;

use crate::ids::{EntityId, EntityKind, TripId};
use crate::time::Second;

verus! {

/// What happened to a trip. The four kinds match the four completion counts one for one.
#[derive(Clone, Copy, PartialEq, Eq, Debug, Structural)]
pub enum EventType {
    /// The trip's trajectory finished within the simulation window.
    TripCompleted,
    /// The trip was still under way when the window ended.
    TripTruncated,
    /// The trip's traveller had no owned car at the trip's origin.
    NoVehicleAvailable,
    /// A car was available, but there was no route.
    NoFeasiblePath,
}

/// The stable snake_case name of an event kind.
pub open spec fn event_name(e: EventType) -> Seq<char> {
    match e {
        EventType::TripCompleted => "trip_completed"@,
        EventType::TripTruncated => "trip_truncated"@,
        EventType::NoVehicleAvailable => "no_vehicle_available"@,
        EventType::NoFeasiblePath => "no_feasible_path"@,
    }
}

impl EventType {
    /// The stable snake_case name written to an events table.
    pub fn as_str(self) -> (r: &'static str)
        ensures
            r@ == event_name(self),
    {
        match self {
            EventType::TripCompleted => "trip_completed",
            EventType::TripTruncated => "trip_truncated",
            EventType::NoVehicleAvailable => "no_vehicle_available",
            EventType::NoFeasiblePath => "no_feasible_path",
        }
    }
}

/// One row of an events table.
#[derive(Clone, Copy, PartialEq, Eq, Debug, Structural)]
pub struct EventRow {
    /// When the event fired.
    pub second: Second,
    /// What happened.
    pub event_type: EventType,
    /// What kind of entity the event is about: always a trip.
    pub entity_kind: EntityKind,
    /// The trip's raw id.
    pub entity_id: u32,
}

impl EventRow {
    /// An event about `trip`.
    pub fn trip(second: Second, event_type: EventType, trip: TripId) -> (r: EventRow)
        ensures
            r.second == second,
            r.event_type == event_type,
            r.entity_kind == EntityKind::Trip,
            r.entity_id == trip.raw_value(),
    {
        EventRow { second, event_type, entity_kind: EntityKind::Trip, entity_id: trip.raw() }
    }
}

/// Trip-level outcomes across a run.
///
/// `total_trips` is every trip in the demand; `no_vehicle_available` and `no_feasible_path`
/// are trips that never entered the network; `completed` and `truncated` are over the trips
/// that did.
#[derive(Clone, Copy, PartialEq, Eq, Debug, Default, Structural)]
pub struct TripCompletionStats {
    /// Every trip in the demand.
    pub total_trips: u32,
    /// No owned car was at the trip's origin.
    pub no_vehicle_available: u32,
    /// A car was available, but no route existed to the destination.
    pub no_feasible_path: u32,
    /// Arrived within the simulation window.
    pub completed: u32,
    /// Still in progress when the window ended.
    pub truncated: u32,
}

impl TripCompletionStats {
    /// Trips that actually entered the network: `completed + truncated`.
    pub fn attempted(&self) -> (r: u32)
        requires
            self.completed + self.truncated <= u32::MAX,
        ensures
            r == self.completed + self.truncated,
    {
        self.completed + self.truncated
    }
}

} // verus!
