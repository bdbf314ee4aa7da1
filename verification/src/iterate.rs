//! How a run iterates choice and loading: how many loadings it makes at most, the bins in
//! which link times are recorded, which first loadings use the point-queue model, when the
//! route sets grow and when the run stops. The strategy's own numbers come from its
//! [`crate::equilibration`] choices; what a loading and a choice compute is theirs.

use vstd::prelude::*;

use crate::events::{EventRow, EventType};

verus! {

/// The shape of a run's iterations.
#[derive(Clone, Copy, Debug, PartialEq, Eq, Structural)]
pub struct IterationPlan {
    /// The most loadings the run makes: at least one.
    pub max_iterations: u32,
    /// The bins, in seconds, in which loadings record link times, if they record any.
    pub record_bins: Option<u32>,
    /// How many first loadings use the point-queue model.
    pub warmup: u32,
}

impl IterationPlan {
    /// The plan of a run whose strategy makes at most `strategy_max_iterations` loadings,
    /// costs in bins of `cost_bin_seconds` and warms up for `warmup_iterations`, and whose
    /// user asked for per-link bins of `link_bin_seconds`, if any. Link times are recorded
    /// whenever a next iteration has to be costed: in the user's bins if they asked for some,
    /// else in the strategy's. The last loading, the run's result, is never a warm-up.
    pub fn new(
        strategy_max_iterations: u32,
        cost_bin_seconds: u32,
        warmup_iterations: u32,
        link_bin_seconds: Option<u32>,
    ) -> (r: IterationPlan)
        ensures
            r.max_iterations == if strategy_max_iterations == 0 { 1 } else { strategy_max_iterations },
            r.record_bins == if r.max_iterations > 1 {
                Some(
                    match link_bin_seconds {
                        Some(b) => b,
                        None => cost_bin_seconds,
                    },
                )
            } else {
                link_bin_seconds
            },
            r.warmup == if warmup_iterations < r.max_iterations - 1 { warmup_iterations } else { (r.max_iterations - 1) as u32 },
            r.max_iterations >= 1,
            r.warmup < r.max_iterations,
    {
        let max_iterations = if strategy_max_iterations == 0 { 1 } else { strategy_max_iterations };
        let record_bins = if max_iterations > 1 {
            match link_bin_seconds {
                Some(b) => Some(b),
                None => Some(cost_bin_seconds),
            }
        } else {
            link_bin_seconds
        };
        let warmup = if warmup_iterations < max_iterations - 1 { warmup_iterations } else { max_iterations - 1 };
        IterationPlan { max_iterations, record_bins, warmup }
    }

    /// Whether the loadings record what the next iteration is costed on: there is one.
    pub fn wants_entry(&self) -> (r: bool)
        ensures
            r == (self.max_iterations > 1),
    {
        self.max_iterations > 1
    }

    /// Whether loading `iteration` (from 0) uses the point-queue model.
    pub fn point_queue_at(&self, iteration: u32) -> (r: bool)
        ensures
            r == (iteration < self.warmup),
    {
        iteration < self.warmup
    }

    /// Whether the route sets grow after loading `iteration`: a choice follows it and the
    /// route update is active.
    pub fn grows_after(&self, iteration: u32, update_active: bool) -> (r: bool)
        ensures
            r == (iteration + 1 < self.max_iterations && update_active),
    {
        (iteration as u64) + 1 < (self.max_iterations as u64) && update_active
    }

    /// After loading `iteration`, given whether the strategy found the run converged: whether
    /// the run stops, and whether it converged. It stops after its last loading or once
    /// converged, and it converged if it stopped before its last.
    pub fn after(&self, iteration: u32, strategy_converged: bool) -> (r: (bool, bool))
        requires
            iteration < self.max_iterations,
        ensures
            r.0 == (iteration + 1 == self.max_iterations || strategy_converged),
            r.1 == (r.0 && iteration + 1 < self.max_iterations),
    {
        let last = iteration + 1 == self.max_iterations;
        let stop = last || strategy_converged;
        (stop, stop && !last)
    }
}

/// Whether trip `trip` was still under way at the end of the window in `events`.
pub open spec fn unfinished_in(events: Seq<EventRow>, trip: int) -> bool {
    exists|i: int| 0 <= i < events.len() && events[i].event_type == EventType::TripTruncated && events[i].entity_id == trip
}

/// For each of the `total_trips` trips, whether it was still under way at the end: the gaps
/// leave those out, as they have no measured time.
pub fn unfinished_trips(events: &[EventRow], total_trips: u32) -> (r: Vec<bool>)
    requires
        forall|i: int|
            0 <= i < events@.len() && (#[trigger] events@[i]).event_type == EventType::TripTruncated
                ==> events@[i].entity_id < total_trips,
    ensures
        r@.len() == total_trips,
        forall|t: int| 0 <= t < total_trips ==> #[trigger] r@[t] == unfinished_in(events@, t),
{
    let mut r: Vec<bool> = Vec::new();
    let mut t: u32 = 0;
    while t < total_trips
        invariant
            t <= total_trips,
            r@.len() == t,
            forall|q: int| 0 <= q < t ==> #[trigger] r@[q] == false,
        decreases total_trips - t,
    {
        r.push(false);
        t = t + 1;
    }
    let mut i: usize = 0;
    while i < events.len()
        invariant
            i <= events@.len(),
            r@.len() == total_trips,
            forall|j: int|
                0 <= j < events@.len() && (#[trigger] events@[j]).event_type == EventType::TripTruncated
                    ==> events@[j].entity_id < total_trips,
            forall|q: int| 0 <= q < total_trips ==> #[trigger] r@[q] == unfinished_in(events@.take(i as int), q),
        decreases events@.len() - i,
    {
        let e = events[i];
        proof {
            let s0 = events@.take(i as int);
            let s1 = events@.take(i + 1);
            assert forall|q: int| 0 <= q < total_trips && !(e.event_type == EventType::TripTruncated && e.entity_id == q)
                implies unfinished_in(s1, q) == unfinished_in(s0, q) by {
                if unfinished_in(s1, q) {
                    let j = choose|j: int| 0 <= j < s1.len() && (#[trigger] s1[j]).event_type == EventType::TripTruncated
                        && s1[j].entity_id == q;
                    assert(j != i);
                    assert(s0[j] == s1[j]);
                }
                if unfinished_in(s0, q) {
                    let j = choose|j: int| 0 <= j < s0.len() && (#[trigger] s0[j]).event_type == EventType::TripTruncated
                        && s0[j].entity_id == q;
                    assert(s0[j] == s1[j]);
                }
            }
        }
        if e.event_type == EventType::TripTruncated {
            proof {
                assert(events@[i as int] == e);
                assert(events@.take(i + 1)[i as int] == e);
            }
            r.set(e.entity_id as usize, true);
        }
        i = i + 1;
    }
    proof {
        assert(events@.take(i as int) =~= events@);
    }
    r
}

} // verus!
