//! The core of an agent-based road traffic simulator, verified: dense ids and their external
//! names, the master clock and its step grid, the event queue and the order in which a loading
//! takes up trips, deterministic random streams and parallel reductions, the diagnostics
//! report, the route store and its inverted index, the planning of route updates, the
//! congestion propensity of links, the cache of route sets, the registries of methods, and the
//! accounting of a loading.

use vstd::prelude::*;

pub mod diagnostics;
pub mod equilibration;
pub mod events;
pub mod factory;
pub mod generate;
pub mod grouping;
pub mod hash;
pub mod ids;
pub mod iterate;
pub mod loading;
pub mod order;
pub mod propensity;
pub mod queue;
pub mod reduce;
pub mod registry;
pub mod rng;
pub mod route_cache;
pub mod route_choice;
pub mod route_update;
pub mod run;
pub mod store;
pub mod text;
pub mod time;

verus! {

/// Layout and build-semantics version of every cached artifact: part of every cache key.
/// Bumped whenever the layout or the meaning of a cached artifact changes.
pub const CODE_VERSION: u32 = 1;

} // verus!
