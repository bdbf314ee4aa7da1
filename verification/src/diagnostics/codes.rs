//! The core diagnostic codes. A code that has shipped is never renamed or reused.

use vstd::prelude::*;

use super::DiagCode;

verus! {

/// A map-matching fallback rung was used for a route.
pub fn matcher_fallback() -> (r: DiagCode)
    ensures
        r.0@ == "matcher_fallback"@,
{
    DiagCode("matcher_fallback")
}

/// A walk or bike table was truncated at its cutoff.
pub fn access_cutoff_truncated() -> (r: DiagCode)
    ensures
        r.0@ == "access_cutoff_truncated"@,
{
    DiagCode("access_cutoff_truncated")
}

/// A vehicle was displaced rather than returned to its home overnight.
pub fn vehicle_displaced() -> (r: DiagCode)
    ensures
        r.0@ == "vehicle_displaced"@,
{
    DiagCode("vehicle_displaced")
}

/// A scheduled disruption was applied.
pub fn disruption_applied() -> (r: DiagCode)
    ensures
        r.0@ == "disruption_applied"@,
{
    DiagCode("disruption_applied")
}

/// A trip did not complete within the simulation window.
pub fn trip_truncated() -> (r: DiagCode)
    ensures
        r.0@ == "trip_truncated"@,
{
    DiagCode("trip_truncated")
}

/// A node model sweep blocked an approach.
pub fn approach_blocked() -> (r: DiagCode)
    ensures
        r.0@ == "approach_blocked"@,
{
    DiagCode("approach_blocked")
}

/// Anchor candidates were truncated at their cap.
pub fn anchor_candidates_truncated() -> (r: DiagCode)
    ensures
        r.0@ == "anchor_candidates_truncated"@,
{
    DiagCode("anchor_candidates_truncated")
}

/// A store was drawn below zero and resolved by its soft-capacity rule.
pub fn store_overdraft() -> (r: DiagCode)
    ensures
        r.0@ == "store_overdraft"@,
{
    DiagCode("store_overdraft")
}

/// Within-step vehicle hand-over did not converge within its sweep cap.
pub fn handover_not_converged() -> (r: DiagCode)
    ensures
        r.0@ == "handover_not_converged"@,
{
    DiagCode("handover_not_converged")
}

/// The route store exceeded its configured budget.
pub fn route_store_budget_exceeded() -> (r: DiagCode)
    ensures
        r.0@ == "route_store_budget_exceeded"@,
{
    DiagCode("route_store_budget_exceeded")
}

/// No feasible path existed for a trip; the documented fallback was used.
pub fn no_feasible_path() -> (r: DiagCode)
    ensures
        r.0@ == "no_feasible_path"@,
{
    DiagCode("no_feasible_path")
}

/// Per-element diagnostic detail was capped.
pub fn diagnostic_detail_truncated() -> (r: DiagCode)
    ensures
        r.0@ == "diagnostic_detail_truncated"@,
{
    DiagCode("diagnostic_detail_truncated")
}

} // verus!
