//! Equilibration: repeating choice and loading until the pattern settles.
//!
//! A run without it chooses every trip's route once and loads the network once; with it the
//! run iterates. This module holds what a strategy is made of that is not arithmetic on
//! travel times: its errors, the check of its options, the strategy that does not iterate,
//! and the verdict a gap is given.

use vstd::prelude::*;

use crate::factory::{first_unknown, is_known_name};
use crate::generate::to_vec_strs;
use crate::registry::{debug_quoted, debug_text};
use crate::rng::StreamRng;
use crate::text::{joined, push_joined, push_joined_strs};

verus! {

/// The strategy used unless another is asked for.
pub const DEFAULT_STRATEGY: &'static str = "none";

/// The most iterations a strategy may ask for.
pub const MAX_ITERATIONS: u32 = 1000;

/// Why a strategy could not be made.
#[derive(Clone, Debug)]
pub enum EquilibrationError {
    /// No strategy has this name.
    UnknownStrategy {
        /// The name asked for.
        name: String,
        /// The names that exist.
        known: Vec<String>,
    },
    /// The strategy has no such option.
    UnknownOption {
        /// The strategy.
        strategy: String,
        /// The option asked for.
        option: String,
        /// The options it has.
        known: Vec<&'static str>,
    },
    /// An option's value is not allowed.
    BadOption {
        /// The strategy.
        strategy: String,
        /// The option.
        option: String,
        /// What is wrong with it.
        reason: String,
    },
}

/// What an [`EquilibrationError`] says to a reader.
pub open spec fn equilibration_error_text(e: EquilibrationError) -> Seq<char> {
    match e {
        EquilibrationError::UnknownStrategy { name, known } =>
            "no equilibration strategy called "@ + debug_text(name@) + "; the strategies are: "@
                + joined(known@.map_values(|s: String| s@)),
        EquilibrationError::UnknownOption { strategy, option, known } =>
            "equilibration "@ + debug_text(strategy@) + " has no option "@ + debug_text(option@)
                + if known@.len() == 0 {
                    "; it has no options"@
                } else {
                    "; its options are: "@ + joined(known@.map_values(|s: &str| s@))
                },
        EquilibrationError::BadOption { strategy, option, reason } =>
            "equilibration "@ + debug_text(strategy@) + ", option "@ + debug_text(option@) + ": "@ + reason@,
    }
}

impl EquilibrationError {
    /// The error as a sentence.
    pub fn to_string(&self) -> (r: String)
        ensures
            r@ == equilibration_error_text(*self),
    {
        match self {
            EquilibrationError::UnknownStrategy { name, known } => {
                let mut s = String::from_str("no equilibration strategy called ");
                let q = debug_quoted(name.as_str());
                s.append(q.as_str());
                s.append("; the strategies are: ");
                push_joined(&mut s, known.as_slice());
                s
            },
            EquilibrationError::UnknownOption { strategy, option, known } => {
                let mut s = String::from_str("equilibration ");
                let q = debug_quoted(strategy.as_str());
                s.append(q.as_str());
                s.append(" has no option ");
                let q = debug_quoted(option.as_str());
                s.append(q.as_str());
                if known.len() == 0 {
                    s.append("; it has no options");
                } else {
                    s.append("; its options are: ");
                    push_joined_strs(&mut s, known.as_slice());
                }
                s
            },
            EquilibrationError::BadOption { strategy, option, reason } => {
                let mut s = String::from_str("equilibration ");
                let q = debug_quoted(strategy.as_str());
                s.append(q.as_str());
                s.append(", option ");
                let q = debug_quoted(option.as_str());
                s.append(q.as_str());
                s.append(": ");
                s.append(reason.as_str());
                s
            },
        }
    }
}

/// Check that every option a caller gives `strategy` is one it has. `options` are the
/// names given, in ascending order; the first unknown one is reported.
pub fn check_known(strategy: &str, options: &[String], known: &[&'static str]) -> (r: Result<(), EquilibrationError>)
    ensures
        r is Ok <==> forall|i: int| 0 <= i < options.len() ==> is_known_name(#[trigger] options@[i]@, known@),
        r matches Err(e) ==> exists|i: int| 0 <= i < options.len() && !is_known_name(options@[i]@, known@)
            && (forall|q: int| 0 <= q < i ==> is_known_name(#[trigger] options@[q]@, known@))
            && (e matches EquilibrationError::UnknownOption { strategy: s, option: o, known: k }
                && s@ == strategy@ && o@ == options@[i]@ && k@ == known@),
{
    match first_unknown(options, known) {
        None => Ok(()),
        Some(i) => Err(EquilibrationError::UnknownOption {
            strategy: String::from_str(strategy),
            option: options[i].clone(),
            known: to_vec_strs(known),
        }),
    }
}

/// One choice, one loading.
#[derive(Clone, Copy, Debug, Default, PartialEq, Eq, Structural)]
pub struct NoEquilibration;

impl NoEquilibration {
    /// Make the strategy from the names of its options (it has none).
    pub fn from_options(options: &[String]) -> (r: Result<NoEquilibration, EquilibrationError>)
        ensures
            r is Ok <==> options.len() == 0,
            r matches Err(e) ==> e matches EquilibrationError::UnknownOption { strategy, option, known }
                && strategy@ == "none"@ && option@ == options@[0]@ && known@.len() == 0,
    {
        let none: [&'static str; 0] = [];
        match check_known("none", options, &none) {
            Ok(()) => {
                proof {
                    if options.len() > 0 {
                        assert(is_known_name(options@[0]@, none@));
                    }
                }
                Ok(NoEquilibration)
            },
            Err(e) => {
                proof {
                    let i = choose|i: int| 0 <= i < options.len() && !is_known_name(options@[i]@, none@)
                        && (forall|q: int| 0 <= q < i ==> is_known_name(#[trigger] options@[q]@, none@));
                    if i > 0 {
                        assert(is_known_name(options@[0]@, none@));
                    }
                }
                Err(e)
            },
        }
    }

    /// The strategy's name, as it is selected.
    pub fn name(&self) -> (r: &'static str)
        ensures
            r@ == "none"@,
    {
        "none"
    }

    /// The strategy's descriptor: its name, as it has no options.
    pub fn descriptor(&self) -> (r: String)
        ensures
            r@ == "none"@,
    {
        String::from_str("none")
    }

    /// One loading.
    pub fn max_iterations(&self) -> (r: u32)
        ensures
            r == 1,
    {
        1
    }

    /// The length of the bins link times would be recorded in: five minutes.
    pub fn cost_bin_seconds(&self) -> (r: u32)
        ensures
            r == 300,
    {
        300
    }

    /// It draws nothing.
    pub fn draws_reselection(&self) -> (r: bool)
        ensures
            !r,
    {
        false
    }

    /// Nobody chooses again.
    pub fn reselects(&self, rng: &StreamRng, traveller: u32, iteration: u32) -> (r: bool)
        ensures
            !r,
    {
        false
    }

    /// No trips are tested against the whole network.
    pub fn network_gap_sample(&self) -> (r: u32)
        ensures
            r == 0,
    {
        0
    }

    /// No loading is a warm-up.
    pub fn warmup_iterations(&self) -> (r: u32)
        ensures
            r == 0,
    {
        0
    }
}

/// How close to equilibrium a gap says a run is.
#[derive(Clone, Copy, PartialEq, Eq, Debug, Structural)]
pub enum GapVerdict {
    /// Below the good threshold.
    Good,
    /// Below the acceptable threshold, not good.
    Acceptable,
    /// The acceptable threshold or more.
    Poor,
}

/// The name of a verdict.
pub open spec fn verdict_name(v: GapVerdict) -> Seq<char> {
    match v {
        GapVerdict::Good => "good"@,
        GapVerdict::Acceptable => "acceptable"@,
        GapVerdict::Poor => "poor"@,
    }
}

impl GapVerdict {
    /// `"good"`, `"acceptable"` or `"poor"`.
    pub fn as_str(self) -> (r: &'static str)
        ensures
            r@ == verdict_name(self),
    {
        match self {
            GapVerdict::Good => "good",
            GapVerdict::Acceptable => "acceptable",
            GapVerdict::Poor => "poor",
        }
    }
}

} // verus!
