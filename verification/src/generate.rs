//! Route-set methods behind one interface: their errors, the check of their options, the
//! method with no options, and the pieces of the others that are plain integers.
//!
//! A method's options are numbers by name; an unknown name is an error, not ignored. A
//! method's descriptor, its name and every option with defaults filled in, is part of a
//! store's identity.

use vstd::prelude::*;

use crate::factory::{first_unknown, is_known_name};
use crate::registry::{debug_quoted, debug_text, quoted_list};
use crate::store::RouteKey;

verus! {

/// The method used unless another is asked for.
pub const DEFAULT_METHOD: &'static str = "penalty";

/// The most routes a set can hold: one bit each in a per-link mask.
pub const MAX_ROUTES_PER_SET: usize = 32;

/// The length in seconds of the departure bins in which congestion propensity counts traffic.
pub const PROPENSITY_BIN_SECONDS: u32 = 1800;

/// Why a method could not be made.
#[derive(Clone, Debug)]
pub enum RouteError {
    /// No method has this name.
    UnknownMethod {
        /// The name asked for.
        name: String,
        /// The names that exist.
        known: Vec<String>,
    },
    /// The method has no such option.
    UnknownOption {
        /// The method.
        method: String,
        /// The option asked for.
        option: String,
        /// The options the method has.
        known: Vec<&'static str>,
    },
    /// An option's value is not allowed.
    BadOption {
        /// The method.
        method: String,
        /// The option.
        option: String,
        /// What is wrong with it.
        reason: String,
    },
}

/// A list as `Debug` writes it: each entry quoted and escaped, in square brackets.
pub open spec fn debug_list(names: Seq<Seq<char>>) -> Seq<char> {
    "["@ + quoted_list(names) + "]"@
}

/// What a [`RouteError`] says to a reader.
pub open spec fn route_error_text(e: RouteError) -> Seq<char> {
    match e {
        RouteError::UnknownMethod { name, known } =>
            "unknown route-set method "@ + debug_text(name@) + "; choose from "@
                + debug_list(known@.map_values(|s: String| s@)),
        RouteError::UnknownOption { method, option, known } =>
            "method "@ + debug_text(method@) + " has no option "@ + debug_text(option@) + "; its options are "@
                + debug_list(known@.map_values(|s: &str| s@)),
        RouteError::BadOption { method, option, reason } =>
            "method "@ + debug_text(method@) + ", option "@ + debug_text(option@) + ": "@ + reason@,
    }
}

/// Append the names of `items`, quoted, separated by `", "`.
pub(crate) fn push_quoted_strings(s: &mut String, items: &[String])
    ensures
        final(s)@ == old(s)@ + quoted_list(items@.map_values(|x: String| x@)),
{
    let ghost prefix = s@;
    let ghost names = items@.map_values(|x: String| x@);
    let mut i: usize = 0;
    proof {
        assert(prefix + quoted_list(names.take(0)) =~= prefix);
    }
    while i < items.len()
        invariant
            i <= items.len(),
            names == items@.map_values(|x: String| x@),
            s@ == prefix + quoted_list(names.take(i as int)),
        decreases items.len() - i,
    {
        if i > 0 {
            s.append(", ");
        }
        let q = debug_quoted(items[i].as_str());
        s.append(q.as_str());
        proof {
            assert(names.take(i + 1).drop_last() =~= names.take(i as int));
            assert(names.take(i + 1).last() == items@[i as int]@);
            if i == 0 {
                assert(names.take(1).len() == 1);
                assert(names.take(0).len() == 0);
            }
            reveal_strlit(", ");
        }
        i = i + 1;
    }
    proof {
        assert(names.take(i as int) =~= names);
    }
}

/// Append the texts of `items`, quoted, separated by `", "`.
pub(crate) fn push_quoted_strs(s: &mut String, items: &[&'static str])
    ensures
        final(s)@ == old(s)@ + quoted_list(items@.map_values(|x: &str| x@)),
{
    let ghost prefix = s@;
    let ghost names = items@.map_values(|x: &str| x@);
    let mut i: usize = 0;
    proof {
        assert(prefix + quoted_list(names.take(0)) =~= prefix);
    }
    while i < items.len()
        invariant
            i <= items.len(),
            names == items@.map_values(|x: &str| x@),
            s@ == prefix + quoted_list(names.take(i as int)),
        decreases items.len() - i,
    {
        if i > 0 {
            s.append(", ");
        }
        let q = debug_quoted(items[i]);
        s.append(q.as_str());
        proof {
            assert(names.take(i + 1).drop_last() =~= names.take(i as int));
            assert(names.take(i + 1).last() == items@[i as int]@);
            if i == 0 {
                assert(names.take(1).len() == 1);
                assert(names.take(0).len() == 0);
            }
            reveal_strlit(", ");
        }
        i = i + 1;
    }
    proof {
        assert(names.take(i as int) =~= names);
    }
}

impl RouteError {
    /// The error as a sentence.
    pub fn to_string(&self) -> (r: String)
        ensures
            r@ == route_error_text(*self),
    {
        match self {
            RouteError::UnknownMethod { name, known } => {
                let mut s = String::from_str("unknown route-set method ");
                let q = debug_quoted(name.as_str());
                s.append(q.as_str());
                s.append("; choose from ");
                s.append("[");
                push_quoted_strings(&mut s, known.as_slice());
                s.append("]");
                s
            },
            RouteError::UnknownOption { method, option, known } => {
                let mut s = String::from_str("method ");
                let q = debug_quoted(method.as_str());
                s.append(q.as_str());
                s.append(" has no option ");
                let q = debug_quoted(option.as_str());
                s.append(q.as_str());
                s.append("; its options are ");
                s.append("[");
                push_quoted_strs(&mut s, known.as_slice());
                s.append("]");
                s
            },
            RouteError::BadOption { method, option, reason } => {
                let mut s = String::from_str("method ");
                let q = debug_quoted(method.as_str());
                s.append(q.as_str());
                s.append(", option ");
                let q = debug_quoted(option.as_str());
                s.append(q.as_str());
                s.append(": ");
                s.append(reason.as_str());
                s
            },
        }
    }
}

/// Copy a list of static names.
pub(crate) fn to_vec_strs(known: &[&'static str]) -> (r: Vec<&'static str>)
    ensures
        r@ == known@,
{
    let mut out: Vec<&'static str> = Vec::new();
    let mut i: usize = 0;
    while i < known.len()
        invariant
            i <= known.len(),
            out@ == known@.take(i as int),
        decreases known.len() - i,
    {
        out.push(known[i]);
        proof {
            assert(known@.take(i + 1) =~= known@.take(i as int).push(known@[i as int]));
        }
        i = i + 1;
    }
    proof {
        assert(known@.take(i as int) =~= known@);
    }
    out
}

/// Check that every option a caller gives `method` is one it has. `options` are the
/// names given, in ascending order; the first unknown one is reported.
pub fn check_known(method: &str, options: &[String], known: &[&'static str]) -> (r: Result<(), RouteError>)
    ensures
        r is Ok <==> forall|i: int| 0 <= i < options.len() ==> is_known_name(#[trigger] options@[i]@, known@),
        r matches Err(e) ==> exists|i: int| 0 <= i < options.len() && !is_known_name(options@[i]@, known@)
            && (forall|q: int| 0 <= q < i ==> is_known_name(#[trigger] options@[q]@, known@))
            && (e matches RouteError::UnknownOption { method: m, option: o, known: k }
                && m@ == method@ && o@ == options@[i]@ && k@ == known@),
{
    match first_unknown(options, known) {
        None => Ok(()),
        Some(i) => Err(RouteError::UnknownOption {
            method: String::from_str(method),
            option: options[i].clone(),
            known: to_vec_strs(known),
        }),
    }
}

/// The single shortest route.
#[derive(Clone, Copy, Debug, Default)]
pub struct Shortest;

impl Shortest {
    /// Make the method from the names of its options (it has none).
    pub fn from_options(options: &[String]) -> (r: Result<Shortest, RouteError>)
        ensures
            r is Ok <==> options.len() == 0,
            r matches Err(e) ==> e matches RouteError::UnknownOption { method, option, known }
                && method@ == "shortest"@ && option@ == options@[0]@ && known@.len() == 0,
    {
        let none: [&'static str; 0] = [];
        match check_known("shortest", options, &none) {
            Ok(()) => {
                proof {
                    if options.len() > 0 {
                        assert(is_known_name(options@[0]@, none@));
                    }
                }
                Ok(Shortest)
            },
            Err(e) => {
                proof {
                    let i = choose|i: int| 0 <= i < options.len() && !is_known_name(options@[i]@, none@)
                        && (forall|q: int| 0 <= q < i ==> is_known_name(#[trigger] options@[q]@, none@));
                    if i > 0 {
                        assert(is_known_name(options@[0]@, none@));
                    }
                }
                Err(e)
            },
        }
    }

    /// The method's name, as it is selected.
    pub fn name(&self) -> (r: &'static str)
        ensures
            r@ == "shortest"@,
    {
        "shortest"
    }

    /// The method's descriptor: its name, as it has no options.
    pub fn descriptor(&self) -> (r: String)
        ensures
            r@ == "shortest"@,
    {
        String::from_str("shortest")
    }
}

/// Where a Monte Carlo method's bias comes from.
#[derive(Clone, Copy, Debug, PartialEq, Eq, Structural)]
pub enum BiasSource {
    /// No bias: every link's cost is perturbed alike.
    Unbiased,
    /// From the demand's congestion propensity, once the method has been told the demand.
    Demand,
    /// An array the caller gave.
    Given,
}

/// The name a bias source has in a descriptor.
pub open spec fn bias_name(b: BiasSource) -> Seq<char> {
    match b {
        BiasSource::Unbiased => "none"@,
        BiasSource::Demand => "demand"@,
        BiasSource::Given => "given"@,
    }
}

impl BiasSource {
    /// `"none"`, `"demand"` or `"given"`.
    pub fn name(self) -> (r: &'static str)
        ensures
            r@ == bias_name(self),
    {
        match self {
            BiasSource::Unbiased => "none",
            BiasSource::Demand => "demand",
            BiasSource::Given => "given",
        }
    }
}

/// One trip as a method that reads the demand sees it.
#[derive(Clone, Copy, Debug, PartialEq, Eq, Structural)]
pub struct TripDemand {
    /// Its origin-destination pair.
    pub key: RouteKey,
    /// How many people it stands for.
    pub weight: u32,
    /// The second it leaves.
    pub departure: u32,
}

/// The seed of one Monte Carlo draw: a function of the pair, the draw and the method's
/// seed alone, so that a set never depends on order or threads.
pub open spec fn draw_seed_spec(origin: u32, destination: u32, draw: u64, seed: u64) -> u64 {
    vstd::wrapping::u64_specs::wrapping_mul(((origin as u64) * 0x1_0000_0000u64 + destination as u64) as u64, 0x9E37_79B9_7F4A_7C15u64)
        ^ vstd::wrapping::u64_specs::wrapping_mul((draw + 1) as u64, 0xD6E8_FEB8_6659_FD93u64)
        ^ vstd::wrapping::u64_specs::wrapping_mul(seed, 0xA24B_AED4_963E_E407u64)
}

/// The seed of draw `draw` of the pair `origin`, `destination` under the method's `seed`.
pub fn draw_seed(origin: u32, destination: u32, draw: u64, seed: u64) -> (r: u64)
    requires
        draw < u64::MAX,
    ensures
        r == draw_seed_spec(origin, destination, draw, seed),
{
    let o = origin as u64;
    let d = destination as u64;
    let pair = o << 32 | d;
    assert(pair == (o * 0x1_0000_0000u64 + d) as u64) by (bit_vector)
        requires
            o < 0x1_0000_0000u64,
            d < 0x1_0000_0000u64,
            pair == o << 32 | d;
    pair.wrapping_mul(0x9E37_79B9_7F4A_7C15) ^ (draw + 1).wrapping_mul(0xD6E8_FEB8_6659_FD93)
        ^ seed.wrapping_mul(0xA24B_AED4_963E_E407)
}

} // verus!
