//! The master clock, the loading step grid and the event-queue total order.
//!
//! The clock is a `u32` count of whole seconds from the scenario origin ([`Second`]). Events
//! happen at a second; the network loading runs on a coarse [`StepGrid`] of half-open steps,
//! and the step of an instant is found with [`FastDivU32`], a division by a value fixed at
//! build time that costs a multiply instead of a `div`.

use vstd::prelude::*;

use crate::ids::EntityKind;
use crate::text::{decimal, push_decimal, push_two_digits, two_digits};

verus! {

/// The multiplier `floor((2^64 - 1) / d) + 1` exceeds `2^64 / d` by less than one part in `d`:
/// `M * d == 2^64 + e` with `0 <= e < d`.
proof fn lemma_magic_bracket(d: int, m: int)
    requires
        2 <= d <= 0xffff_ffff,
        m == (0xffff_ffff_ffff_ffffint / d) + 1,
    ensures
        0x1_0000_0000_0000_0000 <= m * d < 0x1_0000_0000_0000_0000 + d,
{
    let big: int = 0xffff_ffff_ffff_ffff;
    let q = big / d;
    let r = big % d;
    assert(big == q * d + r && 0 <= r < d) by (nonlinear_arith)
        requires d > 0, q == big / d, r == big % d;
    assert(m * d == q * d + d) by (nonlinear_arith) requires m == q + 1;
}

/// Lemire's bound: for `n < 2^32`, `floor(M * n / 2^64) == floor(n / d)`.
proof fn lemma_magic_quotient(d: int, m: int, n: int)
    requires
        2 <= d <= 0xffff_ffff,
        0 <= n <= 0xffff_ffff,
        0x1_0000_0000_0000_0000 <= m * d < 0x1_0000_0000_0000_0000 + d,
    ensures
        (m * n) / 0x1_0000_0000_0000_0000 == n / d,
{
    let p: int = 0x1_0000_0000_0000_0000;
    let e = m * d - p;
    let q = n / d;
    let r = n % d;
    assert(n == q * d + r && 0 <= r < d) by (nonlinear_arith)
        requires d > 0, q == n / d, r == n % d;
    assert(0 <= e < d);
    // m * n * d == n * p + e * n
    assert(m * n * d == n * p + e * n) by (nonlinear_arith)
        requires e == m * d - p;
    assert(0 <= e * n < p) by (nonlinear_arith)
        requires 0 <= e < d, d <= 0xffff_ffff, 0 <= n <= 0xffff_ffff, p == 0x1_0000_0000_0000_0000;
    // lower bound: q * p <= m * n
    assert(q * p * d <= m * n * d) by (nonlinear_arith)
        requires n == q * d + r, r >= 0, m * n * d == n * p + e * n, e * n >= 0, p > 0;
    assert(q * p <= m * n) by (nonlinear_arith)
        requires q * p * d <= m * n * d, d > 0;
    // upper bound: m * n < (q + 1) * p
    assert(m * n * d < (q + 1) * p * d) by (nonlinear_arith)
        requires n == q * d + r, r < d, m * n * d == n * p + e * n, e * n < p, p > 0;
    assert(m * n < (q + 1) * p) by (nonlinear_arith)
        requires m * n * d < (q + 1) * p * d, d > 0;
    assert((m * n) / p == q) by (nonlinear_arith)
        requires q * p <= m * n, m * n < (q + 1) * p, p > 0;
}


/// A point on the master clock: whole seconds from the scenario origin.
#[derive(Clone, Copy, PartialEq, Eq, PartialOrd, Ord, Hash, Default, Debug, Structural)]
pub struct Second(pub u32);

/// `HH:MM:SS` for a number of seconds, hours running past 24 for multi-day scenarios.
pub open spec fn clock_text(t: nat) -> Seq<char> {
    two_digits(t / 3600) + seq![':'] + two_digits((t % 3600) / 60) + seq![':'] + two_digits(t % 60)
}

impl Second {
    /// The scenario origin.
    pub fn zero() -> (r: Second)
        ensures
            r.0 == 0,
    {
        Second(0)
    }

    /// The largest representable instant.
    pub fn max_value() -> (r: Second)
        ensures
            r.0 == u32::MAX,
    {
        Second(u32::MAX)
    }

    /// Seconds since the scenario origin.
    pub fn get(self) -> (r: u32)
        ensures
            r == self.0,
    {
        self.0
    }

    /// `self + delta`, saturating at the largest instant rather than wrapping.
    pub fn saturating_add(self, delta: u32) -> (r: Second)
        ensures
            r.0 == (if self.0 + delta > u32::MAX { u32::MAX as int } else { self.0 + delta }),
    {
        Second(self.0.saturating_add(delta))
    }

    /// `self - earlier`, or zero if `earlier` is later than `self`.
    pub fn saturating_sub(self, earlier: Second) -> (r: u32)
        ensures
            r == (if self.0 >= earlier.0 { self.0 - earlier.0 } else { 0 }),
    {
        self.0.saturating_sub(earlier.0)
    }

    /// The instant `hours` whole hours after the origin.
    pub fn from_hours(hours: u32) -> (r: Second)
        requires
            hours * 3600 <= u32::MAX,
        ensures
            r.0 == hours * 3600,
    {
        Second(hours * 3600)
    }

    /// The instant `minutes` whole minutes after the origin.
    pub fn from_minutes(minutes: u32) -> (r: Second)
        requires
            minutes * 60 <= u32::MAX,
        ensures
            r.0 == minutes * 60,
    {
        Second(minutes * 60)
    }

    /// The instant as a clock time, `HH:MM:SS`, with hours running past 24.
    pub fn to_string(&self) -> (r: String)
        ensures
            r@ == clock_text(self.0 as nat),
    {
        let t = self.0;
        let mut s = String::new();
        push_two_digits(&mut s, (t / 3600) as u64);
        s.append(":");
        push_two_digits(&mut s, ((t % 3600) / 60) as u64);
        s.append(":");
        push_two_digits(&mut s, (t % 60) as u64);
        proof {
            reveal_strlit(":");
        }
        s
    }
}

/// An index into the loading step grid.
#[derive(Clone, Copy, PartialEq, Eq, PartialOrd, Ord, Hash, Debug, Default, Structural)]
pub struct StepIndex(pub u32);

impl StepIndex {
    /// The first step.
    pub fn zero() -> (r: StepIndex)
        ensures
            r.0 == 0,
    {
        StepIndex(0)
    }

    /// The raw index.
    pub fn get(self) -> (r: u32)
        ensures
            r == self.0,
    {
        self.0
    }

    /// The raw index as an array subscript.
    pub fn index(self) -> (r: usize)
        ensures
            r == self.0,
    {
        self.0 as usize
    }

    /// The index in decimal.
    pub fn to_string(&self) -> (r: String)
        ensures
            r@ == decimal(self.0 as nat),
    {
        let mut s = String::new();
        push_decimal(&mut s, self.0 as u64);
        s
    }
}

/// `x >> 64` is the quotient of `x` by `2^64`.
proof fn lemma_shr_64(x: u128)
    ensures
        x >> 64u128 == x / 0x1_0000_0000_0000_0000u128,
{
    assert(x >> 64u128 == x / 0x1_0000_0000_0000_0000u128) by (bit_vector);
}

/// Division of a `u32` by a value fixed at build time, without a `div` instruction.
///
/// For a divisor `d` above one it keeps `M = floor((2^64 - 1) / d) + 1`, and then
/// `floor(n / d) == (M * n) >> 64` for every `u32` `n` (Lemire's method); `d == 1` is
/// branched around, since its `M` does not fit 64 bits.
#[derive(Clone, Copy, PartialEq, Eq, Debug)]
pub struct FastDivU32 {
    magic: u64,
    divisor: u32,
}

impl View for FastDivU32 {
    type V = u32;

    /// The divisor.
    closed spec fn view(&self) -> u32 {
        self.divisor
    }
}

impl FastDivU32 {
    #[verifier::type_invariant]
    spec fn magic_matches(self) -> bool {
        &&& self.divisor > 0
        &&& self.divisor == 1 ==> self.magic == 0
        &&& self.divisor > 1 ==> self.magic == u64::MAX / (self.divisor as u64) + 1
    }

    /// Precompute the reciprocal of `divisor`.
    pub fn new(divisor: u32) -> (r: FastDivU32)
        requires
            divisor != 0,
        ensures
            r@ == divisor,
    {
        let magic: u64 = if divisor == 1 {
            0
        } else {
            let d = divisor as u64;
            proof {
                assert(u64::MAX / d <= u64::MAX / 2) by (nonlinear_arith) requires d >= 2;
            }
            (u64::MAX / d) + 1
        };
        FastDivU32 { magic, divisor }
    }

    /// The divisor this was built for.
    pub fn divisor(self) -> (r: u32)
        ensures
            r == self@,
    {
        self.divisor
    }

    /// `n / divisor`.
    pub fn div(self, n: u32) -> (r: u32)
        ensures
            self@ > 0,
            r == n / self@,
    {
        proof {
            use_type_invariant(&self);
        }
        if self.divisor == 1 {
            return n;
        }
        proof {
            lemma_magic_bracket(self.divisor as int, self.magic as int);
            lemma_magic_quotient(self.divisor as int, self.magic as int, n as int);
            assert((self.magic as u128) * (n as u128) < 0x1_0000_0000_0000_0000_0000_0000u128) by (nonlinear_arith)
                requires self.magic <= u64::MAX, n <= u32::MAX;
        }
        let product: u128 = self.magic as u128 * n as u128;
        proof {
            lemma_shr_64(product);
            assert(n / self.divisor <= n) by (nonlinear_arith) requires self.divisor > 0;
        }
        let q = (product >> 64) as u32;
        q
    }

    /// `n % divisor`.
    pub fn rem(self, n: u32) -> (r: u32)
        ensures
            r == n % self@,
    {
        let q = self.div(n);
        proof {
            let d = self@ as int;
            let nn = n as int;
            let qq = q as int;
            assert(qq * d + nn % d == nn && qq * d <= nn) by (nonlinear_arith)
                requires d > 0, qq == nn / d, nn >= 0;
        }
        n - q * self.divisor
    }

    /// `(n / divisor, n % divisor)`, with one multiply for both.
    pub fn div_rem(self, n: u32) -> (r: (u32, u32))
        ensures
            r.0 == n / self@,
            r.1 == n % self@,
    {
        let q = self.div(n);
        proof {
            let d = self@ as int;
            let nn = n as int;
            let qq = q as int;
            assert(qq * d + nn % d == nn && qq * d <= nn) by (nonlinear_arith)
                requires d > 0, qq == nn / d, nn >= 0;
        }
        (q, n - q * self.divisor)
    }
}

/// The numbers that make a step grid: where it starts, how long a step is, how many steps.
pub struct GridShape {
    pub origin: int,
    pub step: int,
    pub n_steps: int,
}

/// The step that instant `t` falls in, clamped to the grid: step zero before the origin,
/// the last step at or after the end.
pub open spec fn step_containing(g: GridShape, t: int) -> int {
    if t <= g.origin {
        0
    } else if (t - g.origin) / g.step >= g.n_steps {
        g.n_steps - 1
    } else {
        (t - g.origin) / g.step
    }
}

/// Steps are half-open and cover the window: an instant inside the window lies in the step
/// that [`StepGrid::step_of`] gives it, between that step's start and the next step's start.
pub proof fn lemma_step_brackets_instant(g: GridShape, t: int)
    requires
        g.step > 0,
        g.origin <= t < g.origin + g.n_steps * g.step,
    ensures
        0 <= step_containing(g, t) < g.n_steps,
        g.origin + step_containing(g, t) * g.step <= t,
        t < g.origin + (step_containing(g, t) + 1) * g.step,
{
    let q = (t - g.origin) / g.step;
    assert(q * g.step <= t - g.origin < (q + 1) * g.step) by (nonlinear_arith)
        requires g.step > 0, q == (t - g.origin) / g.step, t - g.origin >= 0;
    assert(q < g.n_steps) by (nonlinear_arith)
        requires q * g.step <= t - g.origin, t - g.origin < g.n_steps * g.step, g.step > 0;
    if t == g.origin {
        assert(q == 0) by (nonlinear_arith) requires g.step > 0, q == (t - g.origin) / g.step, t == g.origin;
    }
}

/// A step contains its own start, and the end of one step is the start of the next: the
/// start of step `i` lies in step `i`.
pub proof fn lemma_step_of_its_start(g: GridShape, i: int)
    requires
        g.step > 0,
        g.origin >= 0,
        0 <= i < g.n_steps,
    ensures
        step_containing(g, g.origin + i * g.step) == i,
        g.origin + (i + 1) * g.step == (g.origin + i * g.step) + g.step,
{
    let t = g.origin + i * g.step;
    assert((t - g.origin) / g.step == i) by (nonlinear_arith)
        requires g.step > 0, t - g.origin == i * g.step, i >= 0;
    assert(g.origin + (i + 1) * g.step == (g.origin + i * g.step) + g.step) by (nonlinear_arith);
    if i == 0 {
        assert(t == g.origin) by (nonlinear_arith) requires i == 0, t == g.origin + i * g.step;
    }
}

/// An instant is never placed outside the grid: before the origin it is in step zero, at
/// or after the end it is in the last step.
pub proof fn lemma_step_clamps(g: GridShape, t: int)
    requires
        g.step > 0,
        g.n_steps > 0,
    ensures
        0 <= step_containing(g, t) < g.n_steps,
        t <= g.origin ==> step_containing(g, t) == 0,
        t >= g.origin + g.n_steps * g.step ==> step_containing(g, t) == g.n_steps - 1,
{
    assert(g.n_steps * g.step >= g.step) by (nonlinear_arith) requires g.n_steps >= 1, g.step > 0;
    if t > g.origin {
        let q = (t - g.origin) / g.step;
        assert(q >= 0) by (nonlinear_arith) requires g.step > 0, q == (t - g.origin) / g.step, t - g.origin > 0;
        if t >= g.origin + g.n_steps * g.step {
            assert(q >= g.n_steps) by (nonlinear_arith)
                requires g.step > 0, q == (t - g.origin) / g.step, t - g.origin >= g.n_steps * g.step;
        }
    }
}

/// The coarse time grid the network loading runs on.
///
/// Steps are half-open: step `i` covers `[origin + i * step, origin + (i + 1) * step)`.
#[derive(Clone, Copy, PartialEq, Eq, Debug)]
pub struct StepGrid {
    origin: Second,
    step_seconds: u32,
    n_steps: u32,
    recip: FastDivU32,
}

/// Why a [`StepGrid`] could not be built.
#[derive(Clone, Copy, PartialEq, Eq, Debug, Structural)]
pub enum StepGridError {
    /// `step_seconds` was zero.
    ZeroStep,
    /// The window was not a whole number of steps long.
    WindowNotWholeSteps {
        /// The window length that was offered, in seconds.
        window_seconds: u32,
        /// The step length it was offered against.
        step_seconds: u32,
    },
    /// The window would run past the end of the `u32` clock.
    WindowOverflowsClock {
        /// The origin the window was offered from.
        origin: u32,
        /// The window length that was offered, in seconds.
        window_seconds: u32,
    },
}

/// What a [`StepGridError`] says to a reader.
pub open spec fn grid_error_text(e: StepGridError) -> Seq<char> {
    match e {
        StepGridError::ZeroStep => "step_seconds must be greater than zero"@,
        StepGridError::WindowNotWholeSteps { window_seconds, step_seconds } =>
            "window of "@ + decimal(window_seconds as nat) + " s is not a whole number of "@
                + decimal(step_seconds as nat) + " s steps"@,
        StepGridError::WindowOverflowsClock { origin, window_seconds } =>
            "window of "@ + decimal(window_seconds as nat) + " s from second "@
                + decimal(origin as nat) + " runs past the end of the u32 clock"@,
    }
}

impl StepGridError {
    /// The error as a sentence.
    pub fn to_string(&self) -> (r: String)
        ensures
            r@ == grid_error_text(*self),
    {
        match self {
            StepGridError::ZeroStep => String::from_str("step_seconds must be greater than zero"),
            StepGridError::WindowNotWholeSteps { window_seconds, step_seconds } => {
                let mut s = String::from_str("window of ");
                push_decimal(&mut s, *window_seconds as u64);
                s.append(" s is not a whole number of ");
                push_decimal(&mut s, *step_seconds as u64);
                s.append(" s steps");
                s
            },
            StepGridError::WindowOverflowsClock { origin, window_seconds } => {
                let mut s = String::from_str("window of ");
                push_decimal(&mut s, *window_seconds as u64);
                s.append(" s from second ");
                push_decimal(&mut s, *origin as u64);
                s.append(" runs past the end of the u32 clock");
                s
            },
        }
    }
}

impl View for StepGrid {
    type V = GridShape;

    closed spec fn view(&self) -> GridShape {
        GridShape {
            origin: self.origin.0 as int,
            step: self.step_seconds as int,
            n_steps: self.n_steps as int,
        }
    }
}

impl StepGrid {
    /// The default loading step, in seconds.
    pub const DEFAULT_STEP_SECONDS: u32 = 300;

    #[verifier::type_invariant]
    spec fn consistent(self) -> bool {
        &&& self.step_seconds > 0
        &&& self.recip@ == self.step_seconds
        &&& self.origin.0 + self.n_steps * self.step_seconds <= u32::MAX
    }

    /// Build a grid covering `window_seconds` from `origin`, or say why there is none: a
    /// zero step, a window that is not a whole number of steps, or a window that runs past
    /// the end of the clock, tested in that order.
    pub fn new(origin: Second, step_seconds: u32, window_seconds: u32) -> (r: Result<
        StepGrid,
        StepGridError,
    >)
        ensures
            step_seconds == 0 ==> r == Err::<StepGrid, StepGridError>(StepGridError::ZeroStep),
            step_seconds != 0 && window_seconds % step_seconds != 0 ==> r == Err::<
                StepGrid,
                StepGridError,
            >(StepGridError::WindowNotWholeSteps { window_seconds, step_seconds }),
            step_seconds != 0 && window_seconds % step_seconds == 0 && origin.0 + window_seconds
                > u32::MAX ==> r == Err::<StepGrid, StepGridError>(
                StepGridError::WindowOverflowsClock { origin: origin.0, window_seconds },
            ),
            step_seconds != 0 && window_seconds % step_seconds == 0 && origin.0 + window_seconds
                <= u32::MAX ==> (r matches Ok(g) && g@ == (GridShape {
                origin: origin.0 as int,
                step: step_seconds as int,
                n_steps: (window_seconds / step_seconds) as int,
            })),
    {
        if step_seconds == 0 {
            return Err(StepGridError::ZeroStep);
        }
        if window_seconds % step_seconds != 0 {
            return Err(StepGridError::WindowNotWholeSteps { window_seconds, step_seconds });
        }
        if origin.0.checked_add(window_seconds).is_none() {
            return Err(StepGridError::WindowOverflowsClock { origin: origin.0, window_seconds });
        }
        let n_steps = window_seconds / step_seconds;
        proof {
            assert(n_steps * step_seconds == window_seconds) by (nonlinear_arith)
                requires step_seconds > 0, window_seconds % step_seconds == 0, n_steps == window_seconds / step_seconds;
        }
        Ok(StepGrid { origin, step_seconds, n_steps, recip: FastDivU32::new(step_seconds) })
    }

    /// The instant step zero starts at.
    pub fn origin(self) -> (r: Second)
        ensures
            r.0 == self@.origin,
    {
        self.origin
    }

    /// The step length, in seconds.
    pub fn step_seconds(self) -> (r: u32)
        ensures
            r == self@.step,
            r > 0,
    {
        proof {
            use_type_invariant(&self);
        }
        self.step_seconds
    }

    /// How many steps the window holds.
    pub fn n_steps(self) -> (r: u32)
        ensures
            r == self@.n_steps,
    {
        self.n_steps
    }

    /// The first instant after the window.
    pub fn end(self) -> (r: Second)
        ensures
            r.0 == self@.origin + self@.n_steps * self@.step,
    {
        proof {
            use_type_invariant(&self);
        }
        Second(self.origin.0 + self.n_steps * self.step_seconds)
    }

    /// Whether `t` falls inside the window.
    pub fn contains(self, t: Second) -> (r: bool)
        ensures
            r == (self@.origin <= t.0 < self@.origin + self@.n_steps * self@.step),
    {
        t.0 >= self.origin.0 && t.0 < self.end().0
    }

    /// The step containing `t`: step zero for an instant before the origin, the last step
    /// for one at or after the end. An empty grid has no last step, so it is asked only
    /// about instants up to its origin.
    pub fn step_of(self, t: Second) -> (r: StepIndex)
        requires
            self@.n_steps > 0 || t.0 <= self@.origin,
        ensures
            r.0 == step_containing(self@, t.0 as int),
    {
        proof {
            use_type_invariant(&self);
        }
        if t.0 <= self.origin.0 {
            return StepIndex(0);
        }
        let q = self.recip.div(t.0 - self.origin.0);
        if q >= self.n_steps {
            StepIndex(self.n_steps - 1)
        } else {
            StepIndex(q)
        }
    }

    /// The step containing `t`, or `None` if `t` is outside the window.
    pub fn try_step_of(self, t: Second) -> (r: Option<StepIndex>)
        ensures
            (self@.origin <= t.0 < self@.origin + self@.n_steps * self@.step) ==> r == Some(
                StepIndex(((t.0 - self@.origin) / self@.step) as u32),
            ),
            !(self@.origin <= t.0 < self@.origin + self@.n_steps * self@.step) ==> r is None,
    {
        proof {
            use_type_invariant(&self);
        }
        if self.contains(t) {
            Some(StepIndex(self.recip.div(t.0 - self.origin.0)))
        } else {
            None
        }
    }

    /// The instant step `i` starts at.
    pub fn step_start(self, i: StepIndex) -> (r: Second)
        requires
            self@.origin + i.0 * self@.step <= u32::MAX,
        ensures
            r.0 == self@.origin + i.0 * self@.step,
    {
        Second(self.origin.0 + i.0 * self.step_seconds)
    }

    /// The first instant after step `i`.
    pub fn step_end(self, i: StepIndex) -> (r: Second)
        requires
            self@.origin + (i.0 + 1) * self@.step <= u32::MAX,
        ensures
            r.0 == self@.origin + (i.0 + 1) * self@.step,
    {
        proof {
            use_type_invariant(&self);
            assert(i.0 + 1 <= u32::MAX) by (nonlinear_arith)
                requires self.origin.0 + (i.0 + 1) * self.step_seconds <= u32::MAX, self.step_seconds > 0;
        }
        Second(self.origin.0 + (i.0 + 1) * self.step_seconds)
    }

    /// Every step index in the window, in order.
    pub fn steps(self) -> (r: Vec<StepIndex>)
        ensures
            r.len() == self@.n_steps,
            forall|i: int| 0 <= i < r.len() ==> (#[trigger] r[i]).0 == i,
    {
        let mut out: Vec<StepIndex> = Vec::new();
        let mut i: u32 = 0;
        while i < self.n_steps
            invariant
                i <= self.n_steps,
                out.len() == i,
                forall|j: int| 0 <= j < out.len() ==> (#[trigger] out[j]).0 == j,
            decreases self.n_steps - i,
        {
            out.push(StepIndex(i));
            i = i + 1;
        }
        out
    }
}

/// The key that gives the event queue its total order: lexicographic on
/// `(second, kind, entity)`, so simultaneous events resolve the same way on every run.
#[derive(Clone, Copy, PartialEq, Eq, PartialOrd, Ord, Hash, Debug, Structural)]
pub struct EventKey {
    /// When the event fires.
    pub second: Second,
    /// What kind of entity the event belongs to: the first tie-break.
    pub kind: EntityKind,
    /// The entity's raw id: the second tie-break.
    pub entity: u32,
}

impl EventKey {
    /// Build a key.
    pub fn new(second: Second, kind: EntityKind, entity: u32) -> (r: EventKey)
        ensures
            r == (EventKey { second, kind, entity }),
    {
        EventKey { second, kind, entity }
    }
}

} // verus!
