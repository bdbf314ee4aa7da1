//! Run diagnostics: the counters that make "the simulation never stops" honest.
//!
//! Conditions the model resolves by a documented rule (missing data, an infeasible path,
//! an overdrawn dock) are counted here rather than raised, and every run writes the
//! report. Per-element detail is capped at [`MAX_ELEMENTS_PER_CODE`] distinct elements per
//! (category, code, severity); beyond it counts accrue against [`ElementRef::none`], so
//! totals stay exact while memory stays bounded.

use vstd::prelude::*;
use vstd::string::StringSliceAdditionalSpecFns;

use crate::ids::{EntityId, EntityKind};
use crate::order::{compare_bytes, lemma_lex_asymmetric, lemma_lex_irreflexive, lemma_lex_total, lemma_lex_transitive, lex_lt, Precedence};

pub mod codes;

verus! {

/// How many distinct elements one (category, code, severity) keeps individual counts for.
pub const MAX_ELEMENTS_PER_CODE: usize = 4096usize;

/// Which phase produced a diagnostic. There is no error category: errors raise.
#[derive(Clone, Copy, PartialEq, Eq, PartialOrd, Ord, Hash, Debug, Structural)]
pub enum Category {
    /// A build-time input problem resolved by a documented fallback.
    DataQuality,
    /// A run-time modelling condition resolved by the model's own rules.
    Modelling,
    /// A numerical condition, such as a sweep that hit its iteration cap.
    Numeric,
}

impl Category {
    /// The category's position in declaration order.
    pub open spec fn number(self) -> u8 {
        match self {
            Category::DataQuality => 0,
            Category::Modelling => 1,
            Category::Numeric => 2,
        }
    }

    /// The stable snake_case name written to the diagnostics report.
    pub open spec fn name(self) -> Seq<char> {
        match self {
            Category::DataQuality => "data_quality"@,
            Category::Modelling => "modelling"@,
            Category::Numeric => "numeric"@,
        }
    }

    /// Every category, in declaration order.
    pub fn all() -> (r: [Category; 3])
        ensures
            forall|i: int| 0 <= i < 3 ==> (#[trigger] r@[i]).number() == i,
    {
        [Category::DataQuality, Category::Modelling, Category::Numeric]
    }

    /// The stable snake_case name written to the diagnostics report.
    pub fn as_str(self) -> (r: &'static str)
        ensures
            r@ == self.name(),
    {
        match self {
            Category::DataQuality => "data_quality",
            Category::Modelling => "modelling",
            Category::Numeric => "numeric",
        }
    }

    fn discriminant(self) -> (r: u8)
        ensures
            r == self.number(),
    {
        match self {
            Category::DataQuality => 0,
            Category::Modelling => 1,
            Category::Numeric => 2,
        }
    }
}

/// How much a diagnostic should worry the reader.
#[derive(Clone, Copy, PartialEq, Eq, PartialOrd, Ord, Hash, Debug, Structural)]
pub enum Severity {
    /// Resolved by a documented rule. Expected.
    Info,
    /// Resolved by a documented rule, but likely worth the analyst's attention.
    Warning,
}

impl Severity {
    /// The severity's position in declaration order.
    pub open spec fn number(self) -> u8 {
        match self {
            Severity::Info => 0,
            Severity::Warning => 1,
        }
    }

    /// The stable snake_case name written to the diagnostics report.
    pub open spec fn name(self) -> Seq<char> {
        match self {
            Severity::Info => "info"@,
            Severity::Warning => "warning"@,
        }
    }

    /// The stable snake_case name written to the diagnostics report.
    pub fn as_str(self) -> (r: &'static str)
        ensures
            r@ == self.name(),
    {
        match self {
            Severity::Info => "info",
            Severity::Warning => "warning",
        }
    }

    fn discriminant(self) -> (r: u8)
        ensures
            r == self.number(),
    {
        match self {
            Severity::Info => 0,
            Severity::Warning => 1,
        }
    }
}

/// A stable, machine-readable diagnostic code. Codes are strings rather than an enum so
/// that a plugin can declare its own.
#[derive(Clone, Copy, PartialEq, Eq, PartialOrd, Ord, Hash, Debug)]
pub struct DiagCode(pub &'static str);

impl DiagCode {
    /// The code as it appears in output.
    pub fn as_str(self) -> (r: &'static str)
        ensures
            r == self.0,
    {
        self.0
    }
}

/// Which element a diagnostic is about, or none: one byte of kind (`0xFF` for none) and
/// four of id.
#[derive(Clone, Copy, PartialEq, Eq, PartialOrd, Ord, Hash, Debug, Structural)]
pub struct ElementRef {
    kind: u8,
    id: u32,
}

/// The kind byte that marks "no element".
pub open spec fn no_kind() -> u8 {
    0xFFu8
}

impl View for ElementRef {
    type V = (u8, u32);

    /// The kind byte and the raw id.
    closed spec fn view(&self) -> (u8, u32) {
        (self.kind, self.id)
    }
}

impl ElementRef {
    /// A diagnostic about the run as a whole rather than about one element.
    pub fn none() -> (r: ElementRef)
        ensures
            r@ == (no_kind(), u32::MAX),
    {
        ElementRef { kind: 0xFF, id: u32::MAX }
    }

    /// A diagnostic about one entity, given its kind and raw id.
    pub fn new(kind: EntityKind, id: u32) -> (r: ElementRef)
        ensures
            r@ == (kind.number(), id),
    {
        ElementRef { kind: kind.discriminant(), id }
    }

    /// A diagnostic about one entity, taking the kind from the id's type.
    pub fn of<I: EntityId>(id: I) -> (r: ElementRef)
        ensures
            r@ == (I::kind_of().number(), id.raw_value()),
    {
        ElementRef { kind: I::kind().discriminant(), id: id.raw() }
    }

    /// The entity kind, or `None` for no element.
    pub fn kind(self) -> (r: Option<EntityKind>)
        ensures
            r == EntityKind::of_number(self@.0),
    {
        EntityKind::from_u8(self.kind)
    }

    /// The raw id, or `None` for no element.
    pub fn id(self) -> (r: Option<u32>)
        ensures
            self@.0 == no_kind() ==> r is None,
            self@.0 != no_kind() ==> r == Some(self@.1),
    {
        if self.kind == 0xFF {
            None
        } else {
            Some(self.id)
        }
    }

    fn is_none(self) -> (r: bool)
        ensures
            r == (self@ == (no_kind(), u32::MAX)),
    {
        self.kind == 0xFF && self.id == u32::MAX
    }
}

/// An element reference reads back as what it was made from: its kind and its id.
pub proof fn lemma_element_round_trips(kind: EntityKind, id: u32)
    ensures
        EntityKind::of_number(kind.number()) == Some(kind),
        kind.number() != no_kind(),
{
}

/// What identifies one line of the diagnostics report.
#[derive(Clone, Copy, PartialEq, Eq, PartialOrd, Ord, Hash, Debug)]
pub struct DiagKey {
    /// Which phase produced it.
    pub category: Category,
    /// The stable code.
    pub code: DiagCode,
    /// How much it should worry the reader.
    pub severity: Severity,
    /// Which element it is about.
    pub element: ElementRef,
}

impl DiagKey {
    /// A diagnostic about one element.
    pub fn new(category: Category, code: DiagCode, severity: Severity, element: ElementRef) -> (r: DiagKey)
        ensures
            r.category == category,
            r.code == code,
            r.severity == severity,
            r.element == element,
    {
        DiagKey { category, code, severity, element }
    }

    /// A diagnostic about the run as a whole.
    pub fn run_level(category: Category, code: DiagCode, severity: Severity) -> (r: DiagKey)
        ensures
            r.category == category,
            r.code == code,
            r.severity == severity,
            r.element@ == (no_kind(), u32::MAX),
    {
        DiagKey { category, code, severity, element: ElementRef::none() }
    }
}

/// One row of the diagnostics report.
#[derive(Clone, Copy, PartialEq, Eq, PartialOrd, Ord, Debug)]
pub struct DiagRow {
    /// What the row is about.
    pub key: DiagKey,
    /// How many times it happened.
    pub count: u64,
}

/// A key as the report orders and compares it: category, code bytes, severity, element
/// kind, element id.
pub struct KeyView {
    pub category: u8,
    pub code: Seq<u8>,
    pub severity: u8,
    pub kind: u8,
    pub id: u32,
}

/// The view of a key.
pub open spec fn key_view(k: DiagKey) -> KeyView {
    KeyView {
        category: k.category.number(),
        code: k.code.0.spec_bytes(),
        severity: k.severity.number(),
        kind: k.element@.0,
        id: k.element@.1,
    }
}

/// The view of the key about no element of a (category, code, severity).
pub open spec fn run_level_key(category: Category, code: DiagCode, severity: Severity) -> KeyView {
    KeyView { category: category.number(), code: code.0.spec_bytes(), severity: severity.number(), kind: no_kind(), id: u32::MAX }
}

/// Whether a key is about no element.
pub open spec fn is_run_level(k: KeyView) -> bool {
    k.kind == no_kind() && k.id == u32::MAX
}

/// The same key about no element: where counts go once a code's detail is capped.
pub open spec fn run_level_of(k: KeyView) -> KeyView {
    KeyView { kind: no_kind(), id: u32::MAX, ..k }
}

/// Whether two keys are of the same (category, code, severity).
pub open spec fn same_group(a: KeyView, b: KeyView) -> bool {
    a.category == b.category && a.code == b.code && a.severity == b.severity
}

/// The report's order on keys: lexicographic on (category, code, severity, kind, id).
pub open spec fn key_lt(a: KeyView, b: KeyView) -> bool {
    a.category < b.category || (a.category == b.category && (lex_lt(a.code, b.code) || (a.code
        == b.code && (a.severity < b.severity || (a.severity == b.severity && (a.kind < b.kind
        || (a.kind == b.kind && a.id < b.id)))))))
}

/// The order on groups: lexicographic on (category, code, severity).
pub open spec fn group_lt(a: KeyView, b: KeyView) -> bool {
    a.category < b.category || (a.category == b.category && (lex_lt(a.code, b.code) || (a.code
        == b.code && a.severity < b.severity)))
}

/// The key order is a strict total order.
pub proof fn lemma_key_order(a: KeyView, b: KeyView, c: KeyView)
    ensures
        !key_lt(a, a),
        !(key_lt(a, b) && key_lt(b, a)),
        key_lt(a, b) && key_lt(b, c) ==> key_lt(a, c),
        a != b ==> key_lt(a, b) || key_lt(b, a),
        key_lt(a, b) ==> group_lt(a, b) || same_group(a, b),
        group_lt(a, b) ==> key_lt(a, b),
        !group_lt(a, a),
        !(group_lt(a, b) && group_lt(b, a)),
        group_lt(a, b) && group_lt(b, c) ==> group_lt(a, c),
        group_lt(a, b) && same_group(b, c) ==> group_lt(a, c),
        same_group(a, b) && group_lt(b, c) ==> group_lt(a, c),
        !same_group(a, b) ==> group_lt(a, b) || group_lt(b, a),
        same_group(a, b) ==> !group_lt(a, b) && !group_lt(b, a),
        same_group(a, b) && same_group(b, c) ==> same_group(a, c),
        same_group(a, b) ==> same_group(b, a),
{
    lemma_lex_irreflexive(a.code);
    lemma_lex_asymmetric(a.code, b.code);
    lemma_lex_asymmetric(b.code, c.code);
    lemma_lex_asymmetric(a.code, c.code);
    if lex_lt(a.code, b.code) && lex_lt(b.code, c.code) {
        lemma_lex_transitive(a.code, b.code, c.code);
    }
    if a.code != b.code {
        lemma_lex_total(a.code, b.code);
    }
}

/// A row as the report holds it: its key and its count.
pub type RowView = (KeyView, u64);

/// Whether a report's rows are in key order, each key once, each count positive.
pub open spec fn rows_ok(v: Seq<RowView>) -> bool {
    &&& forall|i: int, j: int| 0 <= i < j < v.len() ==> key_lt(#[trigger] v[i].0, #[trigger] v[j].0)
    &&& forall|i: int| 0 <= i < v.len() ==> #[trigger] v[i].1 > 0
}

/// The count of key `k` in rows `v`, 0 if it has no row.
pub open spec fn count_in(v: Seq<RowView>, k: KeyView) -> nat
    decreases v.len(),
{
    if v.len() == 0 {
        0
    } else if v[0].0 == k {
        v[0].1 as nat
    } else {
        count_in(v.drop_first(), k)
    }
}

/// Whether key `k` has a row.
pub open spec fn has_key(v: Seq<RowView>, k: KeyView) -> bool {
    exists|i: int| 0 <= i < v.len() && #[trigger] v[i].0 == k
}

/// The rows about an element, in the group of `g`.
pub open spec fn element_rows(v: Seq<RowView>, g: KeyView) -> Seq<RowView> {
    v.filter(|r: RowView| same_group(r.0, g) && !is_run_level(r.0))
}

/// How many distinct elements the group of `g` has rows for.
pub open spec fn distinct_in(v: Seq<RowView>, g: KeyView) -> nat {
    element_rows(v, g).len()
}

/// The key a count for `k` is recorded against: `k` itself, unless it is about an element
/// the report has no row for and its group already has rows for
/// [`MAX_ELEMENTS_PER_CODE`] elements, in which case the same key about no element.
pub open spec fn capped(v: Seq<RowView>, k: KeyView) -> KeyView {
    if is_run_level(k) || has_key(v, k) {
        k
    } else if distinct_in(v, k) >= MAX_ELEMENTS_PER_CODE {
        run_level_of(k)
    } else {
        k
    }
}

/// The rows `v` with `n` added to the count of key `k`, a new row in key order if it has
/// none.
pub open spec fn add_at(v: Seq<RowView>, k: KeyView, n: u64) -> Seq<RowView>
    decreases v.len(),
{
    if v.len() == 0 {
        seq![(k, n)]
    } else if v[0].0 == k {
        seq![(k, (v[0].1 + n) as u64)] + v.drop_first()
    } else if key_lt(k, v[0].0) {
        seq![(k, n)] + v
    } else {
        seq![v[0]] + add_at(v.drop_first(), k, n)
    }
}

/// The rows after recording `n` occurrences of key `k`.
pub open spec fn recorded(v: Seq<RowView>, k: KeyView, n: u64) -> Seq<RowView> {
    if n == 0 {
        v
    } else {
        add_at(v, capped(v, k), n)
    }
}

/// Whether recording `n` more of `k` keeps every count within a `u64`.
pub open spec fn record_fits(v: Seq<RowView>, k: KeyView, n: u64) -> bool {
    count_in(v, capped(v, k)) + n <= u64::MAX
}

/// The rows after recording every row of `other`, first to last.
pub open spec fn merged(v: Seq<RowView>, other: Seq<RowView>) -> Seq<RowView>
    decreases other.len(),
{
    if other.len() == 0 {
        v
    } else {
        merged(recorded(v, other[0].0, other[0].1), other.drop_first())
    }
}

/// Whether merging `other` into `v` keeps every count within a `u64`.
pub open spec fn merge_fits(v: Seq<RowView>, other: Seq<RowView>) -> bool
    decreases other.len(),
{
    if other.len() == 0 {
        true
    } else {
        record_fits(v, other[0].0, other[0].1) && merge_fits(
            recorded(v, other[0].0, other[0].1),
            other.drop_first(),
        )
    }
}

/// The sum of the counts of rows `v`.
pub open spec fn total_of(v: Seq<RowView>) -> nat
    decreases v.len(),
{
    if v.len() == 0 {
        0
    } else {
        v[0].1 as nat + total_of(v.drop_first())
    }
}

/// The sum of the counts of the rows of `v` with code `code`.
pub open spec fn code_total(v: Seq<RowView>, code: Seq<u8>) -> nat
    decreases v.len(),
{
    if v.len() == 0 {
        0
    } else {
        (if v[0].0.code == code { v[0].1 as nat } else { 0 }) + code_total(v.drop_first(), code)
    }
}


/// Where key `k` stands in rows `v`: every row before `pos` has a smaller key, every row
/// from `pos` on has a key not smaller.
pub open spec fn lower_bound_at(v: Seq<RowView>, k: KeyView, pos: int) -> bool {
    &&& 0 <= pos <= v.len()
    &&& forall|i: int| 0 <= i < pos ==> key_lt(#[trigger] v[i].0, k)
    &&& forall|i: int| pos <= i < v.len() ==> !key_lt(#[trigger] v[i].0, k)
}

/// In sorted rows, adding to a key is an update of its row if it has one at `pos`, and an
/// insertion at `pos` otherwise.
proof fn lemma_add_at_position(v: Seq<RowView>, k: KeyView, n: u64, pos: int)
    requires
        rows_ok(v),
        lower_bound_at(v, k, pos),
    ensures
        pos < v.len() && v[pos].0 == k ==> add_at(v, k, n) == v.update(pos, (k, (v[pos].1 + n) as u64)),
        !(pos < v.len() && v[pos].0 == k) ==> add_at(v, k, n) == v.insert(pos, (k, n)),
        !(pos < v.len() && v[pos].0 == k) ==> !has_key(v, k),
    decreases v.len(),
{
    if pos < v.len() && v[pos].0 != k {
        lemma_key_order(v[pos].0, k, k);
        assert(key_lt(k, v[pos].0));
    }
    if !(pos < v.len() && v[pos].0 == k) {
        assert forall|i: int| 0 <= i < v.len() implies #[trigger] v[i].0 != k by {
            lemma_key_order(v[i].0, k, k);
            if i >= pos && i > pos {
                assert(key_lt(v[pos].0, v[i].0));
                lemma_key_order(k, v[pos].0, v[i].0);
            }
        }
    }
    if v.len() == 0 {
        assert(add_at(v, k, n) =~= v.insert(pos, (k, n)));
    } else if pos == 0 {
        if v[0].0 == k {
            assert(add_at(v, k, n) =~= v.update(pos, (k, (v[pos].1 + n) as u64)));
        } else {
            assert(add_at(v, k, n) =~= v.insert(pos, (k, n)));
        }
    } else {
        let t = v.drop_first();
        lemma_key_order(v[0].0, k, k);
        assert(v[0].0 != k && !key_lt(k, v[0].0));
        assert(rows_ok(t)) by {
            assert forall|i: int, j: int| 0 <= i < j < t.len() implies key_lt(#[trigger] t[i].0, #[trigger] t[j].0) by {
                assert(key_lt(v[i + 1].0, v[j + 1].0));
            }
            assert forall|i: int| 0 <= i < t.len() implies #[trigger] t[i].1 > 0 by {
                assert(v[i + 1].1 > 0);
            }
        }
        assert(lower_bound_at(t, k, pos - 1)) by {
            assert forall|i: int| 0 <= i < pos - 1 implies key_lt(#[trigger] t[i].0, k) by {
                assert(key_lt(v[i + 1].0, k));
            }
            assert forall|i: int| pos - 1 <= i < t.len() implies !key_lt(#[trigger] t[i].0, k) by {
                assert(!key_lt(v[i + 1].0, k));
            }
        }
        lemma_add_at_position(t, k, n, pos - 1);
        if pos < v.len() && v[pos].0 == k {
            assert(add_at(v, k, n) =~= v.update(pos, (k, (v[pos].1 + n) as u64)));
        } else {
            assert(add_at(v, k, n) =~= v.insert(pos, (k, n)));
        }
    }
}

/// The count of a key is the count of its row.
proof fn lemma_count_at(v: Seq<RowView>, k: KeyView, i: int)
    requires
        rows_ok(v),
        0 <= i < v.len(),
        v[i].0 == k,
    ensures
        count_in(v, k) == v[i].1,
    decreases v.len(),
{
    if i > 0 {
        assert(key_lt(v[0].0, v[i].0));
        lemma_key_order(v[0].0, k, k);
        let t = v.drop_first();
        assert(rows_ok(t)) by {
            assert forall|a: int, b: int| 0 <= a < b < t.len() implies key_lt(#[trigger] t[a].0, #[trigger] t[b].0) by {
                assert(key_lt(v[a + 1].0, v[b + 1].0));
            }
            assert forall|a: int| 0 <= a < t.len() implies #[trigger] t[a].1 > 0 by {
                assert(v[a + 1].1 > 0);
            }
        }
        lemma_count_at(t, k, i - 1);
    }
}

/// A key without a row has count zero.
proof fn lemma_count_absent(v: Seq<RowView>, k: KeyView)
    requires
        !has_key(v, k),
    ensures
        count_in(v, k) == 0,
    decreases v.len(),
{
    if v.len() > 0 {
        assert(v[0].0 != k);
        let t = v.drop_first();
        assert(!has_key(t, k)) by {
            if has_key(t, k) {
                let i = choose|i: int| 0 <= i < t.len() && #[trigger] t[i].0 == k;
                assert(v[i + 1].0 == k);
            }
        }
        lemma_count_absent(t, k);
    }
}

/// The rows after the first of sorted rows are sorted.
proof fn lemma_tail_ok(v: Seq<RowView>)
    requires
        rows_ok(v),
        v.len() > 0,
    ensures
        rows_ok(v.drop_first()),
        forall|i: int| 0 <= i < v.drop_first().len() ==> key_lt(v[0].0, #[trigger] v.drop_first()[i].0),
{
    let t = v.drop_first();
    assert forall|a: int, b: int| 0 <= a < b < t.len() implies key_lt(#[trigger] t[a].0, #[trigger] t[b].0) by {
        assert(key_lt(v[a + 1].0, v[b + 1].0));
    }
    assert forall|a: int| 0 <= a < t.len() implies #[trigger] t[a].1 > 0 by {
        assert(v[a + 1].1 > 0);
    }
    assert forall|i: int| 0 <= i < t.len() implies key_lt(v[0].0, #[trigger] t[i].0) by {
        assert(key_lt(v[0].0, v[i + 1].0));
    }
}

/// Sorted rows have a lower bound for every key.
proof fn lemma_lower_bound_exists(v: Seq<RowView>, k: KeyView) -> (pos: int)
    requires
        rows_ok(v),
    ensures
        lower_bound_at(v, k, pos),
    decreases v.len(),
{
    if v.len() == 0 {
        0
    } else if key_lt(v[0].0, k) {
        lemma_tail_ok(v);
        let p = lemma_lower_bound_exists(v.drop_first(), k);
        assert forall|i: int| 0 <= i < p + 1 implies key_lt(#[trigger] v[i].0, k) by {
            if i > 0 {
                assert(key_lt(v.drop_first()[i - 1].0, k));
            }
        }
        assert forall|i: int| p + 1 <= i < v.len() implies !key_lt(#[trigger] v[i].0, k) by {
            assert(!key_lt(v.drop_first()[i - 1].0, k));
        }
        p + 1
    } else {
        assert forall|i: int| 0 <= i < v.len() implies !key_lt(#[trigger] v[i].0, k) by {
            if i > 0 {
                assert(key_lt(v[0].0, v[i].0));
                lemma_key_order(v[0].0, v[i].0, k);
                lemma_key_order(v[i].0, k, v[0].0);
                if key_lt(v[i].0, k) {
                    if v[0].0 != k {
                        lemma_key_order(v[0].0, k, k);
                        lemma_key_order(k, v[0].0, k);
                    }
                }
            }
        }
        0
    }
}

/// Adding to a key keeps rows sorted with positive counts; it adds a row exactly when the
/// key had none.
proof fn lemma_add_at_shape(v: Seq<RowView>, k: KeyView, n: u64)
    requires
        rows_ok(v),
        n > 0,
        count_in(v, k) + n <= u64::MAX,
    ensures
        rows_ok(add_at(v, k, n)),
        add_at(v, k, n).len() == v.len() + (if has_key(v, k) { 0int } else { 1int }),
        forall|x: KeyView| has_key(add_at(v, k, n), x) <==> (has_key(v, x) || x == k),
{
    let pos = lemma_lower_bound_exists(v, k);
    lemma_add_at_position(v, k, n, pos);
    let r = add_at(v, k, n);
    if pos < v.len() && v[pos].0 == k {
        lemma_count_at(v, k, pos);
        assert(has_key(v, k));
        assert forall|x: KeyView| has_key(r, x) <==> (has_key(v, x) || x == k) by {
            if has_key(v, x) {
                let i = choose|i: int| 0 <= i < v.len() && #[trigger] v[i].0 == x;
                assert(r[i].0 == x);
            }
            if has_key(r, x) {
                let i = choose|i: int| 0 <= i < r.len() && #[trigger] r[i].0 == x;
                assert(v[i].0 == x);
            }
        }
    } else {
        assert(r.len() == v.len() + 1);
        assert forall|i: int, j: int| 0 <= i < j < r.len() implies key_lt(#[trigger] r[i].0, #[trigger] r[j].0) by {
            if j < pos {
                assert(key_lt(v[i].0, v[j].0));
            } else if j == pos {
                assert(key_lt(v[i].0, k));
            } else if i < pos {
                assert(key_lt(v[i].0, k));
                assert(!key_lt(v[j - 1].0, k));
                assert(v[j - 1].0 != k);
                lemma_key_order(v[j - 1].0, k, k);
                lemma_key_order(v[i].0, k, v[j - 1].0);
            } else if i == pos {
                assert(!key_lt(v[j - 1].0, k));
                assert(v[j - 1].0 != k);
                lemma_key_order(v[j - 1].0, k, k);
            } else {
                assert(key_lt(v[i - 1].0, v[j - 1].0));
            }
        }
        assert forall|i: int| 0 <= i < r.len() implies #[trigger] r[i].1 > 0 by {
            if i < pos {
                assert(v[i].1 > 0);
            } else if i > pos {
                assert(v[i - 1].1 > 0);
            }
        }
        assert forall|x: KeyView| has_key(r, x) <==> (has_key(v, x) || x == k) by {
            if has_key(v, x) {
                let i = choose|i: int| 0 <= i < v.len() && #[trigger] v[i].0 == x;
                if i < pos {
                    assert(r[i].0 == x);
                } else {
                    assert(r[i + 1].0 == x);
                }
            }
            if x == k {
                assert(r[pos].0 == x);
            }
            if has_key(r, x) {
                let i = choose|i: int| 0 <= i < r.len() && #[trigger] r[i].0 == x;
                if i < pos {
                    assert(v[i].0 == x);
                } else if i > pos {
                    assert(v[i - 1].0 == x);
                }
            }
        }
    }
}

/// Adding `n` to a key adds `n` to its count and to no other key's.
proof fn lemma_add_at_count(v: Seq<RowView>, k: KeyView, n: u64, kk: KeyView)
    requires
        rows_ok(v),
        count_in(v, k) + n <= u64::MAX,
    ensures
        count_in(add_at(v, k, n), kk) == count_in(v, kk) + (if kk == k { n as nat } else { 0 }),
    decreases v.len(),
{
    let r = add_at(v, k, n);
    if v.len() == 0 {
        assert(r =~= seq![(k, n)]);
        assert(r.drop_first().len() == 0);
        assert(r[0] == (k, n));
        assert(count_in(r.drop_first(), kk) == 0);
        assert(count_in(v, kk) == 0);
        assert(count_in(r, kk) == count_in(v, kk) + (if kk == k { n as nat } else { 0 }));
    } else if v[0].0 == k {
        assert(r =~= seq![(k, (v[0].1 + n) as u64)] + v.drop_first());
        assert(r.drop_first() =~= v.drop_first());
        assert(r[0] == (k, (v[0].1 + n) as u64));
        assert(count_in(r, kk) == count_in(v, kk) + (if kk == k { n as nat } else { 0 }));
    } else if key_lt(k, v[0].0) {
        assert(r =~= seq![(k, n)] + v);
        assert(r.drop_first() =~= v);
        assert(r[0] == (k, n));
        if kk == k {
            assert(!has_key(v, k)) by {
                if has_key(v, k) {
                    let i = choose|i: int| 0 <= i < v.len() && #[trigger] v[i].0 == k;
                    if i > 0 {
                        assert(key_lt(v[0].0, v[i].0));
                    }
                    lemma_key_order(k, v[0].0, k);
                }
            }
            lemma_count_absent(v, k);
        }
        assert(count_in(r, kk) == count_in(v, kk) + (if kk == k { n as nat } else { 0 }));
    } else {
        lemma_tail_ok(v);
        lemma_add_at_count(v.drop_first(), k, n, kk);
        assert(r =~= seq![v[0]] + add_at(v.drop_first(), k, n));
        assert(r.drop_first() =~= add_at(v.drop_first(), k, n));
        assert(r[0] == v[0]);
        assert(count_in(r, kk) == count_in(v, kk) + (if kk == k { n as nat } else { 0 }));
    }
}

/// Adding `n` to a key adds `n` to the total, and to the total of the key's code.
proof fn lemma_add_at_totals(v: Seq<RowView>, k: KeyView, n: u64, code: Seq<u8>)
    requires
        count_in(v, k) + n <= u64::MAX,
    ensures
        total_of(add_at(v, k, n)) == total_of(v) + n,
        code_total(add_at(v, k, n), code) == code_total(v, code) + (if k.code == code { n as nat } else { 0 }),
    decreases v.len(),
{
    let r = add_at(v, k, n);
    if v.len() == 0 {
        assert(r =~= seq![(k, n)]);
        assert(r.drop_first().len() == 0);
        assert(total_of(r) == n + total_of(r.drop_first()));
        assert(code_total(r, code) == (if k.code == code { n as nat } else { 0 }) + code_total(r.drop_first(), code));
    } else if v[0].0 == k {
        assert(r =~= seq![(k, (v[0].1 + n) as u64)] + v.drop_first());
        assert(r.drop_first() =~= v.drop_first());
        assert(r[0] == (k, (v[0].1 + n) as u64));
    } else if key_lt(k, v[0].0) {
        assert(r =~= seq![(k, n)] + v);
        assert(r.drop_first() =~= v);
        assert(r[0] == (k, n));
    } else {
        lemma_add_at_totals(v.drop_first(), k, n, code);
        assert(r =~= seq![v[0]] + add_at(v.drop_first(), k, n));
        assert(r.drop_first() =~= add_at(v.drop_first(), k, n));
        assert(r[0] == v[0]);
    }
}


/// The rows about elements of a group, counted over a sequence cut around one row.
proof fn lemma_filter_around(a: Seq<RowView>, x: RowView, b: Seq<RowView>, p: spec_fn(RowView) -> bool)
    ensures
        (a + seq![x] + b).filter(p).len() == a.filter(p).len() + (if p(x) { 1int } else { 0int }) + b.filter(p).len(),
        (a + b).filter(p).len() == a.filter(p).len() + b.filter(p).len(),
{
    Seq::filter_distributes_over_add(a + seq![x], b, p);
    Seq::filter_distributes_over_add(a, seq![x], p);
    Seq::filter_distributes_over_add(a, b, p);
    Seq::<RowView>::empty().lemma_filter_len_push(p, x);
    assert(Seq::<RowView>::empty().push(x) =~= seq![x]);
    reveal(Seq::filter);
    assert(Seq::<RowView>::empty().filter(p).len() == 0);
}

/// Adding to a key adds one element row to its group exactly when the key is about an
/// element and had no row; every other group keeps its element rows.
proof fn lemma_add_at_distinct(v: Seq<RowView>, k: KeyView, n: u64, g: KeyView)
    requires
        rows_ok(v),
    ensures
        distinct_in(add_at(v, k, n), g) == distinct_in(v, g) + (if !has_key(v, k) && same_group(k, g) && !is_run_level(k) { 1int } else { 0int }),
{
    let p = |r: RowView| same_group(r.0, g) && !is_run_level(r.0);
    let pos = lemma_lower_bound_exists(v, k);
    lemma_add_at_position(v, k, n, pos);
    if pos < v.len() && v[pos].0 == k {
        assert(has_key(v, k));
        let x = v[pos];
        let y = (k, (v[pos].1 + n) as u64);
        assert(v =~= v.take(pos) + seq![x] + v.skip(pos + 1));
        assert(v.update(pos, y) =~= v.take(pos) + seq![y] + v.skip(pos + 1));
        lemma_filter_around(v.take(pos), x, v.skip(pos + 1), p);
        lemma_filter_around(v.take(pos), y, v.skip(pos + 1), p);
    } else {
        let y = (k, n);
        assert(v =~= v.take(pos) + v.skip(pos));
        assert(v.insert(pos, y) =~= v.take(pos) + seq![y] + v.skip(pos));
        lemma_filter_around(v.take(pos), y, v.skip(pos), p);
    }
}


/// The view of a report's rows.
pub open spec fn rows_view(rows: Seq<DiagRow>) -> Seq<RowView> {
    rows.map_values(|r: DiagRow| (key_view(r.key), r.count))
}

/// A group's bookkeeping: how many distinct elements it has rows for.
#[derive(Clone, Copy, Debug)]
struct GroupRow {
    category: Category,
    code: DiagCode,
    severity: Severity,
    distinct: usize,
}

/// The (category, code, severity) of a group row, as a key about nothing in particular.
spec fn group_view(g: GroupRow) -> KeyView {
    KeyView { category: g.category.number(), code: g.code.0.spec_bytes(), severity: g.severity.number(), kind: 0, id: 0 }
}

/// Whether group rows `gs` are in group order and count exactly the element rows of
/// `v`, one group row for every group that has element rows.
spec fn groups_ok(v: Seq<RowView>, gs: Seq<GroupRow>) -> bool {
    &&& forall|i: int, j: int| 0 <= i < j < gs.len() ==> group_lt(group_view(#[trigger] gs[i]), group_view(#[trigger] gs[j]))
    &&& forall|i: int| 0 <= i < gs.len() ==> #[trigger] gs[i].distinct == distinct_in(v, group_view(gs[i]))
    &&& forall|g: KeyView| #[trigger] distinct_in(v, g) > 0 ==> exists|i: int| 0 <= i < gs.len() && same_group(#[trigger] group_view(gs[i]), g)
}

/// Whether no group has rows for more than [`MAX_ELEMENTS_PER_CODE`] elements.
pub open spec fn within_cap(v: Seq<RowView>) -> bool {
    forall|g: KeyView| #[trigger] distinct_in(v, g) <= MAX_ELEMENTS_PER_CODE
}

/// Where key `a` stands against key `b` in the report's order.
fn compare_keys(a: &DiagKey, b: &DiagKey) -> (r: Precedence)
    ensures
        r == Precedence::Same <==> key_view(*a) == key_view(*b),
        r == Precedence::Before <==> key_lt(key_view(*a), key_view(*b)),
        r == Precedence::After <==> key_lt(key_view(*b), key_view(*a)),
{
    proof {
        lemma_key_order(key_view(*a), key_view(*b), key_view(*b));
        lemma_key_order(key_view(*b), key_view(*a), key_view(*a));
    }
    let g = compare_groups(a.category, a.code, a.severity, b.category, b.code, b.severity);
    match g {
        Precedence::Before => Precedence::Before,
        Precedence::After => Precedence::After,
        Precedence::Same => {
            if a.element.kind < b.element.kind {
                Precedence::Before
            } else if a.element.kind > b.element.kind {
                Precedence::After
            } else if a.element.id < b.element.id {
                Precedence::Before
            } else if a.element.id > b.element.id {
                Precedence::After
            } else {
                Precedence::Same
            }
        },
    }
}

/// Where group `(c1, code1, s1)` stands against group `(c2, code2, s2)`.
fn compare_groups(c1: Category, code1: DiagCode, s1: Severity, c2: Category, code2: DiagCode, s2: Severity) -> (r: Precedence)
    ensures
        ({
            let a = KeyView { category: c1.number(), code: code1.0.spec_bytes(), severity: s1.number(), kind: 0, id: 0 };
            let b = KeyView { category: c2.number(), code: code2.0.spec_bytes(), severity: s2.number(), kind: 0, id: 0 };
            &&& (r == Precedence::Same <==> same_group(a, b))
            &&& (r == Precedence::Before <==> group_lt(a, b))
            &&& (r == Precedence::After <==> group_lt(b, a))
        }),
{
    let ghost a = KeyView { category: c1.number(), code: code1.0.spec_bytes(), severity: s1.number(), kind: 0, id: 0 };
    let ghost b = KeyView { category: c2.number(), code: code2.0.spec_bytes(), severity: s2.number(), kind: 0, id: 0 };
    proof {
        lemma_key_order(a, b, b);
        lemma_key_order(b, a, a);
    }
    let x = c1.discriminant();
    let y = c2.discriminant();
    if x < y {
        return Precedence::Before;
    }
    if x > y {
        return Precedence::After;
    }
    match compare_bytes(code1.0.as_bytes(), code2.0.as_bytes()) {
        Precedence::Before => Precedence::Before,
        Precedence::After => Precedence::After,
        Precedence::Same => {
            let u = s1.discriminant();
            let w = s2.discriminant();
            if u < w {
                Precedence::Before
            } else if u > w {
                Precedence::After
            } else {
                Precedence::Same
            }
        },
    }
}

/// Where `key` stands among `rows`: the first position whose key is not before it, and
/// whether the row there has it.
fn find_row(rows: &Vec<DiagRow>, key: &DiagKey) -> (r: (bool, usize))
    requires
        rows_ok(rows_view(rows@)),
    ensures
        lower_bound_at(rows_view(rows@), key_view(*key), r.1 as int),
        r.0 == (r.1 < rows.len() && rows_view(rows@)[r.1 as int].0 == key_view(*key)),
{
    let ghost v = rows_view(rows@);
    let mut lo: usize = 0;
    let mut hi: usize = rows.len();
    while lo < hi
        invariant
            v == rows_view(rows@),
            rows_ok(v),
            lo <= hi <= rows.len(),
            forall|i: int| 0 <= i < lo ==> key_lt(#[trigger] v[i].0, key_view(*key)),
            forall|i: int| hi <= i < rows.len() ==> !key_lt(#[trigger] v[i].0, key_view(*key)),
        decreases hi - lo,
    {
        let mid = lo + (hi - lo) / 2;
        assert(v[mid as int].0 == key_view(rows@[mid as int].key));
        match compare_keys(&rows[mid].key, key) {
            Precedence::Before => {
                proof {
                    assert forall|i: int| 0 <= i < mid + 1 implies key_lt(#[trigger] v[i].0, key_view(*key)) by {
                        if i < mid {
                            assert(key_lt(v[i].0, v[mid as int].0));
                            lemma_key_order(v[i].0, v[mid as int].0, key_view(*key));
                        }
                    }
                }
                lo = mid + 1;
            },
            _ => {
                proof {
                    assert forall|i: int| mid <= i < rows.len() implies !key_lt(#[trigger] v[i].0, key_view(*key)) by {
                        lemma_key_order(v[i].0, key_view(*key), v[mid as int].0);
                        lemma_key_order(key_view(*key), v[mid as int].0, v[i].0);
                        if i > mid {
                            assert(key_lt(v[mid as int].0, v[i].0));
                            lemma_key_order(key_view(*key), v[mid as int].0, v[i].0);
                            lemma_key_order(v[mid as int].0, v[i].0, key_view(*key));
                            lemma_key_order(v[i].0, key_view(*key), v[mid as int].0);
                        }
                    }
                }
                hi = mid;
            },
        }
    }
    if lo < rows.len() {
        assert(v[lo as int].0 == key_view(rows@[lo as int].key));
        let same = match compare_keys(&rows[lo].key, key) {
            Precedence::Same => true,
            _ => false,
        };
        (same, lo)
    } else {
        (false, lo)
    }
}

/// Where the group of `key` stands among `groups`: the first position whose group is not
/// before it, and whether the group row there is its group.
fn find_group(groups: &Vec<GroupRow>, key: &DiagKey) -> (r: (bool, usize))
    requires
        forall|i: int, j: int| 0 <= i < j < groups.len() ==> group_lt(group_view(#[trigger] groups@[i]), group_view(#[trigger] groups@[j])),
    ensures
        r.1 <= groups.len(),
        forall|i: int| 0 <= i < r.1 ==> group_lt(group_view(#[trigger] groups@[i]), key_view(*key)),
        forall|i: int| r.1 <= i < groups.len() ==> !group_lt(group_view(#[trigger] groups@[i]), key_view(*key)),
        r.0 == (r.1 < groups.len() && same_group(group_view(groups@[r.1 as int]), key_view(*key))),
{
    let ghost k = key_view(*key);
    let mut lo: usize = 0;
    let mut hi: usize = groups.len();
    while lo < hi
        invariant
            forall|i: int, j: int| 0 <= i < j < groups.len() ==> group_lt(group_view(#[trigger] groups@[i]), group_view(#[trigger] groups@[j])),
            lo <= hi <= groups.len(),
            k == key_view(*key),
            forall|i: int| 0 <= i < lo ==> group_lt(group_view(#[trigger] groups@[i]), k),
            forall|i: int| hi <= i < groups.len() ==> !group_lt(group_view(#[trigger] groups@[i]), k),
        decreases hi - lo,
    {
        let mid = lo + (hi - lo) / 2;
        let gm = &groups[mid];
        let p = compare_groups(gm.category, gm.code, gm.severity, key.category, key.code, key.severity);
        let ghost gv = group_view(groups@[mid as int]);
        assert(same_group(gv, k) <==> same_group(gv, KeyView { kind: 0, id: 0, ..k }));
        assert(group_lt(gv, k) <==> group_lt(gv, KeyView { kind: 0, id: 0, ..k }));
        assert(group_lt(k, gv) <==> group_lt(KeyView { kind: 0, id: 0, ..k }, gv));
        match p {
            Precedence::Before => {
                proof {
                    assert forall|i: int| 0 <= i < mid + 1 implies group_lt(group_view(#[trigger] groups@[i]), k) by {
                        if i < mid {
                            lemma_key_order(group_view(groups@[i]), gv, k);
                        }
                    }
                }
                lo = mid + 1;
            },
            _ => {
                proof {
                    assert forall|i: int| mid <= i < groups.len() implies !group_lt(group_view(#[trigger] groups@[i]), k) by {
                        let gi = group_view(groups@[i]);
                        lemma_key_order(gi, k, gv);
                        lemma_key_order(k, gv, gi);
                        lemma_key_order(gv, gi, k);
                        lemma_key_order(gi, gv, k);
                    }
                }
                hi = mid;
            },
        }
    }
    if lo < groups.len() {
        let gl = &groups[lo];
        let p = compare_groups(gl.category, gl.code, gl.severity, key.category, key.code, key.severity);
        let ghost gv = group_view(groups@[lo as int]);
        assert(same_group(gv, k) <==> same_group(gv, KeyView { kind: 0, id: 0, ..k }));
        let same = match p {
            Precedence::Same => true,
            _ => false,
        };
        (same, lo)
    } else {
        (false, lo)
    }
}


/// Groups that are the same group have the same element rows.
proof fn lemma_distinct_same_group(v: Seq<RowView>, g1: KeyView, g2: KeyView)
    requires
        same_group(g1, g2),
    ensures
        distinct_in(v, g1) == distinct_in(v, g2),
{
    let p1 = |r: RowView| same_group(r.0, g1) && !is_run_level(r.0);
    let p2 = |r: RowView| same_group(r.0, g2) && !is_run_level(r.0);
    assert(p1 =~= p2);
}

/// The per-run diagnostic counters.
///
/// Rows are kept in key order, so the report is written in a deterministic order; each
/// group's count of distinct elements is kept beside them, so the cap is applied without a
/// scan.
#[derive(Debug)]
pub struct Diagnostics {
    rows: Vec<DiagRow>,
    groups: Vec<GroupRow>,
}

impl View for Diagnostics {
    type V = Seq<RowView>;

    /// The rows, in key order.
    closed spec fn view(&self) -> Seq<RowView> {
        rows_view(self.rows@)
    }
}

impl Diagnostics {
    #[verifier::type_invariant]
    spec fn consistent(self) -> bool {
        &&& rows_ok(rows_view(self.rows@))
        &&& groups_ok(rows_view(self.rows@), self.groups@)
        &&& within_cap(rows_view(self.rows@))
    }

    /// An empty report. Allocates nothing until something is recorded.
    pub fn new() -> (r: Diagnostics)
        ensures
            r@ == Seq::<RowView>::empty(),
    {
        let r = Diagnostics { rows: Vec::new(), groups: Vec::new() };
        proof {
            assert(rows_view(r.rows@) =~= Seq::<RowView>::empty());
            assert forall|g: KeyView| #[trigger] distinct_in(rows_view(r.rows@), g) == 0 by {
                reveal(Seq::filter);
            }
        }
        r
    }

    /// A report's rows are in key order, each count positive, and no group has rows for
    /// more than [`MAX_ELEMENTS_PER_CODE`] elements.
    pub fn check_consistent(&self)
        ensures
            rows_ok(self@),
            within_cap(self@),
    {
        proof {
            use_type_invariant(self);
        }
    }

    /// Record `n` occurrences of `key`. Recording zero changes nothing; otherwise the count
    /// goes to the key itself, or, if it is about an element the report has no row for and
    /// its group already has rows for [`MAX_ELEMENTS_PER_CODE`] elements, to the same key
    /// about no element.
    pub fn record_n(&mut self, key: DiagKey, n: u64)
        requires
            record_fits(old(self)@, key_view(key), n),
        ensures
            final(self)@ == recorded(old(self)@, key_view(key), n),
    {
        if n == 0 {
            return;
        }
        proof {
            use_type_invariant(&*self);
        }
        let ghost v = self@;
        let ghost k = key_view(key);
        let mut taken = Diagnostics::new();
        std::mem::swap(&mut taken, self);
        proof {
            use_type_invariant(&taken);
        }
        let Diagnostics { mut rows, mut groups } = taken;
        assert(rows_view(rows@) == v);
        let (found, pos) = find_row(&rows, &key);
        proof {
            lemma_add_at_position(v, k, n, pos as int);
        }
        if found {
            // The key has a row: add to it.
            proof {
                lemma_count_at(v, k, pos as int);
                lemma_add_at_shape(v, k, n);
                assert forall|g: KeyView| #[trigger] distinct_in(add_at(v, k, n), g) == distinct_in(v, g) by {
                    lemma_add_at_distinct(v, k, n, g);
                }
            }
            let c = rows[pos].count;
            rows[pos] = DiagRow { key, count: c + n };
            proof {
                assert(rows_view(rows@) =~= v.update(pos as int, (k, (v[pos as int].1 + n) as u64)));
            }
        } else if key.element.is_none() {
            // A run-level key without a row: a new row.
            proof {
                lemma_count_absent(v, k);
                lemma_add_at_shape(v, k, n);
                assert forall|g: KeyView| #[trigger] distinct_in(add_at(v, k, n), g) == distinct_in(v, g) by {
                    lemma_add_at_distinct(v, k, n, g);
                }
            }
            rows.insert(pos, DiagRow { key, count: n });
            proof {
                assert(rows_view(rows@) =~= v.insert(pos as int, (k, n)));
            }
        } else {
            let (gfound, gpos) = find_group(&groups, &key);
            let distinct = if gfound { groups[gpos].distinct } else { 0 };
            proof {
                if gfound {
                    lemma_distinct_same_group(v, group_view(groups@[gpos as int]), k);
                } else {
                    if distinct_in(v, k) > 0 {
                        let i = choose|i: int| 0 <= i < groups.len() && same_group(#[trigger] group_view(groups@[i]), k);
                        lemma_key_order(group_view(groups@[i]), k, k);
                        if i > gpos {
                            assert(group_lt(group_view(groups@[gpos as int]), group_view(groups@[i])));
                            lemma_key_order(group_view(groups@[gpos as int]), group_view(groups@[i]), k);
                        }
                    }
                }
                assert(distinct == distinct_in(v, k));
            }
            if distinct >= MAX_ELEMENTS_PER_CODE {
                // The group is at its cap: count against the key about no element.
                let ck = DiagKey { element: ElementRef::none(), ..key };
                let ghost kk = key_view(ck);
                assert(kk == run_level_of(k));
                let (f2, p2) = find_row(&rows, &ck);
                proof {
                    lemma_add_at_position(v, kk, n, p2 as int);
                    assert forall|g: KeyView| #[trigger] distinct_in(add_at(v, kk, n), g) == distinct_in(v, g) by {
                        lemma_add_at_distinct(v, kk, n, g);
                    }
                    lemma_add_at_shape(v, kk, n);
                }
                if f2 {
                    proof {
                        lemma_count_at(v, kk, p2 as int);
                    }
                    let c = rows[p2].count;
                    rows[p2] = DiagRow { key: ck, count: c + n };
                    proof {
                        assert(rows_view(rows@) =~= v.update(p2 as int, (kk, (v[p2 as int].1 + n) as u64)));
                    }
                } else {
                    rows.insert(p2, DiagRow { key: ck, count: n });
                    proof {
                        assert(rows_view(rows@) =~= v.insert(p2 as int, (kk, n)));
                    }
                }
            } else {
                // A new element, within the cap: a new row, and one more in its group.
                proof {
                    lemma_count_absent(v, k);
                    lemma_add_at_shape(v, k, n);
                    assert forall|g: KeyView| #[trigger] distinct_in(add_at(v, k, n), g) == distinct_in(v, g) + (if same_group(k, g) { 1int } else { 0int }) by {
                        lemma_add_at_distinct(v, k, n, g);
                    }
                }
                rows.insert(pos, DiagRow { key, count: n });
                proof {
                    assert(rows_view(rows@) =~= v.insert(pos as int, (k, n)));
                }
                let ghost old_groups = groups@;
                if gfound {
                    let gr = &groups[gpos];
                    let updated = GroupRow { category: gr.category, code: gr.code, severity: gr.severity, distinct: gr.distinct + 1 };
                    groups[gpos] = updated;
                    proof {
                        let nv = rows_view(rows@);
                        assert forall|i: int| 0 <= i < groups.len() implies #[trigger] groups@[i].distinct == distinct_in(nv, group_view(groups@[i])) by {
                            if i == gpos {
                                lemma_distinct_same_group(v, group_view(old_groups[i]), k);
                                assert(group_view(groups@[i]) == group_view(old_groups[i]));
                                lemma_key_order(k, group_view(old_groups[i]), k);
                            } else {
                                assert(group_view(groups@[i]) == group_view(old_groups[i]));
                                if same_group(k, group_view(old_groups[i])) {
                                    lemma_key_order(group_view(old_groups[gpos as int]), k, group_view(old_groups[i]));
                                    if i < gpos {
                                        assert(group_lt(group_view(old_groups[i]), group_view(old_groups[gpos as int])));
                                    } else {
                                        assert(group_lt(group_view(old_groups[gpos as int]), group_view(old_groups[i])));
                                    }
                                    lemma_key_order(group_view(old_groups[i]), group_view(old_groups[gpos as int]), k);
                                    lemma_key_order(group_view(old_groups[gpos as int]), group_view(old_groups[i]), k);
                                }
                            }
                        }
                        assert forall|i: int, j: int| 0 <= i < j < groups.len() implies group_lt(group_view(#[trigger] groups@[i]), group_view(#[trigger] groups@[j])) by {
                            assert(group_view(groups@[i]) == group_view(old_groups[i]));
                            assert(group_view(groups@[j]) == group_view(old_groups[j]));
                        }
                        assert forall|g: KeyView| #[trigger] distinct_in(nv, g) > 0 implies exists|i: int| 0 <= i < groups.len() && same_group(#[trigger] group_view(groups@[i]), g) by {
                            if same_group(k, g) {
                                lemma_key_order(group_view(groups@[gpos as int]), k, g);
                                assert(same_group(group_view(groups@[gpos as int]), g));
                            } else {
                                let i = choose|i: int| 0 <= i < old_groups.len() && same_group(#[trigger] group_view(old_groups[i]), g);
                                assert(group_view(groups@[i]) == group_view(old_groups[i]));
                            }
                        }
                        assert forall|g: KeyView| #[trigger] distinct_in(nv, g) <= MAX_ELEMENTS_PER_CODE by {
                            if same_group(k, g) {
                                lemma_distinct_same_group(v, k, g);
                            }
                        }
                    }
                } else {
                    groups.insert(gpos, GroupRow { category: key.category, code: key.code, severity: key.severity, distinct: 1 });
                    proof {
                        let nv = rows_view(rows@);
                        let ng = group_view(groups@[gpos as int]);
                        assert(same_group(ng, k));
                        assert(distinct_in(v, k) == 0);
                        lemma_distinct_same_group(nv, ng, k);
                        assert forall|i: int| 0 <= i < groups.len() implies #[trigger] groups@[i].distinct == distinct_in(nv, group_view(groups@[i])) by {
                            if i != gpos {
                                let oi = if i < gpos { i } else { i - 1 };
                                assert(groups@[i] == old_groups[oi]);
                                if same_group(k, group_view(old_groups[oi])) {
                                    lemma_key_order(group_view(old_groups[oi]), k, k);
                                    if oi >= gpos {
                                        assert(!group_lt(group_view(old_groups[oi]), k));
                                    }
                                }
                            }
                        }
                        assert forall|i: int, j: int| 0 <= i < j < groups.len() implies group_lt(group_view(#[trigger] groups@[i]), group_view(#[trigger] groups@[j])) by {
                            let gi = group_view(groups@[i]);
                            let gj = group_view(groups@[j]);
                            if i < gpos && j < gpos {
                                assert(groups@[i] == old_groups[i] && groups@[j] == old_groups[j]);
                            } else if i < gpos && j == gpos {
                                assert(groups@[i] == old_groups[i]);
                                assert(group_lt(gi, k));
                                lemma_key_order(gi, k, gj);
                                lemma_key_order(k, gj, gj);
                                lemma_key_order(gj, k, gi);
                            } else if i < gpos {
                                assert(groups@[i] == old_groups[i] && groups@[j] == old_groups[j - 1]);
                            } else if i == gpos {
                                assert(groups@[j] == old_groups[j - 1]);
                                assert(!group_lt(gj, k));
                                assert(!same_group(gj, k));
                                lemma_key_order(gj, k, k);
                                lemma_key_order(gi, k, gj);
                                lemma_key_order(k, gi, gj);
                                lemma_key_order(gi, gj, k);
                            } else {
                                assert(groups@[i] == old_groups[i - 1] && groups@[j] == old_groups[j - 1]);
                            }
                        }
                        assert forall|g: KeyView| #[trigger] distinct_in(nv, g) > 0 implies exists|i: int| 0 <= i < groups.len() && same_group(#[trigger] group_view(groups@[i]), g) by {
                            if same_group(k, g) {
                                lemma_key_order(ng, k, g);
                                assert(same_group(group_view(groups@[gpos as int]), g));
                            } else {
                                let i = choose|i: int| 0 <= i < old_groups.len() && same_group(#[trigger] group_view(old_groups[i]), g);
                                if i < gpos {
                                    assert(groups@[i] == old_groups[i]);
                                } else {
                                    assert(groups@[i + 1] == old_groups[i]);
                                }
                            }
                        }
                        assert forall|g: KeyView| #[trigger] distinct_in(nv, g) <= MAX_ELEMENTS_PER_CODE by {
                            if same_group(k, g) {
                                lemma_distinct_same_group(v, k, g);
                            }
                        }
                    }
                }
            }
        }
        *self = Diagnostics { rows, groups };
    }
}


impl Diagnostics {
    /// Record one occurrence.
    pub fn record(&mut self, key: DiagKey)
        requires
            record_fits(old(self)@, key_view(key), 1),
        ensures
            final(self)@ == recorded(old(self)@, key_view(key), 1),
    {
        self.record_n(key, 1);
    }

    /// Record one occurrence about the run as a whole rather than an element.
    pub fn record_run_level(&mut self, category: Category, code: DiagCode, severity: Severity)
        requires
            record_fits(old(self)@, run_level_key(category, code, severity), 1),
        ensures
            final(self)@ == recorded(old(self)@, run_level_key(category, code, severity), 1),
    {
        let key = DiagKey::run_level(category, code, severity);
        assert(key_view(key) == run_level_key(category, code, severity));
        self.record(key);
    }

    /// Fold `other` into `self`: every row of `other` is recorded, in key order.
    pub fn merge(&mut self, other: &Diagnostics)
        requires
            merge_fits(old(self)@, other@),
        ensures
            final(self)@ == merged(old(self)@, other@),
    {
        let ghost o = other@;
        let mut i: usize = 0;
        proof {
            assert(o.skip(0) =~= o);
        }
        while i < other.rows.len()
            invariant
                o == other@,
                o == rows_view(other.rows@),
                i <= other.rows.len(),
                merged(old(self)@, o) == merged(self@, o.skip(i as int)),
                merge_fits(self@, o.skip(i as int)),
            decreases other.rows.len() - i,
        {
            let row = other.rows[i];
            proof {
                let rest = o.skip(i as int);
                assert(rest[0] == (key_view(row.key), row.count));
                assert(rest.drop_first() =~= o.skip(i + 1));
            }
            self.record_n(row.key, row.count);
            i = i + 1;
        }
        proof {
            assert(o.skip(i as int).len() == 0);
        }
    }

    /// Whether anything at all was recorded.
    pub fn is_empty(&self) -> (r: bool)
        ensures
            r == (self@.len() == 0),
    {
        self.rows.len() == 0
    }

    /// How many distinct rows the report holds.
    pub fn len(&self) -> (r: usize)
        ensures
            r == self@.len(),
    {
        self.rows.len()
    }

    /// The total number of occurrences across every row.
    pub fn total(&self) -> (r: u64)
        requires
            total_of(self@) <= u64::MAX,
        ensures
            r == total_of(self@),
    {
        let ghost v = self@;
        let mut sum: u64 = 0;
        let mut i: usize = self.rows.len();
        proof {
            assert(v.skip(v.len() as int).len() == 0);
        }
        while i > 0
            invariant
                v == self@,
                v == rows_view(self.rows@),
                i <= self.rows.len(),
                total_of(v) <= u64::MAX,
                sum == total_of(v.skip(i as int)),
            decreases i,
        {
            proof {
                lemma_total_split(v, (i - 1) as int);
                lemma_total_suffix(v, (i - 1) as int);
            }
            i = i - 1;
            sum = sum + self.rows[i].count;
        }
        proof {
            assert(v.skip(0) =~= v);
        }
        sum
    }

    /// The total recorded against one code, across every element and severity.
    pub fn count_of(&self, code: DiagCode) -> (r: u64)
        requires
            code_total(self@, code.0.spec_bytes()) <= u64::MAX,
        ensures
            r == code_total(self@, code.0.spec_bytes()),
    {
        let ghost v = self@;
        let ghost c = code.0.spec_bytes();
        let mut sum: u64 = 0;
        let mut i: usize = self.rows.len();
        proof {
            assert(v.skip(v.len() as int).len() == 0);
        }
        while i > 0
            invariant
                v == self@,
                v == rows_view(self.rows@),
                c == code.0.spec_bytes(),
                i <= self.rows.len(),
                code_total(v, c) <= u64::MAX,
                sum == code_total(v.skip(i as int), c),
            decreases i,
        {
            proof {
                lemma_code_total_split(v, (i - 1) as int, c);
                lemma_code_total_suffix(v, (i - 1) as int, c);
            }
            i = i - 1;
            let row = self.rows[i];
            let same = match compare_bytes(row.key.code.0.as_bytes(), code.0.as_bytes()) {
                Precedence::Same => true,
                _ => false,
            };
            if same {
                sum = sum + row.count;
            }
        }
        proof {
            assert(v.skip(0) =~= v);
        }
        sum
    }

    /// The count for one exact key, 0 if it has no row.
    pub fn count_of_key(&self, key: DiagKey) -> (r: u64)
        ensures
            r == count_in(self@, key_view(key)),
    {
        proof {
            use_type_invariant(self);
        }
        let (found, pos) = find_row(&self.rows, &key);
        proof {
            lemma_add_at_position(self@, key_view(key), 1, pos as int);
        }
        if found {
            proof {
                lemma_count_at(self@, key_view(key), pos as int);
            }
            self.rows[pos].count
        } else {
            proof {
                lemma_count_absent(self@, key_view(key));
            }
            0
        }
    }

    /// Every row, in key order: sorted by (category, code, severity, element), so two runs
    /// that recorded the same things write identical reports.
    pub fn rows(&self) -> (r: Vec<DiagRow>)
        ensures
            rows_view(r@) == self@,
            rows_ok(rows_view(r@)),
    {
        proof {
            use_type_invariant(self);
        }
        let mut out: Vec<DiagRow> = Vec::new();
        let mut i: usize = 0;
        while i < self.rows.len()
            invariant
                i <= self.rows.len(),
                out@ == self.rows@.take(i as int),
            decreases self.rows.len() - i,
        {
            out.push(self.rows[i]);
            proof {
                assert(self.rows@.take(i + 1) =~= self.rows@.take(i as int).push(self.rows@[i as int]));
            }
            i = i + 1;
        }
        proof {
            assert(self.rows@.take(i as int) =~= self.rows@);
        }
        out
    }
}

impl Default for Diagnostics {
    fn default() -> (r: Diagnostics)
        ensures
            r@ == Seq::<RowView>::empty(),
    {
        Diagnostics::new()
    }
}

impl Clone for Diagnostics {
    fn clone(&self) -> (r: Diagnostics)
        ensures
            r@ == self@,
    {
        proof {
            use_type_invariant(self);
        }
        let mut rows: Vec<DiagRow> = Vec::new();
        let mut i: usize = 0;
        while i < self.rows.len()
            invariant
                i <= self.rows.len(),
                rows@ == self.rows@.take(i as int),
            decreases self.rows.len() - i,
        {
            rows.push(self.rows[i]);
            proof {
                assert(self.rows@.take(i + 1) =~= self.rows@.take(i as int).push(self.rows@[i as int]));
            }
            i = i + 1;
        }
        let mut groups: Vec<GroupRow> = Vec::new();
        let mut j: usize = 0;
        while j < self.groups.len()
            invariant
                j <= self.groups.len(),
                groups@ == self.groups@.take(j as int),
            decreases self.groups.len() - j,
        {
            groups.push(self.groups[j]);
            proof {
                assert(self.groups@.take(j + 1) =~= self.groups@.take(j as int).push(self.groups@[j as int]));
            }
            j = j + 1;
        }
        proof {
            assert(self.rows@.take(i as int) =~= self.rows@);
            assert(self.groups@.take(j as int) =~= self.groups@);
        }
        Diagnostics { rows, groups }
    }
}

/// The total of rows splits at any point.
proof fn lemma_total_split(v: Seq<RowView>, i: int)
    requires
        0 <= i < v.len(),
    ensures
        total_of(v.skip(i)) == v[i].1 + total_of(v.skip(i + 1)),
{
    assert(v.skip(i).drop_first() =~= v.skip(i + 1));
    assert(v.skip(i)[0] == v[i]);
}

/// The total of a code's rows splits at any point.
proof fn lemma_code_total_split(v: Seq<RowView>, i: int, c: Seq<u8>)
    requires
        0 <= i < v.len(),
    ensures
        code_total(v.skip(i), c) == (if v[i].0.code == c { v[i].1 as nat } else { 0 }) + code_total(v.skip(i + 1), c),
{
    assert(v.skip(i).drop_first() =~= v.skip(i + 1));
    assert(v.skip(i)[0] == v[i]);
}


/// A suffix of the rows totals no more than the rows.
proof fn lemma_total_suffix(v: Seq<RowView>, i: int)
    requires
        0 <= i <= v.len(),
    ensures
        total_of(v.skip(i)) <= total_of(v),
    decreases i,
{
    if i > 0 {
        let t = v.drop_first();
        lemma_total_suffix(t, i - 1);
        assert(t.skip(i - 1) =~= v.skip(i));
    } else {
        assert(v.skip(0) =~= v);
    }
}

/// A suffix of the rows totals no more, for any code, than the rows.
proof fn lemma_code_total_suffix(v: Seq<RowView>, i: int, c: Seq<u8>)
    requires
        0 <= i <= v.len(),
    ensures
        code_total(v.skip(i), c) <= code_total(v, c),
    decreases i,
{
    if i > 0 {
        let t = v.drop_first();
        lemma_code_total_suffix(t, i - 1, c);
        assert(t.skip(i - 1) =~= v.skip(i));
    } else {
        assert(v.skip(0) =~= v);
    }
}


/// A key has a row exactly when its count is positive.
proof fn lemma_has_key_iff_count(v: Seq<RowView>, k: KeyView)
    requires
        rows_ok(v),
    ensures
        has_key(v, k) <==> count_in(v, k) > 0,
{
    if has_key(v, k) {
        let i = choose|i: int| 0 <= i < v.len() && #[trigger] v[i].0 == k;
        lemma_count_at(v, k, i);
    } else {
        lemma_count_absent(v, k);
    }
}

/// Rows are determined by their counts: two sorted reports with the same count for every
/// key have the same rows.
proof fn lemma_rows_determined_by_counts(a: Seq<RowView>, b: Seq<RowView>)
    requires
        rows_ok(a),
        rows_ok(b),
        forall|k: KeyView| #[trigger] count_in(a, k) == count_in(b, k),
    ensures
        a == b,
    decreases a.len() + b.len(),
{
    if a.len() == 0 || b.len() == 0 {
        if a.len() > 0 {
            lemma_count_at(a, a[0].0, 0);
            lemma_has_key_iff_count(b, a[0].0);
            assert(count_in(b, a[0].0) == count_in(a, a[0].0));
        }
        if b.len() > 0 {
            lemma_count_at(b, b[0].0, 0);
            lemma_has_key_iff_count(a, b[0].0);
            assert(count_in(a, b[0].0) == count_in(b, b[0].0));
        }
        assert(a =~= b);
    } else {
        let x = a[0].0;
        let y = b[0].0;
        lemma_count_at(a, x, 0);
        lemma_count_at(b, y, 0);
        assert(count_in(b, x) == count_in(a, x));
        assert(count_in(a, y) == count_in(b, y));
        lemma_has_key_iff_count(b, x);
        lemma_has_key_iff_count(a, y);
        let ix = choose|i: int| 0 <= i < b.len() && #[trigger] b[i].0 == x;
        let iy = choose|i: int| 0 <= i < a.len() && #[trigger] a[i].0 == y;
        if x != y {
            if ix > 0 {
                assert(key_lt(b[0].0, b[ix].0));
            }
            if iy > 0 {
                assert(key_lt(a[0].0, a[iy].0));
            }
            lemma_key_order(x, y, x);
        }
        assert(x == y);
        lemma_count_at(b, x, 0);
        assert(a[0].1 == b[0].1);
        assert(a[0] == b[0]);
        lemma_tail_ok(a);
        lemma_tail_ok(b);
        let ta = a.drop_first();
        let tb = b.drop_first();
        assert forall|k: KeyView| #[trigger] count_in(ta, k) == count_in(tb, k) by {
            assert(count_in(a, k) == count_in(b, k));
            if k == x {
                assert(!has_key(ta, k)) by {
                    if has_key(ta, k) {
                        let i = choose|i: int| 0 <= i < ta.len() && #[trigger] ta[i].0 == k;
                        assert(key_lt(x, ta[i].0));
                        lemma_key_order(x, x, x);
                    }
                }
                assert(!has_key(tb, k)) by {
                    if has_key(tb, k) {
                        let i = choose|i: int| 0 <= i < tb.len() && #[trigger] tb[i].0 == k;
                        assert(key_lt(x, tb[i].0));
                        lemma_key_order(x, x, x);
                    }
                }
                lemma_count_absent(ta, k);
                lemma_count_absent(tb, k);
            }
        }
        lemma_rows_determined_by_counts(ta, tb);
        assert(a =~= seq![a[0]] + ta);
        assert(b =~= seq![b[0]] + tb);
    }
}

/// Recording keeps a report's totals exact, capped or not: `n` more in all, and `n` more
/// against the key's code.
pub proof fn lemma_record_keeps_totals_exact(v: Seq<RowView>, k: KeyView, n: u64)
    requires
        rows_ok(v),
        record_fits(v, k, n),
    ensures
        total_of(recorded(v, k, n)) == total_of(v) + n,
        code_total(recorded(v, k, n), k.code) == code_total(v, k.code) + n,
        rows_ok(recorded(v, k, n)),
{
    if n > 0 {
        lemma_add_at_totals(v, capped(v, k), n, k.code);
        lemma_add_at_shape(v, capped(v, k), n);
    }
}

/// Recording adds `n` to the count of the key it is recorded against and changes no other
/// count.
pub proof fn lemma_record_counts(v: Seq<RowView>, k: KeyView, n: u64, other: KeyView)
    requires
        rows_ok(v),
        record_fits(v, k, n),
    ensures
        count_in(recorded(v, k, n), other) == count_in(v, other) + (if other == capped(v, k) { n as nat } else { 0 }),
{
    if n > 0 {
        lemma_add_at_count(v, capped(v, k), n, other);
    }
}

/// Recording never lets a group hold rows for more than [`MAX_ELEMENTS_PER_CODE`]
/// elements: per-element detail stays bounded.
pub proof fn lemma_record_keeps_cap(v: Seq<RowView>, k: KeyView, n: u64)
    requires
        rows_ok(v),
        within_cap(v),
    ensures
        within_cap(recorded(v, k, n)),
{
    if n > 0 {
        let ck = capped(v, k);
        assert forall|g: KeyView| #[trigger] distinct_in(recorded(v, k, n), g) <= MAX_ELEMENTS_PER_CODE by {
            lemma_add_at_distinct(v, ck, n, g);
            if !has_key(v, ck) && same_group(ck, g) && !is_run_level(ck) {
                assert(ck == k);
                lemma_distinct_same_group(v, k, g);
            }
        }
    }
}

/// Below the cap, recording is order-free: two records, each against its own key, give the
/// same report in either order. This is what makes merging per-chunk reports independent
/// of how work was split, as long as no group reaches the cap.
pub proof fn lemma_records_commute(v: Seq<RowView>, k1: KeyView, n1: u64, k2: KeyView, n2: u64)
    requires
        rows_ok(v),
        n1 > 0,
        n2 > 0,
        count_in(v, k1) + n1 + (if k1 == k2 { n2 as int } else { 0 }) <= u64::MAX,
        count_in(v, k2) + n2 + (if k1 == k2 { n1 as int } else { 0 }) <= u64::MAX,
    ensures
        add_at(add_at(v, k1, n1), k2, n2) == add_at(add_at(v, k2, n2), k1, n1),
{
    let a1 = add_at(v, k1, n1);
    let b1 = add_at(v, k2, n2);
    lemma_add_at_shape(v, k1, n1);
    lemma_add_at_shape(v, k2, n2);
    lemma_add_at_count(v, k1, n1, k2);
    lemma_add_at_count(v, k2, n2, k1);
    lemma_add_at_shape(a1, k2, n2);
    lemma_add_at_shape(b1, k1, n1);
    let a = add_at(a1, k2, n2);
    let b = add_at(b1, k1, n1);
    assert forall|k: KeyView| #[trigger] count_in(a, k) == count_in(b, k) by {
        lemma_add_at_count(v, k1, n1, k);
        lemma_add_at_count(v, k2, n2, k);
        lemma_add_at_count(a1, k2, n2, k);
        lemma_add_at_count(b1, k1, n1, k);
    }
    lemma_rows_determined_by_counts(a, b);
}

/// Merging keeps totals exact, capped or not: the merged report holds, in all and against
/// each code, the sum of what the two reports held. However work is split into reports, the
/// totals of their merge are the same.
pub proof fn lemma_merge_keeps_totals_exact(v: Seq<RowView>, other: Seq<RowView>, code: Seq<u8>)
    requires
        rows_ok(v),
        merge_fits(v, other),
    ensures
        total_of(merged(v, other)) == total_of(v) + total_of(other),
        code_total(merged(v, other), code) == code_total(v, code) + code_total(other, code),
        rows_ok(merged(v, other)),
    decreases other.len(),
{
    if other.len() > 0 {
        let k = other[0].0;
        let n = other[0].1;
        lemma_record_keeps_totals_exact(v, k, n);
        lemma_record_code_total(v, k, n, code);
        lemma_merge_keeps_totals_exact(recorded(v, k, n), other.drop_first(), code);
    }
}

/// Recording `n` against key `k` adds `n` to the total of `k`'s code and nothing to that of
/// any other code.
proof fn lemma_record_code_total(v: Seq<RowView>, k: KeyView, n: u64, code: Seq<u8>)
    requires
        rows_ok(v),
        record_fits(v, k, n),
    ensures
        code_total(recorded(v, k, n), code) == code_total(v, code) + (if k.code == code { n as nat } else { 0 }),
{
    if n > 0 {
        lemma_add_at_totals(v, capped(v, k), n, code);
    }
}

/// Below the cap, merging adds the counts: when the two reports together hold rows for no
/// more than [`MAX_ELEMENTS_PER_CODE`] elements of any group, the merge never redirects a
/// count, and every key's count in the merged report is its count in `v` and in `other`
/// together, as if everything had been recorded into one report.
pub proof fn lemma_merge_adds_counts(v: Seq<RowView>, other: Seq<RowView>)
    requires
        rows_ok(v),
        rows_ok(other),
        forall|g: KeyView| #[trigger] distinct_in(v, g) + distinct_in(other, g) <= MAX_ELEMENTS_PER_CODE,
        forall|k: KeyView| #[trigger] count_in(v, k) + count_in(other, k) <= u64::MAX,
    ensures
        merge_fits(v, other),
        rows_ok(merged(v, other)),
        forall|k: KeyView| #[trigger] count_in(merged(v, other), k) == count_in(v, k) + count_in(other, k),
        forall|g: KeyView| #[trigger] distinct_in(merged(v, other), g) <= distinct_in(v, g) + distinct_in(other, g),
    decreases other.len(),
{
    if other.len() == 0 {
        assert forall|k: KeyView| #[trigger] count_in(merged(v, other), k) == count_in(v, k) + count_in(other, k) by {}
        assert forall|g: KeyView| #[trigger] distinct_in(merged(v, other), g) <= distinct_in(v, g) + distinct_in(other, g) by {}
    } else {
        let k0 = other[0].0;
        let n0 = other[0].1;
        let t = other.drop_first();
        assert(n0 > 0);
        lemma_tail_ok(other);
        assert(!has_key(t, k0)) by {
            if has_key(t, k0) {
                let i = choose|i: int| 0 <= i < t.len() && #[trigger] t[i].0 == k0;
                assert(key_lt(k0, t[i].0));
                lemma_key_order(k0, k0, k0);
            }
        }
        lemma_count_absent(t, k0);
        assert(count_in(other, k0) == n0);
        assert forall|k: KeyView| k != k0 implies count_in(other, k) == #[trigger] count_in(t, k) by {}
        assert(other =~= Seq::<RowView>::empty() + seq![other[0]] + t);
        assert forall|g: KeyView| #[trigger] distinct_in(other, g) == distinct_in(t, g)
            + (if same_group(k0, g) && !is_run_level(k0) { 1int } else { 0int }) by {
            let p = |r: RowView| same_group(r.0, g) && !is_run_level(r.0);
            lemma_filter_around(Seq::<RowView>::empty(), other[0], t, p);
            reveal(Seq::filter);
            assert(Seq::<RowView>::empty().filter(p).len() == 0);
        }
        // The first row is not redirected.
        assert(capped(v, k0) == k0) by {
            if !is_run_level(k0) && !has_key(v, k0) {
                assert(distinct_in(other, k0) >= 1);
                assert(distinct_in(v, k0) + distinct_in(other, k0) <= MAX_ELEMENTS_PER_CODE);
            }
        }
        assert(count_in(v, k0) + count_in(other, k0) <= u64::MAX);
        let v1 = recorded(v, k0, n0);
        assert(v1 == add_at(v, k0, n0));
        lemma_add_at_shape(v, k0, n0);
        assert forall|k: KeyView| #[trigger] count_in(v1, k) + count_in(t, k) == count_in(v, k) + count_in(other, k) by {
            lemma_add_at_count(v, k0, n0, k);
        }
        assert forall|g: KeyView| #[trigger] distinct_in(v1, g) <= distinct_in(v, g)
            + (if same_group(k0, g) && !is_run_level(k0) { 1int } else { 0int }) by {
            lemma_add_at_distinct(v, k0, n0, g);
        }
        assert forall|g: KeyView| #[trigger] distinct_in(v1, g) + distinct_in(t, g) <= MAX_ELEMENTS_PER_CODE by {
            assert(distinct_in(v, g) + distinct_in(other, g) <= MAX_ELEMENTS_PER_CODE);
        }
        assert forall|k: KeyView| #[trigger] count_in(v1, k) + count_in(t, k) <= u64::MAX by {
            assert(count_in(v, k) + count_in(other, k) <= u64::MAX);
        }
        lemma_merge_adds_counts(v1, t);
        assert(merged(v, other) == merged(v1, t));
        assert forall|k: KeyView| #[trigger] count_in(merged(v, other), k) == count_in(v, k) + count_in(other, k) by {
            assert(count_in(merged(v1, t), k) == count_in(v1, k) + count_in(t, k));
        }
        assert forall|g: KeyView| #[trigger] distinct_in(merged(v, other), g) <= distinct_in(v, g) + distinct_in(other, g) by {
            assert(distinct_in(merged(v1, t), g) <= distinct_in(v1, g) + distinct_in(t, g));
        }
    }
}

/// Below the cap, merging is order-free: merging two reports into a third, one after the
/// other, gives the same rows in either order, and each key's count is the sum of the
/// three. So work split into parts, each recorded into a report of its own, merges to the
/// same report whatever the order, as long as the parts together hold rows for no more than
/// [`MAX_ELEMENTS_PER_CODE`] elements of any group.
pub proof fn lemma_merge_order_free(v: Seq<RowView>, a: Seq<RowView>, b: Seq<RowView>)
    requires
        rows_ok(v),
        rows_ok(a),
        rows_ok(b),
        forall|g: KeyView| #[trigger] distinct_in(v, g) + distinct_in(a, g) + distinct_in(b, g) <= MAX_ELEMENTS_PER_CODE,
        forall|k: KeyView| #[trigger] count_in(v, k) + count_in(a, k) + count_in(b, k) <= u64::MAX,
    ensures
        merge_fits(v, a),
        merge_fits(merged(v, a), b),
        merge_fits(v, b),
        merge_fits(merged(v, b), a),
        merged(merged(v, a), b) == merged(merged(v, b), a),
        forall|k: KeyView| #[trigger] count_in(merged(merged(v, a), b), k) == count_in(v, k) + count_in(a, k) + count_in(b, k),
{
    assert forall|g: KeyView| #[trigger] distinct_in(v, g) + distinct_in(a, g) <= MAX_ELEMENTS_PER_CODE by {
        assert(distinct_in(v, g) + distinct_in(a, g) + distinct_in(b, g) <= MAX_ELEMENTS_PER_CODE);
    }
    assert forall|k: KeyView| #[trigger] count_in(v, k) + count_in(a, k) <= u64::MAX by {
        assert(count_in(v, k) + count_in(a, k) + count_in(b, k) <= u64::MAX);
    }
    lemma_merge_adds_counts(v, a);
    assert forall|g: KeyView| #[trigger] distinct_in(v, g) + distinct_in(b, g) <= MAX_ELEMENTS_PER_CODE by {
        assert(distinct_in(v, g) + distinct_in(a, g) + distinct_in(b, g) <= MAX_ELEMENTS_PER_CODE);
    }
    assert forall|k: KeyView| #[trigger] count_in(v, k) + count_in(b, k) <= u64::MAX by {
        assert(count_in(v, k) + count_in(a, k) + count_in(b, k) <= u64::MAX);
    }
    lemma_merge_adds_counts(v, b);
    let va = merged(v, a);
    let vb = merged(v, b);
    assert forall|g: KeyView| #[trigger] distinct_in(va, g) + distinct_in(b, g) <= MAX_ELEMENTS_PER_CODE by {
        assert(distinct_in(va, g) <= distinct_in(v, g) + distinct_in(a, g));
        assert(distinct_in(v, g) + distinct_in(a, g) + distinct_in(b, g) <= MAX_ELEMENTS_PER_CODE);
    }
    assert forall|k: KeyView| #[trigger] count_in(va, k) + count_in(b, k) <= u64::MAX by {
        assert(count_in(va, k) == count_in(v, k) + count_in(a, k));
        assert(count_in(v, k) + count_in(a, k) + count_in(b, k) <= u64::MAX);
    }
    lemma_merge_adds_counts(va, b);
    assert forall|g: KeyView| #[trigger] distinct_in(vb, g) + distinct_in(a, g) <= MAX_ELEMENTS_PER_CODE by {
        assert(distinct_in(vb, g) <= distinct_in(v, g) + distinct_in(b, g));
        assert(distinct_in(v, g) + distinct_in(a, g) + distinct_in(b, g) <= MAX_ELEMENTS_PER_CODE);
    }
    assert forall|k: KeyView| #[trigger] count_in(vb, k) + count_in(a, k) <= u64::MAX by {
        assert(count_in(vb, k) == count_in(v, k) + count_in(b, k));
        assert(count_in(v, k) + count_in(a, k) + count_in(b, k) <= u64::MAX);
    }
    lemma_merge_adds_counts(vb, a);
    assert forall|k: KeyView| #[trigger] count_in(merged(va, b), k) == count_in(merged(vb, a), k) by {
        assert(count_in(merged(va, b), k) == count_in(va, k) + count_in(b, k));
        assert(count_in(merged(vb, a), k) == count_in(vb, k) + count_in(a, k));
        assert(count_in(va, k) == count_in(v, k) + count_in(a, k));
        assert(count_in(vb, k) == count_in(v, k) + count_in(b, k));
    }
    lemma_rows_determined_by_counts(merged(va, b), merged(vb, a));
    assert forall|k: KeyView| #[trigger] count_in(merged(merged(v, a), b), k) == count_in(v, k) + count_in(a, k) + count_in(b, k) by {
        assert(count_in(merged(va, b), k) == count_in(va, k) + count_in(b, k));
        assert(count_in(va, k) == count_in(v, k) + count_in(a, k));
    }
}

/// What recording `recs` into `v`, each `(key, n)` in turn, would give with no cap: every
/// count added to its own key.
pub open spec fn tally(v: Seq<RowView>, recs: Seq<RowView>) -> Seq<RowView>
    decreases recs.len(),
{
    if recs.len() == 0 {
        v
    } else if recs[0].1 == 0 {
        tally(v, recs.drop_first())
    } else {
        tally(add_at(v, recs[0].0, recs[0].1), recs.drop_first())
    }
}

/// How many occurrences of key `k` the records `recs` hold in all.
pub open spec fn rec_total(recs: Seq<RowView>, k: KeyView) -> nat
    decreases recs.len(),
{
    if recs.len() == 0 {
        0
    } else {
        (if recs[0].0 == k { recs[0].1 as nat } else { 0 }) + rec_total(recs.drop_first(), k)
    }
}

/// The records of two lists together hold the sum of what each holds.
proof fn lemma_rec_total_concat(a: Seq<RowView>, b: Seq<RowView>, k: KeyView)
    ensures
        rec_total(a + b, k) == rec_total(a, k) + rec_total(b, k),
    decreases a.len(),
{
    if a.len() > 0 {
        assert((a + b).drop_first() =~= a.drop_first() + b);
        lemma_rec_total_concat(a.drop_first(), b, k);
    }
}

/// Tallying two lists is tallying the first, then the second.
proof fn lemma_tally_concat(v: Seq<RowView>, a: Seq<RowView>, b: Seq<RowView>)
    ensures
        tally(v, a + b) == tally(tally(v, a), b),
    decreases a.len(),
{
    if a.len() == 0 {
        assert(a + b =~= b);
    } else {
        assert((a + b).drop_first() =~= a.drop_first() + b);
        assert((a + b)[0] == a[0]);
        if a[0].1 == 0 {
            lemma_tally_concat(v, a.drop_first(), b);
        } else {
            lemma_tally_concat(add_at(v, a[0].0, a[0].1), a.drop_first(), b);
        }
    }
}

/// Sorted rows, read as records, hold each key's count.
proof fn lemma_rec_total_of_rows(r: Seq<RowView>, k: KeyView)
    requires
        rows_ok(r),
    ensures
        rec_total(r, k) == count_in(r, k),
    decreases r.len(),
{
    if r.len() > 0 {
        lemma_tail_ok(r);
        let t = r.drop_first();
        lemma_rec_total_of_rows(t, k);
        if r[0].0 == k {
            assert(!has_key(t, k)) by {
                if has_key(t, k) {
                    let i = choose|i: int| 0 <= i < t.len() && #[trigger] t[i].0 == k;
                    assert(key_lt(k, t[i].0));
                    lemma_key_order(k, k, k);
                }
            }
            lemma_count_absent(t, k);
        }
    }
}

/// The tally of records keeps rows sorted, adds each key's records to its count, and never
/// loses an element row.
proof fn lemma_tally_counts(v: Seq<RowView>, recs: Seq<RowView>)
    requires
        rows_ok(v),
        forall|k: KeyView| #[trigger] count_in(v, k) + rec_total(recs, k) <= u64::MAX,
    ensures
        rows_ok(tally(v, recs)),
        forall|k: KeyView| #[trigger] count_in(tally(v, recs), k) == count_in(v, k) + rec_total(recs, k),
        forall|g: KeyView| #[trigger] distinct_in(tally(v, recs), g) >= distinct_in(v, g),
    decreases recs.len(),
{
    if recs.len() > 0 {
        let k0 = recs[0].0;
        let n0 = recs[0].1;
        let t = recs.drop_first();
        let v1 = if n0 == 0 { v } else { add_at(v, k0, n0) };
        assert(count_in(v, k0) + rec_total(recs, k0) <= u64::MAX);
        if n0 > 0 {
            lemma_add_at_shape(v, k0, n0);
            assert forall|k: KeyView| #[trigger] count_in(v1, k) == count_in(v, k) + (if k == k0 { n0 as nat } else { 0 }) by {
                lemma_add_at_count(v, k0, n0, k);
            }
            assert forall|g: KeyView| #[trigger] distinct_in(v1, g) >= distinct_in(v, g) by {
                lemma_add_at_distinct(v, k0, n0, g);
            }
        }
        assert forall|k: KeyView| #[trigger] count_in(v1, k) + rec_total(t, k) <= u64::MAX by {
            assert(count_in(v, k) + rec_total(recs, k) <= u64::MAX);
        }
        lemma_tally_counts(v1, t);
        assert forall|k: KeyView| #[trigger] count_in(tally(v, recs), k) == count_in(v, k) + rec_total(recs, k) by {
            assert(count_in(tally(v1, t), k) == count_in(v1, k) + rec_total(t, k));
        }
        assert forall|g: KeyView| #[trigger] distinct_in(tally(v, recs), g) >= distinct_in(v, g) by {
            assert(distinct_in(tally(v1, t), g) >= distinct_in(v1, g));
        }
    }
}

/// When the tally holds rows for no more than [`MAX_ELEMENTS_PER_CODE`] elements of any
/// group, recording never redirects a count: recording the records is their tally.
proof fn lemma_merged_is_tally(v: Seq<RowView>, recs: Seq<RowView>)
    requires
        rows_ok(v),
        forall|k: KeyView| #[trigger] count_in(v, k) + rec_total(recs, k) <= u64::MAX,
        forall|g: KeyView| #[trigger] distinct_in(tally(v, recs), g) <= MAX_ELEMENTS_PER_CODE,
    ensures
        merge_fits(v, recs),
        merged(v, recs) == tally(v, recs),
    decreases recs.len(),
{
    if recs.len() > 0 {
        let k0 = recs[0].0;
        let n0 = recs[0].1;
        let t = recs.drop_first();
        assert(count_in(v, k0) + rec_total(recs, k0) <= u64::MAX);
        if n0 == 0 {
            assert(recorded(v, k0, n0) == v);
            assert forall|k: KeyView| #[trigger] count_in(v, k) + rec_total(t, k) <= u64::MAX by {
                assert(count_in(v, k) + rec_total(recs, k) <= u64::MAX);
            }
            assert(tally(v, recs) == tally(v, t));
            assert forall|g: KeyView| #[trigger] distinct_in(tally(v, t), g) <= MAX_ELEMENTS_PER_CODE by {
                assert(distinct_in(tally(v, recs), g) <= MAX_ELEMENTS_PER_CODE);
            }
            lemma_merged_is_tally(v, t);
        } else {
            let v1 = add_at(v, k0, n0);
            lemma_add_at_shape(v, k0, n0);
            assert forall|k: KeyView| #[trigger] count_in(v1, k) + rec_total(t, k) <= u64::MAX by {
                lemma_add_at_count(v, k0, n0, k);
                assert(count_in(v, k) + rec_total(recs, k) <= u64::MAX);
            }
            lemma_tally_counts(v1, t);
            assert(capped(v, k0) == k0) by {
                if !is_run_level(k0) && !has_key(v, k0) {
                    lemma_add_at_distinct(v, k0, n0, k0);
                    assert(distinct_in(tally(v1, t), k0) >= distinct_in(v1, k0));
                    assert(distinct_in(tally(v, recs), k0) <= MAX_ELEMENTS_PER_CODE);
                }
            }
            assert(recorded(v, k0, n0) == v1);
            lemma_merged_is_tally(v1, t);
        }
    }
}

/// Below the cap, merging the parts of a report is recording everything into one: parts `a`
/// and `b`, each recorded into a report of its own, merge in either order into the report
/// that records `a` and then `b`, and merging a part into an empty report gives the part. So
/// work split into parts gives the same report however it was split and merged, as long as
/// everything recorded holds rows for no more than [`MAX_ELEMENTS_PER_CODE`] elements of any
/// group.
pub proof fn lemma_merging_parts_is_recording_everything(a: Seq<RowView>, b: Seq<RowView>)
    requires
        forall|g: KeyView| #[trigger] distinct_in(tally(Seq::<RowView>::empty(), a + b), g) <= MAX_ELEMENTS_PER_CODE,
        forall|k: KeyView| #[trigger] rec_total(a + b, k) <= u64::MAX,
    ensures
        merge_fits(Seq::<RowView>::empty(), a),
        merge_fits(Seq::<RowView>::empty(), b),
        merge_fits(Seq::<RowView>::empty(), a + b),
        merge_fits(Seq::<RowView>::empty(), merged(Seq::<RowView>::empty(), a)),
        merged(Seq::<RowView>::empty(), merged(Seq::<RowView>::empty(), a)) == merged(Seq::<RowView>::empty(), a),
        merge_fits(merged(Seq::<RowView>::empty(), a), merged(Seq::<RowView>::empty(), b)),
        merge_fits(merged(Seq::<RowView>::empty(), b), merged(Seq::<RowView>::empty(), a)),
        merged(merged(Seq::<RowView>::empty(), a), merged(Seq::<RowView>::empty(), b)) == merged(Seq::<RowView>::empty(), a + b),
        merged(merged(Seq::<RowView>::empty(), b), merged(Seq::<RowView>::empty(), a)) == merged(Seq::<RowView>::empty(), a + b),
{
    let e = Seq::<RowView>::empty();
    assert(rows_ok(e));
    assert forall|k: KeyView| #[trigger] count_in(e, k) == 0 by {}
    assert forall|k: KeyView| rec_total(a + b, k) == rec_total(a, k) + rec_total(b, k) by {
        lemma_rec_total_concat(a, b, k);
    }
    assert forall|k: KeyView| rec_total(b + a, k) == rec_total(a + b, k) by {
        lemma_rec_total_concat(a, b, k);
        lemma_rec_total_concat(b, a, k);
    }
    assert forall|k: KeyView| #[trigger] count_in(e, k) + rec_total(a, k) <= u64::MAX by {
        assert(rec_total(a + b, k) <= u64::MAX);
    }
    assert forall|k: KeyView| #[trigger] count_in(e, k) + rec_total(b, k) <= u64::MAX by {
        assert(rec_total(a + b, k) <= u64::MAX);
    }
    assert forall|k: KeyView| #[trigger] count_in(e, k) + rec_total(a + b, k) <= u64::MAX by {
        assert(rec_total(a + b, k) <= u64::MAX);
    }
    assert forall|k: KeyView| #[trigger] count_in(e, k) + rec_total(b + a, k) <= u64::MAX by {
        assert(rec_total(a + b, k) <= u64::MAX);
    }
    lemma_tally_counts(e, a);
    lemma_tally_counts(e, b);
    lemma_tally_counts(e, a + b);
    lemma_tally_counts(e, b + a);
    let ta = tally(e, a);
    let tb = tally(e, b);
    let t = tally(e, a + b);
    // The whole's tally does not depend on the order of the parts.
    assert forall|k: KeyView| #[trigger] count_in(tally(e, b + a), k) == count_in(t, k) by {
        assert(count_in(tally(e, b + a), k) == count_in(e, k) + rec_total(b + a, k));
        assert(count_in(t, k) == count_in(e, k) + rec_total(a + b, k));
    }
    lemma_rows_determined_by_counts(tally(e, b + a), t);
    // Each part's tally holds no more elements than the whole's.
    lemma_tally_concat(e, a, b);
    lemma_tally_concat(e, b, a);
    assert forall|k: KeyView| #[trigger] count_in(ta, k) + rec_total(b, k) <= u64::MAX by {
        assert(count_in(ta, k) == rec_total(a, k));
        assert(rec_total(a + b, k) <= u64::MAX);
    }
    assert forall|k: KeyView| #[trigger] count_in(tb, k) + rec_total(a, k) <= u64::MAX by {
        assert(count_in(tb, k) == rec_total(b, k));
        assert(rec_total(a + b, k) <= u64::MAX);
    }
    lemma_tally_counts(ta, b);
    lemma_tally_counts(tb, a);
    assert forall|g: KeyView| #[trigger] distinct_in(tally(e, a), g) <= MAX_ELEMENTS_PER_CODE by {
        assert(distinct_in(tally(ta, b), g) >= distinct_in(ta, g));
        assert(distinct_in(t, g) <= MAX_ELEMENTS_PER_CODE);
    }
    assert forall|g: KeyView| #[trigger] distinct_in(tally(e, b), g) <= MAX_ELEMENTS_PER_CODE by {
        assert(distinct_in(tally(tb, a), g) >= distinct_in(tb, g));
        assert(distinct_in(t, g) <= MAX_ELEMENTS_PER_CODE);
    }
    lemma_merged_is_tally(e, a);
    lemma_merged_is_tally(e, b);
    lemma_merged_is_tally(e, a + b);
    // A report, read as records, tallies to itself.
    assert forall|k: KeyView| #[trigger] rec_total(ta, k) == count_in(ta, k) by {
        lemma_rec_total_of_rows(ta, k);
    }
    assert forall|k: KeyView| #[trigger] rec_total(tb, k) == count_in(tb, k) by {
        lemma_rec_total_of_rows(tb, k);
    }
    assert forall|k: KeyView| #[trigger] count_in(e, k) + rec_total(ta, k) <= u64::MAX by {
        assert(rec_total(ta, k) == count_in(ta, k));
        assert(rec_total(a + b, k) <= u64::MAX);
    }
    lemma_tally_counts(e, ta);
    assert forall|k: KeyView| #[trigger] count_in(tally(e, ta), k) == count_in(ta, k) by {
        assert(rec_total(ta, k) == count_in(ta, k));
    }
    lemma_rows_determined_by_counts(tally(e, ta), ta);
    lemma_merged_is_tally(e, ta);
    // Merging one part's report into the other's is the whole's tally.
    assert forall|k: KeyView| #[trigger] count_in(ta, k) + rec_total(tb, k) <= u64::MAX by {
        assert(rec_total(tb, k) == count_in(tb, k));
        assert(rec_total(a + b, k) <= u64::MAX);
    }
    assert forall|k: KeyView| #[trigger] count_in(tb, k) + rec_total(ta, k) <= u64::MAX by {
        assert(rec_total(ta, k) == count_in(ta, k));
        assert(rec_total(a + b, k) <= u64::MAX);
    }
    lemma_tally_counts(ta, tb);
    lemma_tally_counts(tb, ta);
    assert forall|k: KeyView| #[trigger] count_in(tally(ta, tb), k) == count_in(t, k) by {
        assert(rec_total(tb, k) == count_in(tb, k));
    }
    assert forall|k: KeyView| #[trigger] count_in(tally(tb, ta), k) == count_in(t, k) by {
        assert(rec_total(ta, k) == count_in(ta, k));
    }
    lemma_rows_determined_by_counts(tally(ta, tb), t);
    lemma_rows_determined_by_counts(tally(tb, ta), t);
    lemma_merged_is_tally(ta, tb);
    lemma_merged_is_tally(tb, ta);
}

} // verus!
