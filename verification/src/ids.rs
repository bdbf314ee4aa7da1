//! Dense `u32` identity spaces, one per entity kind, with a null sentinel.
//!
//! Ids sit in every array of the simulator, so they are four bytes, and "absent" is the
//! sentinel [`NULL_ID`] rather than an `Option`. External ids (an OSM way id, a GTFS stop
//! id) are given internal ids by [`ExternalIdTableBuilder`]: sorted, deduplicated, and
//! numbered by rank, so the assignment depends on the set of external ids alone.

use vstd::prelude::*;

use crate::order::{compare_bytes, lemma_lex_asymmetric, lemma_lex_irreflexive, lemma_lex_transitive, lex_lt, Precedence};
use crate::text::{all_digits, decimal, decimal_value, hex_char_value, lemma_decimal_reads_back, push_decimal};
use vstd::string::StringSliceAdditionalSpecFns;

verus! {

/// The null sentinel shared by every id space.
pub const NULL_ID: u32 = 0xffff_ffffu32;

/// The largest assignable raw id: one less than [`NULL_ID`].
pub const MAX_ID: u32 = 0xffff_fffeu32;

/// The entity kinds that get dense id spaces.
///
/// The declaration order is the event queue's tie-break between simultaneous events, and
/// each kind's number ([`EntityKind::discriminant`]) is stored in artifacts, so kinds are
/// only ever appended.
#[derive(Clone, Copy, PartialEq, Eq, PartialOrd, Ord, Hash, Debug, Structural)]
pub enum EntityKind {
    /// A network node.
    Node,
    /// A directed network link.
    Link,
    /// An (incoming link, outgoing link) pair at a node.
    Turn,
    /// A network layer (road, walk, bike, transit, ...).
    Layer,
    /// A point at which a traveller may enter or leave a layer.
    AccessPoint,
    /// A capacitated transfer point.
    Hub,
    /// A typed, capacitated store held by a hub.
    Resource,
    /// A zone.
    Zone,
    /// A path in the route store.
    Path,
    /// An individual simulated traveller.
    Traveller,
    /// One trip of one traveller.
    Trip,
    /// An individually identified vehicle.
    Vehicle,
    /// One transit trip instance on the service date.
    TransitRun,
    /// A user class.
    UserClass,
}

impl EntityKind {
    /// The stable number of a kind: its position in declaration order.
    pub open spec fn number(self) -> u8 {
        match self {
            EntityKind::Node => 0,
            EntityKind::Link => 1,
            EntityKind::Turn => 2,
            EntityKind::Layer => 3,
            EntityKind::AccessPoint => 4,
            EntityKind::Hub => 5,
            EntityKind::Resource => 6,
            EntityKind::Zone => 7,
            EntityKind::Path => 8,
            EntityKind::Traveller => 9,
            EntityKind::Trip => 10,
            EntityKind::Vehicle => 11,
            EntityKind::TransitRun => 12,
            EntityKind::UserClass => 13,
        }
    }

    /// The kind whose number is `raw`, if any.
    pub open spec fn of_number(raw: u8) -> Option<EntityKind> {
        if raw == 0 { Some(EntityKind::Node) }
        else if raw == 1 { Some(EntityKind::Link) }
        else if raw == 2 { Some(EntityKind::Turn) }
        else if raw == 3 { Some(EntityKind::Layer) }
        else if raw == 4 { Some(EntityKind::AccessPoint) }
        else if raw == 5 { Some(EntityKind::Hub) }
        else if raw == 6 { Some(EntityKind::Resource) }
        else if raw == 7 { Some(EntityKind::Zone) }
        else if raw == 8 { Some(EntityKind::Path) }
        else if raw == 9 { Some(EntityKind::Traveller) }
        else if raw == 10 { Some(EntityKind::Trip) }
        else if raw == 11 { Some(EntityKind::Vehicle) }
        else if raw == 12 { Some(EntityKind::TransitRun) }
        else if raw == 13 { Some(EntityKind::UserClass) }
        else { None }
    }

    /// The stable snake_case name written to outputs.
    pub open spec fn name(self) -> Seq<char> {
        match self {
            EntityKind::Node => "node"@,
            EntityKind::Link => "link"@,
            EntityKind::Turn => "turn"@,
            EntityKind::Layer => "layer"@,
            EntityKind::AccessPoint => "access_point"@,
            EntityKind::Hub => "hub"@,
            EntityKind::Resource => "resource"@,
            EntityKind::Zone => "zone"@,
            EntityKind::Path => "path"@,
            EntityKind::Traveller => "traveller"@,
            EntityKind::Trip => "trip"@,
            EntityKind::Vehicle => "vehicle"@,
            EntityKind::TransitRun => "transit_run"@,
            EntityKind::UserClass => "user_class"@,
        }
    }

    /// Every kind, in number order.
    pub fn all() -> (r: [EntityKind; 14])
        ensures
            forall|i: int| 0 <= i < 14 ==> (#[trigger] r@[i]).number() == i,
    {
        [
            EntityKind::Node,
            EntityKind::Link,
            EntityKind::Turn,
            EntityKind::Layer,
            EntityKind::AccessPoint,
            EntityKind::Hub,
            EntityKind::Resource,
            EntityKind::Zone,
            EntityKind::Path,
            EntityKind::Traveller,
            EntityKind::Trip,
            EntityKind::Vehicle,
            EntityKind::TransitRun,
            EntityKind::UserClass,
        ]
    }

    /// The kind's stable number.
    pub fn discriminant(self) -> (r: u8)
        ensures
            r == self.number(),
    {
        match self {
            EntityKind::Node => 0,
            EntityKind::Link => 1,
            EntityKind::Turn => 2,
            EntityKind::Layer => 3,
            EntityKind::AccessPoint => 4,
            EntityKind::Hub => 5,
            EntityKind::Resource => 6,
            EntityKind::Zone => 7,
            EntityKind::Path => 8,
            EntityKind::Traveller => 9,
            EntityKind::Trip => 10,
            EntityKind::Vehicle => 11,
            EntityKind::TransitRun => 12,
            EntityKind::UserClass => 13,
        }
    }

    /// The stable snake_case name written to Parquet and JSON outputs.
    pub fn as_str(self) -> (r: &'static str)
        ensures
            r@ == self.name(),
    {
        match self {
            EntityKind::Node => "node",
            EntityKind::Link => "link",
            EntityKind::Turn => "turn",
            EntityKind::Layer => "layer",
            EntityKind::AccessPoint => "access_point",
            EntityKind::Hub => "hub",
            EntityKind::Resource => "resource",
            EntityKind::Zone => "zone",
            EntityKind::Path => "path",
            EntityKind::Traveller => "traveller",
            EntityKind::Trip => "trip",
            EntityKind::Vehicle => "vehicle",
            EntityKind::TransitRun => "transit_run",
            EntityKind::UserClass => "user_class",
        }
    }

    /// The kind with stable number `raw`, or `None` if no kind has it.
    pub fn from_u8(raw: u8) -> (r: Option<EntityKind>)
        ensures
            r == EntityKind::of_number(raw),
    {
        match raw {
            0 => Some(EntityKind::Node),
            1 => Some(EntityKind::Link),
            2 => Some(EntityKind::Turn),
            3 => Some(EntityKind::Layer),
            4 => Some(EntityKind::AccessPoint),
            5 => Some(EntityKind::Hub),
            6 => Some(EntityKind::Resource),
            7 => Some(EntityKind::Zone),
            8 => Some(EntityKind::Path),
            9 => Some(EntityKind::Traveller),
            10 => Some(EntityKind::Trip),
            11 => Some(EntityKind::Vehicle),
            12 => Some(EntityKind::TransitRun),
            13 => Some(EntityKind::UserClass),
            _ => None,
        }
    }
}

/// A kind's number reads back as the kind, and a number that reads back as a kind is that
/// kind's number: the numbers are a bijection between the kinds and `0..14`.
pub proof fn lemma_kind_numbers_round_trip(kind: EntityKind, raw: u8)
    ensures
        EntityKind::of_number(kind.number()) == Some(kind),
        kind.number() < 14,
        EntityKind::of_number(raw) is Some <==> raw < 14,
        EntityKind::of_number(raw) matches Some(k) ==> k.number() == raw,
{
}


/// The operations every dense id shares.
///
/// Implemented by the id types of this module; a function that needs "some id" takes
/// `I: EntityId` rather than a raw `u32`, so that kinds cannot be mixed up at a call site.
pub trait EntityId: Sized + Copy {
    /// The raw value of an id, [`NULL_ID`] for the null id.
    spec fn raw_value(self) -> u32;

    /// The entity kind this id space addresses.
    spec fn kind_of() -> EntityKind;

    /// An id is its raw value: two ids with the same raw value are the same id.
    proof fn lemma_raw_determines(a: Self, b: Self)
        requires
            a.raw_value() == b.raw_value(),
        ensures
            a == b,
    ;

    /// The entity kind this id space addresses.
    fn kind() -> (r: EntityKind)
        ensures
            r == Self::kind_of(),
    ;

    /// The null id of this space.
    fn null() -> (r: Self)
        ensures
            r.raw_value() == NULL_ID,
    ;

    /// Wrap a raw value that is not the null sentinel.
    fn new(raw: u32) -> (r: Self)
        requires
            raw != NULL_ID,
        ensures
            r.raw_value() == raw,
    ;

    /// Wrap a raw value that may be the null sentinel: the round trip of a stored array.
    fn from_raw(raw: u32) -> (r: Self)
        ensures
            r.raw_value() == raw,
    ;

    /// Wrap an array index, which is at most [`MAX_ID`].
    fn from_index(index: usize) -> (r: Self)
        requires
            index <= MAX_ID,
        ensures
            r.raw_value() == index,
    ;

    /// The raw value, [`NULL_ID`] for the null id.
    fn raw(self) -> (r: u32)
        ensures
            r == self.raw_value(),
    ;

    /// The id as an array index. The null id indexes nothing.
    fn index(self) -> (r: usize)
        requires
            self.raw_value() != NULL_ID,
        ensures
            r == self.raw_value(),
    ;

    /// Whether this is the null id.
    fn is_null(self) -> (r: bool)
        ensures
            r == (self.raw_value() == NULL_ID),
    {
        self.raw() == NULL_ID
    }

    /// `None` for the null id, otherwise the id.
    fn to_option(self) -> (r: Option<Self>)
        ensures
            self.raw_value() == NULL_ID ==> r is None,
            self.raw_value() != NULL_ID ==> r == Some(self),
    {
        if self.is_null() {
            None
        } else {
            Some(self)
        }
    }

    /// Every id from `0` to `count` (exclusive), in order.
    fn iter_space(count: u32) -> (r: Vec<Self>)
        ensures
            r.len() == count,
            forall|i: int| 0 <= i < count ==> (#[trigger] r[i]).raw_value() == i,
    {
        let mut out: Vec<Self> = Vec::new();
        let mut i: u32 = 0;
        while i < count
            invariant
                i <= count,
                out.len() == i,
                forall|j: int| 0 <= j < i ==> (#[trigger] out[j]).raw_value() == j,
            decreases count - i,
        {
            out.push(Self::new(i));
            i = i + 1;
        }
        out
    }
}

/// An id's text: `null` for the null id, otherwise its raw value in decimal.
pub open spec fn id_text(raw: u32) -> Seq<char> {
    if raw == NULL_ID {
        "null"@
    } else {
        decimal(raw as nat)
    }
}

/// An id's text is `null` exactly for the null id; any other id is written as its raw value
/// in decimal digits that read back as that value, zero included.
pub proof fn lemma_id_text_reads_back(raw: u32)
    ensures
        (id_text(raw) == "null"@) <==> (raw == NULL_ID),
        raw != NULL_ID ==> all_digits(id_text(raw)) && decimal_value(id_text(raw)) == raw,
{
    reveal_strlit("null");
    lemma_decimal_reads_back(raw as nat);
    if raw != NULL_ID {
        let s = decimal(raw as nat);
        assert(hex_char_value(s[0]) < 10);
        assert(hex_char_value('n') == 16);
        if s == "null"@ {
            assert(s[0] == 'n');
        }
    }
}

/// The text of an id with raw value `raw`.
fn id_to_string(raw: u32) -> (r: String)
    ensures
        r@ == id_text(raw),
{
    if raw == NULL_ID {
        String::from_str("null")
    } else {
        let mut s = String::new();
        push_decimal(&mut s, raw as u64);
        s
    }
}

/// Identifies a network node: a dense `u32` index, with [`NULL_ID`] as the null id.
#[derive(Clone, Copy, PartialEq, Eq, PartialOrd, Ord, Hash, Debug, Structural)]
pub struct NodeId(u32);

impl EntityId for NodeId {
    closed spec fn raw_value(self) -> u32 {
        self.0
    }

    open spec fn kind_of() -> EntityKind {
        EntityKind::Node
    }

    proof fn lemma_raw_determines(a: Self, b: Self) {
    }

    fn kind() -> (r: EntityKind) {
        EntityKind::Node
    }

    fn null() -> (r: Self) {
        NodeId(NULL_ID)
    }

    fn new(raw: u32) -> (r: Self) {
        NodeId(raw)
    }

    fn from_raw(raw: u32) -> (r: Self) {
        NodeId(raw)
    }

    fn from_index(index: usize) -> (r: Self) {
        NodeId(index as u32)
    }

    fn raw(self) -> (r: u32) {
        self.0
    }

    fn index(self) -> (r: usize) {
        self.0 as usize
    }
}

impl NodeId {
    /// The id as text: `null` for the null id, otherwise its raw value.
    pub fn to_string(&self) -> (r: String)
        ensures
            r@ == id_text(self.raw_value()),
    {
        id_to_string(self.0)
    }
}

/// Identifies a directed network link: a dense `u32` index, with [`NULL_ID`] as the null id.
#[derive(Clone, Copy, PartialEq, Eq, PartialOrd, Ord, Hash, Debug, Structural)]
pub struct LinkId(u32);

impl EntityId for LinkId {
    closed spec fn raw_value(self) -> u32 {
        self.0
    }

    open spec fn kind_of() -> EntityKind {
        EntityKind::Link
    }

    proof fn lemma_raw_determines(a: Self, b: Self) {
    }

    fn kind() -> (r: EntityKind) {
        EntityKind::Link
    }

    fn null() -> (r: Self) {
        LinkId(NULL_ID)
    }

    fn new(raw: u32) -> (r: Self) {
        LinkId(raw)
    }

    fn from_raw(raw: u32) -> (r: Self) {
        LinkId(raw)
    }

    fn from_index(index: usize) -> (r: Self) {
        LinkId(index as u32)
    }

    fn raw(self) -> (r: u32) {
        self.0
    }

    fn index(self) -> (r: usize) {
        self.0 as usize
    }
}

impl LinkId {
    /// The id as text: `null` for the null id, otherwise its raw value.
    pub fn to_string(&self) -> (r: String)
        ensures
            r@ == id_text(self.raw_value()),
    {
        id_to_string(self.0)
    }
}

/// Identifies a turn: an (incoming link, outgoing link) pair at a node: a dense `u32` index, with [`NULL_ID`] as the null id.
#[derive(Clone, Copy, PartialEq, Eq, PartialOrd, Ord, Hash, Debug, Structural)]
pub struct TurnId(u32);

impl EntityId for TurnId {
    closed spec fn raw_value(self) -> u32 {
        self.0
    }

    open spec fn kind_of() -> EntityKind {
        EntityKind::Turn
    }

    proof fn lemma_raw_determines(a: Self, b: Self) {
    }

    fn kind() -> (r: EntityKind) {
        EntityKind::Turn
    }

    fn null() -> (r: Self) {
        TurnId(NULL_ID)
    }

    fn new(raw: u32) -> (r: Self) {
        TurnId(raw)
    }

    fn from_raw(raw: u32) -> (r: Self) {
        TurnId(raw)
    }

    fn from_index(index: usize) -> (r: Self) {
        TurnId(index as u32)
    }

    fn raw(self) -> (r: u32) {
        self.0
    }

    fn index(self) -> (r: usize) {
        self.0 as usize
    }
}

impl TurnId {
    /// The id as text: `null` for the null id, otherwise its raw value.
    pub fn to_string(&self) -> (r: String)
        ensures
            r@ == id_text(self.raw_value()),
    {
        id_to_string(self.0)
    }
}

/// Identifies a network layer: a dense `u32` index, with [`NULL_ID`] as the null id.
#[derive(Clone, Copy, PartialEq, Eq, PartialOrd, Ord, Hash, Debug, Structural)]
pub struct LayerId(u32);

impl EntityId for LayerId {
    closed spec fn raw_value(self) -> u32 {
        self.0
    }

    open spec fn kind_of() -> EntityKind {
        EntityKind::Layer
    }

    proof fn lemma_raw_determines(a: Self, b: Self) {
    }

    fn kind() -> (r: EntityKind) {
        EntityKind::Layer
    }

    fn null() -> (r: Self) {
        LayerId(NULL_ID)
    }

    fn new(raw: u32) -> (r: Self) {
        LayerId(raw)
    }

    fn from_raw(raw: u32) -> (r: Self) {
        LayerId(raw)
    }

    fn from_index(index: usize) -> (r: Self) {
        LayerId(index as u32)
    }

    fn raw(self) -> (r: u32) {
        self.0
    }

    fn index(self) -> (r: usize) {
        self.0 as usize
    }
}

impl LayerId {
    /// The id as text: `null` for the null id, otherwise its raw value.
    pub fn to_string(&self) -> (r: String)
        ensures
            r@ == id_text(self.raw_value()),
    {
        id_to_string(self.0)
    }
}

/// Identifies an access point between a layer and a hub: a dense `u32` index, with [`NULL_ID`] as the null id.
#[derive(Clone, Copy, PartialEq, Eq, PartialOrd, Ord, Hash, Debug, Structural)]
pub struct AccessPointId(u32);

impl EntityId for AccessPointId {
    closed spec fn raw_value(self) -> u32 {
        self.0
    }

    open spec fn kind_of() -> EntityKind {
        EntityKind::AccessPoint
    }

    proof fn lemma_raw_determines(a: Self, b: Self) {
    }

    fn kind() -> (r: EntityKind) {
        EntityKind::AccessPoint
    }

    fn null() -> (r: Self) {
        AccessPointId(NULL_ID)
    }

    fn new(raw: u32) -> (r: Self) {
        AccessPointId(raw)
    }

    fn from_raw(raw: u32) -> (r: Self) {
        AccessPointId(raw)
    }

    fn from_index(index: usize) -> (r: Self) {
        AccessPointId(index as u32)
    }

    fn raw(self) -> (r: u32) {
        self.0
    }

    fn index(self) -> (r: usize) {
        self.0 as usize
    }
}

impl AccessPointId {
    /// The id as text: `null` for the null id, otherwise its raw value.
    pub fn to_string(&self) -> (r: String)
        ensures
            r@ == id_text(self.raw_value()),
    {
        id_to_string(self.0)
    }
}

/// Identifies a hub, the capacitated transfer point: a dense `u32` index, with [`NULL_ID`] as the null id.
#[derive(Clone, Copy, PartialEq, Eq, PartialOrd, Ord, Hash, Debug, Structural)]
pub struct HubId(u32);

impl EntityId for HubId {
    closed spec fn raw_value(self) -> u32 {
        self.0
    }

    open spec fn kind_of() -> EntityKind {
        EntityKind::Hub
    }

    proof fn lemma_raw_determines(a: Self, b: Self) {
    }

    fn kind() -> (r: EntityKind) {
        EntityKind::Hub
    }

    fn null() -> (r: Self) {
        HubId(NULL_ID)
    }

    fn new(raw: u32) -> (r: Self) {
        HubId(raw)
    }

    fn from_raw(raw: u32) -> (r: Self) {
        HubId(raw)
    }

    fn from_index(index: usize) -> (r: Self) {
        HubId(index as u32)
    }

    fn raw(self) -> (r: u32) {
        self.0
    }

    fn index(self) -> (r: usize) {
        self.0 as usize
    }
}

impl HubId {
    /// The id as text: `null` for the null id, otherwise its raw value.
    pub fn to_string(&self) -> (r: String)
        ensures
            r@ == id_text(self.raw_value()),
    {
        id_to_string(self.0)
    }
}

/// Identifies a typed store held by a hub: a dense `u32` index, with [`NULL_ID`] as the null id.
#[derive(Clone, Copy, PartialEq, Eq, PartialOrd, Ord, Hash, Debug, Structural)]
pub struct ResourceId(u32);

impl EntityId for ResourceId {
    closed spec fn raw_value(self) -> u32 {
        self.0
    }

    open spec fn kind_of() -> EntityKind {
        EntityKind::Resource
    }

    proof fn lemma_raw_determines(a: Self, b: Self) {
    }

    fn kind() -> (r: EntityKind) {
        EntityKind::Resource
    }

    fn null() -> (r: Self) {
        ResourceId(NULL_ID)
    }

    fn new(raw: u32) -> (r: Self) {
        ResourceId(raw)
    }

    fn from_raw(raw: u32) -> (r: Self) {
        ResourceId(raw)
    }

    fn from_index(index: usize) -> (r: Self) {
        ResourceId(index as u32)
    }

    fn raw(self) -> (r: u32) {
        self.0
    }

    fn index(self) -> (r: usize) {
        self.0 as usize
    }
}

impl ResourceId {
    /// The id as text: `null` for the null id, otherwise its raw value.
    pub fn to_string(&self) -> (r: String)
        ensures
            r@ == id_text(self.raw_value()),
    {
        id_to_string(self.0)
    }
}

/// Identifies a zone: a dense `u32` index, with [`NULL_ID`] as the null id.
#[derive(Clone, Copy, PartialEq, Eq, PartialOrd, Ord, Hash, Debug, Structural)]
pub struct ZoneId(u32);

impl EntityId for ZoneId {
    closed spec fn raw_value(self) -> u32 {
        self.0
    }

    open spec fn kind_of() -> EntityKind {
        EntityKind::Zone
    }

    proof fn lemma_raw_determines(a: Self, b: Self) {
    }

    fn kind() -> (r: EntityKind) {
        EntityKind::Zone
    }

    fn null() -> (r: Self) {
        ZoneId(NULL_ID)
    }

    fn new(raw: u32) -> (r: Self) {
        ZoneId(raw)
    }

    fn from_raw(raw: u32) -> (r: Self) {
        ZoneId(raw)
    }

    fn from_index(index: usize) -> (r: Self) {
        ZoneId(index as u32)
    }

    fn raw(self) -> (r: u32) {
        self.0
    }

    fn index(self) -> (r: usize) {
        self.0 as usize
    }
}

impl ZoneId {
    /// The id as text: `null` for the null id, otherwise its raw value.
    pub fn to_string(&self) -> (r: String)
        ensures
            r@ == id_text(self.raw_value()),
    {
        id_to_string(self.0)
    }
}

/// Identifies a path in the route store: a dense `u32` index, with [`NULL_ID`] as the null id.
#[derive(Clone, Copy, PartialEq, Eq, PartialOrd, Ord, Hash, Debug, Structural)]
pub struct PathId(u32);

impl EntityId for PathId {
    closed spec fn raw_value(self) -> u32 {
        self.0
    }

    open spec fn kind_of() -> EntityKind {
        EntityKind::Path
    }

    proof fn lemma_raw_determines(a: Self, b: Self) {
    }

    fn kind() -> (r: EntityKind) {
        EntityKind::Path
    }

    fn null() -> (r: Self) {
        PathId(NULL_ID)
    }

    fn new(raw: u32) -> (r: Self) {
        PathId(raw)
    }

    fn from_raw(raw: u32) -> (r: Self) {
        PathId(raw)
    }

    fn from_index(index: usize) -> (r: Self) {
        PathId(index as u32)
    }

    fn raw(self) -> (r: u32) {
        self.0
    }

    fn index(self) -> (r: usize) {
        self.0 as usize
    }
}

impl PathId {
    /// The id as text: `null` for the null id, otherwise its raw value.
    pub fn to_string(&self) -> (r: String)
        ensures
            r@ == id_text(self.raw_value()),
    {
        id_to_string(self.0)
    }
}

/// Identifies an individual traveller: a dense `u32` index, with [`NULL_ID`] as the null id.
#[derive(Clone, Copy, PartialEq, Eq, PartialOrd, Ord, Hash, Debug, Structural)]
pub struct TravellerId(u32);

impl EntityId for TravellerId {
    closed spec fn raw_value(self) -> u32 {
        self.0
    }

    open spec fn kind_of() -> EntityKind {
        EntityKind::Traveller
    }

    proof fn lemma_raw_determines(a: Self, b: Self) {
    }

    fn kind() -> (r: EntityKind) {
        EntityKind::Traveller
    }

    fn null() -> (r: Self) {
        TravellerId(NULL_ID)
    }

    fn new(raw: u32) -> (r: Self) {
        TravellerId(raw)
    }

    fn from_raw(raw: u32) -> (r: Self) {
        TravellerId(raw)
    }

    fn from_index(index: usize) -> (r: Self) {
        TravellerId(index as u32)
    }

    fn raw(self) -> (r: u32) {
        self.0
    }

    fn index(self) -> (r: usize) {
        self.0 as usize
    }
}

impl TravellerId {
    /// The id as text: `null` for the null id, otherwise its raw value.
    pub fn to_string(&self) -> (r: String)
        ensures
            r@ == id_text(self.raw_value()),
    {
        id_to_string(self.0)
    }
}

/// Identifies one trip of one traveller: a dense `u32` index, with [`NULL_ID`] as the null id.
#[derive(Clone, Copy, PartialEq, Eq, PartialOrd, Ord, Hash, Debug, Structural)]
pub struct TripId(u32);

impl EntityId for TripId {
    closed spec fn raw_value(self) -> u32 {
        self.0
    }

    open spec fn kind_of() -> EntityKind {
        EntityKind::Trip
    }

    proof fn lemma_raw_determines(a: Self, b: Self) {
    }

    fn kind() -> (r: EntityKind) {
        EntityKind::Trip
    }

    fn null() -> (r: Self) {
        TripId(NULL_ID)
    }

    fn new(raw: u32) -> (r: Self) {
        TripId(raw)
    }

    fn from_raw(raw: u32) -> (r: Self) {
        TripId(raw)
    }

    fn from_index(index: usize) -> (r: Self) {
        TripId(index as u32)
    }

    fn raw(self) -> (r: u32) {
        self.0
    }

    fn index(self) -> (r: usize) {
        self.0 as usize
    }
}

impl TripId {
    /// The id as text: `null` for the null id, otherwise its raw value.
    pub fn to_string(&self) -> (r: String)
        ensures
            r@ == id_text(self.raw_value()),
    {
        id_to_string(self.0)
    }
}

/// Identifies an individual vehicle: a dense `u32` index, with [`NULL_ID`] as the null id.
#[derive(Clone, Copy, PartialEq, Eq, PartialOrd, Ord, Hash, Debug, Structural)]
pub struct VehicleId(u32);

impl EntityId for VehicleId {
    closed spec fn raw_value(self) -> u32 {
        self.0
    }

    open spec fn kind_of() -> EntityKind {
        EntityKind::Vehicle
    }

    proof fn lemma_raw_determines(a: Self, b: Self) {
    }

    fn kind() -> (r: EntityKind) {
        EntityKind::Vehicle
    }

    fn null() -> (r: Self) {
        VehicleId(NULL_ID)
    }

    fn new(raw: u32) -> (r: Self) {
        VehicleId(raw)
    }

    fn from_raw(raw: u32) -> (r: Self) {
        VehicleId(raw)
    }

    fn from_index(index: usize) -> (r: Self) {
        VehicleId(index as u32)
    }

    fn raw(self) -> (r: u32) {
        self.0
    }

    fn index(self) -> (r: usize) {
        self.0 as usize
    }
}

impl VehicleId {
    /// The id as text: `null` for the null id, otherwise its raw value.
    pub fn to_string(&self) -> (r: String)
        ensures
            r@ == id_text(self.raw_value()),
    {
        id_to_string(self.0)
    }
}

/// Identifies one transit trip instance on the service date: a dense `u32` index, with [`NULL_ID`] as the null id.
#[derive(Clone, Copy, PartialEq, Eq, PartialOrd, Ord, Hash, Debug, Structural)]
pub struct TransitRunId(u32);

impl EntityId for TransitRunId {
    closed spec fn raw_value(self) -> u32 {
        self.0
    }

    open spec fn kind_of() -> EntityKind {
        EntityKind::TransitRun
    }

    proof fn lemma_raw_determines(a: Self, b: Self) {
    }

    fn kind() -> (r: EntityKind) {
        EntityKind::TransitRun
    }

    fn null() -> (r: Self) {
        TransitRunId(NULL_ID)
    }

    fn new(raw: u32) -> (r: Self) {
        TransitRunId(raw)
    }

    fn from_raw(raw: u32) -> (r: Self) {
        TransitRunId(raw)
    }

    fn from_index(index: usize) -> (r: Self) {
        TransitRunId(index as u32)
    }

    fn raw(self) -> (r: u32) {
        self.0
    }

    fn index(self) -> (r: usize) {
        self.0 as usize
    }
}

impl TransitRunId {
    /// The id as text: `null` for the null id, otherwise its raw value.
    pub fn to_string(&self) -> (r: String)
        ensures
            r@ == id_text(self.raw_value()),
    {
        id_to_string(self.0)
    }
}

/// Identifies a user class: a dense `u32` index, with [`NULL_ID`] as the null id.
#[derive(Clone, Copy, PartialEq, Eq, PartialOrd, Ord, Hash, Debug, Structural)]
pub struct UserClassId(u32);

impl EntityId for UserClassId {
    closed spec fn raw_value(self) -> u32 {
        self.0
    }

    open spec fn kind_of() -> EntityKind {
        EntityKind::UserClass
    }

    proof fn lemma_raw_determines(a: Self, b: Self) {
    }

    fn kind() -> (r: EntityKind) {
        EntityKind::UserClass
    }

    fn null() -> (r: Self) {
        UserClassId(NULL_ID)
    }

    fn new(raw: u32) -> (r: Self) {
        UserClassId(raw)
    }

    fn from_raw(raw: u32) -> (r: Self) {
        UserClassId(raw)
    }

    fn from_index(index: usize) -> (r: Self) {
        UserClassId(index as u32)
    }

    fn raw(self) -> (r: u32) {
        self.0
    }

    fn index(self) -> (r: usize) {
        self.0 as usize
    }
}

impl UserClassId {
    /// The id as text: `null` for the null id, otherwise its raw value.
    pub fn to_string(&self) -> (r: String)
        ensures
            r@ == id_text(self.raw_value()),
    {
        id_to_string(self.0)
    }
}


/// The UTF-8 bytes of a text: what external ids are ordered and looked up by.
pub open spec fn utf8(s: Seq<char>) -> Seq<u8> {
    vstd::utf8::encode_utf8(s)
}

/// Whether `s` is strictly increasing byte-wise, which also means no entry occurs twice.
pub open spec fn strictly_sorted(s: Seq<Seq<u8>>) -> bool {
    forall|i: int, j: int| 0 <= i < j < s.len() ==> lex_lt(#[trigger] s[i], #[trigger] s[j])
}

/// The byte strings that indices `idx` point at in `b`.
pub open spec fn picked(b: Seq<Seq<u8>>, idx: Seq<usize>) -> Seq<Seq<u8>> {
    idx.map_values(|k: usize| b[k as int])
}

/// Two strictly increasing sequences with the same entries are the same sequence: a sorted,
/// deduplicated list is a function of the set of what went into it.
pub proof fn lemma_sorted_unique_by_entries(s: Seq<Seq<u8>>, t: Seq<Seq<u8>>)
    requires
        strictly_sorted(s),
        strictly_sorted(t),
        forall|v: Seq<u8>| s.contains(v) <==> t.contains(v),
    ensures
        s == t,
    decreases s.len() + t.len(),
{
    if s.len() == 0 || t.len() == 0 {
        if s.len() > 0 {
            assert(s.contains(s[0]));
        }
        if t.len() > 0 {
            assert(t.contains(t[0]));
        }
        assert(s =~= t);
    } else {
        // The first entries are the least of each, so they agree.
        let a = s[0];
        let c = t[0];
        assert(s.contains(a));
        assert(t.contains(c));
        let ia = choose|k: int| 0 <= k < t.len() && t[k] == a;
        let ic = choose|k: int| 0 <= k < s.len() && s[k] == c;
        if a != c {
            if ia > 0 {
                assert(lex_lt(c, a));
            }
            if ic > 0 {
                assert(lex_lt(a, c));
            }
            lemma_lex_asymmetric(a, c);
        }
        let s1 = s.drop_first();
        let t1 = t.drop_first();
        assert forall|v: Seq<u8>| s1.contains(v) <==> t1.contains(v) by {
            if s1.contains(v) {
                let k = choose|k: int| 0 <= k < s1.len() && s1[k] == v;
                assert(s.contains(v) && lex_lt(a, v)) by {
                    assert(s[k + 1] == v);
                }
                let m = choose|m: int| 0 <= m < t.len() && t[m] == v;
                if m == 0 {
                    lemma_lex_irreflexive(a);
                }
                assert(t1[m - 1] == v);
            }
            if t1.contains(v) {
                let k = choose|k: int| 0 <= k < t1.len() && t1[k] == v;
                assert(t.contains(v) && lex_lt(c, v)) by {
                    assert(t[k + 1] == v);
                }
                let m = choose|m: int| 0 <= m < s.len() && s[m] == v;
                if m == 0 {
                    lemma_lex_irreflexive(c);
                }
                assert(s1[m - 1] == v);
            }
        }
        lemma_sorted_unique_by_entries(s1, t1);
        assert(s =~= seq![a] + s1);
        assert(t =~= seq![c] + t1);
    }
}

/// Merge two strictly increasing lists of indices into `b` into one, keeping one index for
/// entries the two share.
fn merge_unique(b: Ghost<Seq<Seq<u8>>>, items: &Vec<String>, left: Vec<usize>, right: Vec<usize>) -> (r: Vec<usize>)
    requires
        b@.len() == items.len(),
        forall|k: int| 0 <= k < items.len() ==> #[trigger] b@[k] == utf8(items[k]@),
        forall|k: int| 0 <= k < left.len() ==> #[trigger] left[k] < items.len(),
        forall|k: int| 0 <= k < right.len() ==> #[trigger] right[k] < items.len(),
        strictly_sorted(picked(b@, left@)),
        strictly_sorted(picked(b@, right@)),
    ensures
        strictly_sorted(picked(b@, r@)),
        forall|v: Seq<u8>| picked(b@, r@).contains(v) <==> (picked(b@, left@).contains(v) || picked(b@, right@).contains(v)),
        forall|k: int| 0 <= k < r.len() ==> (left@.contains(#[trigger] r[k]) || right@.contains(r[k])),
{
    let ghost vl = picked(b@, left@);
    let ghost vr = picked(b@, right@);
    let mut out: Vec<usize> = Vec::new();
    let mut i: usize = 0;
    let mut j: usize = 0;
    while i < left.len() || j < right.len()
        invariant
            b@.len() == items.len(),
            forall|k: int| 0 <= k < items.len() ==> #[trigger] b@[k] == utf8(items[k]@),
            forall|k: int| 0 <= k < left.len() ==> #[trigger] left[k] < items.len(),
            forall|k: int| 0 <= k < right.len() ==> #[trigger] right[k] < items.len(),
            vl == picked(b@, left@),
            vr == picked(b@, right@),
            strictly_sorted(vl),
            strictly_sorted(vr),
            i <= left.len(),
            j <= right.len(),
            strictly_sorted(picked(b@, out@)),
            forall|v: Seq<u8>| picked(b@, out@).contains(v) <==> (vl.take(i as int).contains(v) || vr.take(j as int).contains(v)),
            forall|k: int, m: int| 0 <= k < out.len() && i <= m < left.len() ==> lex_lt(#[trigger] picked(b@, out@)[k], #[trigger] vl[m]),
            forall|k: int, m: int| 0 <= k < out.len() && j <= m < right.len() ==> lex_lt(#[trigger] picked(b@, out@)[k], #[trigger] vr[m]),
            forall|k: int| 0 <= k < out.len() ==> (left@.contains(#[trigger] out[k]) || right@.contains(out[k])),
        decreases left.len() + right.len() - i - j,
    {
        let ghost vo = picked(b@, out@);
        let take_left: bool;
        let take_right: bool;
        if i < left.len() && j < right.len() {
            let p = compare_bytes(items[left[i]].as_str().as_bytes(), items[right[j]].as_str().as_bytes());
            assert(vl[i as int] == b@[left[i as int] as int]);
            assert(vr[j as int] == b@[right[j as int] as int]);
            match p {
                Precedence::Before => { take_left = true; take_right = false; },
                Precedence::Same => { take_left = true; take_right = true; },
                Precedence::After => { take_left = false; take_right = true; },
            }
        } else if i < left.len() {
            take_left = true;
            take_right = false;
        } else {
            take_left = false;
            take_right = true;
        }
        let ghost vnew: Seq<u8> = if take_left { vl[i as int] } else { vr[j as int] };
        // The new entry comes before everything still to merge.
        proof {
            if take_left {
                assert(vnew == vl[i as int]);
            }
            assert forall|m: int| i + (if take_left { 1int } else { 0int }) <= m < left.len() implies lex_lt(vnew, #[trigger] vl[m]) by {
                if take_left {
                    assert(lex_lt(vl[i as int], vl[m]));
                } else {
                    assert(lex_lt(vr[j as int], vl[i as int]) || vr[j as int] == vl[i as int] || i == left.len());
                    if i < left.len() {
                        if i < m {
                            assert(lex_lt(vl[i as int], vl[m]));
                        }
                        if vr[j as int] != vl[i as int] && i < m {
                            lemma_lex_transitive(vr[j as int], vl[i as int], vl[m]);
                        }
                    }
                }
            }
            assert forall|m: int| j + (if take_right { 1int } else { 0int }) <= m < right.len() implies lex_lt(vnew, #[trigger] vr[m]) by {
                if take_right {
                    assert(lex_lt(vr[j as int], vr[m]));
                } else {
                    if j < m {
                        assert(lex_lt(vr[j as int], vr[m]));
                        lemma_lex_transitive(vl[i as int], vr[j as int], vr[m]);
                    }
                }
            }
        }
        let idx = if take_left { left[i] } else { right[j] };
        out.push(idx);
        proof {
            let vo2 = picked(b@, out@);
            assert(vo2 =~= vo.push(vnew));
            let ni: int = i + (if take_left { 1int } else { 0int });
            let nj: int = j + (if take_right { 1int } else { 0int });
            // Everything already out comes before the new entry.
            assert forall|k: int| 0 <= k < vo.len() implies lex_lt(#[trigger] vo[k], vnew) by {
                if take_left {
                    assert(lex_lt(vo[k], vl[i as int]));
                } else {
                    assert(lex_lt(vo[k], vr[j as int]));
                }
            }
            assert forall|x: int, y: int| 0 <= x < y < vo2.len() implies lex_lt(#[trigger] vo2[x], #[trigger] vo2[y]) by {
                if y < vo.len() {
                    assert(lex_lt(vo[x], vo[y]));
                } else {
                    assert(lex_lt(vo[x], vnew));
                }
            }
            assert(vl.take(ni) =~= (if take_left { vl.take(i as int).push(vl[i as int]) } else { vl.take(i as int) }));
            assert(vr.take(nj) =~= (if take_right { vr.take(j as int).push(vr[j as int]) } else { vr.take(j as int) }));
            assert forall|v: Seq<u8>| vo2.contains(v) <==> (vl.take(ni).contains(v) || vr.take(nj).contains(v)) by {
                if vo2.contains(v) {
                    let k = choose|k: int| 0 <= k < vo2.len() && vo2[k] == v;
                    if k < vo.len() {
                        assert(vo.contains(v));
                    } else {
                        if take_left {
                            assert(vl.take(ni)[i as int] == v);
                        } else {
                            assert(vr.take(nj)[j as int] == v);
                        }
                    }
                }
                if vl.take(ni).contains(v) {
                    let k = choose|k: int| 0 <= k < vl.take(ni).len() && vl.take(ni)[k] == v;
                    if k < i {
                        assert(vl.take(i as int)[k] == v);
                        assert(vo.contains(v));
                        let q = choose|q: int| 0 <= q < vo.len() && vo[q] == v;
                        assert(vo2[q] == v);
                    } else {
                        assert(v == vnew);
                        assert(vo2[vo.len() as int] == v);
                    }
                }
                if vr.take(nj).contains(v) {
                    let k = choose|k: int| 0 <= k < vr.take(nj).len() && vr.take(nj)[k] == v;
                    if k < j {
                        assert(vr.take(j as int)[k] == v);
                        assert(vo.contains(v));
                        let q = choose|q: int| 0 <= q < vo.len() && vo[q] == v;
                        assert(vo2[q] == v);
                    } else {
                        assert(v == vr[j as int]);
                        assert(v == vnew);
                        assert(vo2[vo.len() as int] == v);
                    }
                }
            }
            assert forall|k: int, m: int| 0 <= k < vo2.len() && ni <= m < left.len() implies lex_lt(#[trigger] vo2[k], #[trigger] vl[m]) by {
                if k < vo.len() {
                    assert(lex_lt(vo[k], vl[m]));
                } else {
                    assert(lex_lt(vnew, vl[m]));
                }
            }
            assert forall|k: int, m: int| 0 <= k < vo2.len() && nj <= m < right.len() implies lex_lt(#[trigger] vo2[k], #[trigger] vr[m]) by {
                if k < vo.len() {
                    assert(lex_lt(vo[k], vr[m]));
                } else {
                    assert(lex_lt(vnew, vr[m]));
                }
            }
            assert forall|k: int| 0 <= k < out.len() implies (left@.contains(#[trigger] out[k]) || right@.contains(out[k])) by {
                if k == out.len() - 1 {
                    if take_left {
                        assert(left@[i as int] == out[k]);
                    } else {
                        assert(right@[j as int] == out[k]);
                    }
                }
            }
        }
        if take_left {
            i = i + 1;
        }
        if take_right {
            j = j + 1;
        }
    }
    proof {
        assert(vl.take(i as int) =~= vl);
        assert(vr.take(j as int) =~= vr);
    }
    out
}


/// The indices in `lo..hi` of a strictly increasing selection of the entries of `b` there,
/// one index for each distinct entry.
fn sorted_unique(b: Ghost<Seq<Seq<u8>>>, items: &Vec<String>, lo: usize, hi: usize) -> (r: Vec<usize>)
    requires
        b@.len() == items.len(),
        forall|k: int| 0 <= k < items.len() ==> #[trigger] b@[k] == utf8(items[k]@),
        lo <= hi <= items.len(),
    ensures
        strictly_sorted(picked(b@, r@)),
        forall|v: Seq<u8>| picked(b@, r@).contains(v) <==> (exists|x: int| lo <= x < hi && #[trigger] b@[x] == v),
        forall|k: int| 0 <= k < r.len() ==> lo <= #[trigger] r[k] < hi,
    decreases hi - lo,
{
    if hi - lo == 0 {
        let r: Vec<usize> = Vec::new();
        proof {
            assert forall|v: Seq<u8>| picked(b@, r@).contains(v) <==> (exists|x: int| lo <= x < hi && #[trigger] b@[x] == v) by {
                assert(picked(b@, r@).len() == 0);
            }
        }
        return r;
    }
    if hi - lo == 1 {
        let mut r: Vec<usize> = Vec::new();
        r.push(lo);
        proof {
            assert(picked(b@, r@) =~= seq![b@[lo as int]]);
            assert forall|v: Seq<u8>| picked(b@, r@).contains(v) <==> (exists|x: int| lo <= x < hi && #[trigger] b@[x] == v) by {
                if picked(b@, r@).contains(v) {
                    assert(picked(b@, r@)[0] == v);
                    assert(b@[lo as int] == v);
                }
                if exists|x: int| lo <= x < hi && #[trigger] b@[x] == v {
                    let x = choose|x: int| lo <= x < hi && #[trigger] b@[x] == v;
                    assert(x == lo);
                    assert(picked(b@, r@)[0] == v);
                }
            }
        }
        return r;
    }
    let mid = lo + (hi - lo) / 2;
    let left = sorted_unique(b, items, lo, mid);
    let right = sorted_unique(b, items, mid, hi);
    let ghost left_v = left@;
    let ghost right_v = right@;
    let r = merge_unique(b, items, left, right);
    proof {
        assert forall|v: Seq<u8>| picked(b@, r@).contains(v) <==> (exists|x: int| lo <= x < hi && #[trigger] b@[x] == v) by {
            if exists|x: int| lo <= x < hi && #[trigger] b@[x] == v {
                let x = choose|x: int| lo <= x < hi && #[trigger] b@[x] == v;
                if x < mid {
                    assert(exists|y: int| lo <= y < mid && #[trigger] b@[y] == v);
                } else {
                    assert(exists|y: int| mid <= y < hi && #[trigger] b@[y] == v);
                }
            }
        }
        assert forall|k: int| 0 <= k < r.len() implies lo <= #[trigger] r[k] < hi by {
            if left_v.contains(r[k]) {
                let q = choose|q: int| 0 <= q < left_v.len() && left_v[q] == r[k];
                assert(lo <= left_v[q] < mid);
            } else {
                let q = choose|q: int| 0 <= q < right_v.len() && right_v[q] == r[k];
                assert(mid <= right_v[q] < hi);
            }
        }
    }
    r
}

/// Builds an [`ExternalIdTable`], assigning internal ids deterministically.
///
/// External ids are collected here, then sorted byte-wise and deduplicated; the internal id
/// of an external id is its rank in that order. Two builds of the same set of external ids
/// therefore give the same ids, whatever order the input arrived in.
#[derive(Clone, Debug, Default)]
pub struct ExternalIdTableBuilder {
    items: Vec<String>,
}

impl View for ExternalIdTableBuilder {
    type V = Seq<Seq<u8>>;

    /// The bytes of every external id offered so far, in the order offered.
    closed spec fn view(&self) -> Seq<Seq<u8>> {
        self.items@.map_values(|s: String| utf8(s@))
    }
}

impl ExternalIdTableBuilder {
    /// An empty builder.
    pub fn new() -> (r: ExternalIdTableBuilder)
        ensures
            r@ == Seq::<Seq<u8>>::empty(),
    {
        let r = ExternalIdTableBuilder { items: Vec::new() };
        proof {
            assert(r@ =~= Seq::<Seq<u8>>::empty());
        }
        r
    }

    /// An empty builder with room for `capacity` external ids.
    pub fn with_capacity(capacity: usize) -> (r: ExternalIdTableBuilder)
        ensures
            r@ == Seq::<Seq<u8>>::empty(),
    {
        let r = ExternalIdTableBuilder { items: Vec::with_capacity(capacity) };
        proof {
            assert(r@ =~= Seq::<Seq<u8>>::empty());
        }
        r
    }

    /// Offer an external id. Duplicates are collapsed by [`Self::build`].
    pub fn insert(&mut self, external: &str)
        ensures
            final(self)@ == old(self)@.push(external.spec_bytes()),
    {
        self.items.push(external.to_owned());
        proof {
            assert(self@ =~= old(self)@.push(external.spec_bytes()));
        }
    }

    /// Offer many external ids, in order.
    pub fn extend(&mut self, externals: &[&str])
        ensures
            final(self)@ == old(self)@ + externals@.map_values(|e: &str| e.spec_bytes()),
    {
        let mut i: usize = 0;
        while i < externals.len()
            invariant
                i <= externals.len(),
                self@ == old(self)@ + externals@.subrange(0, i as int).map_values(|e: &str| e.spec_bytes()),
            decreases externals.len() - i,
        {
            self.insert(externals[i]);
            proof {
                assert(externals@.subrange(0, i + 1).map_values(|e: &str| e.spec_bytes()) =~= externals@.subrange(0, i as int).map_values(|e: &str| e.spec_bytes()).push(externals@[i as int].spec_bytes()));
            }
            i = i + 1;
        }
        proof {
            assert(externals@.subrange(0, i as int) =~= externals@);
        }
    }

    /// How many external ids have been offered, before deduplication.
    pub fn offered(&self) -> (r: usize)
        ensures
            r == self@.len(),
    {
        self.items.len()
    }

    /// Sort byte-wise, deduplicate and freeze into an [`ExternalIdTable`]: the table holds
    /// each distinct external id once, in increasing order. The distinct ids fit the `u32`
    /// id space.
    pub fn build(self) -> (r: ExternalIdTable)
        requires
            self@.to_set().len() <= MAX_ID,
        ensures
            strictly_sorted(r@),
            forall|v: Seq<u8>| r@.contains(v) <==> self@.contains(v),
    {
        let ghost b = self@;
        proof {
            assert forall|k: int| 0 <= k < self.items.len() implies #[trigger] b[k] == utf8(self.items[k]@) by {}
        }
        let idx = sorted_unique(Ghost(b), &self.items, 0, self.items.len());
        let mut items: Vec<String> = Vec::new();
        let mut k: usize = 0;
        while k < idx.len()
            invariant
                k <= idx.len(),
                b == self@,
                b.len() == self.items.len(),
                forall|q: int| 0 <= q < idx.len() ==> 0 <= #[trigger] idx[q] < self.items.len(),
                items@.map_values(|s: String| utf8(s@)) == picked(b, idx@).take(k as int),
            decreases idx.len() - k,
        {
            let ghost prev = items@;
            let c = self.items[idx[k]].clone();
            items.push(c);
            proof {
                assert(items@ == prev.push(c));
                assert(b[idx[k as int] as int] == utf8(self.items@[idx[k as int] as int]@));
                assert(picked(b, idx@)[k as int] == b[idx[k as int] as int]);
                assert(items@.map_values(|s: String| utf8(s@)) =~= prev.map_values(|s: String| utf8(s@)).push(utf8(c@)));
                assert(picked(b, idx@).take(k + 1) =~= picked(b, idx@).take(k as int).push(picked(b, idx@)[k as int]));
            }
            k = k + 1;
        }
        proof {
            assert(picked(b, idx@).take(k as int) =~= picked(b, idx@));
            let tv = picked(b, idx@);
            assert forall|v: Seq<u8>| tv.contains(v) <==> b.contains(v) by {
                if tv.contains(v) {
                    let x = choose|x: int| 0 <= x < b.len() && #[trigger] b[x] == v;
                    assert(b[x] == v);
                }
                if b.contains(v) {
                    let x = choose|x: int| 0 <= x < b.len() && b[x] == v;
                    assert(0 <= x < b.len() && #[trigger] b[x] == v);
                }
            }
            lemma_distinct_count(tv, b);
        }
        ExternalIdTable { items }
    }
}

/// A strictly increasing sequence has as many entries as the set of its entries, and no
/// more than any sequence holding the same entries has distinct entries.
proof fn lemma_distinct_count(sorted: Seq<Seq<u8>>, all: Seq<Seq<u8>>)
    requires
        strictly_sorted(sorted),
        forall|v: Seq<u8>| sorted.contains(v) <==> all.contains(v),
    ensures
        sorted.len() == all.to_set().len(),
{
    assert forall|i: int, j: int| 0 <= i < sorted.len() && 0 <= j < sorted.len() && i != j implies sorted[i] != sorted[j] by {
        if i < j {
            assert(lex_lt(sorted[i], sorted[j]));
        } else {
            assert(lex_lt(sorted[j], sorted[i]));
        }
        lemma_lex_irreflexive(sorted[i]);
    }
    assert(sorted.no_duplicates());
    sorted.unique_seq_to_set();
    assert(sorted.to_set() =~= all.to_set());
}


/// A frozen, two-way map between internal ids and external ids.
///
/// Internal id `i` is the `i`-th external id in byte-wise order, so the lookup from an
/// external id to its internal id is a binary search: the invariant and the lookup are the
/// same fact.
#[derive(Debug)]
pub struct ExternalIdTable {
    items: Vec<String>,
}

impl View for ExternalIdTable {
    type V = Seq<Seq<u8>>;

    /// The bytes of each external id, by internal id.
    closed spec fn view(&self) -> Seq<Seq<u8>> {
        self.items@.map_values(|s: String| utf8(s@))
    }
}

impl Clone for ExternalIdTable {
    fn clone(&self) -> (r: ExternalIdTable)
        ensures
            r@ == self@,
    {
        proof {
            use_type_invariant(self);
        }
        let mut items: Vec<String> = Vec::new();
        let mut i: usize = 0;
        while i < self.items.len()
            invariant
                i <= self.items.len(),
                items@.map_values(|s: String| utf8(s@)) == self@.take(i as int),
            decreases self.items.len() - i,
        {
            let ghost prev = items@;
            let c = self.items[i].clone();
            items.push(c);
            proof {
                assert(self@[i as int] == utf8(self.items@[i as int]@));
                assert(items@.map_values(|s: String| utf8(s@)) =~= prev.map_values(|s: String| utf8(s@)).push(utf8(c@)));
                assert(self@.take(i + 1) =~= self@.take(i as int).push(self@[i as int]));
            }
            i = i + 1;
        }
        proof {
            assert(self@.take(i as int) =~= self@);
        }
        ExternalIdTable { items }
    }
}

impl Default for ExternalIdTable {
    fn default() -> (r: ExternalIdTable)
        ensures
            r@ == Seq::<Seq<u8>>::empty(),
    {
        let r = ExternalIdTable { items: Vec::new() };
        proof {
            assert(r@ =~= Seq::<Seq<u8>>::empty());
        }
        r
    }
}

impl ExternalIdTable {
    #[verifier::type_invariant]
    spec fn ordered(self) -> bool {
        &&& strictly_sorted(self@)
        &&& self@.len() <= MAX_ID
    }

    /// The external ids of a table are strictly increasing and fit the `u32` id space.
    pub fn lemma_ordered(&self)
        ensures
            strictly_sorted(self@),
            self@.len() <= MAX_ID,
    {
        proof {
            use_type_invariant(self);
        }
    }

    /// How many external ids the table holds.
    pub fn len(&self) -> (r: usize)
        ensures
            r == self@.len(),
    {
        self.items.len()
    }

    /// How many external ids the table holds, as a `u32`.
    pub fn count(&self) -> (r: u32)
        ensures
            r == self@.len(),
    {
        proof {
            use_type_invariant(self);
        }
        self.items.len() as u32
    }

    /// Whether the table is empty.
    pub fn is_empty(&self) -> (r: bool)
        ensures
            r == (self@.len() == 0),
    {
        self.items.len() == 0
    }

    /// The external id for an internal raw id in range.
    pub fn external(&self, id: u32) -> (r: &str)
        requires
            id < self@.len(),
        ensures
            r.spec_bytes() == self@[id as int],
    {
        self.items[id as usize].as_str()
    }

    /// The external id for a typed id, or `None` if it is null or out of range.
    pub fn external_of<I: EntityId>(&self, id: I) -> (r: Option<&str>)
        ensures
            id.raw_value() == NULL_ID || id.raw_value() >= self@.len() ==> r is None,
            id.raw_value() != NULL_ID && id.raw_value() < self@.len() ==> (r matches Some(e)
                && e.spec_bytes() == self@[id.raw_value() as int]),
    {
        if id.is_null() || (id.raw() as usize) >= self.items.len() {
            None
        } else {
            Some(self.external(id.raw()))
        }
    }

    /// The internal raw id of an external id, or `None` if the table does not hold it.
    pub fn id_of(&self, external: &str) -> (r: Option<u32>)
        ensures
            r matches Some(i) ==> i < self@.len() && self@[i as int] == external.spec_bytes(),
            r is None ==> !self@.contains(external.spec_bytes()),
    {
        proof {
            use_type_invariant(self);
        }
        let key = external.as_bytes();
        let ghost v = self@;
        let mut lo: u32 = 0;
        let mut hi: u32 = self.count();
        while lo < hi
            invariant
                v == self@,
                strictly_sorted(v),
                key@ == external.spec_bytes(),
                lo <= hi <= v.len(),
                forall|k: int| 0 <= k < lo ==> lex_lt(#[trigger] v[k], key@),
                forall|k: int| hi <= k < v.len() ==> lex_lt(key@, #[trigger] v[k]),
            decreases hi - lo,
        {
            let mid = lo + (hi - lo) / 2;
            let here = self.items[mid as usize].as_str().as_bytes();
            match compare_bytes(here, key) {
                Precedence::Before => {
                    proof {
                        assert forall|k: int| 0 <= k < mid + 1 implies lex_lt(#[trigger] v[k], key@) by {
                            if k < mid {
                                assert(lex_lt(v[k], v[mid as int]));
                                lemma_lex_transitive(v[k], v[mid as int], key@);
                            }
                        }
                    }
                    lo = mid + 1;
                },
                Precedence::After => {
                    proof {
                        assert forall|k: int| mid <= k < v.len() implies lex_lt(key@, #[trigger] v[k]) by {
                            if k > mid {
                                assert(lex_lt(v[mid as int], v[k]));
                                lemma_lex_transitive(key@, v[mid as int], v[k]);
                            }
                        }
                    }
                    hi = mid;
                },
                Precedence::Same => {
                    return Some(mid);
                },
            }
        }
        proof {
            if v.contains(key@) {
                let k = choose|k: int| 0 <= k < v.len() && v[k] == key@;
                lemma_lex_irreflexive(key@);
                if k < lo {
                    assert(lex_lt(v[k], key@));
                } else {
                    assert(lex_lt(key@, v[k]));
                }
            }
        }
        None
    }

    /// The typed internal id of an external id, or `None` if the table does not hold it.
    pub fn typed_id_of<I: EntityId>(&self, external: &str) -> (r: Option<I>)
        ensures
            r matches Some(i) ==> i.raw_value() < self@.len() && self@[i.raw_value() as int]
                == external.spec_bytes(),
            r is None ==> !self@.contains(external.spec_bytes()),
    {
        proof {
            use_type_invariant(self);
        }
        match self.id_of(external) {
            Some(raw) => Some(I::new(raw)),
            None => None,
        }
    }

    /// Every external id, in internal-id order.
    pub fn iter(&self) -> (r: Vec<&str>)
        ensures
            r@.map_values(|e: &str| e.spec_bytes()) == self@,
    {
        let mut out: Vec<&str> = Vec::new();
        let mut i: usize = 0;
        while i < self.items.len()
            invariant
                i <= self.items.len(),
                out@.map_values(|e: &str| e.spec_bytes()) == self@.take(i as int),
            decreases self.items.len() - i,
        {
            let ghost prev = out@;
            let e = self.items[i].as_str();
            out.push(e);
            proof {
                assert(out@ == prev.push(e));
                assert(self@[i as int] == utf8(self.items@[i as int]@));
                assert(e.spec_bytes() == utf8(e@));
                assert(out@.map_values(|e: &str| e.spec_bytes()) =~= prev.map_values(|e: &str| e.spec_bytes()).push(e.spec_bytes()));
                assert(self@.take(i + 1) =~= self@.take(i as int).push(self@[i as int]));
            }
            i = i + 1;
        }
        proof {
            assert(self@.take(i as int) =~= self@);
        }
        out
    }
}

/// The assignment of internal ids depends only on the set of external ids offered: two
/// builders offered the same external ids, in any order and with any repetition, build
/// the same table.
pub proof fn lemma_assignment_ignores_order(a: Seq<Seq<u8>>, b: Seq<Seq<u8>>, ta: Seq<Seq<u8>>, tb: Seq<Seq<u8>>)
    requires
        forall|v: Seq<u8>| a.contains(v) <==> b.contains(v),
        strictly_sorted(ta),
        forall|v: Seq<u8>| ta.contains(v) <==> a.contains(v),
        strictly_sorted(tb),
        forall|v: Seq<u8>| tb.contains(v) <==> b.contains(v),
    ensures
        ta == tb,
{
    lemma_sorted_unique_by_entries(ta, tb);
}

/// Every id of a table round-trips: the external id of internal id `i` looks up as `i`,
/// and no other internal id has the same external id.
pub proof fn lemma_ids_round_trip(t: Seq<Seq<u8>>, i: int, j: int)
    requires
        strictly_sorted(t),
        0 <= i < t.len(),
        0 <= j < t.len(),
        t[i] == t[j],
    ensures
        i == j,
{
    if i < j {
        assert(lex_lt(t[i], t[j]));
        lemma_lex_irreflexive(t[i]);
    } else if j < i {
        assert(lex_lt(t[j], t[i]));
        lemma_lex_irreflexive(t[i]);
    }
}

} // verus!
