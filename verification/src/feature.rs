//! Feature classification enums shared by the tile builder and the decoder.
//!
//! These are the semantic kinds the tile format encodes as `u8` ordinals; the
//! writer maps geometry to them, the decoder maps them back.

use vstd::prelude::*;

verus! {

/// Road classification.
#[derive(Debug, Clone, Copy, PartialEq, Eq, Structural, Hash)]
pub enum RoadKind {
    Motorway,
    Trunk,
    Primary,
    Secondary,
    Tertiary,
    Unclassified,
    Residential,
    LivingStreet,
    Service,
    Footway,
    Raceway,
    Unknown,
    MajorRoad,
    /// Heavy mainline railway (`railway=rail`): the significant rail tier.
    Rail,
    /// Minor railway: light rail / narrow gauge. Local/urban, shown only at
    /// finer zooms than [`Rail`](RoadKind::Rail).
    RailMinor,
    /// Country border (`boundary=administrative`, `admin_level=2`). A linear
    /// overlay riding the road pipeline; the renderer styles it distinctly.
    Border,
}

impl RoadKind {
    /// The wire ordinal.
    pub open spec fn ordinal(self) -> u8 {
        match self {
            RoadKind::Motorway => 0,
            RoadKind::Trunk => 1,
            RoadKind::Primary => 2,
            RoadKind::Secondary => 3,
            RoadKind::Tertiary => 4,
            RoadKind::Unclassified => 5,
            RoadKind::Residential => 6,
            RoadKind::LivingStreet => 7,
            RoadKind::Service => 8,
            RoadKind::Footway => 9,
            RoadKind::Raceway => 10,
            RoadKind::Unknown => 11,
            RoadKind::MajorRoad => 12,
            RoadKind::Rail => 13,
            RoadKind::RailMinor => 14,
            RoadKind::Border => 15,
        }
    }

    /// The wire ordinal, as a value.
    pub fn to_u8(self) -> (r: u8)
        ensures
            r == self.ordinal(),
    {
        match self {
            RoadKind::Motorway => 0,
            RoadKind::Trunk => 1,
            RoadKind::Primary => 2,
            RoadKind::Secondary => 3,
            RoadKind::Tertiary => 4,
            RoadKind::Unclassified => 5,
            RoadKind::Residential => 6,
            RoadKind::LivingStreet => 7,
            RoadKind::Service => 8,
            RoadKind::Footway => 9,
            RoadKind::Raceway => 10,
            RoadKind::Unknown => 11,
            RoadKind::MajorRoad => 12,
            RoadKind::Rail => 13,
            RoadKind::RailMinor => 14,
            RoadKind::Border => 15,
        }
    }

    /// Inverse of [`to_u8`](Self::to_u8); `None` for an ordinal no variant has.
    #[verifier::when_used_as_spec(spec_from_u8)]
    pub fn from_u8(v: u8) -> (r: Option<Self>)
        ensures
            r == Self::spec_from_u8(v),
    {
        match v {
            0 => Some(RoadKind::Motorway),
            1 => Some(RoadKind::Trunk),
            2 => Some(RoadKind::Primary),
            3 => Some(RoadKind::Secondary),
            4 => Some(RoadKind::Tertiary),
            5 => Some(RoadKind::Unclassified),
            6 => Some(RoadKind::Residential),
            7 => Some(RoadKind::LivingStreet),
            8 => Some(RoadKind::Service),
            9 => Some(RoadKind::Footway),
            10 => Some(RoadKind::Raceway),
            11 => Some(RoadKind::Unknown),
            12 => Some(RoadKind::MajorRoad),
            13 => Some(RoadKind::Rail),
            14 => Some(RoadKind::RailMinor),
            15 => Some(RoadKind::Border),
            _ => None,
        }
    }

    /// The variant with ordinal `v`.
    pub open spec fn spec_from_u8(v: u8) -> Option<Self> {
        match v {
            0 => Some(RoadKind::Motorway),
            1 => Some(RoadKind::Trunk),
            2 => Some(RoadKind::Primary),
            3 => Some(RoadKind::Secondary),
            4 => Some(RoadKind::Tertiary),
            5 => Some(RoadKind::Unclassified),
            6 => Some(RoadKind::Residential),
            7 => Some(RoadKind::LivingStreet),
            8 => Some(RoadKind::Service),
            9 => Some(RoadKind::Footway),
            10 => Some(RoadKind::Raceway),
            11 => Some(RoadKind::Unknown),
            12 => Some(RoadKind::MajorRoad),
            13 => Some(RoadKind::Rail),
            14 => Some(RoadKind::RailMinor),
            15 => Some(RoadKind::Border),
            _ => None,
        }
    }

    /// Reading an ordinal back gives the variant, distinct variants have distinct
    /// ordinals, and exactly the ordinals below the number of variants are in use.
    pub proof fn ordinal_roundtrip(self, other: Self, v: u8)
        ensures
            Self::spec_from_u8(self.ordinal()) == Some(self),
            self.ordinal() == other.ordinal() ==> self == other,
            self.ordinal() < 16,
            Self::spec_from_u8(v) is Some <==> v < 16,
            Self::spec_from_u8(v) matches Some(k) ==> k.ordinal() == v,
    {
    }

    /// The table behind [`min_zoom`](Self::min_zoom).
    pub open spec fn spec_min_zoom(self) -> u8 {
        match self {
            RoadKind::MajorRoad | RoadKind::Border => 4,
            RoadKind::Motorway | RoadKind::Trunk | RoadKind::Primary => 10,
            RoadKind::Secondary | RoadKind::Rail => 12,
            RoadKind::RailMinor | RoadKind::Tertiary | RoadKind::Unclassified | RoadKind::Residential | RoadKind::Raceway => 14,
            RoadKind::LivingStreet | RoadKind::Service | RoadKind::Footway | RoadKind::Unknown => 16,
        }
    }

    /// Build threshold: coarsest zoom a road of this kind is materialized
    /// into (a tile at zoom `z` stores it only if `z >= min_zoom`). Controls what
    /// the archive contains, not what the renderer shows: see
    /// [`display_min_zoom`](Self::display_min_zoom).
    #[verifier::when_used_as_spec(spec_min_zoom)]
    pub fn min_zoom(self) -> (r: u8)
        ensures
            r == self.spec_min_zoom(),
    {
        match self {
            RoadKind::MajorRoad | RoadKind::Border => 4,
            RoadKind::Motorway | RoadKind::Trunk | RoadKind::Primary => 10,
            RoadKind::Secondary | RoadKind::Rail => 12,
            RoadKind::RailMinor | RoadKind::Tertiary | RoadKind::Unclassified | RoadKind::Residential | RoadKind::Raceway => 14,
            RoadKind::LivingStreet | RoadKind::Service | RoadKind::Footway | RoadKind::Unknown => 16,
        }
    }

    /// The table behind [`display_min_zoom`](Self::display_min_zoom).
    pub open spec fn spec_display_min_zoom(self) -> u8 {
        match self {
            RoadKind::MajorRoad => 5,
            RoadKind::Border => 4,
            RoadKind::Motorway | RoadKind::Trunk | RoadKind::Primary => 10,
            RoadKind::Rail => 12,
            RoadKind::RailMinor => 14,
            RoadKind::Secondary => 13,
            RoadKind::Tertiary | RoadKind::Unclassified | RoadKind::Residential | RoadKind::Raceway => 15,
            RoadKind::LivingStreet | RoadKind::Service | RoadKind::Footway | RoadKind::Unknown => 17,
        }
    }

    /// Display threshold: coarsest camera zoom at which a road of this kind is
    /// shown. Independent of [`min_zoom`](Self::min_zoom), so the renderer can
    /// reveal or hide classes without rebuilding tiles.
    #[verifier::when_used_as_spec(spec_display_min_zoom)]
    pub fn display_min_zoom(self) -> (r: u8)
        ensures
            r == self.spec_display_min_zoom(),
    {
        match self {
            RoadKind::MajorRoad => 5,
            RoadKind::Border => 4,
            RoadKind::Motorway | RoadKind::Trunk | RoadKind::Primary => 10,
            RoadKind::Rail => 12,
            RoadKind::RailMinor => 14,
            RoadKind::Secondary => 13,
            RoadKind::Tertiary | RoadKind::Unclassified | RoadKind::Residential | RoadKind::Raceway => 15,
            RoadKind::LivingStreet | RoadKind::Service | RoadKind::Footway | RoadKind::Unknown => 17,
        }
    }

    /// The table behind [`default_lanes`](Self::default_lanes).
    pub open spec fn spec_default_lanes(self) -> u8 {
        match self {
            RoadKind::Motorway | RoadKind::MajorRoad => 6,
            RoadKind::Trunk | RoadKind::Primary => 4,
            RoadKind::Secondary | RoadKind::Tertiary | RoadKind::Unclassified | RoadKind::Residential | RoadKind::LivingStreet | RoadKind::Raceway | RoadKind::Unknown => 2,
            RoadKind::Service | RoadKind::Footway | RoadKind::Rail | RoadKind::RailMinor | RoadKind::Border => 1,
        }
    }

    /// Fallback full-width lane count for roads with no `lanes` tag.
    #[verifier::when_used_as_spec(spec_default_lanes)]
    pub fn default_lanes(self) -> (r: u8)
        ensures
            r == self.spec_default_lanes(),
    {
        match self {
            RoadKind::Motorway | RoadKind::MajorRoad => 6,
            RoadKind::Trunk | RoadKind::Primary => 4,
            RoadKind::Secondary | RoadKind::Tertiary | RoadKind::Unclassified | RoadKind::Residential | RoadKind::LivingStreet | RoadKind::Raceway | RoadKind::Unknown => 2,
            RoadKind::Service | RoadKind::Footway | RoadKind::Rail | RoadKind::RailMinor | RoadKind::Border => 1,
        }
    }

    /// Lanes across the full carriageway for a given total lane count (`0` =
    /// untagged, a per-kind default). A stroke is this many lane widths wide.
    pub fn carriageway_lanes(self, total_lanes: u8) -> (r: u8)
        ensures
            r == if total_lanes > 0 {
                total_lanes
            } else {
                self.default_lanes()
            },
    {
        if total_lanes > 0 {
            total_lanes
        } else {
            self.default_lanes()
        }
    }
}

/// Areal-feature classification.
#[derive(Debug, Clone, Copy, PartialEq, Eq, Structural, Hash)]
pub enum AreaKind {
    Water,
    Forest,
    Grass,
    Building,
    Land,
}

impl AreaKind {
    /// The wire ordinal.
    pub open spec fn ordinal(self) -> u8 {
        match self {
            AreaKind::Water => 0,
            AreaKind::Forest => 1,
            AreaKind::Grass => 2,
            AreaKind::Building => 3,
            AreaKind::Land => 4,
        }
    }

    /// The wire ordinal, as a value.
    pub fn to_u8(self) -> (r: u8)
        ensures
            r == self.ordinal(),
    {
        match self {
            AreaKind::Water => 0,
            AreaKind::Forest => 1,
            AreaKind::Grass => 2,
            AreaKind::Building => 3,
            AreaKind::Land => 4,
        }
    }

    /// Inverse of [`to_u8`](Self::to_u8); `None` for an ordinal no variant has.
    #[verifier::when_used_as_spec(spec_from_u8)]
    pub fn from_u8(v: u8) -> (r: Option<Self>)
        ensures
            r == Self::spec_from_u8(v),
    {
        match v {
            0 => Some(AreaKind::Water),
            1 => Some(AreaKind::Forest),
            2 => Some(AreaKind::Grass),
            3 => Some(AreaKind::Building),
            4 => Some(AreaKind::Land),
            _ => None,
        }
    }

    /// The variant with ordinal `v`.
    pub open spec fn spec_from_u8(v: u8) -> Option<Self> {
        match v {
            0 => Some(AreaKind::Water),
            1 => Some(AreaKind::Forest),
            2 => Some(AreaKind::Grass),
            3 => Some(AreaKind::Building),
            4 => Some(AreaKind::Land),
            _ => None,
        }
    }

    /// Reading an ordinal back gives the variant, distinct variants have distinct
    /// ordinals, and exactly the ordinals below the number of variants are in use.
    pub proof fn ordinal_roundtrip(self, other: Self, v: u8)
        ensures
            Self::spec_from_u8(self.ordinal()) == Some(self),
            self.ordinal() == other.ordinal() ==> self == other,
            self.ordinal() < 5,
            Self::spec_from_u8(v) is Some <==> v < 5,
            Self::spec_from_u8(v) matches Some(k) ==> k.ordinal() == v,
    {
    }

    /// The table behind [`min_zoom`](Self::min_zoom).
    pub open spec fn spec_min_zoom(self) -> u8 {
        match self {
            AreaKind::Land => 1,
            AreaKind::Water | AreaKind::Forest => 3,
            AreaKind::Grass => 12,
            AreaKind::Building => 14,
        }
    }

    /// Build threshold: coarsest zoom an area of this kind is materialized
    /// into (also subject to the per-tile sub-pixel size cull).
    #[verifier::when_used_as_spec(spec_min_zoom)]
    pub fn min_zoom(self) -> (r: u8)
        ensures
            r == self.spec_min_zoom(),
    {
        match self {
            AreaKind::Land => 1,
            AreaKind::Water | AreaKind::Forest => 3,
            AreaKind::Grass => 12,
            AreaKind::Building => 14,
        }
    }

    /// The table behind [`display_min_zoom`](Self::display_min_zoom).
    pub open spec fn spec_display_min_zoom(self) -> u8 {
        match self {
            AreaKind::Land => 1,
            AreaKind::Water | AreaKind::Forest => 3,
            AreaKind::Grass => 12,
            AreaKind::Building => 16,
        }
    }

    /// Display threshold: coarsest camera zoom at which an area of this kind
    /// is shown. Independent of [`min_zoom`](Self::min_zoom).
    #[verifier::when_used_as_spec(spec_display_min_zoom)]
    pub fn display_min_zoom(self) -> (r: u8)
        ensures
            r == self.spec_display_min_zoom(),
    {
        match self {
            AreaKind::Land => 1,
            AreaKind::Water | AreaKind::Forest => 3,
            AreaKind::Grass => 12,
            AreaKind::Building => 16,
        }
    }

}

/// Grade-separation structure a linear feature sits on. Drives both draw order
/// (via the OSM `layer` tag) and special rendering (bridge casing, tunnel style).
#[derive(Debug, Clone, Copy, PartialEq, Eq, Structural)]
pub enum RoadStructure {
    /// On the ground: neither bridge nor tunnel.
    AtGrade,
    Bridge,
    Tunnel,
}

impl RoadStructure {
    /// The wire ordinal.
    pub open spec fn ordinal(self) -> u8 {
        match self {
            RoadStructure::AtGrade => 0,
            RoadStructure::Bridge => 1,
            RoadStructure::Tunnel => 2,
        }
    }

    /// The wire ordinal, as a value.
    pub fn to_u8(self) -> (r: u8)
        ensures
            r == self.ordinal(),
    {
        match self {
            RoadStructure::AtGrade => 0,
            RoadStructure::Bridge => 1,
            RoadStructure::Tunnel => 2,
        }
    }

    /// Inverse of [`to_u8`](Self::to_u8); `None` for an ordinal no variant has.
    #[verifier::when_used_as_spec(spec_from_u8)]
    pub fn from_u8(v: u8) -> (r: Option<Self>)
        ensures
            r == Self::spec_from_u8(v),
    {
        match v {
            0 => Some(RoadStructure::AtGrade),
            1 => Some(RoadStructure::Bridge),
            2 => Some(RoadStructure::Tunnel),
            _ => None,
        }
    }

    /// The variant with ordinal `v`.
    pub open spec fn spec_from_u8(v: u8) -> Option<Self> {
        match v {
            0 => Some(RoadStructure::AtGrade),
            1 => Some(RoadStructure::Bridge),
            2 => Some(RoadStructure::Tunnel),
            _ => None,
        }
    }

    /// Reading an ordinal back gives the variant, distinct variants have distinct
    /// ordinals, and exactly the ordinals below the number of variants are in use.
    pub proof fn ordinal_roundtrip(self, other: Self, v: u8)
        ensures
            Self::spec_from_u8(self.ordinal()) == Some(self),
            self.ordinal() == other.ordinal() ==> self == other,
            self.ordinal() < 3,
            Self::spec_from_u8(v) is Some <==> v < 3,
            Self::spec_from_u8(v) matches Some(k) ==> k.ordinal() == v,
    {
    }

}

impl Default for RoadStructure {
    fn default() -> (r: Self)
        ensures
            r == RoadStructure::AtGrade,
    {
        RoadStructure::AtGrade
    }
}

/// State of a road endpoint. Extraction produces only `Connected` (a junction)
/// or `Disconnected` (a true dead-end); the tiler sets `Cut` where it clips a
/// road at a tile boundary, so the renderer continues the line into the
/// neighbouring tile instead of drawing an end cap.
#[derive(Debug, Clone, Copy, PartialEq, Eq, Structural)]
pub enum EdgeNode {
    Connected,
    Disconnected,
    Cut,
}

impl EdgeNode {
    /// The wire ordinal.
    pub open spec fn ordinal(self) -> u8 {
        match self {
            EdgeNode::Connected => 0,
            EdgeNode::Disconnected => 1,
            EdgeNode::Cut => 2,
        }
    }

    /// The wire ordinal, as a value.
    pub fn to_u8(self) -> (r: u8)
        ensures
            r == self.ordinal(),
    {
        match self {
            EdgeNode::Connected => 0,
            EdgeNode::Disconnected => 1,
            EdgeNode::Cut => 2,
        }
    }

    /// Inverse of [`to_u8`](Self::to_u8); `None` for an ordinal no variant has.
    #[verifier::when_used_as_spec(spec_from_u8)]
    pub fn from_u8(v: u8) -> (r: Option<Self>)
        ensures
            r == Self::spec_from_u8(v),
    {
        match v {
            0 => Some(EdgeNode::Connected),
            1 => Some(EdgeNode::Disconnected),
            2 => Some(EdgeNode::Cut),
            _ => None,
        }
    }

    /// The variant with ordinal `v`.
    pub open spec fn spec_from_u8(v: u8) -> Option<Self> {
        match v {
            0 => Some(EdgeNode::Connected),
            1 => Some(EdgeNode::Disconnected),
            2 => Some(EdgeNode::Cut),
            _ => None,
        }
    }

    /// Reading an ordinal back gives the variant, distinct variants have distinct
    /// ordinals, and exactly the ordinals below the number of variants are in use.
    pub proof fn ordinal_roundtrip(self, other: Self, v: u8)
        ensures
            Self::spec_from_u8(self.ordinal()) == Some(self),
            self.ordinal() == other.ordinal() ==> self == other,
            self.ordinal() < 3,
            Self::spec_from_u8(v) is Some <==> v < 3,
            Self::spec_from_u8(v) matches Some(k) ==> k.ordinal() == v,
    {
    }

}

/// Class of a text label. Place classes double as a priority ordering (lower
/// ordinal = more important).
#[derive(Debug, Clone, Copy, PartialEq, Eq, Structural)]
pub enum LabelClass {
    City,
    Town,
    Village,
    Suburb,
    Hamlet,
    Locality,
    Water,
    Park,
}

impl LabelClass {
    /// The wire ordinal.
    pub open spec fn ordinal(self) -> u8 {
        match self {
            LabelClass::City => 0,
            LabelClass::Town => 1,
            LabelClass::Village => 2,
            LabelClass::Suburb => 3,
            LabelClass::Hamlet => 4,
            LabelClass::Locality => 5,
            LabelClass::Water => 6,
            LabelClass::Park => 7,
        }
    }

    /// The wire ordinal, as a value.
    pub fn to_u8(self) -> (r: u8)
        ensures
            r == self.ordinal(),
    {
        match self {
            LabelClass::City => 0,
            LabelClass::Town => 1,
            LabelClass::Village => 2,
            LabelClass::Suburb => 3,
            LabelClass::Hamlet => 4,
            LabelClass::Locality => 5,
            LabelClass::Water => 6,
            LabelClass::Park => 7,
        }
    }

    /// Inverse of [`to_u8`](Self::to_u8); `None` for an ordinal no variant has.
    #[verifier::when_used_as_spec(spec_from_u8)]
    pub fn from_u8(v: u8) -> (r: Option<Self>)
        ensures
            r == Self::spec_from_u8(v),
    {
        match v {
            0 => Some(LabelClass::City),
            1 => Some(LabelClass::Town),
            2 => Some(LabelClass::Village),
            3 => Some(LabelClass::Suburb),
            4 => Some(LabelClass::Hamlet),
            5 => Some(LabelClass::Locality),
            6 => Some(LabelClass::Water),
            7 => Some(LabelClass::Park),
            _ => None,
        }
    }

    /// The variant with ordinal `v`.
    pub open spec fn spec_from_u8(v: u8) -> Option<Self> {
        match v {
            0 => Some(LabelClass::City),
            1 => Some(LabelClass::Town),
            2 => Some(LabelClass::Village),
            3 => Some(LabelClass::Suburb),
            4 => Some(LabelClass::Hamlet),
            5 => Some(LabelClass::Locality),
            6 => Some(LabelClass::Water),
            7 => Some(LabelClass::Park),
            _ => None,
        }
    }

    /// Reading an ordinal back gives the variant, distinct variants have distinct
    /// ordinals, and exactly the ordinals below the number of variants are in use.
    pub proof fn ordinal_roundtrip(self, other: Self, v: u8)
        ensures
            Self::spec_from_u8(self.ordinal()) == Some(self),
            self.ordinal() == other.ordinal() ==> self == other,
            self.ordinal() < 8,
            Self::spec_from_u8(v) is Some <==> v < 8,
            Self::spec_from_u8(v) matches Some(k) ==> k.ordinal() == v,
    {
    }

    /// The table behind [`min_zoom`](Self::min_zoom).
    pub open spec fn spec_min_zoom(self) -> u8 {
        match self {
            LabelClass::City => 4,
            LabelClass::Town | LabelClass::Water => 8,
            LabelClass::Village => 11,
            LabelClass::Suburb | LabelClass::Hamlet => 12,
            LabelClass::Locality => 13,
            LabelClass::Park => 10,
        }
    }

    /// Build threshold: coarsest zoom a label of this class is materialized into.
    #[verifier::when_used_as_spec(spec_min_zoom)]
    pub fn min_zoom(self) -> (r: u8)
        ensures
            r == self.spec_min_zoom(),
    {
        match self {
            LabelClass::City => 4,
            LabelClass::Town | LabelClass::Water => 8,
            LabelClass::Village => 11,
            LabelClass::Suburb | LabelClass::Hamlet => 12,
            LabelClass::Locality => 13,
            LabelClass::Park => 10,
        }
    }

    /// The table behind [`display_min_zoom`](Self::display_min_zoom).
    pub open spec fn spec_display_min_zoom(self) -> u8 {
        match self {
            LabelClass::City => 4,
            LabelClass::Town | LabelClass::Water => 8,
            LabelClass::Village => 11,
            LabelClass::Suburb | LabelClass::Hamlet => 12,
            LabelClass::Locality => 13,
            LabelClass::Park => 10,
        }
    }

    /// Display threshold: coarsest camera zoom at which a label of this class
    /// is shown. Independent of [`min_zoom`](Self::min_zoom).
    #[verifier::when_used_as_spec(spec_display_min_zoom)]
    pub fn display_min_zoom(self) -> (r: u8)
        ensures
            r == self.spec_display_min_zoom(),
    {
        match self {
            LabelClass::City => 4,
            LabelClass::Town | LabelClass::Water => 8,
            LabelClass::Village => 11,
            LabelClass::Suburb | LabelClass::Hamlet => 12,
            LabelClass::Locality => 13,
            LabelClass::Park => 10,
        }
    }

    /// Renderer collision priority (lower = drawn first / wins collisions).
    pub fn rank(self) -> (r: u8)
        ensures
            r == self.ordinal(),
    {
        self.to_u8()
    }
}

/// Point-of-interest classification: symbol features drawn at a single anchor
/// (no text).
#[derive(Debug, Clone, Copy, PartialEq, Eq, Structural)]
pub enum PoiKind {
    TrafficSignal,
}

impl PoiKind {
    /// The wire ordinal.
    pub open spec fn ordinal(self) -> u8 {
        match self {
            PoiKind::TrafficSignal => 0,
        }
    }

    /// The wire ordinal, as a value.
    pub fn to_u8(self) -> (r: u8)
        ensures
            r == self.ordinal(),
    {
        match self {
            PoiKind::TrafficSignal => 0,
        }
    }

    /// Inverse of [`to_u8`](Self::to_u8); `None` for an ordinal no variant has.
    #[verifier::when_used_as_spec(spec_from_u8)]
    pub fn from_u8(v: u8) -> (r: Option<Self>)
        ensures
            r == Self::spec_from_u8(v),
    {
        match v {
            0 => Some(PoiKind::TrafficSignal),
            _ => None,
        }
    }

    /// The variant with ordinal `v`.
    pub open spec fn spec_from_u8(v: u8) -> Option<Self> {
        match v {
            0 => Some(PoiKind::TrafficSignal),
            _ => None,
        }
    }

    /// Reading an ordinal back gives the variant, distinct variants have distinct
    /// ordinals, and exactly the ordinals below the number of variants are in use.
    pub proof fn ordinal_roundtrip(self, other: Self, v: u8)
        ensures
            Self::spec_from_u8(self.ordinal()) == Some(self),
            self.ordinal() == other.ordinal() ==> self == other,
            self.ordinal() < 1,
            Self::spec_from_u8(v) is Some <==> v < 1,
            Self::spec_from_u8(v) matches Some(k) ==> k.ordinal() == v,
    {
    }

    /// The table behind [`min_zoom`](Self::min_zoom).
    pub open spec fn spec_min_zoom(self) -> u8 {
        match self {
            PoiKind::TrafficSignal => 14,
        }
    }

    /// Build threshold: coarsest zoom this POI is materialized into. Point POIs
    /// like signals are dense, so only the base grid zoom.
    #[verifier::when_used_as_spec(spec_min_zoom)]
    pub fn min_zoom(self) -> (r: u8)
        ensures
            r == self.spec_min_zoom(),
    {
        match self {
            PoiKind::TrafficSignal => 14,
        }
    }

    /// The table behind [`display_min_zoom`](Self::display_min_zoom).
    pub open spec fn spec_display_min_zoom(self) -> u8 {
        match self {
            PoiKind::TrafficSignal => 15,
        }
    }

    /// Display threshold: coarsest camera zoom at which this POI is shown.
    #[verifier::when_used_as_spec(spec_display_min_zoom)]
    pub fn display_min_zoom(self) -> (r: u8)
        ensures
            r == self.spec_display_min_zoom(),
    {
        match self {
            PoiKind::TrafficSignal => 15,
        }
    }

}

/// Lane counts on each side of a road's centerline, relative to the geometry's
/// direction (node order). A one-way road has `backward == 0` (or `forward == 0`
/// for a reversed one-way).
#[derive(Debug, Clone, Copy, PartialEq, Eq, Structural)]
pub struct Lanes {
    pub forward: u8,
    pub backward: u8,
}

impl Default for Lanes {
    fn default() -> (r: Self)
        ensures
            r == (Lanes { forward: 0, backward: 0 }),
    {
        Lanes { forward: 0, backward: 0 }
    }
}

impl Lanes {
    pub fn new(forward: u8, backward: u8) -> (r: Self)
        ensures
            r == (Lanes { forward, backward }),
    {
        Lanes { forward, backward }
    }

    pub open spec fn spec_swapped(self) -> Self {
        Lanes { forward: self.backward, backward: self.forward }
    }

    /// The split as seen from the opposite travel direction: forward and backward
    /// exchanged. Reversing a road's geometry must apply this so that "backward"
    /// keeps naming the same physical side (and the center line stays put).
    #[verifier::when_used_as_spec(spec_swapped)]
    pub fn swapped(self) -> (r: Self)
        ensures
            r == self.spec_swapped(),
    {
        Lanes { forward: self.backward, backward: self.forward }
    }

    /// Turning a road around twice leaves its lane split as it was.
    pub proof fn swapped_involution(self)
        ensures
            self.spec_swapped().spec_swapped() == self,
    {
    }

    /// Both sides together, saturating.
    pub open spec fn spec_total(self) -> u8 {
        if self.forward + self.backward > 255 {
            255
        } else {
            (self.forward + self.backward) as u8
        }
    }

    #[verifier::when_used_as_spec(spec_total)]
    pub fn total(self) -> (r: u8)
        ensures
            r == self.spec_total(),
    {
        if self.forward as u16 + self.backward as u16 > 255 {
            255
        } else {
            self.forward + self.backward
        }
    }
}

} // verus!
