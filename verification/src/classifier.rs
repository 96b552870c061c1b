//! Classification of geometries as map elements.

use vstd::prelude::*;
use vstd::utf8::encode_utf8;

use crate::bytes::utf8_roundtrip;
use crate::decimal::{floors_in, parse_floors};
use crate::feature::{AreaKind, LabelClass, Lanes, PoiKind, RoadKind, RoadStructure};
use crate::tags::{id_in, table_ids, table_ids_sound, StringMap, Tag};
use crate::text::{
    is_string, parse_i8, parse_u8, parsed_i8, parsed_u8, same_bytes, string_is, text_at, text_of,
    trim_text, trimmed_bytes,
};

verus! {

#[derive(Debug, Clone, Copy, PartialEq, Eq)]
pub enum ShapeClassification {
    Road(RoadKind),
    Area(AreaKind),
    Unknown,
}

/// The string ids of interest for one block; none for a string that the block does not
/// have.
pub struct BlockShapeClassifier {
    pub highway: Option<u32>,
    pub motorway: Option<u32>,
    pub motorway_link: Option<u32>,
    pub trunk: Option<u32>,
    pub trunk_link: Option<u32>,
    pub primary: Option<u32>,
    pub primary_link: Option<u32>,
    pub service: Option<u32>,
    pub secondary: Option<u32>,
    pub secondary_link: Option<u32>,
    pub tertiary: Option<u32>,
    pub tertiary_link: Option<u32>,
    pub unclassified: Option<u32>,
    pub residential: Option<u32>,
    pub living_street: Option<u32>,
    pub road: Option<u32>,
    pub raceway: Option<u32>,
    pub railway: Option<u32>,
    pub rail: Option<u32>,
    pub light_rail: Option<u32>,
    pub narrow_gauge: Option<u32>,
    pub traffic_signals: Option<u32>,
    pub bridge: Option<u32>,
    pub tunnel: Option<u32>,
    pub no: Option<u32>,
    pub natural: Option<u32>,
    pub water: Option<u32>,
    pub building: Option<u32>,
    pub landuse: Option<u32>,
    pub leisure: Option<u32>,
    pub wood: Option<u32>,
    pub forest: Option<u32>,
    pub grass: Option<u32>,
    pub meadow: Option<u32>,
    pub park: Option<u32>,
    pub layer: Option<u32>,
    pub name: Option<u32>,
    pub place: Option<u32>,
    pub city: Option<u32>,
    pub town: Option<u32>,
    pub village: Option<u32>,
    pub suburb: Option<u32>,
    pub hamlet: Option<u32>,
    pub locality: Option<u32>,
}

/// The classifier for the string ids of a block: every field is the id of the string with
/// its name.
#[verifier::opaque]
pub open spec fn classifier_for(ids: Map<Seq<u8>, u32>) -> BlockShapeClassifier {
    BlockShapeClassifier {
        highway: id_in(ids, encode_utf8("highway"@)),
        motorway: id_in(ids, encode_utf8("motorway"@)),
        motorway_link: id_in(ids, encode_utf8("motorway_link"@)),
        trunk: id_in(ids, encode_utf8("trunk"@)),
        trunk_link: id_in(ids, encode_utf8("trunk_link"@)),
        primary: id_in(ids, encode_utf8("primary"@)),
        primary_link: id_in(ids, encode_utf8("primary_link"@)),
        service: id_in(ids, encode_utf8("service"@)),
        secondary: id_in(ids, encode_utf8("secondary"@)),
        secondary_link: id_in(ids, encode_utf8("secondary_link"@)),
        tertiary: id_in(ids, encode_utf8("tertiary"@)),
        tertiary_link: id_in(ids, encode_utf8("tertiary_link"@)),
        unclassified: id_in(ids, encode_utf8("unclassified"@)),
        residential: id_in(ids, encode_utf8("residential"@)),
        living_street: id_in(ids, encode_utf8("living_street"@)),
        road: id_in(ids, encode_utf8("road"@)),
        raceway: id_in(ids, encode_utf8("raceway"@)),
        railway: id_in(ids, encode_utf8("railway"@)),
        rail: id_in(ids, encode_utf8("rail"@)),
        light_rail: id_in(ids, encode_utf8("light_rail"@)),
        narrow_gauge: id_in(ids, encode_utf8("narrow_gauge"@)),
        traffic_signals: id_in(ids, encode_utf8("traffic_signals"@)),
        bridge: id_in(ids, encode_utf8("bridge"@)),
        tunnel: id_in(ids, encode_utf8("tunnel"@)),
        no: id_in(ids, encode_utf8("no"@)),
        natural: id_in(ids, encode_utf8("natural"@)),
        water: id_in(ids, encode_utf8("water"@)),
        building: id_in(ids, encode_utf8("building"@)),
        landuse: id_in(ids, encode_utf8("landuse"@)),
        leisure: id_in(ids, encode_utf8("leisure"@)),
        wood: id_in(ids, encode_utf8("wood"@)),
        forest: id_in(ids, encode_utf8("forest"@)),
        grass: id_in(ids, encode_utf8("grass"@)),
        meadow: id_in(ids, encode_utf8("meadow"@)),
        park: id_in(ids, encode_utf8("park"@)),
        layer: id_in(ids, encode_utf8("layer"@)),
        name: id_in(ids, encode_utf8("name"@)),
        place: id_in(ids, encode_utf8("place"@)),
        city: id_in(ids, encode_utf8("city"@)),
        town: id_in(ids, encode_utf8("town"@)),
        village: id_in(ids, encode_utf8("village"@)),
        suburb: id_in(ids, encode_utf8("suburb"@)),
        hamlet: id_in(ids, encode_utf8("hamlet"@)),
        locality: id_in(ids, encode_utf8("locality"@)),
    }
}

impl BlockShapeClassifier {
    pub fn new(string_map: &StringMap) -> (r: Self)
        ensures
            r == classifier_for(string_map.ids()),
    {
        reveal(classifier_for);
        BlockShapeClassifier {
            highway: string_map.get_str("highway"),
            motorway: string_map.get_str("motorway"),
            motorway_link: string_map.get_str("motorway_link"),
            trunk: string_map.get_str("trunk"),
            trunk_link: string_map.get_str("trunk_link"),
            primary: string_map.get_str("primary"),
            primary_link: string_map.get_str("primary_link"),
            service: string_map.get_str("service"),
            secondary: string_map.get_str("secondary"),
            secondary_link: string_map.get_str("secondary_link"),
            tertiary: string_map.get_str("tertiary"),
            tertiary_link: string_map.get_str("tertiary_link"),
            unclassified: string_map.get_str("unclassified"),
            residential: string_map.get_str("residential"),
            living_street: string_map.get_str("living_street"),
            road: string_map.get_str("road"),
            raceway: string_map.get_str("raceway"),
            railway: string_map.get_str("railway"),
            rail: string_map.get_str("rail"),
            light_rail: string_map.get_str("light_rail"),
            narrow_gauge: string_map.get_str("narrow_gauge"),
            traffic_signals: string_map.get_str("traffic_signals"),
            bridge: string_map.get_str("bridge"),
            tunnel: string_map.get_str("tunnel"),
            no: string_map.get_str("no"),
            natural: string_map.get_str("natural"),
            water: string_map.get_str("water"),
            building: string_map.get_str("building"),
            landuse: string_map.get_str("landuse"),
            leisure: string_map.get_str("leisure"),
            wood: string_map.get_str("wood"),
            forest: string_map.get_str("forest"),
            grass: string_map.get_str("grass"),
            meadow: string_map.get_str("meadow"),
            park: string_map.get_str("park"),
            layer: string_map.get_str("layer"),
            name: string_map.get_str("name"),
            place: string_map.get_str("place"),
            city: string_map.get_str("city"),
            town: string_map.get_str("town"),
            village: string_map.get_str("village"),
            suburb: string_map.get_str("suburb"),
            hamlet: string_map.get_str("hamlet"),
            locality: string_map.get_str("locality"),
        }
    }

    /// A classifier for a block that has none of the strings.
    pub fn unresolved() -> (r: Self)
        ensures
            r.highway is None,
            r.motorway is None,
            r.motorway_link is None,
            r.trunk is None,
            r.trunk_link is None,
            r.primary is None,
            r.primary_link is None,
            r.service is None,
            r.secondary is None,
            r.secondary_link is None,
            r.tertiary is None,
            r.tertiary_link is None,
            r.unclassified is None,
            r.residential is None,
            r.living_street is None,
            r.road is None,
            r.raceway is None,
            r.railway is None,
            r.rail is None,
            r.light_rail is None,
            r.narrow_gauge is None,
            r.traffic_signals is None,
            r.bridge is None,
            r.tunnel is None,
            r.no is None,
            r.natural is None,
            r.water is None,
            r.building is None,
            r.landuse is None,
            r.leisure is None,
            r.wood is None,
            r.forest is None,
            r.grass is None,
            r.meadow is None,
            r.park is None,
            r.layer is None,
            r.name is None,
            r.place is None,
            r.city is None,
            r.town is None,
            r.village is None,
            r.suburb is None,
            r.hamlet is None,
            r.locality is None,
    {
        BlockShapeClassifier {
            highway: None,
            motorway: None,
            motorway_link: None,
            trunk: None,
            trunk_link: None,
            primary: None,
            primary_link: None,
            service: None,
            secondary: None,
            secondary_link: None,
            tertiary: None,
            tertiary_link: None,
            unclassified: None,
            residential: None,
            living_street: None,
            road: None,
            raceway: None,
            railway: None,
            rail: None,
            light_rail: None,
            narrow_gauge: None,
            traffic_signals: None,
            bridge: None,
            tunnel: None,
            no: None,
            natural: None,
            water: None,
            building: None,
            landuse: None,
            leisure: None,
            wood: None,
            forest: None,
            grass: None,
            meadow: None,
            park: None,
            layer: None,
            name: None,
            place: None,
            city: None,
            town: None,
            village: None,
            suburb: None,
            hamlet: None,
            locality: None,
        }
    }
}

/// The road kind that a `highway` value names.
pub open spec fn highway_kind(c: BlockShapeClassifier, v: u32) -> Option<RoadKind> {
    if c.motorway == Some(v) || c.motorway_link == Some(v) {
        Some(RoadKind::Motorway)
    } else if c.trunk == Some(v) || c.trunk_link == Some(v) {
        Some(RoadKind::Trunk)
    } else if c.primary == Some(v) || c.primary_link == Some(v) {
        Some(RoadKind::Primary)
    } else if c.service == Some(v) {
        Some(RoadKind::Service)
    } else if c.secondary == Some(v) || c.secondary_link == Some(v) {
        Some(RoadKind::Secondary)
    } else if c.tertiary == Some(v) || c.tertiary_link == Some(v) {
        Some(RoadKind::Tertiary)
    } else if c.unclassified == Some(v) {
        Some(RoadKind::Unclassified)
    } else if c.residential == Some(v) {
        Some(RoadKind::Residential)
    } else if c.living_street == Some(v) {
        Some(RoadKind::LivingStreet)
    } else if c.road == Some(v) {
        Some(RoadKind::Unknown)
    } else if c.raceway == Some(v) {
        Some(RoadKind::Raceway)
    } else {
        None
    }
}

/// The road kind that a `railway` value names.
pub open spec fn railway_kind(c: BlockShapeClassifier, v: u32) -> Option<RoadKind> {
    if c.rail == Some(v) {
        Some(RoadKind::Rail)
    } else if c.light_rail == Some(v) || c.narrow_gauge == Some(v) {
        Some(RoadKind::RailMinor)
    } else {
        None
    }
}

/// The road kind that a tag names.
pub open spec fn road_of(c: BlockShapeClassifier, tag: Tag) -> Option<RoadKind> {
    if c.highway == Some(tag.key) && highway_kind(c, tag.value) is Some {
        highway_kind(c, tag.value)
    } else if c.railway == Some(tag.key) {
        railway_kind(c, tag.value)
    } else {
        None
    }
}

/// The tag is `key=value`.
pub open spec fn tag_is(tag: Tag, key: Option<u32>, value: Option<u32>) -> bool {
    key == Some(tag.key) && value == Some(tag.value)
}

/// The area kind that a tag names: `natural=water` is water; `building=*` a building;
/// `natural=wood` and `landuse=forest` forest; `landuse=grass|meadow` and `leisure=park`
/// grass.
pub open spec fn area_of(c: BlockShapeClassifier, tag: Tag) -> Option<AreaKind> {
    if tag_is(tag, c.natural, c.water) {
        Some(AreaKind::Water)
    } else if c.building == Some(tag.key) {
        Some(AreaKind::Building)
    } else if tag_is(tag, c.natural, c.wood) || tag_is(tag, c.landuse, c.forest) {
        Some(AreaKind::Forest)
    } else if tag_is(tag, c.landuse, c.grass) || tag_is(tag, c.landuse, c.meadow) || tag_is(
        tag,
        c.leisure,
        c.park,
    ) {
        Some(AreaKind::Grass)
    } else {
        None
    }
}

/// What a way's tag names: a road before an area.
pub open spec fn way_class_of(c: BlockShapeClassifier, tag: Tag) -> Option<ShapeClassification> {
    match road_of(c, tag) {
        Some(kind) => Some(ShapeClassification::Road(kind)),
        None => match area_of(c, tag) {
            Some(kind) => Some(ShapeClassification::Area(kind)),
            None => None,
        },
    }
}

/// What a way is, from tag `i` on: what the first tag that names anything does.
pub open spec fn way_class(c: BlockShapeClassifier, tags: Seq<Tag>, i: nat) -> ShapeClassification
    decreases tags.len() - i,
{
    if i >= tags.len() {
        ShapeClassification::Unknown
    } else {
        match way_class_of(c, tags[i as int]) {
            Some(class) => class,
            None => way_class(c, tags, i + 1),
        }
    }
}

pub open spec fn relation_class(
    c: BlockShapeClassifier,
    tags: Seq<Tag>,
    i: nat,
) -> ShapeClassification
    decreases tags.len() - i,
{
    if i >= tags.len() {
        ShapeClassification::Unknown
    } else {
        match area_of(c, tags[i as int]) {
            Some(kind) => ShapeClassification::Area(kind),
            None => relation_class(c, tags, i + 1),
        }
    }
}

/// The tag sets a grade separation: any value but `no`.
pub open spec fn separates(c: BlockShapeClassifier, tag: Tag, key: Option<u32>) -> bool {
    key == Some(tag.key) && c.no != Some(tag.value)
}

/// The structure from `bridge=*` / `tunnel=*`; a bridge wins if both are set.
pub open spec fn structure_from(c: BlockShapeClassifier, tags: Seq<Tag>) -> RoadStructure {
    if exists|i: int| 0 <= i < tags.len() && separates(c, #[trigger] tags[i], c.bridge) {
        RoadStructure::Bridge
    } else if exists|i: int| 0 <= i < tags.len() && separates(c, #[trigger] tags[i], c.tunnel) {
        RoadStructure::Tunnel
    } else {
        RoadStructure::AtGrade
    }
}

/// The first tag with a key, from `i` on.
pub open spec fn first_with_key(tags: Seq<Tag>, key: u32, i: nat) -> Option<Tag>
    decreases tags.len() - i,
{
    if i >= tags.len() {
        None
    } else if tags[i as int].key == key {
        Some(tags[i as int])
    } else {
        first_with_key(tags, key, i + 1)
    }
}

/// The signed number in a string of the block, whitespace around it ignored.
pub open spec fn signed_value(strings: Seq<Vec<u8>>, sid: u32) -> Option<i8> {
    match text_of(strings, sid) {
        Some(t) => parsed_i8(trimmed_bytes(t)),
        None => None,
    }
}

/// The unsigned number in a string of the block, whitespace around it ignored.
pub open spec fn unsigned_value(strings: Seq<Vec<u8>>, sid: u32) -> Option<u8> {
    match text_of(strings, sid) {
        Some(t) => parsed_u8(trimmed_bytes(t)),
        None => None,
    }
}

pub open spec fn layer_from(
    c: BlockShapeClassifier,
    tags: Seq<Tag>,
    strings: Seq<Vec<u8>>,
) -> i8 {
    match c.layer {
        None => 0,
        Some(key) => match first_with_key(tags, key, 0) {
            None => 0,
            Some(tag) => match signed_value(strings, tag.value) {
                Some(n) => n,
                None => 0,
            },
        },
    }
}

/// The name from tag `i` on: that of the first name tag with a text; a name tag whose
/// value is no text ends the search.
pub open spec fn name_from(tags: Seq<Tag>, key: u32, strings: Seq<Vec<u8>>, i: nat) -> Option<Seq<char>>
    decreases tags.len() - i,
{
    if i >= tags.len() {
        None
    } else if tags[i as int].key == key {
        match text_of(strings, tags[i as int].value) {
            None => None,
            Some(t) => if t.len() > 0 {
                Some(t)
            } else {
                name_from(tags, key, strings, i + 1)
            },
        }
    } else {
        name_from(tags, key, strings, i + 1)
    }
}

pub open spec fn name_in(
    c: BlockShapeClassifier,
    tags: Seq<Tag>,
    strings: Seq<Vec<u8>>,
) -> Option<Seq<char>> {
    match c.name {
        None => None,
        Some(key) => name_from(tags, key, strings, 0),
    }
}

pub open spec fn place_class(c: BlockShapeClassifier, v: u32) -> Option<LabelClass> {
    if c.city == Some(v) {
        Some(LabelClass::City)
    } else if c.town == Some(v) {
        Some(LabelClass::Town)
    } else if c.village == Some(v) {
        Some(LabelClass::Village)
    } else if c.suburb == Some(v) {
        Some(LabelClass::Suburb)
    } else if c.hamlet == Some(v) {
        Some(LabelClass::Hamlet)
    } else if c.locality == Some(v) {
        Some(LabelClass::Locality)
    } else {
        None
    }
}

/// The populated place that the first `place` tag names.
pub open spec fn place_in(c: BlockShapeClassifier, tags: Seq<Tag>) -> Option<LabelClass> {
    match c.place {
        None => None,
        Some(key) => match first_with_key(tags, key, 0) {
            None => None,
            Some(tag) => place_class(c, tag.value),
        },
    }
}

/// Some tag is `highway=traffic_signals`.
pub open spec fn has_signals(c: BlockShapeClassifier, tags: Seq<Tag>) -> bool {
    exists|i: int| 0 <= i < tags.len() && tag_is(#[trigger] tags[i], c.highway, c.traffic_signals)
}

// ---- lanes ----

/// Which way traffic flows.
#[derive(Debug, Clone, Copy, PartialEq, Eq, Structural)]
pub enum Oneway {
    No,
    Forward,
    Reversed,
}

/// What a way's lane tags say.
#[derive(Debug, Clone, Copy, PartialEq, Eq)]
pub struct LaneTags {
    pub total: Option<u8>,
    pub forward: Option<u8>,
    pub backward: Option<u8>,
    pub oneway: Oneway,
}

/// The direction that a `oneway` value names.
pub open spec fn oneway_of(text: Option<Seq<char>>) -> Oneway {
    match text {
        None => Oneway::No,
        Some(t) => {
            let w = trimmed_bytes(t);
            if w == encode_utf8("yes"@) || w == encode_utf8("true"@) || w == encode_utf8("1"@) {
                Oneway::Forward
            } else if w == encode_utf8("-1"@) || w == encode_utf8("reverse"@) {
                Oneway::Reversed
            } else {
                Oneway::No
            }
        },
    }
}

/// The lane tags with one more tag; of several with one key the last counts.
pub open spec fn with_lane_tag(l: LaneTags, tag: Tag, strings: Seq<Vec<u8>>) -> LaneTags {
    if is_string(strings, tag.key, "lanes"@) {
        LaneTags { total: unsigned_value(strings, tag.value), ..l }
    } else if is_string(strings, tag.key, "lanes:forward"@) {
        LaneTags { forward: unsigned_value(strings, tag.value), ..l }
    } else if is_string(strings, tag.key, "lanes:backward"@) {
        LaneTags { backward: unsigned_value(strings, tag.value), ..l }
    } else if is_string(strings, tag.key, "oneway"@) {
        LaneTags { oneway: oneway_of(text_of(strings, tag.value)), ..l }
    } else {
        l
    }
}

pub open spec fn no_lane_tags() -> LaneTags {
    LaneTags { total: None, forward: None, backward: None, oneway: Oneway::No }
}

/// The lane tags among the first `n` tags.
pub open spec fn lane_tags(tags: Seq<Tag>, strings: Seq<Vec<u8>>, n: nat) -> LaneTags
    decreases n,
{
    if n == 0 {
        no_lane_tags()
    } else {
        with_lane_tag(lane_tags(tags, strings, (n - 1) as nat), tags[n - 1], strings)
    }
}

pub open spec fn at_least_one(n: u8) -> u8 {
    if n < 1 {
        1
    } else {
        n
    }
}

pub open spec fn either(a: Option<u8>, b: Option<u8>) -> u8 {
    match (a, b) {
        (Some(x), _) => x,
        (None, Some(y)) => y,
        (None, None) => 1,
    }
}

/// What is left of `t` lanes beside `n`.
pub open spec fn rest_of(t: u8, n: u8) -> u8 {
    if t > n {
        (t - n) as u8
    } else {
        0
    }
}

/// Lanes on each side of the centerline. One-way: all lanes on one side. Two-way:
/// explicit per-direction counts, else the total split (odd extra to forward), else one
/// each way.
pub open spec fn split(l: LaneTags) -> Lanes {
    match l.oneway {
        Oneway::Forward => Lanes {
            forward: at_least_one(either(l.forward, l.total)),
            backward: 0,
        },
        Oneway::Reversed => Lanes {
            forward: 0,
            backward: at_least_one(either(l.backward, l.total)),
        },
        Oneway::No => {
            let (f, b) = match (l.forward, l.backward, l.total) {
                (Some(f), Some(b), _) => (f, b),
                (Some(f), None, Some(t)) => (f, rest_of(t, f)),
                (None, Some(b), Some(t)) => (rest_of(t, b), b),
                (Some(f), None, None) => (f, f),
                (None, Some(b), None) => (b, b),
                (None, None, Some(t)) => ((t - t / 2) as u8, t / 2),
                (None, None, None) => (1, 1),
            };
            Lanes { forward: at_least_one(f), backward: at_least_one(b) }
        },
    }
}

/// Every road has a lane in each direction that it can be driven in, and none in the
/// other.
pub proof fn split_serves_directions(l: LaneTags)
    ensures
        l.oneway != Oneway::Reversed ==> split(l).forward >= 1,
        l.oneway != Oneway::Forward ==> split(l).backward >= 1,
        l.oneway == Oneway::Forward ==> split(l).backward == 0,
        l.oneway == Oneway::Reversed ==> split(l).forward == 0,
        l.oneway == Oneway::No && l.forward is None && l.backward is None && l.total is Some && l.total->0 >= 2
            ==> split(l).forward + split(l).backward == l.total->0,
{
}

fn raise_to_one(n: u8) -> (r: u8)
    ensures
        r == at_least_one(n),
{
    if n < 1 {
        1
    } else {
        n
    }
}

fn first_of(a: Option<u8>, b: Option<u8>) -> (r: u8)
    ensures
        r == either(a, b),
{
    match (a, b) {
        (Some(x), _) => x,
        (None, Some(y)) => y,
        (None, None) => 1,
    }
}

fn left_over(t: u8, n: u8) -> (r: u8)
    ensures
        r == rest_of(t, n),
{
    if t > n {
        t - n
    } else {
        0
    }
}

/// Lanes on each side of the centerline, from what the lane tags say.
pub fn split_lanes(l: LaneTags) -> (r: Lanes)
    ensures
        r == split(l),
{
    match l.oneway {
        Oneway::Forward => Lanes::new(raise_to_one(first_of(l.forward, l.total)), 0),
        Oneway::Reversed => Lanes::new(0, raise_to_one(first_of(l.backward, l.total))),
        Oneway::No => {
            let (f, b): (u8, u8) = match (l.forward, l.backward, l.total) {
                (Some(f), Some(b), _) => (f, b),
                (Some(f), None, Some(t)) => (f, left_over(t, f)),
                (None, Some(b), Some(t)) => (left_over(t, b), b),
                (Some(f), None, None) => (f, f),
                (None, Some(b), None) => (b, b),
                (None, None, Some(t)) => (t - t / 2, t / 2),
                (None, None, None) => (1, 1),
            };
            Lanes::new(raise_to_one(f), raise_to_one(b))
        },
    }
}

fn is_id(field: Option<u32>, v: u32) -> (r: bool)
    ensures
        r == (field == Some(v)),
{
    match field {
        Some(x) => x == v,
        None => false,
    }
}

fn value_u8(strings: &Vec<Vec<u8>>, sid: u32) -> (r: Option<u8>)
    ensures
        r == unsigned_value(strings@, sid),
{
    match text_at(strings, sid) {
        Some(t) => parse_u8(trim_text(t.as_str()).as_bytes()),
        None => None,
    }
}

fn value_i8(strings: &Vec<Vec<u8>>, sid: u32) -> (r: Option<i8>)
    ensures
        r == signed_value(strings@, sid),
{
    match text_at(strings, sid) {
        Some(t) => parse_i8(trim_text(t.as_str()).as_bytes()),
        None => None,
    }
}

fn value_oneway(strings: &Vec<Vec<u8>>, sid: u32) -> (r: Oneway)
    ensures
        r == oneway_of(text_of(strings@, sid)),
{
    match text_at(strings, sid) {
        None => Oneway::No,
        Some(t) => {
            let w: &[u8] = trim_text(t.as_str()).as_bytes();
            if same_bytes(w, "yes".as_bytes()) || same_bytes(w, "true".as_bytes()) || same_bytes(
                w,
                "1".as_bytes(),
            ) {
                Oneway::Forward
            } else if same_bytes(w, "-1".as_bytes()) || same_bytes(w, "reverse".as_bytes()) {
                Oneway::Reversed
            } else {
                Oneway::No
            }
        },
    }
}

impl BlockShapeClassifier {
    /// Grade-separation structure from `bridge=*` / `tunnel=*` (any value except `no`).
    /// Bridge wins if both are set (rare/degenerate).
    pub fn structure_of(&self, tags: &[Tag]) -> (r: RoadStructure)
        ensures
            r == structure_from(*self, tags@),
    {
        let mut result: RoadStructure = RoadStructure::AtGrade;
        let mut i: usize = 0;
        while i < tags.len()
            invariant
                i <= tags@.len(),
                forall|k: int| 0 <= k < i ==> !separates(*self, #[trigger] tags@[k], self.bridge),
                result == RoadStructure::Tunnel || result == RoadStructure::AtGrade,
                (result == RoadStructure::Tunnel) == exists|k: int|
                    0 <= k < i && separates(*self, #[trigger] tags@[k], self.tunnel),
            decreases tags@.len() - i,
        {
            let tag: Tag = tags[i];
            let not_no: bool = !is_id(self.no, tag.value);
            if is_id(self.bridge, tag.key) && not_no {
                assert(separates(*self, tags@[i as int], self.bridge));
                return RoadStructure::Bridge;
            }
            if is_id(self.tunnel, tag.key) && not_no {
                assert(separates(*self, tags@[i as int], self.tunnel));
                result = RoadStructure::Tunnel;
            }
            i = i + 1;
        }
        result
    }

    fn find_key(tags: &[Tag], key: u32) -> (r: Option<Tag>)
        ensures
            r == first_with_key(tags@, key, 0),
    {
        let mut i: usize = 0;
        while i < tags.len()
            invariant
                i <= tags@.len(),
                first_with_key(tags@, key, i as nat) == first_with_key(tags@, key, 0),
            decreases tags@.len() - i,
        {
            if tags[i].key == key {
                return Some(tags[i]);
            }
            i = i + 1;
        }
        None
    }

    /// The OSM `layer` tag as a signed stacking level (bridges/tunnels/overpasses), `0`
    /// if absent or unparseable. `strings` is the block string table (`id -> bytes`),
    /// needed to read the tag's numeric value.
    pub fn layer_of(&self, tags: &[Tag], strings: &Vec<Vec<u8>>) -> (r: i8)
        ensures
            r == layer_from(*self, tags@, strings@),
    {
        match self.layer {
            None => 0,
            Some(key) => match Self::find_key(tags, key) {
                None => 0,
                Some(tag) => match value_i8(strings, tag.value) {
                    Some(n) => n,
                    None => 0,
                },
            },
        }
    }

    /// The OSM `name` tag value as an owned string, or `None` if absent/empty.
    pub fn name_of(&self, tags: &[Tag], strings: &Vec<Vec<u8>>) -> (r: Option<String>)
        ensures
            crate::record::name_view(r) == name_in(*self, tags@, strings@),
    {
        let key: u32 = match self.name {
            Some(k) => k,
            None => return None,
        };
        let mut i: usize = 0;
        while i < tags.len()
            invariant
                i <= tags@.len(),
                self.name == Some(key),
                name_from(tags@, key, strings@, i as nat) == name_in(*self, tags@, strings@),
            decreases tags@.len() - i,
        {
            if tags[i].key == key {
                match text_at(strings, tags[i].value) {
                    None => return None,
                    Some(t) => {
                        proof {
                            crate::bytes::utf8_roundtrip(t@);
                            if t@.len() == 0 {
                                assert(t@ =~= Seq::empty());
                                assert(encode_utf8(Seq::<char>::empty()) =~= Seq::<u8>::empty());
                            } else if encode_utf8(t@).len() == 0 {
                                assert(encode_utf8(t@) =~= encode_utf8(Seq::<char>::empty()));
                                crate::bytes::utf8_roundtrip(Seq::empty());
                            }
                        }
                        if t.as_str().as_bytes().len() > 0 {
                            return Some(t);
                        }
                    },
                }
            }
            i = i + 1;
        }
        None
    }

    /// Classify a node's tags into a point-of-interest kind, or `None`:
    /// `highway=traffic_signals` is a traffic signal.
    pub fn classify_poi(&self, tags: &[Tag]) -> (r: Option<PoiKind>)
        ensures
            r == (if has_signals(*self, tags@) {
                Some(PoiKind::TrafficSignal)
            } else {
                None
            }),
    {
        let mut i: usize = 0;
        while i < tags.len()
            invariant
                i <= tags@.len(),
                forall|k: int|
                    0 <= k < i ==> !tag_is(#[trigger] tags@[k], self.highway, self.traffic_signals),
            decreases tags@.len() - i,
        {
            if is_id(self.highway, tags[i].key) && is_id(self.traffic_signals, tags[i].value) {
                assert(tag_is(tags@[i as int], self.highway, self.traffic_signals));
                return Some(PoiKind::TrafficSignal);
            }
            i = i + 1;
        }
        None
    }

    /// Classify a node's `place=*` tag into a label class, or `None` if it is not a
    /// recognised populated place.
    pub fn classify_place(&self, tags: &[Tag]) -> (r: Option<LabelClass>)
        ensures
            r == place_in(*self, tags@),
    {
        let key: u32 = match self.place {
            Some(k) => k,
            None => return None,
        };
        match Self::find_key(tags, key) {
            None => None,
            Some(tag) => {
                let v: u32 = tag.value;
                if is_id(self.city, v) {
                    Some(LabelClass::City)
                } else if is_id(self.town, v) {
                    Some(LabelClass::Town)
                } else if is_id(self.village, v) {
                    Some(LabelClass::Village)
                } else if is_id(self.suburb, v) {
                    Some(LabelClass::Suburb)
                } else if is_id(self.hamlet, v) {
                    Some(LabelClass::Hamlet)
                } else if is_id(self.locality, v) {
                    Some(LabelClass::Locality)
                } else {
                    None
                }
            },
        }
    }

    /// What a way's `lanes`, `oneway`, and `lanes:forward`/`lanes:backward` tags say.
    /// Keys are matched by their string bytes (so colon keys work), so it needs no
    /// precomputed ids.
    pub fn lane_tags_of(&self, tags: &[Tag], strings: &Vec<Vec<u8>>) -> (r: LaneTags)
        ensures
            r == lane_tags(tags@, strings@, tags@.len()),
    {
        let mut l = LaneTags { total: None, forward: None, backward: None, oneway: Oneway::No };
        let mut i: usize = 0;
        while i < tags.len()
            invariant
                i <= tags@.len(),
                l == lane_tags(tags@, strings@, i as nat),
            decreases tags@.len() - i,
        {
            let tag: Tag = tags[i];
            if string_is(strings, tag.key, "lanes") {
                l.total = value_u8(strings, tag.value);
            } else if string_is(strings, tag.key, "lanes:forward") {
                l.forward = value_u8(strings, tag.value);
            } else if string_is(strings, tag.key, "lanes:backward") {
                l.backward = value_u8(strings, tag.value);
            } else if string_is(strings, tag.key, "oneway") {
                l.oneway = value_oneway(strings, tag.value);
            }
            i = i + 1;
        }
        l
    }

    /// Lanes on each side of a way's centerline. Every road gets a value: unknown lane
    /// counts fall back to 1 per active direction.
    pub fn lanes_of(&self, tags: &[Tag], strings: &Vec<Vec<u8>>) -> (r: Lanes)
        ensures
            r == split(lane_tags(tags@, strings@, tags@.len())),
    {
        split_lanes(self.lane_tags_of(tags, strings))
    }

    /// Number of above-ground floors from `building:levels`, defaulting to 1 if absent or
    /// unparseable. Fractional values (e.g. "2.5") round to nearest; clamped to
    /// `[1, 255]`. Matches the key by string bytes (colon key).
    pub fn floors_of(&self, tags: &[Tag], strings: &Vec<Vec<u8>>) -> (r: u8)
        ensures
            r == floors_from(tags@, strings@),
    {
        match self.levels_of(tags, strings) {
            Some(text) => parse_floors(trim_text(text.as_str()).as_bytes()),
            None => 1,
        }
    }

    /// The text of the first `building:levels` tag.
    fn levels_of(&self, tags: &[Tag], strings: &Vec<Vec<u8>>) -> (r: Option<String>)
        ensures
            crate::record::name_view(r) == levels_in(tags@, strings@, 0),
    {
        let mut i: usize = 0;
        while i < tags.len()
            invariant
                i <= tags@.len(),
                levels_in(tags@, strings@, i as nat) == levels_in(tags@, strings@, 0),
            decreases tags@.len() - i,
        {
            if string_is(strings, tags[i].key, "building:levels") {
                return text_at(strings, tags[i].value);
            }
            i = i + 1;
        }
        None
    }

    fn road_of_tag(&self, tag: &Tag) -> (r: Option<RoadKind>)
        ensures
            r == road_of(*self, *tag),
    {
        if is_id(self.highway, tag.key) {
            let kind: Option<RoadKind> = self.highway_of(tag.value);
            if kind.is_some() {
                return kind;
            }
        }
        if is_id(self.railway, tag.key) {
            return self.railway_of(tag.value);
        }
        None
    }

    fn highway_of(&self, v: u32) -> (r: Option<RoadKind>)
        ensures
            r == highway_kind(*self, v),
    {
        if is_id(self.motorway, v) || is_id(self.motorway_link, v) {
            Some(RoadKind::Motorway)
        } else if is_id(self.trunk, v) || is_id(self.trunk_link, v) {
            Some(RoadKind::Trunk)
        } else if is_id(self.primary, v) || is_id(self.primary_link, v) {
            Some(RoadKind::Primary)
        } else if is_id(self.service, v) {
            Some(RoadKind::Service)
        } else if is_id(self.secondary, v) || is_id(self.secondary_link, v) {
            Some(RoadKind::Secondary)
        } else if is_id(self.tertiary, v) || is_id(self.tertiary_link, v) {
            Some(RoadKind::Tertiary)
        } else if is_id(self.unclassified, v) {
            Some(RoadKind::Unclassified)
        } else if is_id(self.residential, v) {
            Some(RoadKind::Residential)
        } else if is_id(self.living_street, v) {
            Some(RoadKind::LivingStreet)
        } else if is_id(self.road, v) {
            Some(RoadKind::Unknown)
        } else if is_id(self.raceway, v) {
            Some(RoadKind::Raceway)
        } else {
            None
        }
    }

    fn railway_of(&self, v: u32) -> (r: Option<RoadKind>)
        ensures
            r == railway_kind(*self, v),
    {
        if is_id(self.rail, v) {
            Some(RoadKind::Rail)
        } else if is_id(self.light_rail, v) || is_id(self.narrow_gauge, v) {
            Some(RoadKind::RailMinor)
        } else {
            None
        }
    }

    /// What a way is: what the first of its tags that names a road or an area does.
    pub fn classify_way(&self, tags: &[Tag]) -> (r: ShapeClassification)
        ensures
            r == way_class(*self, tags@, 0),
    {
        let mut i: usize = 0;
        while i < tags.len()
            invariant
                i <= tags@.len(),
                way_class(*self, tags@, i as nat) == way_class(*self, tags@, 0),
            decreases tags@.len() - i,
        {
            if let Some(kind) = self.road_of_tag(&tags[i]) {
                return ShapeClassification::Road(kind);
            }
            if let Some(kind) = self.area_of_tag(&tags[i]) {
                return ShapeClassification::Area(kind);
            }
            i = i + 1;
        }
        ShapeClassification::Unknown
    }

    /// Area kind named by a single tag, if any.
    fn area_of_tag(&self, tag: &Tag) -> (r: Option<AreaKind>)
        ensures
            r == area_of(*self, *tag),
    {
        let natural: bool = is_id(self.natural, tag.key);
        let landuse: bool = is_id(self.landuse, tag.key);
        if natural && is_id(self.water, tag.value) {
            return Some(AreaKind::Water);
        }
        if is_id(self.building, tag.key) {
            return Some(AreaKind::Building);
        }
        if (natural && is_id(self.wood, tag.value)) || (landuse && is_id(self.forest, tag.value)) {
            return Some(AreaKind::Forest);
        }
        if (landuse && is_id(self.grass, tag.value)) || (landuse && is_id(self.meadow, tag.value)) || (
        is_id(self.leisure, tag.key) && is_id(self.park, tag.value)) {
            return Some(AreaKind::Grass);
        }
        None
    }

    /// What a relation is: what the first of its tags that names an area does.
    pub fn classify_relation(&self, tags: &[Tag]) -> (r: ShapeClassification)
        ensures
            r == relation_class(*self, tags@, 0),
    {
        let mut i: usize = 0;
        while i < tags.len()
            invariant
                i <= tags@.len(),
                relation_class(*self, tags@, i as nat) == relation_class(*self, tags@, 0),
            decreases tags@.len() - i,
        {
            if let Some(kind) = self.area_of_tag(&tags[i]) {
                return ShapeClassification::Area(kind);
            }
            i = i + 1;
        }
        ShapeClassification::Unknown
    }
}

/// The text of the first `building:levels` tag from `i` on.
pub open spec fn levels_in(tags: Seq<Tag>, strings: Seq<Vec<u8>>, i: nat) -> Option<Seq<char>>
    decreases tags.len() - i,
{
    if i >= tags.len() {
        None
    } else if is_string(strings, tags[i as int].key, "building:levels"@) {
        text_of(strings, tags[i as int].value)
    } else {
        levels_in(tags, strings, i + 1)
    }
}

/// The floor count of a way: 1 without a `building:levels` text.
pub open spec fn floors_from(tags: Seq<Tag>, strings: Seq<Vec<u8>>) -> u8 {
    match levels_in(tags, strings, 0) {
        Some(t) => floors_in(trimmed_bytes(t)),
        None => 1,
    }
}

/// A relation is what a way with the same tags is, where no tag names a road.
pub proof fn relation_classed_like_way(c: BlockShapeClassifier, tags: Seq<Tag>, i: nat)
    requires
        forall|k: int| i <= k < tags.len() ==> road_of(c, #[trigger] tags[k]) is None,
    ensures
        relation_class(c, tags, i) == way_class(c, tags, i),
    decreases tags.len() - i,
{
    if i < tags.len() {
        assert(road_of(c, tags[i as int]) is None);
        relation_classed_like_way(c, tags, i + 1);
    }
}

/// Different texts of a table have different ids.
proof fn lemma_ids_apart(strings: Seq<Vec<u8>>, a: Seq<char>, b: Seq<char>)
    requires
        strings.len() <= 0x1_0000_0000,
        a != b,
    ensures
        ({
            let ids = table_ids(strings, strings.len());
            id_in(ids, encode_utf8(a)) is Some ==> id_in(ids, encode_utf8(a)) != id_in(
                ids,
                encode_utf8(b),
            )
        }),
{
    utf8_roundtrip(a);
    utf8_roundtrip(b);
    table_ids_sound(strings, encode_utf8(a));
    table_ids_sound(strings, encode_utf8(b));
}

/// In a block a tag that names an area names no road.
proof fn lemma_area_is_no_road(strings: Seq<Vec<u8>>, tag: Tag)
    requires
        strings.len() <= 0x1_0000_0000,
        area_of(classifier_for(table_ids(strings, strings.len())), tag) is Some,
    ensures
        road_of(classifier_for(table_ids(strings, strings.len())), tag) is None,
{
    reveal(classifier_for);
    reveal_strlit("highway");
    reveal_strlit("railway");
    reveal_strlit("natural");
    reveal_strlit("building");
    reveal_strlit("landuse");
    reveal_strlit("leisure");
    assert("highway"@[0] == 'h' && "railway"@[0] == 'r');
    assert("natural"@[0] == 'n' && "building"@[0] == 'b');
    assert("landuse"@[0] == 'l' && "leisure"@[0] == 'l');
    lemma_ids_apart(strings, "natural"@, "highway"@);
    lemma_ids_apart(strings, "building"@, "highway"@);
    lemma_ids_apart(strings, "landuse"@, "highway"@);
    lemma_ids_apart(strings, "leisure"@, "highway"@);
    lemma_ids_apart(strings, "natural"@, "railway"@);
    lemma_ids_apart(strings, "building"@, "railway"@);
    lemma_ids_apart(strings, "landuse"@, "railway"@);
    lemma_ids_apart(strings, "leisure"@, "railway"@);
}

/// In a block a relation whose tags name areas or nothing is what a way with the same tags
/// is.
pub proof fn areas_classed_alike(strings: Seq<Vec<u8>>, tags: Seq<Tag>, i: nat)
    requires
        strings.len() <= 0x1_0000_0000,
        ({
            let c = classifier_for(table_ids(strings, strings.len()));
            forall|k: int|
                i <= k < tags.len() ==> area_of(c, #[trigger] tags[k]) is Some || way_class_of(
                    c,
                    tags[k],
                ) is None
        }),
    ensures
        ({
            let c = classifier_for(table_ids(strings, strings.len()));
            relation_class(c, tags, i) == way_class(c, tags, i)
        }),
{
    let c = classifier_for(table_ids(strings, strings.len()));
    assert forall|k: int| i <= k < tags.len() implies road_of(c, #[trigger] tags[k]) is None by {
        if area_of(c, tags[k]) is Some {
            lemma_area_is_no_road(strings, tags[k]);
        }
    }
    relation_classed_like_way(c, tags, i);
}

/// Tags that name nothing do not change what a way is.
pub proof fn unnamed_tags_do_not_matter(c: BlockShapeClassifier, tags: Seq<Tag>, i: nat)
    requires
        i <= tags.len(),
        forall|k: int| 0 <= k < i ==> way_class_of(c, #[trigger] tags[k]) is None,
    ensures
        way_class(c, tags, 0) == way_class(c, tags, i),
    decreases i,
{
    if i > 0 {
        unnamed_tags_do_not_matter(c, tags, (i - 1) as nat);
        assert(way_class_of(c, tags[i - 1]) is None);
    }
}

} // verus!
