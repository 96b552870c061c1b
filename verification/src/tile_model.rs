//! What a tile holds and the bytes it is stored as.
//!
//! A tile is described by its parts: the per-feature metadata, the coordinate
//! chains, the string table and the clip flags. Records are gathered into parts,
//! parts have one byte image, and an image is read back into parts and from them
//! into features.

use vstd::prelude::*;
use vstd::utf8::{decode_utf8, encode_utf8, valid_utf8};

use crate::bytes::{
    flat, i16_of, le_at, le_bytes, many_at, mask_bits, mask_bytes, mask_len, take_at,
};
use crate::feature::{AreaKind, EdgeNode, LabelClass, Lanes, PoiKind, RoadKind, RoadStructure};
use crate::record::{any_flag, vertex_total, GeometryView, Point, RecordView};
use crate::tileformat::{
    dezigzag_of, field, wire_all, wire_all_at, wire_at, zigzag_of, AreaMeta, LabelMeta, PoiMeta,
    RingMeta, RoadMeta, TileHeader, Wire, FLAG_RING_CLIP_MASK, NAME_NONE, TILE_VERSION,
};

verus! {

// ---- parts ----

/// The sections of a tile, before they are laid out.
pub struct TileParts {
    pub roads: Seq<RoadMeta>,
    pub areas: Seq<AreaMeta>,
    pub rings: Seq<RingMeta>,
    pub labels: Seq<LabelMeta>,
    pub pois: Seq<PoiMeta>,
    /// One chain per road.
    pub road_chains: Seq<Seq<Point>>,
    /// One chain per ring.
    pub ring_chains: Seq<Seq<Point>>,
    /// Each name once, in the order of first use.
    pub table: Seq<Seq<char>>,
    /// One flag per ring vertex, rings in order.
    pub flags: Seq<bool>,
}

pub open spec fn no_parts() -> TileParts {
    TileParts {
        roads: Seq::empty(),
        areas: Seq::empty(),
        rings: Seq::empty(),
        labels: Seq::empty(),
        pois: Seq::empty(),
        road_chains: Seq::empty(),
        ring_chains: Seq::empty(),
        table: Seq::empty(),
        flags: Seq::empty(),
    }
}

/// A count or index as 16 bits hold it.
pub open spec fn low16(n: nat) -> u16 {
    (n % 0x1_0000) as u16
}

/// The table with `name` in it.
pub open spec fn with_name(table: Seq<Seq<char>>, name: Seq<char>) -> Seq<Seq<char>> {
    if table.contains(name) {
        table
    } else {
        table.push(name)
    }
}

/// Where `name` stands in the table.
pub open spec fn name_slot(table: Seq<Seq<char>>, name: Seq<char>) -> nat {
    table.index_of(name) as nat
}

/// Vertex counts of rings, as stored.
pub open spec fn ring_metas_of(rings: Seq<Seq<Point>>) -> Seq<RingMeta> {
    Seq::new(rings.len(), |i: int| RingMeta { vertex_count: low16(rings[i].len()) })
}

/// One flag per ring vertex: an area without flags has none set.
pub open spec fn area_flags(rings: Seq<Seq<Point>>, clip: Seq<bool>) -> Seq<bool> {
    if clip.len() == 0 {
        Seq::new(vertex_total(rings), |i: int| false)
    } else {
        clip
    }
}

/// The parts with one more record.
pub open spec fn add_record(p: TileParts, r: RecordView) -> TileParts {
    match r.geometry {
        GeometryView::Road { kind, start, end, coords, lanes_forward, lanes_backward, name } => {
            let table = match name {
                Some(text) => with_name(p.table, text),
                None => p.table,
            };
            let meta = RoadMeta {
                kind: kind.ordinal(),
                caps: (start.ordinal() + 4 * end.ordinal()) as u8,
                layer: r.layer,
                lanes_forward,
                lanes_backward,
                _pad: 0,
                vertex_count: low16(coords.len()),
                name: match name {
                    Some(text) => low16(name_slot(table, text)),
                    None => NAME_NONE,
                },
            };
            TileParts {
                roads: p.roads.push(meta),
                road_chains: p.road_chains.push(coords),
                table,
                ..p
            }
        },
        GeometryView::Area { kind, floors, rings, clip } => {
            let meta = AreaMeta {
                kind: kind.ordinal(),
                layer: r.layer,
                floors,
                _pad: 0,
                first_ring: low16(p.rings.len()),
                ring_count: low16(rings.len()),
            };
            TileParts {
                areas: p.areas.push(meta),
                rings: p.rings + ring_metas_of(rings),
                ring_chains: p.ring_chains + rings,
                flags: p.flags + area_flags(rings, clip),
                ..p
            }
        },
        GeometryView::Label { class, anchor, name } => {
            let table = with_name(p.table, name);
            let meta = LabelMeta {
                class: class.ordinal(),
                rank: class.ordinal(),
                anchor_x: anchor.0,
                anchor_y: anchor.1,
                name: low16(name_slot(table, name)),
            };
            TileParts { labels: p.labels.push(meta), table, ..p }
        },
        GeometryView::Poi { kind, anchor } => {
            let meta = PoiMeta {
                kind: kind.ordinal(),
                _pad: 0,
                anchor_x: anchor.0,
                anchor_y: anchor.1,
            };
            TileParts { pois: p.pois.push(meta), ..p }
        },
    }
}

/// The parts of a tile made of `recs`, in order.
pub open spec fn parts_of(recs: Seq<RecordView>) -> TileParts
    decreases recs.len(),
{
    if recs.len() == 0 {
        no_parts()
    } else {
        add_record(parts_of(recs.drop_last()), recs.last())
    }
}

// ---- the byte image ----

/// The step to the last vertex: from the vertex before it, or from the origin.
pub open spec fn last_step(c: Seq<Point>) -> (int, int) {
    if c.len() >= 2 {
        (c.last().0 - c[c.len() - 2].0, c.last().1 - c[c.len() - 2].1)
    } else {
        (c.last().0 as int, c.last().1 as int)
    }
}

/// A chain as zig-zag deltas (first vertex = delta from origin).
pub open spec fn delta_bytes(c: Seq<Point>) -> Seq<u8>
    decreases c.len(),
{
    if c.len() == 0 {
        Seq::empty()
    } else {
        delta_bytes(c.drop_last()) + le_bytes(zigzag_of(last_step(c).0), 2) + le_bytes(
            zigzag_of(last_step(c).1),
            2,
        )
    }
}

pub open spec fn delta_image() -> spec_fn(Seq<Point>) -> Seq<u8> {
    |c: Seq<Point>| delta_bytes(c)
}

/// A string behind its 16-bit byte length.
pub open spec fn string_bytes(s: Seq<char>) -> Seq<u8> {
    le_bytes(encode_utf8(s).len() % 0x1_0000, 2) + encode_utf8(s)
}

pub open spec fn string_image() -> spec_fn(Seq<char>) -> Seq<u8> {
    |s: Seq<char>| string_bytes(s)
}

pub open spec fn header_of(p: TileParts, extent: u16) -> TileHeader {
    TileHeader {
        version: TILE_VERSION,
        flags: if any_flag(p.flags) {
            FLAG_RING_CLIP_MASK
        } else {
            0
        },
        extent,
        road_count: low16(p.roads.len()),
        area_count: low16(p.areas.len()),
        ring_count: low16(p.rings.len()),
        label_count: low16(p.labels.len()),
        poi_count: low16(p.pois.len()),
        string_count: low16(p.table.len()),
    }
}

/// The clip-mask section, absent where no vertex is clip-produced.
pub open spec fn clip_section(flags: Seq<bool>) -> Seq<u8> {
    if any_flag(flags) {
        mask_bytes(flags)
    } else {
        Seq::empty()
    }
}

/// The metadata sections.
pub open spec fn meta_section(p: TileParts) -> Seq<u8> {
    wire_all(p.roads) + wire_all(p.areas) + wire_all(p.rings) + wire_all(p.labels) + wire_all(
        p.pois,
    )
}

/// Everything behind the metadata.
pub open spec fn pool_section(p: TileParts) -> Seq<u8> {
    flat(delta_image(), p.road_chains) + flat(delta_image(), p.ring_chains) + flat(
        string_image(),
        p.table,
    ) + clip_section(p.flags)
}

/// The bytes of a tile.
pub open spec fn tile_bytes(p: TileParts, extent: u16) -> Seq<u8> {
    header_of(p, extent).to_wire() + meta_section(p) + pool_section(p)
}

// ---- reading an image ----

/// The sum of the first `n` deltas in a chain's bytes, for the coordinate at byte
/// `off` of each vertex.
pub open spec fn delta_sum(s: Seq<u8>, n: nat, off: int) -> int
    decreases n,
{
    if n == 0 {
        0
    } else {
        delta_sum(s, (n - 1) as nat, off) + dezigzag_of(field(s, 4 * (n - 1) + off, 2) as int)
    }
}

/// The vertices of a chain of `n` deltas: running sums, kept to 16 bits.
pub open spec fn chain_points(s: Seq<u8>, n: nat) -> Seq<Point> {
    Seq::new(
        n,
        |i: int|
            (i16_of(delta_sum(s, (i + 1) as nat, 0)), i16_of(delta_sum(s, (i + 1) as nat, 2))),
    )
}

#[verifier::opaque]
pub open spec fn delta_chain_at(s: Seq<u8>, n: nat) -> (Option<Seq<Point>>, Seq<u8>) {
    if 4 * n <= s.len() {
        (Some(chain_points(s, n)), s.skip(4 * n as int))
    } else {
        (None, s)
    }
}

/// Chains of the given lengths, one behind the other.
pub open spec fn delta_chains_at(s: Seq<u8>, counts: Seq<nat>) -> (
    Option<Seq<Seq<Point>>>,
    Seq<u8>,
)
    decreases counts.len(),
{
    if counts.len() == 0 {
        (Some(Seq::empty()), s)
    } else {
        match delta_chain_at(s, counts[0]) {
            (None, rest) => (None, rest),
            (Some(c), rest) => match delta_chains_at(rest, counts.skip(1)) {
                (None, rest) => (None, rest),
                (Some(cs), rest) => (Some(seq![c] + cs), rest),
            },
        }
    }
}

#[verifier::opaque]
pub open spec fn string_at(s: Seq<u8>) -> (Option<Seq<char>>, Seq<u8>) {
    match le_at(s, 2) {
        (None, rest) => (None, rest),
        (Some(n), rest) => match take_at(rest, n) {
            (None, rest) => (None, rest),
            (Some(b), rest) => if valid_utf8(b) {
                (Some(decode_utf8(b)), rest)
            } else {
                (None, rest)
            },
        },
    }
}

pub open spec fn string_reader() -> spec_fn(Seq<u8>) -> (Option<Seq<char>>, Seq<u8>) {
    |s: Seq<u8>| string_at(s)
}

pub open spec fn road_counts(metas: Seq<RoadMeta>) -> Seq<nat> {
    Seq::new(metas.len(), |i: int| metas[i].vertex_count as nat)
}

pub open spec fn ring_counts(metas: Seq<RingMeta>) -> Seq<nat> {
    Seq::new(metas.len(), |i: int| metas[i].vertex_count as nat)
}

pub open spec fn sum_of(counts: Seq<nat>) -> nat
    decreases counts.len(),
{
    if counts.len() == 0 {
        0
    } else {
        sum_of(counts.drop_last()) + counts.last()
    }
}

/// The metadata sections that a header announces.
pub open spec fn metas_at(s: Seq<u8>, h: TileHeader) -> (Option<TileParts>, Seq<u8>) {
    match wire_all_at::<RoadMeta>(s, h.road_count as nat) {
        (None, rest) => (None, rest),
        (Some(roads), rest) => match wire_all_at::<AreaMeta>(rest, h.area_count as nat) {
            (None, rest) => (None, rest),
            (Some(areas), rest) => match wire_all_at::<RingMeta>(rest, h.ring_count as nat) {
                (None, rest) => (None, rest),
                (Some(rings), rest) => match wire_all_at::<LabelMeta>(rest, h.label_count as nat) {
                    (None, rest) => (None, rest),
                    (Some(labels), rest) => match wire_all_at::<PoiMeta>(rest, h.poi_count as nat) {
                        (None, rest) => (None, rest),
                        (Some(pois), rest) => (
                            Some(TileParts { roads, areas, rings, labels, pois, ..no_parts() }),
                            rest,
                        ),
                    },
                },
            },
        },
    }
}

/// The flags behind the strings: `n` of them where the header announces a mask.
#[verifier::opaque]
pub open spec fn clip_at(s: Seq<u8>, h: TileHeader, n: nat) -> Option<Seq<bool>> {
    if h.flags % 2 == 1 {
        match take_at(s, mask_len(n)) {
            (Some(data), _) => Some(mask_bits(data, n)),
            (None, _) => None,
        }
    } else {
        Some(Seq::empty())
    }
}

/// The coordinate pool, strings and flags behind the metadata in `m`.
pub open spec fn pool_at(s: Seq<u8>, h: TileHeader, m: TileParts) -> Option<TileParts> {
    match delta_chains_at(s, road_counts(m.roads)) {
        (None, _) => None,
        (Some(road_chains), rest) => match delta_chains_at(rest, ring_counts(m.rings)) {
            (None, _) => None,
            (Some(ring_chains), rest) => match many_at(
                string_reader(),
                rest,
                h.string_count as nat,
            ) {
                (None, _) => None,
                (Some(table), rest) => match clip_at(rest, h, sum_of(ring_counts(m.rings))) {
                    None => None,
                    Some(flags) => Some(TileParts { road_chains, ring_chains, table, flags, ..m }),
                },
            },
        },
    }
}

/// The header and parts in an image.
pub open spec fn parts_at(s: Seq<u8>) -> Option<(TileHeader, TileParts)> {
    match wire_at::<TileHeader>(s) {
        (None, _) => None,
        (Some(h), rest) => match metas_at(rest, h) {
            (None, _) => None,
            (Some(m), rest) => match pool_at(rest, h, m) {
                None => None,
                Some(p) => Some((h, p)),
            },
        },
    }
}

// ---- features ----

pub struct RoadView {
    pub kind: RoadKind,
    pub layer: i8,
    pub lanes: Lanes,
    pub start: EdgeNode,
    pub end: EdgeNode,
    pub structure: RoadStructure,
    pub name: Option<Seq<char>>,
    pub coords: Seq<Point>,
}

pub struct AreaView {
    pub kind: AreaKind,
    pub layer: i8,
    pub floors: u8,
    pub rings: Seq<Seq<Point>>,
    pub clip: Seq<bool>,
}

pub struct LabelView {
    pub class: LabelClass,
    pub rank: u8,
    pub anchor: Point,
    pub name: Seq<char>,
}

pub struct PoiView {
    pub kind: PoiKind,
    pub anchor: Point,
}

pub struct TileContents {
    pub extent: u16,
    pub roads: Seq<RoadView>,
    pub areas: Seq<AreaView>,
    pub labels: Seq<LabelView>,
    pub pois: Seq<PoiView>,
}

/// The name at an index: none for the sentinel or an index past the table.
pub open spec fn name_at(table: Seq<Seq<char>>, index: u16) -> Option<Seq<char>> {
    if index != NAME_NONE && index < table.len() {
        Some(table[index as int])
    } else {
        None
    }
}

pub open spec fn road_of(p: TileParts, i: int) -> Option<RoadView> {
    let m = p.roads[i];
    match (
        RoadKind::from_u8(m.kind),
        EdgeNode::from_u8(m.caps % 4),
        EdgeNode::from_u8(m.caps / 4 % 4),
        RoadStructure::from_u8(m.caps / 16 % 4),
    ) {
        (Some(kind), Some(start), Some(end), Some(structure)) => Some(
            RoadView {
                kind,
                layer: m.layer,
                lanes: Lanes { forward: m.lanes_forward, backward: m.lanes_backward },
                start,
                end,
                structure,
                name: name_at(p.table, m.name),
                coords: p.road_chains[i],
            },
        ),
        _ => None,
    }
}

pub open spec fn area_of(p: TileParts, i: int) -> Option<AreaView> {
    let m = p.areas[i];
    let first = m.first_ring as int;
    let end = m.first_ring + m.ring_count;
    match AreaKind::from_u8(m.kind) {
        None => None,
        Some(kind) => if end > p.ring_chains.len() {
            None
        } else {
            Some(
                AreaView {
                    kind,
                    layer: m.layer,
                    floors: m.floors,
                    rings: p.ring_chains.subrange(first, end),
                    clip: if p.flags.len() == 0 {
                        Seq::empty()
                    } else {
                        p.flags.subrange(
                            sum_of(ring_counts(p.rings).take(first)) as int,
                            sum_of(ring_counts(p.rings).take(end)) as int,
                        )
                    },
                },
            )
        },
    }
}

pub open spec fn label_of(p: TileParts, i: int) -> Option<LabelView> {
    let m = p.labels[i];
    match LabelClass::from_u8(m.class) {
        None => None,
        Some(class) => Some(
            LabelView {
                class,
                rank: m.rank,
                anchor: (m.anchor_x, m.anchor_y),
                name: if m.name < p.table.len() {
                    p.table[m.name as int]
                } else {
                    Seq::empty()
                },
            },
        ),
    }
}

pub open spec fn poi_of(p: TileParts, i: int) -> Option<PoiView> {
    let m = p.pois[i];
    match PoiKind::from_u8(m.kind) {
        None => None,
        Some(kind) => Some(PoiView { kind, anchor: (m.anchor_x, m.anchor_y) }),
    }
}

/// Whether every feature of the parts can be made out.
pub open spec fn parts_readable(p: TileParts) -> bool {
    &&& forall|i: int| 0 <= i < p.roads.len() ==> (#[trigger] road_of(p, i)) is Some
    &&& forall|i: int| 0 <= i < p.areas.len() ==> (#[trigger] area_of(p, i)) is Some
    &&& forall|i: int| 0 <= i < p.labels.len() ==> (#[trigger] label_of(p, i)) is Some
    &&& forall|i: int| 0 <= i < p.pois.len() ==> (#[trigger] poi_of(p, i)) is Some
}

pub open spec fn contents_of(p: TileParts, extent: u16) -> TileContents {
    TileContents {
        extent,
        roads: Seq::new(p.roads.len(), |i: int| road_of(p, i)->0),
        areas: Seq::new(p.areas.len(), |i: int| area_of(p, i)->0),
        labels: Seq::new(p.labels.len(), |i: int| label_of(p, i)->0),
        pois: Seq::new(p.pois.len(), |i: int| poi_of(p, i)->0),
    }
}

/// What a tile image holds; nothing where it is truncated or malformed.
pub open spec fn tile_at(s: Seq<u8>) -> Option<TileContents> {
    match parts_at(s) {
        None => None,
        Some((h, p)) => if parts_readable(p) {
            Some(contents_of(p, h.extent))
        } else {
            None
        },
    }
}

} // verus!
