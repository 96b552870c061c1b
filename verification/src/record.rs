//! Intermediate spill record codec.
//!
//! One record = one shape clipped to one tile, in tile-local `i16` coordinates.
//! Byte-packed, little-endian, unaligned: optimized for write throughput and a
//! single sequential read.
//!
//! Layout:
//! ```text
//! tile_key : u64
//! tag      : u8      bit7 = Area, else bit6 = Label, else Road ; bits0..5 = kind ordinal
//! layer    : i8
//! Road:  caps : u8 (bits0..1 start, bits2..3 end) ; lanes forward, backward : u8 ;
//!        n : uvarint ; [i16 x, i16 y]·n ; name
//! Area:  floors : u8 ; rings: uvarint ; per ring { n : uvarint ; [i16 x, i16 y]·n }
//!        (ring 0 = outer) ; clip mask
//! Label: [i16 x, i16 y] ; name
//! ```
//! Counts are varints (1 byte for the common small fragment, unbounded for giant
//! rings). A name is a varint byte length and UTF-8 text, length 0 for none. A clip
//! mask is a `0` byte if no flag is set, else a `1` byte and one bit per ring vertex.

use vstd::prelude::*;
use vstd::utf8::{decode_utf8, encode_utf8, valid_utf8};

use crate::bytes::{
    bits_of_i16, bits_of_i8, bytes_to_vec, extends, flat, get_mask, i16_bits, i16_from_bits, i16_of,
    i8_bits, i8_from_bits, i8_of, le_at, le_bytes, le_extends, le_read_roundtrip, lemma_i16_bits,
    lemma_i8_bits, lemma_many_step, lemma_pow256_values, many_at, many_extends, many_roundtrip,
    mask_bits, mask_bytes, mask_len, mask_roundtrip, prepend, put_bytes, put_le, put_mask, read_le,
    read_u8, read_varint, string_from_utf8, take, take_at, take_extends, take_read_roundtrip, u8_at,
    u8_extends, utf8_roundtrip, uvarint_at, uvarint_extends, uvarint_read_roundtrip,
};
use crate::feature::{AreaKind, EdgeNode, LabelClass, PoiKind, RoadKind};
use crate::varint::{uvarint_bytes, write_uvarint};

verus! {

/// Tag byte: `AREA_FLAG` for an area, else `LABEL_FLAG` for a label, else road. The
/// low bits carry the kind/class ordinal.
pub const AREA_FLAG: u8 = 0x80;

pub const LABEL_FLAG: u8 = 0x40;

/// One clipped shape destined for a single tile.
#[derive(Debug, Clone, PartialEq)]
pub struct TileRecord {
    pub tile_key: u64,
    pub layer: i8,
    pub geometry: TileGeometry,
}

#[derive(Debug, Clone, PartialEq)]
pub enum TileGeometry {
    Road {
        kind: RoadKind,
        start: EdgeNode,
        end: EdgeNode,
        coords: Vec<[i16; 2]>,
        /// Lanes forward / backward relative to the coordinate direction.
        lanes_forward: u8,
        lanes_backward: u8,
        /// Name rendered along the line, if any.
        name: Option<String>,
    },
    Area {
        kind: AreaKind,
        /// Building floor count (`building:levels`, at least 1); meaningful only for
        /// `AreaKind::Building`.
        floors: u8,
        /// Ring 0 is the outer ring; the rest are holes.
        rings: Vec<Vec<[i16; 2]>>,
        /// One flag per ring vertex (rings concatenated in order): `true` where
        /// the vertex was produced by tile-boundary clipping. Empty means "none"
        /// (unclipped area).
        clip: Vec<bool>,
    },
    /// A point label: an anchor and text, emitted only in its home tile.
    Label { class: LabelClass, anchor: [i16; 2], name: String },
    /// A symbol at an anchor. It goes straight into a tile: the spill codec has no
    /// form for it.
    Poi { kind: PoiKind, anchor: [i16; 2] },
}

/// A point as a pair.
pub type Point = (i16, i16);

/// What a record holds.
pub struct RecordView {
    pub tile_key: u64,
    pub layer: i8,
    pub geometry: GeometryView,
}

pub enum GeometryView {
    Road {
        kind: RoadKind,
        start: EdgeNode,
        end: EdgeNode,
        coords: Seq<Point>,
        lanes_forward: u8,
        lanes_backward: u8,
        name: Option<Seq<char>>,
    },
    Area { kind: AreaKind, floors: u8, rings: Seq<Seq<Point>>, clip: Seq<bool> },
    Label { class: LabelClass, anchor: Point, name: Seq<char> },
    Poi { kind: PoiKind, anchor: Point },
}

pub open spec fn point_view(p: [i16; 2]) -> Point {
    (p[0], p[1])
}

pub open spec fn coords_view(c: Seq<[i16; 2]>) -> Seq<Point> {
    Seq::new(c.len(), |i: int| point_view(c[i]))
}

pub open spec fn rings_view(r: Seq<Vec<[i16; 2]>>) -> Seq<Seq<Point>> {
    Seq::new(r.len(), |i: int| coords_view(r[i]@))
}

pub open spec fn name_view(n: Option<String>) -> Option<Seq<char>> {
    match n {
        Some(s) => Some(s@),
        None => None,
    }
}

impl View for TileGeometry {
    type V = GeometryView;

    open spec fn view(&self) -> GeometryView {
        match *self {
            TileGeometry::Road { kind, start, end, coords, lanes_forward, lanes_backward, name } =>
            GeometryView::Road {
                kind,
                start,
                end,
                coords: coords_view(coords@),
                lanes_forward,
                lanes_backward,
                name: name_view(name),
            },
            TileGeometry::Area { kind, floors, rings, clip } => GeometryView::Area {
                kind,
                floors,
                rings: rings_view(rings@),
                clip: clip@,
            },
            TileGeometry::Label { class, anchor, name } => GeometryView::Label {
                class,
                anchor: point_view(anchor),
                name: name@,
            },
            TileGeometry::Poi { kind, anchor } => GeometryView::Poi {
                kind,
                anchor: point_view(anchor),
            },
        }
    }
}

impl View for TileRecord {
    type V = RecordView;

    open spec fn view(&self) -> RecordView {
        RecordView { tile_key: self.tile_key, layer: self.layer, geometry: self.geometry@ }
    }
}

// ---- the byte image of a record ----

pub open spec fn point_bytes(p: Point) -> Seq<u8> {
    le_bytes(i16_bits(p.0), 2) + le_bytes(i16_bits(p.1), 2)
}

pub open spec fn point_image() -> spec_fn(Point) -> Seq<u8> {
    |p: Point| point_bytes(p)
}

/// A counted chain of points.
#[verifier::opaque]
pub open spec fn chain_bytes(c: Seq<Point>) -> Seq<u8> {
    uvarint_bytes(c.len()) + flat(point_image(), c)
}

pub open spec fn chain_image() -> spec_fn(Seq<Point>) -> Seq<u8> {
    |c: Seq<Point>| chain_bytes(c)
}

/// Text behind its byte length; no text has length 0.
#[verifier::opaque]
pub open spec fn text_bytes(name: Option<Seq<char>>) -> Seq<u8> {
    let utf8 = match name {
        Some(s) => encode_utf8(s),
        None => Seq::empty(),
    };
    uvarint_bytes(utf8.len()) + utf8
}

pub open spec fn any_flag(bits: Seq<bool>) -> bool {
    exists|i: int| 0 <= i < bits.len() && #[trigger] bits[i]
}

/// A mask: a `0` byte where no flag is set, else a `1` byte and the packed flags.
#[verifier::opaque]
pub open spec fn flags_bytes(bits: Seq<bool>) -> Seq<u8> {
    if any_flag(bits) {
        seq![1u8] + mask_bytes(bits)
    } else {
        seq![0u8]
    }
}

/// The tag byte of a geometry.
pub open spec fn geometry_tag(g: GeometryView) -> u8 {
    match g {
        GeometryView::Road { kind, .. } => kind.ordinal(),
        GeometryView::Area { kind, .. } => (AREA_FLAG + kind.ordinal()) as u8,
        GeometryView::Label { class, .. } => (LABEL_FLAG + class.ordinal()) as u8,
        GeometryView::Poi { .. } => 0,
    }
}

/// What follows the tag and the layer. A symbol has no image.
pub open spec fn geometry_bytes(g: GeometryView) -> Seq<u8> {
    match g {
        GeometryView::Road { kind, start, end, coords, lanes_forward, lanes_backward, name } => seq![
            (start.ordinal() + 4 * end.ordinal()) as u8,
            lanes_forward,
            lanes_backward,
        ] + chain_bytes(coords) + text_bytes(name),
        GeometryView::Area { kind, floors, rings, clip } => seq![floors] + uvarint_bytes(
            rings.len(),
        ) + flat(chain_image(), rings) + flags_bytes(clip),
        GeometryView::Label { class, anchor, name } => point_bytes(anchor) + text_bytes(Some(name)),
        GeometryView::Poi { .. } => Seq::empty(),
    }
}

pub open spec fn record_bytes(r: RecordView) -> Seq<u8> {
    le_bytes(r.tile_key as nat, 8) + seq![geometry_tag(r.geometry), i8_bits(r.layer) as u8]
        + geometry_bytes(r.geometry)
}

pub open spec fn record_image() -> spec_fn(RecordView) -> Seq<u8> {
    |r: RecordView| record_bytes(r)
}

// ---- reading a record ----

pub open spec fn i16_at(s: Seq<u8>) -> (Option<i16>, Seq<u8>) {
    match le_at(s, 2) {
        (Some(v), rest) => (Some(i16_of(v as int)), rest),
        (None, rest) => (None, rest),
    }
}

pub open spec fn point_at(s: Seq<u8>) -> (Option<Point>, Seq<u8>) {
    match i16_at(s) {
        (None, rest) => (None, rest),
        (Some(x), rest) => match i16_at(rest) {
            (None, rest) => (None, rest),
            (Some(y), rest) => (Some((x, y)), rest),
        },
    }
}

pub open spec fn point_reader() -> spec_fn(Seq<u8>) -> (Option<Point>, Seq<u8>) {
    |s: Seq<u8>| point_at(s)
}

#[verifier::opaque]
pub open spec fn chain_at(s: Seq<u8>) -> (Option<Seq<Point>>, Seq<u8>) {
    match uvarint_at(s) {
        (None, rest) => (None, rest),
        (Some(n), rest) => many_at(point_reader(), rest, n as nat),
    }
}

pub open spec fn chain_reader() -> spec_fn(Seq<u8>) -> (Option<Seq<Point>>, Seq<u8>) {
    |s: Seq<u8>| chain_at(s)
}

#[verifier::opaque]
pub open spec fn text_at(s: Seq<u8>) -> (Option<Option<Seq<char>>>, Seq<u8>) {
    match uvarint_at(s) {
        (None, rest) => (None, rest),
        (Some(n), rest) => match take_at(rest, n as nat) {
            (None, rest) => (None, rest),
            (Some(b), rest) => if n == 0 {
                (Some(None), rest)
            } else if valid_utf8(b) {
                (Some(Some(decode_utf8(b))), rest)
            } else {
                (None, rest)
            },
        },
    }
}

#[verifier::opaque]
pub open spec fn flags_at(s: Seq<u8>, n: nat) -> (Option<Seq<bool>>, Seq<u8>) {
    match u8_at(s) {
        (None, rest) => (None, rest),
        (Some(flag), rest) => if flag == 0 {
            (Some(Seq::empty()), rest)
        } else {
            match take_at(rest, mask_len(n)) {
                (None, rest) => (None, rest),
                (Some(data), rest) => (Some(mask_bits(data, n)), rest),
            }
        },
    }
}

/// The number of vertices in all rings.
pub open spec fn vertex_total(rings: Seq<Seq<Point>>) -> nat
    decreases rings.len(),
{
    if rings.len() == 0 {
        0
    } else {
        vertex_total(rings.drop_last()) + rings.last().len()
    }
}

pub open spec fn area_at(s: Seq<u8>, ord: u8) -> (Option<GeometryView>, Seq<u8>) {
    match AreaKind::from_u8(ord) {
        None => (None, s),
        Some(kind) => match u8_at(s) {
            (None, rest) => (None, rest),
            (Some(floors), rest) => match uvarint_at(rest) {
                (None, rest) => (None, rest),
                (Some(n), rest) => match many_at(chain_reader(), rest, n as nat) {
                    (None, rest) => (None, rest),
                    (Some(rings), rest) => match flags_at(rest, vertex_total(rings)) {
                        (None, rest) => (None, rest),
                        (Some(clip), rest) => (
                            Some(GeometryView::Area { kind, floors, rings, clip }),
                            rest,
                        ),
                    },
                },
            },
        },
    }
}

pub open spec fn label_at(s: Seq<u8>, ord: u8) -> (Option<GeometryView>, Seq<u8>) {
    match LabelClass::from_u8(ord) {
        None => (None, s),
        Some(class) => match point_at(s) {
            (None, rest) => (None, rest),
            (Some(anchor), rest) => match text_at(rest) {
                (None, rest) => (None, rest),
                (Some(name), rest) => (
                    Some(
                        GeometryView::Label {
                            class,
                            anchor,
                            name: match name {
                                Some(text) => text,
                                None => Seq::empty(),
                            },
                        },
                    ),
                    rest,
                ),
            },
        },
    }
}

pub open spec fn road_at(s: Seq<u8>, ord: u8) -> (Option<GeometryView>, Seq<u8>) {
    match RoadKind::from_u8(ord) {
        None => (None, s),
        Some(kind) => match u8_at(s) {
            (None, rest) => (None, rest),
            (Some(caps), rest) => match (
                EdgeNode::from_u8(caps % 4),
                EdgeNode::from_u8(caps / 4 % 4),
            ) {
                (Some(start), Some(end)) => match u8_at(rest) {
                    (None, rest) => (None, rest),
                    (Some(lanes_forward), rest) => match u8_at(rest) {
                        (None, rest) => (None, rest),
                        (Some(lanes_backward), rest) => match chain_at(rest) {
                            (None, rest) => (None, rest),
                            (Some(coords), rest) => match text_at(rest) {
                                (None, rest) => (None, rest),
                                (Some(name), rest) => (
                                    Some(
                                        GeometryView::Road {
                                            kind,
                                            start,
                                            end,
                                            coords,
                                            lanes_forward,
                                            lanes_backward,
                                            name,
                                        },
                                    ),
                                    rest,
                                ),
                            },
                        },
                    },
                },
                _ => (None, rest),
            },
        },
    }
}

/// The geometry behind a tag.
pub open spec fn geometry_at(s: Seq<u8>, tag: u8) -> (Option<GeometryView>, Seq<u8>) {
    if tag >= AREA_FLAG {
        area_at(s, tag % 64)
    } else if tag >= LABEL_FLAG {
        label_at(s, tag % 64)
    } else {
        road_at(s, tag % 64)
    }
}

/// The record at the front of `s`; nothing where it is truncated or malformed. The
/// bytes left behind start where the read stopped.
pub open spec fn record_at(s: Seq<u8>) -> (Option<RecordView>, Seq<u8>) {
    match le_at(s, 8) {
        (None, rest) => (None, rest),
        (Some(key), rest) => match u8_at(rest) {
            (None, rest) => (None, rest),
            (Some(tag), rest) => match u8_at(rest) {
                (None, rest) => (None, rest),
                (Some(layer), rest) => match geometry_at(rest, tag) {
                    (None, rest) => (None, rest),
                    (Some(geometry), rest) => (
                        Some(
                            RecordView {
                                tile_key: key as u64,
                                layer: i8_of(layer as int),
                                geometry,
                            },
                        ),
                        rest,
                    ),
                },
            },
        },
    }
}

pub open spec fn record_reader() -> spec_fn(Seq<u8>) -> (Option<RecordView>, Seq<u8>) {
    |s: Seq<u8>| record_at(s)
}

// ---- laws ----

proof fn lemma_point_roundtrip(p: Point, tail: Seq<u8>)
    ensures
        point_at(point_bytes(p) + tail) == (Some(p), tail),
{
    lemma_pow256_values();
    lemma_i16_bits(p.0);
    lemma_i16_bits(p.1);
    let second = le_bytes(i16_bits(p.1), 2);
    le_read_roundtrip(i16_bits(p.0), 2, second + tail);
    le_read_roundtrip(i16_bits(p.1), 2, tail);
    assert(point_bytes(p) + tail =~= le_bytes(i16_bits(p.0), 2) + (second + tail));
}

proof fn lemma_chain_roundtrip(c: Seq<Point>, tail: Seq<u8>)
    requires
        c.len() <= u64::MAX,
    ensures
        chain_at(chain_bytes(c) + tail) == (Some(c), tail),
{
    reveal(chain_bytes);
    reveal(chain_at);
    let body = flat(point_image(), c);
    assert(chain_bytes(c) + tail =~= uvarint_bytes(c.len()) + (body + tail));
    uvarint_read_roundtrip(c.len() as u64, body + tail);
    assert forall|i: int, t: Seq<u8>| 0 <= i < c.len() implies #[trigger] point_reader()(
        point_image()(c[i]) + t,
    ) == (Some(c[i]), t) by {
        lemma_point_roundtrip(c[i], t);
    }
    many_roundtrip(point_reader(), point_image(), c, tail);
}

proof fn lemma_text_roundtrip(name: Option<Seq<char>>, tail: Seq<u8>)
    requires
        name matches Some(s) ==> encode_utf8(s).len() <= u64::MAX,
    ensures
        text_at(text_bytes(name) + tail) == (
            if name == Some(Seq::<char>::empty()) {
                Some(None::<Seq<char>>)
            } else {
                Some(name)
            },
            tail,
        ),
{
    reveal(text_bytes);
    reveal(text_at);
    let utf8 = match name {
        Some(s) => encode_utf8(s),
        None => Seq::empty(),
    };
    assert(text_bytes(name) + tail =~= uvarint_bytes(utf8.len()) + (utf8 + tail));
    uvarint_read_roundtrip(utf8.len() as u64, utf8 + tail);
    take_read_roundtrip(utf8, tail);
    if let Some(s) = name {
        utf8_roundtrip(s);
        if utf8.len() == 0 {
            utf8_roundtrip(Seq::empty());
            assert(encode_utf8(Seq::<char>::empty()) =~= Seq::<u8>::empty());
            assert(utf8 =~= Seq::<u8>::empty());
            assert(s == Seq::<char>::empty());
        } else if s =~= Seq::<char>::empty() {
            assert(encode_utf8(Seq::<char>::empty()) =~= Seq::<u8>::empty());
        }
    }
}

proof fn lemma_flags_roundtrip(bits: Seq<bool>, tail: Seq<u8>)
    ensures
        any_flag(bits) ==> flags_at(flags_bytes(bits) + tail, bits.len()) == (Some(bits), tail),
        !any_flag(bits) ==> forall|n: nat| #[trigger]
            flags_at(flags_bytes(bits) + tail, n) == (Some(Seq::<bool>::empty()), tail),
{
    reveal(flags_bytes);
    reveal(flags_at);
    let s = flags_bytes(bits) + tail;
    if any_flag(bits) {
        mask_roundtrip(bits);
        take_read_roundtrip(mask_bytes(bits), tail);
        assert(s.skip(1) =~= mask_bytes(bits) + tail);
        assert(s[0] == 1);
    } else {
        assert(s.skip(1) =~= tail);
        assert(s[0] == 0);
    }
}

/// What the codec can carry: no symbol, no empty name on a road, clip flags that
/// are absent or one per ring vertex with at least one of them set, and lengths
/// that fit 64 bits.
pub open spec fn spillable(r: RecordView) -> bool {
    match r.geometry {
        GeometryView::Road { coords, name, .. } => coords.len() <= u64::MAX && (name matches Some(s)
            ==> s.len() > 0 && encode_utf8(s).len() <= u64::MAX),
        GeometryView::Area { rings, clip, .. } => rings.len() <= u64::MAX && (forall|i: int|
            0 <= i < rings.len() ==> (#[trigger] rings[i]).len() <= u64::MAX) && (clip.len() == 0
            || (clip.len() == vertex_total(rings) && any_flag(clip))),
        GeometryView::Label { name, .. } => encode_utf8(name).len() <= u64::MAX,
        GeometryView::Poi { .. } => false,
    }
}

proof fn lemma_road_roundtrip(r: RecordView, tail: Seq<u8>)
    requires
        spillable(r),
        r.geometry is Road,
    ensures
        geometry_at(geometry_bytes(r.geometry) + tail, geometry_tag(r.geometry)) == (
            Some(r.geometry),
            tail,
        ),
{
    let s = geometry_bytes(r.geometry) + tail;
    if let GeometryView::Road { kind, start, end, coords, lanes_forward, lanes_backward, name } =
        r.geometry {
        kind.ordinal_roundtrip(kind, 0);
        start.ordinal_roundtrip(end, 0);
        end.ordinal_roundtrip(start, 0);
        let caps = (start.ordinal() + 4 * end.ordinal()) as u8;
        let t3 = text_bytes(name) + tail;
        let t2 = chain_bytes(coords) + t3;
        lemma_text_roundtrip(name, tail);
        lemma_chain_roundtrip(coords, t3);
        assert(s =~= seq![caps, lanes_forward, lanes_backward] + t2);
        assert(s.skip(1).skip(1).skip(1) =~= t2);
        assert(s[0] == caps);
        assert(s.skip(1)[0] == lanes_forward);
        assert(s.skip(1).skip(1)[0] == lanes_backward);
        assert(caps % 4 == start.ordinal());
        assert(caps / 4 % 4 == end.ordinal());
    }
}

proof fn lemma_area_roundtrip(r: RecordView, tail: Seq<u8>)
    requires
        spillable(r),
        r.geometry is Area,
    ensures
        geometry_at(geometry_bytes(r.geometry) + tail, geometry_tag(r.geometry)) == (
            Some(r.geometry),
            tail,
        ),
{
    let s = geometry_bytes(r.geometry) + tail;
    if let GeometryView::Area { kind, floors, rings, clip } = r.geometry {
        kind.ordinal_roundtrip(kind, 0);
        let t3 = flags_bytes(clip) + tail;
        let t2 = flat(chain_image(), rings) + t3;
        let t1 = uvarint_bytes(rings.len()) + t2;
        lemma_flags_roundtrip(clip, tail);
        if clip.len() == 0 {
            assert(!any_flag(clip));
            assert(clip =~= Seq::empty());
        }
        assert(flags_at(t3, vertex_total(rings)) == (Some(clip), tail));
        assert forall|i: int, t: Seq<u8>| 0 <= i < rings.len() implies #[trigger] chain_reader()(
            chain_image()(rings[i]) + t,
        ) == (Some(rings[i]), t) by {
            lemma_chain_roundtrip(rings[i], t);
        }
        many_roundtrip(chain_reader(), chain_image(), rings, t3);
        uvarint_read_roundtrip(rings.len() as u64, t2);
        assert(s =~= seq![floors] + t1);
        assert(s.skip(1) =~= t1);
        assert(s[0] == floors);
    }
}

proof fn lemma_label_roundtrip(r: RecordView, tail: Seq<u8>)
    requires
        spillable(r),
        r.geometry is Label,
    ensures
        geometry_at(geometry_bytes(r.geometry) + tail, geometry_tag(r.geometry)) == (
            Some(r.geometry),
            tail,
        ),
{
    let s = geometry_bytes(r.geometry) + tail;
    if let GeometryView::Label { class, anchor, name } = r.geometry {
        class.ordinal_roundtrip(class, 0);
        let t2 = text_bytes(Some(name)) + tail;
        lemma_text_roundtrip(Some(name), tail);
        lemma_point_roundtrip(anchor, t2);
        assert(s =~= point_bytes(anchor) + t2);
        if name == Seq::<char>::empty() {
            assert(name =~= Seq::empty());
        }
    }
}

/// Decoding an encoded record gives the record back and stops right behind it,
/// whatever follows.
pub proof fn record_roundtrip(r: RecordView, tail: Seq<u8>)
    requires
        spillable(r),
    ensures
        record_at(record_bytes(r) + tail) == (Some(r), tail),
{
    lemma_pow256_values();
    lemma_i8_bits(r.layer);
    let key = le_bytes(r.tile_key as nat, 8);
    let body = geometry_bytes(r.geometry) + tail;
    let head = seq![geometry_tag(r.geometry), i8_bits(r.layer) as u8] + body;
    assert(record_bytes(r) + tail =~= key + head);
    le_read_roundtrip(r.tile_key as nat, 8, head);
    assert(head.skip(1).skip(1) =~= body);
    assert(head[0] == geometry_tag(r.geometry));
    assert(head.skip(1)[0] == i8_bits(r.layer) as u8);
    match r.geometry {
        GeometryView::Road { .. } => {
            lemma_road_roundtrip(r, tail);
        },
        GeometryView::Area { .. } => {
            lemma_area_roundtrip(r, tail);
        },
        GeometryView::Label { .. } => {
            lemma_label_roundtrip(r, tail);
        },
        GeometryView::Poi { .. } => {},
    }
}

/// Records written one behind the other decode back to back.
pub proof fn record_stream_roundtrip(rs: Seq<RecordView>, tail: Seq<u8>)
    requires
        forall|i: int| 0 <= i < rs.len() ==> spillable(#[trigger] rs[i]),
    ensures
        many_at(record_reader(), flat(record_image(), rs) + tail, rs.len()) == (Some(rs), tail),
{
    assert forall|i: int, t: Seq<u8>| 0 <= i < rs.len() implies #[trigger] record_reader()(
        record_image()(rs[i]) + t,
    ) == (Some(rs[i]), t) by {
        record_roundtrip(rs[i], t);
    }
    many_roundtrip(record_reader(), record_image(), rs, tail);
}

// ---- truncated records ----

proof fn lemma_point_extends(s: Seq<u8>, tail: Seq<u8>)
    ensures
        extends(point_at(s), point_at(s + tail), tail),
{
    le_extends(s, 2, tail);
    le_extends(le_at(s, 2).1, 2, tail);
}

proof fn lemma_chain_extends(s: Seq<u8>, tail: Seq<u8>)
    ensures
        extends(chain_at(s), chain_at(s + tail), tail),
{
    reveal(chain_at);
    uvarint_extends(s, tail);
    if let (Some(n), rest) = uvarint_at(s) {
        assert forall|t: Seq<u8>| extends(
            point_reader()(t),
            #[trigger] point_reader()(t + tail),
            tail,
        ) by {
            lemma_point_extends(t, tail);
        }
        many_extends(point_reader(), rest, n as nat, tail);
    }
}

proof fn lemma_text_extends(s: Seq<u8>, tail: Seq<u8>)
    ensures
        extends(text_at(s), text_at(s + tail), tail),
{
    reveal(text_at);
    uvarint_extends(s, tail);
    if let (Some(n), rest) = uvarint_at(s) {
        take_extends(rest, n as nat, tail);
    }
}

proof fn lemma_flags_extend(s: Seq<u8>, n: nat, tail: Seq<u8>)
    ensures
        extends(flags_at(s, n), flags_at(s + tail, n), tail),
{
    reveal(flags_at);
    u8_extends(s, tail);
    take_extends(u8_at(s).1, mask_len(n), tail);
}

proof fn lemma_area_extends(s: Seq<u8>, ord: u8, tail: Seq<u8>)
    ensures
        extends(area_at(s, ord), area_at(s + tail, ord), tail),
{
    u8_extends(s, tail);
    let s1 = u8_at(s).1;
    uvarint_extends(s1, tail);
    if let (Some(n), s2) = uvarint_at(s1) {
        assert forall|t: Seq<u8>| extends(
            chain_reader()(t),
            #[trigger] chain_reader()(t + tail),
            tail,
        ) by {
            lemma_chain_extends(t, tail);
        }
        many_extends(chain_reader(), s2, n as nat, tail);
        if let (Some(rings), s3) = many_at(chain_reader(), s2, n as nat) {
            lemma_flags_extend(s3, vertex_total(rings), tail);
        }
    }
}

proof fn lemma_label_extends(s: Seq<u8>, ord: u8, tail: Seq<u8>)
    ensures
        extends(label_at(s, ord), label_at(s + tail, ord), tail),
{
    lemma_point_extends(s, tail);
    lemma_text_extends(point_at(s).1, tail);
}

proof fn lemma_road_extends(s: Seq<u8>, ord: u8, tail: Seq<u8>)
    ensures
        extends(road_at(s, ord), road_at(s + tail, ord), tail),
{
    u8_extends(s, tail);
    let s1 = u8_at(s).1;
    u8_extends(s1, tail);
    let s2 = u8_at(s1).1;
    u8_extends(s2, tail);
    let s3 = u8_at(s2).1;
    lemma_chain_extends(s3, tail);
    lemma_text_extends(chain_at(s3).1, tail);
}

/// A record that reads from some bytes reads the same whatever follows them.
pub proof fn record_extends(s: Seq<u8>, tail: Seq<u8>)
    ensures
        extends(record_at(s), record_at(s + tail), tail),
{
    le_extends(s, 8, tail);
    let s1 = le_at(s, 8).1;
    u8_extends(s1, tail);
    let (tag, s2) = u8_at(s1);
    u8_extends(s2, tail);
    let s3 = u8_at(s2).1;
    if let Some(tag) = tag {
        lemma_area_extends(s3, tag % 64, tail);
        lemma_label_extends(s3, tag % 64, tail);
        lemma_road_extends(s3, tag % 64, tail);
    }
}

/// A record cut short at any byte reads as nothing.
pub proof fn truncated_record_refused(r: RecordView, cut: nat)
    requires
        spillable(r),
        cut < record_bytes(r).len(),
    ensures
        record_at(record_bytes(r).take(cut as int)).0 is None,
{
    let s = record_bytes(r);
    let tail = s.skip(cut as int);
    record_roundtrip(r, Seq::empty());
    assert(s + Seq::<u8>::empty() =~= s);
    record_extends(s.take(cut as int), tail);
    assert(s.take(cut as int) + tail =~= s);
    if record_at(s.take(cut as int)).0 is Some {
        assert((record_at(s.take(cut as int)).1 + tail).len() > 0);
    }
}

// ---- the codec ----

/// Append `record`'s bytes to `buf`.
pub fn encode(buf: &mut Vec<u8>, record: &TileRecord)
    requires
        !(record.geometry is Poi),
    ensures
        final(buf)@ == old(buf)@ + record_bytes(record@),
{
    put_le(buf, record.tile_key, 8);
    match &record.geometry {
        TileGeometry::Road { kind, start, end, coords, lanes_forward, lanes_backward, name } => {
            buf.push(kind.to_u8());
            buf.push(bits_of_i8(record.layer));
            proof {
                start.ordinal_roundtrip(*end, 0);
                end.ordinal_roundtrip(*start, 0);
            }
            buf.push(start.to_u8() + 4 * end.to_u8());
            buf.push(*lanes_forward);
            buf.push(*lanes_backward);
            write_chain(buf, coords);
            match name {
                Some(text) => write_opt_str(buf, Some(text.as_str())),
                None => write_opt_str(buf, None),
            }
            assert(buf@ =~= old(buf)@ + record_bytes(record@));
        },
        TileGeometry::Area { kind, floors, rings, clip } => {
            proof {
                kind.ordinal_roundtrip(*kind, 0);
            }
            buf.push(AREA_FLAG + kind.to_u8());
            buf.push(bits_of_i8(record.layer));
            buf.push(*floors);
            write_uvarint(buf, rings.len() as u64);
            let ghost before = buf@;
            let ghost model = rings_view(rings@);
            let mut i: usize = 0;
            assert(buf@ =~= before + flat(chain_image(), model.take(0)));
            while i < rings.len()
                invariant
                    i <= rings@.len(),
                    model == rings_view(rings@),
                    buf@ == before + flat(chain_image(), model.take(i as int)),
                decreases rings@.len() - i,
            {
                write_chain(buf, &rings[i]);
                i = i + 1;
                proof {
                    let done = model.take(i as int);
                    assert(done.drop_last() =~= model.take(i - 1));
                    assert(done.last() == coords_view(rings@[i - 1]@));
                    assert(buf@ =~= before + flat(chain_image(), done));
                }
            }
            assert(model.take(i as int) =~= model);
            write_bitmask(buf, clip);
            assert(buf@ =~= old(buf)@ + record_bytes(record@));
        },
        TileGeometry::Label { class, anchor, name } => {
            proof {
                class.ordinal_roundtrip(*class, 0);
            }
            buf.push(LABEL_FLAG + class.to_u8());
            buf.push(bits_of_i8(record.layer));
            put_le(buf, bits_of_i16(anchor[0]) as u64, 2);
            put_le(buf, bits_of_i16(anchor[1]) as u64, 2);
            write_opt_str(buf, Some(name.as_str()));
            assert(buf@ =~= old(buf)@ + record_bytes(record@));
        },
        TileGeometry::Poi { .. } => {},
    }
}

fn write_chain(buf: &mut Vec<u8>, coords: &Vec<[i16; 2]>)
    ensures
        final(buf)@ == old(buf)@ + chain_bytes(coords_view(coords@)),
{
    proof {
        reveal(chain_bytes);
    }
    write_uvarint(buf, coords.len() as u64);
    write_coords(buf, coords);
    assert(buf@ =~= old(buf)@ + chain_bytes(coords_view(coords@)));
}

fn write_coords(buf: &mut Vec<u8>, coords: &Vec<[i16; 2]>)
    ensures
        final(buf)@ == old(buf)@ + flat(point_image(), coords_view(coords@)),
{
    let ghost model = coords_view(coords@);
    let mut i: usize = 0;
    assert(buf@ =~= buf@ + flat(point_image(), model.take(0)));
    while i < coords.len()
        invariant
            i <= coords@.len(),
            model == coords_view(coords@),
            buf@ == old(buf)@ + flat(point_image(), model.take(i as int)),
        decreases coords@.len() - i,
    {
        put_le(buf, bits_of_i16(coords[i][0]) as u64, 2);
        put_le(buf, bits_of_i16(coords[i][1]) as u64, 2);
        i = i + 1;
        proof {
            let done = model.take(i as int);
            assert(done.drop_last() =~= model.take(i - 1));
            assert(done.last() == point_view(coords@[i - 1]));
            assert(buf@ =~= old(buf)@ + flat(point_image(), done));
        }
    }
    assert(model.take(i as int) =~= model);
}

/// Write an optional string as `uvarint len` + UTF-8 bytes (`None` = len 0).
fn write_opt_str(buf: &mut Vec<u8>, s: Option<&str>)
    ensures
        final(buf)@ == old(buf)@ + text_bytes(
            match s {
                Some(t) => Some(t@),
                None => None,
            },
        ),
{
    proof {
        reveal(text_bytes);
    }
    match s {
        Some(t) => {
            let utf8: &[u8] = t.as_bytes();
            write_uvarint(buf, utf8.len() as u64);
            put_bytes(buf, utf8);
            assert(buf@ =~= old(buf)@ + text_bytes(Some(t@)));
        },
        None => {
            write_uvarint(buf, 0);
            assert(buf@ =~= old(buf)@ + text_bytes(None));
        },
    }
}

/// Whether any flag is set.
pub fn has_flag(bits: &[bool]) -> (r: bool)
    ensures
        r == any_flag(bits@),
{
    let mut i: usize = 0;
    while i < bits.len()
        invariant
            i <= bits@.len(),
            forall|k: int| 0 <= k < i ==> !#[trigger] bits@[k],
        decreases bits@.len() - i,
    {
        if bits[i] {
            return true;
        }
        i = i + 1;
    }
    false
}

/// Write a bit-per-flag mask: a leading `0` byte if all flags are false (the
/// common unclipped case), else `1` followed by `ceil(len/8)` packed bytes.
fn write_bitmask(buf: &mut Vec<u8>, bits: &Vec<bool>)
    ensures
        final(buf)@ == old(buf)@ + flags_bytes(bits@),
{
    proof {
        reveal(flags_bytes);
    }
    if !has_flag(bits) {
        buf.push(0);
        assert(buf@ =~= old(buf)@ + flags_bytes(bits@));
        return;
    }
    buf.push(1);
    put_mask(buf, bits);
    assert(buf@ =~= old(buf)@ + flags_bytes(bits@));
}

/// Decode one record from the front of `cursor`, advancing it. Returns `None`
/// on a truncated or malformed record, with the cursor where the read stopped.
pub fn decode(cursor: &mut &[u8]) -> (r: Option<TileRecord>)
    ensures
        (
            match r {
                Some(record) => Some(record@),
                None => None,
            },
            final(cursor)@,
        ) == record_at(old(cursor)@),
{
    let tile_key: u64 = match read_le(cursor, 8) {
        Some(v) => v,
        None => return None,
    };
    let tag: u8 = match read_u8(cursor) {
        Some(v) => v,
        None => return None,
    };
    let layer: i8 = match read_u8(cursor) {
        Some(v) => i8_from_bits(v),
        None => return None,
    };
    let kind_ord: u8 = tag % 64;
    let geometry = if tag >= AREA_FLAG {
        decode_area(cursor, kind_ord)
    } else if tag >= LABEL_FLAG {
        decode_label(cursor, kind_ord)
    } else {
        decode_road(cursor, kind_ord)
    };
    match geometry {
        Some(geometry) => Some(TileRecord { tile_key, layer, geometry }),
        None => None,
    }
}

fn decode_area(cursor: &mut &[u8], ord: u8) -> (r: Option<TileGeometry>)
    ensures
        (
            match r {
                Some(g) => Some(g@),
                None => None,
            },
            final(cursor)@,
        ) == area_at(old(cursor)@, ord),
{
    let kind: AreaKind = match AreaKind::from_u8(ord) {
        Some(k) => k,
        None => return None,
    };
    let floors: u8 = match read_u8(cursor) {
        Some(v) => v,
        None => return None,
    };
    let ring_count: u64 = match read_varint(cursor) {
        Some(v) => v,
        None => return None,
    };
    let rings: Vec<Vec<[i16; 2]>> = match read_rings(cursor, ring_count) {
        Some(r) => r,
        None => return None,
    };
    let total: usize = count_vertices(&rings);
    match read_bitmask(cursor, total) {
        None => None,
        Some(clip) => Some(TileGeometry::Area { kind, floors, rings, clip }),
    }
}

fn read_rings(cursor: &mut &[u8], n: u64) -> (r: Option<Vec<Vec<[i16; 2]>>>)
    ensures
        (
            match r {
                Some(v) => Some(rings_view(v@)),
                None => None,
            },
            final(cursor)@,
        ) == many_at(chain_reader(), old(cursor)@, n as nat),
        r matches Some(v) ==> vertex_total(rings_view(v@)) <= usize::MAX,
{
    let ghost s = cursor@;
    let whole: usize = cursor.len();
    let mut rings: Vec<Vec<[i16; 2]>> = Vec::new();
    let mut i: u64 = 0;
    assert(rings_view(rings@) =~= Seq::empty());
    assert(prepend(Seq::empty(), many_at(chain_reader(), s, n as nat)) == many_at(
        chain_reader(),
        s,
        n as nat,
    )) by {
        if let Some(items) = many_at(chain_reader(), s, n as nat).0 {
            assert(Seq::empty() + items =~= items);
        }
    }
    while i < n
        invariant
            i <= n,
            s == old(cursor)@,
            vertex_total(rings_view(rings@)) + cursor@.len() <= whole,
            many_at(chain_reader(), s, n as nat) == prepend(
                rings_view(rings@),
                many_at(chain_reader(), cursor@, (n - i) as nat),
            ),
        decreases n - i,
    {
        proof {
            lemma_many_step(chain_reader(), rings_view(rings@), cursor@, (n - i) as nat);
        }
        let ghost before = rings_view(rings@);
        match read_coords(cursor) {
            None => return None,
            Some(ring) => {
                rings.push(ring);
                assert(rings_view(rings@) =~= before.push(coords_view(ring@)));
                assert(rings_view(rings@).drop_last() =~= before);
            },
        }
        i = i + 1;
    }
    assert(rings_view(rings@) + Seq::empty() =~= rings_view(rings@));
    Some(rings)
}

pub proof fn lemma_vertex_total_take(rings: Seq<Seq<Point>>, k: int)
    requires
        0 <= k <= rings.len(),
    ensures
        vertex_total(rings.take(k)) <= vertex_total(rings),
    decreases rings.len() - k,
{
    if k < rings.len() {
        lemma_vertex_total_take(rings, k + 1);
        assert(rings.take(k + 1).drop_last() =~= rings.take(k));
    } else {
        assert(rings.take(k) =~= rings);
    }
}

/// How many vertices the rings have together.
pub fn count_vertices(rings: &Vec<Vec<[i16; 2]>>) -> (n: usize)
    requires
        vertex_total(rings_view(rings@)) <= usize::MAX,
    ensures
        n == vertex_total(rings_view(rings@)),
{
    let ghost model = rings_view(rings@);
    let mut n: usize = 0;
    let mut i: usize = 0;
    while i < rings.len()
        invariant
            i <= rings@.len(),
            model == rings_view(rings@),
            vertex_total(model) <= usize::MAX,
            n == vertex_total(model.take(i as int)),
        decreases rings@.len() - i,
    {
        proof {
            lemma_vertex_total_take(model, i + 1);
            assert(model.take(i + 1).drop_last() =~= model.take(i as int));
            assert(model.take(i + 1).last() == coords_view(rings@[i as int]@));
        }
        n = n + rings[i].len();
        i = i + 1;
    }
    assert(model.take(i as int) =~= model);
    n
}

fn decode_label(cursor: &mut &[u8], ord: u8) -> (r: Option<TileGeometry>)
    ensures
        (
            match r {
                Some(g) => Some(g@),
                None => None,
            },
            final(cursor)@,
        ) == label_at(old(cursor)@, ord),
{
    let class: LabelClass = match LabelClass::from_u8(ord) {
        Some(c) => c,
        None => return None,
    };
    let anchor: [i16; 2] = match read_point(cursor) {
        Some(p) => p,
        None => return None,
    };
    match read_opt_str(cursor) {
        None => None,
        Some(Some(name)) => Some(TileGeometry::Label { class, anchor, name }),
        Some(None) => {
            let name = String::new();
            assert(name@ =~= Seq::empty());
            Some(TileGeometry::Label { class, anchor, name })
        },
    }
}

fn decode_road(cursor: &mut &[u8], ord: u8) -> (r: Option<TileGeometry>)
    ensures
        (
            match r {
                Some(g) => Some(g@),
                None => None,
            },
            final(cursor)@,
        ) == road_at(old(cursor)@, ord),
{
    let kind: RoadKind = match RoadKind::from_u8(ord) {
        Some(k) => k,
        None => return None,
    };
    let caps: u8 = match read_u8(cursor) {
        Some(v) => v,
        None => return None,
    };
    let start: EdgeNode = match EdgeNode::from_u8(caps % 4) {
        Some(e) => e,
        None => return None,
    };
    let end: EdgeNode = match EdgeNode::from_u8(caps / 4 % 4) {
        Some(e) => e,
        None => return None,
    };
    let lanes_forward: u8 = match read_u8(cursor) {
        Some(v) => v,
        None => return None,
    };
    let lanes_backward: u8 = match read_u8(cursor) {
        Some(v) => v,
        None => return None,
    };
    let coords: Vec<[i16; 2]> = match read_coords(cursor) {
        Some(c) => c,
        None => return None,
    };
    match read_opt_str(cursor) {
        None => None,
        Some(name) => Some(
            TileGeometry::Road { kind, start, end, coords, lanes_forward, lanes_backward, name },
        ),
    }
}

/// Read a length-prefixed string; length 0 yields `None`.
fn read_opt_str(cursor: &mut &[u8]) -> (r: Option<Option<String>>)
    ensures
        (
            match r {
                Some(n) => Some(name_view(n)),
                None => None,
            },
            final(cursor)@,
        ) == text_at(old(cursor)@),
{
    proof {
        reveal(text_at);
    }
    let n: u64 = match read_varint(cursor) {
        Some(v) => v,
        None => return None,
    };
    let bytes: &[u8] = match take(cursor, n) {
        Some(b) => b,
        None => return None,
    };
    if n == 0 {
        return Some(None);
    }
    match string_from_utf8(bytes_to_vec(bytes)) {
        Some(text) => Some(Some(text)),
        None => None,
    }
}

/// Read a mask of `n` flags written by `write_bitmask`. Returns an empty vec
/// when the leading byte is `0` (all false).
fn read_bitmask(cursor: &mut &[u8], n: usize) -> (r: Option<Vec<bool>>)
    ensures
        (
            match r {
                Some(v) => Some(v@),
                None => None,
            },
            final(cursor)@,
        ) == flags_at(old(cursor)@, n as nat),
{
    proof {
        reveal(flags_at);
    }
    let flag: u8 = match read_u8(cursor) {
        Some(v) => v,
        None => return None,
    };
    if flag == 0 {
        let none: Vec<bool> = Vec::new();
        assert(none@ =~= Seq::empty());
        return Some(none);
    }
    let len: u64 = (n / 8 + (if n % 8 == 0 {
        0usize
    } else {
        1usize
    })) as u64;
    assert(len == mask_len(n as nat));
    match take(cursor, len) {
        None => None,
        Some(data) => Some(get_mask(data, n)),
    }
}

fn read_point(cursor: &mut &[u8]) -> (r: Option<[i16; 2]>)
    ensures
        (
            match r {
                Some(p) => Some(point_view(p)),
                None => None,
            },
            final(cursor)@,
        ) == point_at(old(cursor)@),
        final(cursor)@.len() <= old(cursor)@.len(),
        r is Some ==> final(cursor)@.len() + 4 == old(cursor)@.len(),
{
    proof {
        lemma_pow256_values();
    }
    let x: i16 = match read_le(cursor, 2) {
        Some(v) => i16_from_bits(v as u16),
        None => return None,
    };
    let y: i16 = match read_le(cursor, 2) {
        Some(v) => i16_from_bits(v as u16),
        None => return None,
    };
    Some([x, y])
}

fn read_coords(cursor: &mut &[u8]) -> (r: Option<Vec<[i16; 2]>>)
    ensures
        (
            match r {
                Some(c) => Some(coords_view(c@)),
                None => None,
            },
            final(cursor)@,
        ) == chain_at(old(cursor)@),
        final(cursor)@.len() <= old(cursor)@.len(),
        r matches Some(c) ==> final(cursor)@.len() + c@.len() <= old(cursor)@.len(),
{
    proof {
        reveal(chain_at);
    }
    let n: u64 = match read_varint(cursor) {
        Some(v) => v,
        None => return None,
    };
    let ghost s = cursor@;
    let mut coords: Vec<[i16; 2]> = Vec::new();
    let mut i: u64 = 0;
    assert(coords_view(coords@) =~= Seq::empty());
    assert(prepend(Seq::empty(), many_at(point_reader(), s, n as nat)) == many_at(
        point_reader(),
        s,
        n as nat,
    )) by {
        if let Some(items) = many_at(point_reader(), s, n as nat).0 {
            assert(Seq::empty() + items =~= items);
        }
    }
    while i < n
        invariant
            i <= n,
            coords@.len() == i,
            cursor@.len() + coords@.len() <= s.len(),
            s.len() <= old(cursor)@.len(),
            chain_at(old(cursor)@) == many_at(point_reader(), s, n as nat),
            many_at(point_reader(), s, n as nat) == prepend(
                coords_view(coords@),
                many_at(point_reader(), cursor@, (n - i) as nat),
            ),
        decreases n - i,
    {
        proof {
            lemma_many_step(point_reader(), coords_view(coords@), cursor@, (n - i) as nat);
        }
        let ghost before = coords_view(coords@);
        match read_point(cursor) {
            None => return None,
            Some(p) => {
                coords.push(p);
                assert(coords_view(coords@) =~= before.push(point_view(p)));
            },
        }
        i = i + 1;
    }
    assert(coords_view(coords@) + Seq::empty() =~= coords_view(coords@));
    Some(coords)
}

} // verus!
