//! Where the fields of the stored formats stand.

use vstd::prelude::*;

use crate::bytes::{
    bit_of, i16_of, i32_of, le_value, many_at, mask_bits, uvarint_at, uvarint_reader,
};
use crate::feature::{AreaKind, EdgeNode, LabelClass, RoadKind};
use crate::pmtiles::{
    column_entry, column_ok, count_up_to, directory_at, header_at, offset_at, offset_column,
    resolved, sorted_entries, sum_u64, DirEntry, Located,
};
use crate::record::{
    chain_at, chain_reader, coords_view, flags_at, point_at, point_reader, point_view, record_at,
    text_at, vertex_total, GeometryView, RecordView,
};
use crate::spill::{frame_at, FrameView};
use crate::store::coord_of;
use crate::tile_model::{
    add_record, area_of, chain_points, delta_chain_at, delta_chains_at, delta_sum, header_of,
    label_of, metas_at, parts_at, poi_of, ring_counts, road_counts, road_of, string_at, sum_of,
    TileParts,
};
use crate::tileformat::{
    dezigzag_of, field, wire_all_at, AreaMeta, LabelMeta, PoiMeta, RingMeta, RoadMeta, TileHeader,
    Wire,
};

verus! {

// ---- numbers in place ----

/// The unsigned 16-bit number at byte `at`.
pub open spec fn short_at(s: Seq<u8>, at: int) -> int {
    s[at] + 256 * s[at + 1]
}

/// The signed 16-bit number at byte `at`.
pub open spec fn signed_short_at(s: Seq<u8>, at: int) -> int {
    if s[at + 1] < 128 {
        short_at(s, at)
    } else {
        short_at(s, at) - 65536
    }
}

/// The unsigned 32-bit number at byte `at`.
pub open spec fn long_at(s: Seq<u8>, at: int) -> int {
    short_at(s, at) + 65536 * short_at(s, at + 2)
}

/// The signed 32-bit number at byte `at`.
pub open spec fn signed_long_at(s: Seq<u8>, at: int) -> int {
    if s[at + 3] < 128 {
        long_at(s, at)
    } else {
        long_at(s, at) - 4294967296
    }
}

/// The unsigned 64-bit number at byte `at`.
pub open spec fn wide_at(s: Seq<u8>, at: int) -> int {
    long_at(s, at) + 4294967296 * long_at(s, at + 4)
}

/// The signed 8-bit number of a byte.
pub open spec fn signed_byte(b: u8) -> int {
    if b < 128 {
        b as int
    } else {
        b - 256
    }
}

proof fn lemma_two(s: Seq<u8>, at: int)
    requires
        0 <= at,
        at + 2 <= s.len(),
    ensures
        le_value(s.subrange(at, at + 2)) == short_at(s, at),
        field(s, at, 2) == short_at(s, at),
        0 <= short_at(s, at) < 65536,
        i16_of(field(s, at, 2) as int) == signed_short_at(s, at),
{
    let t = s.subrange(at, at + 2);
    let u = t.skip(1);
    let v = u.skip(1);
    assert(v.len() == 0);
    assert(le_value(v) == 0);
    assert(le_value(u) == u[0]);
    assert(u[0] == s[at + 1] && t[0] == s[at]);
}

proof fn lemma_four(s: Seq<u8>, at: int)
    requires
        0 <= at,
        at + 4 <= s.len(),
    ensures
        le_value(s.subrange(at, at + 4)) == long_at(s, at),
        field(s, at, 4) == long_at(s, at),
        0 <= long_at(s, at) < 4294967296,
        i32_of(field(s, at, 4) as int) == signed_long_at(s, at),
{
    let t = s.subrange(at, at + 4);
    lemma_two(s, at + 2);
    let u = t.skip(1);
    let v = u.skip(1);
    assert(v =~= s.subrange(at + 2, at + 4));
    assert(le_value(u) == u[0] + 256 * le_value(v));
    assert(u[0] == s[at + 1] && t[0] == s[at]);
    lemma_two(s, at);
}

pub proof fn lemma_eight(s: Seq<u8>, at: int)
    requires
        0 <= at,
        at + 8 <= s.len(),
    ensures
        le_value(s.subrange(at, at + 8)) == wide_at(s, at),
        field(s, at, 8) == wide_at(s, at),
        0 <= wide_at(s, at) <= u64::MAX,
{
    let t = s.subrange(at, at + 8);
    lemma_four(s, at + 4);
    lemma_four(s, at);
    let t1 = t.skip(1);
    let t2 = t1.skip(1);
    let t3 = t2.skip(1);
    let t4 = t3.skip(1);
    assert(t4 =~= s.subrange(at + 4, at + 8));
    assert(le_value(t3) == t3[0] + 256 * le_value(t4));
    assert(le_value(t2) == t2[0] + 256 * le_value(t3));
    assert(le_value(t1) == t1[0] + 256 * le_value(t2));
    assert(t[0] == s[at] && t1[0] == s[at + 1] && t2[0] == s[at + 2] && t3[0] == s[at + 3]);
}

// ---- tile metadata ----

/// The header of a tile: version, flags, extent, then the counts of roads, areas, rings,
/// labels, symbols and strings.
pub proof fn tile_header_fields(s: Seq<u8>)
    requires
        s.len() == 16,
    ensures
        TileHeader::wire_len() == 16,
        ({
            let h = TileHeader::from_wire(s);
            &&& h.version == s[0]
            &&& h.flags == s[1]
            &&& h.extent == short_at(s, 2)
            &&& h.road_count == short_at(s, 4)
            &&& h.area_count == short_at(s, 6)
            &&& h.ring_count == short_at(s, 8)
            &&& h.label_count == short_at(s, 10)
            &&& h.poi_count == short_at(s, 12)
            &&& h.string_count == short_at(s, 14)
        }),
{
    lemma_two(s, 2);
    lemma_two(s, 4);
    lemma_two(s, 6);
    lemma_two(s, 8);
    lemma_two(s, 10);
    lemma_two(s, 12);
    lemma_two(s, 14);
}

/// A road's metadata: kind, caps, layer, lanes forward and backward, a spare byte, the
/// vertex count and the name.
pub proof fn road_meta_fields(s: Seq<u8>)
    requires
        s.len() == 10,
    ensures
        RoadMeta::wire_len() == 10,
        ({
            let m = RoadMeta::from_wire(s);
            &&& m.kind == s[0]
            &&& m.caps == s[1]
            &&& m.layer == signed_byte(s[2])
            &&& m.lanes_forward == s[3]
            &&& m.lanes_backward == s[4]
            &&& m._pad == s[5]
            &&& m.vertex_count == short_at(s, 6)
            &&& m.name == short_at(s, 8)
        }),
{
    lemma_two(s, 6);
    lemma_two(s, 8);
}

/// An area's metadata: kind, layer, floors, a spare byte, the first ring and the ring
/// count.
pub proof fn area_meta_fields(s: Seq<u8>)
    requires
        s.len() == 8,
    ensures
        AreaMeta::wire_len() == 8,
        ({
            let m = AreaMeta::from_wire(s);
            &&& m.kind == s[0]
            &&& m.layer == signed_byte(s[1])
            &&& m.floors == s[2]
            &&& m._pad == s[3]
            &&& m.first_ring == short_at(s, 4)
            &&& m.ring_count == short_at(s, 6)
        }),
{
    lemma_two(s, 4);
    lemma_two(s, 6);
}

/// A label's metadata: class, rank, anchor and name. A symbol's: kind, a spare byte and
/// anchor. A ring's: its vertex count.
pub proof fn point_meta_fields(s: Seq<u8>, t: Seq<u8>, u: Seq<u8>)
    requires
        s.len() == 8,
        t.len() == 6,
        u.len() == 2,
    ensures
        LabelMeta::wire_len() == 8,
        PoiMeta::wire_len() == 6,
        RingMeta::wire_len() == 2,
        ({
            let m = LabelMeta::from_wire(s);
            &&& m.class == s[0]
            &&& m.rank == s[1]
            &&& m.anchor_x == signed_short_at(s, 2)
            &&& m.anchor_y == signed_short_at(s, 4)
            &&& m.name == short_at(s, 6)
        }),
        ({
            let m = PoiMeta::from_wire(t);
            &&& m.kind == t[0]
            &&& m._pad == t[1]
            &&& m.anchor_x == signed_short_at(t, 2)
            &&& m.anchor_y == signed_short_at(t, 4)
        }),
        RingMeta::from_wire(u).vertex_count == short_at(u, 0),
{
    lemma_two(s, 2);
    lemma_two(s, 4);
    lemma_two(s, 6);
    lemma_two(t, 2);
    lemma_two(t, 4);
    lemma_two(u, 0);
}

/// A stored coordinate: longitude, then latitude.
pub proof fn coord_fields(s: Seq<u8>)
    requires
        s.len() == 8,
    ensures
        coord_of(s).lon_e7 == signed_long_at(s, 0),
        coord_of(s).lat_e7 == signed_long_at(s, 4),
{
    lemma_four(s, 0);
    lemma_four(s, 4);
}

/// What the metadata of a tile's features mean: the kind by its number, the states of a
/// road's ends and its structure in two bits each, lanes by side, the name by its place in
/// the table, and an area's rings from its first one on.
pub proof fn features_by_metadata(p: TileParts, i: int)
    ensures
        road_of(p, i) matches Some(v) ==> {
            let m = p.roads[i];
            &&& v.kind.ordinal() == m.kind
            &&& v.start.ordinal() == m.caps % 4
            &&& v.end.ordinal() == m.caps / 4 % 4
            &&& v.structure.ordinal() == m.caps / 16 % 4
            &&& v.layer == m.layer
            &&& v.lanes.forward == m.lanes_forward
            &&& v.lanes.backward == m.lanes_backward
            &&& m.name < 0xffff && m.name < p.table.len() ==> v.name == Some(p.table[m.name as int])
            &&& m.name == 0xffff || m.name >= p.table.len() ==> v.name is None
            &&& v.coords == p.road_chains[i]
        },
        area_of(p, i) matches Some(v) ==> {
            let m = p.areas[i];
            &&& v.kind.ordinal() == m.kind
            &&& v.layer == m.layer
            &&& v.floors == m.floors
            &&& v.rings.len() == m.ring_count
            &&& forall|k: int|
                0 <= k < m.ring_count ==> #[trigger] v.rings[k] == p.ring_chains[m.first_ring + k]
        },
        label_of(p, i) matches Some(v) ==> {
            let m = p.labels[i];
            &&& v.class.ordinal() == m.class
            &&& v.rank == m.rank
            &&& v.anchor.0 == m.anchor_x
            &&& v.anchor.1 == m.anchor_y
            &&& m.name < p.table.len() ==> v.name == p.table[m.name as int]
            &&& m.name >= p.table.len() ==> v.name.len() == 0
        },
        poi_of(p, i) matches Some(v) ==> {
            let m = p.pois[i];
            &&& v.kind.ordinal() == m.kind
            &&& v.anchor.0 == m.anchor_x
            &&& v.anchor.1 == m.anchor_y
        },
{
    RoadKind::Motorway.ordinal_roundtrip(RoadKind::Motorway, p.roads[i].kind);
    EdgeNode::Cut.ordinal_roundtrip(EdgeNode::Cut, (p.roads[i].caps % 4) as u8);
    EdgeNode::Cut.ordinal_roundtrip(EdgeNode::Cut, (p.roads[i].caps / 4 % 4) as u8);
    AreaKind::Land.ordinal_roundtrip(AreaKind::Land, p.areas[i].kind);
    LabelClass::Park.ordinal_roundtrip(LabelClass::Park, p.labels[i].class);
}

// ---- sections of a tile ----

proof fn lemma_wire_all_at<T: Wire>(s: Seq<u8>, n: nat)
    ensures
        wire_all_at::<T>(s, n) matches (Some(items), rest) ==> {
            let size = T::wire_len() as int;
            &&& n * size <= s.len()
            &&& items.len() == n
            &&& rest == s.skip(n * size)
            &&& forall|i: int|
                0 <= i < n ==> #[trigger] items[i] == T::from_wire(
                    s.subrange(i * size, i * size + size),
                )
        },
{
    reveal(wire_all_at);
}

proof fn lemma_shifted(s: Seq<u8>, a: int, lo: int, hi: int)
    requires
        0 <= a,
        0 <= lo <= hi,
        a + hi <= s.len(),
    ensures
        s.skip(a).subrange(lo, hi) == s.subrange(a + lo, a + hi),
        s.skip(a).skip(lo) == s.skip(a + lo),
{
    assert(s.skip(a).subrange(lo, hi) =~= s.subrange(a + lo, a + hi));
    assert(s.skip(a).skip(lo) =~= s.skip(a + lo));
}

/// Where the coordinates of a tile start: behind the header and the metadata.
pub open spec fn pool_start(h: TileHeader) -> int {
    16 + 10 * h.road_count + 8 * h.area_count + 2 * h.ring_count + 8 * h.label_count + 6
        * h.poi_count
}

/// A tile is its header, then the metadata of its roads, areas, rings, labels and symbols,
/// as many of each as the header says.
pub proof fn tile_sections(s: Seq<u8>, i: int)
    ensures
        parts_at(s) matches Some((h, p)) ==> {
            let areas = 16 + 10 * h.road_count;
            let rings = areas + 8 * h.area_count;
            let labels = rings + 2 * h.ring_count;
            let pois = labels + 8 * h.label_count;
            &&& s.len() >= pool_start(h)
            &&& h == TileHeader::from_wire(s.subrange(0, 16))
            &&& p.roads.len() == h.road_count
            &&& p.areas.len() == h.area_count
            &&& p.rings.len() == h.ring_count
            &&& p.labels.len() == h.label_count
            &&& p.pois.len() == h.poi_count
            &&& 0 <= i < p.roads.len() ==> p.roads[i] == RoadMeta::from_wire(
                s.subrange(16 + 10 * i, 16 + 10 * i + 10),
            )
            &&& 0 <= i < p.areas.len() ==> p.areas[i] == AreaMeta::from_wire(
                s.subrange(areas + 8 * i, areas + 8 * i + 8),
            )
            &&& 0 <= i < p.rings.len() ==> p.rings[i] == RingMeta::from_wire(
                s.subrange(rings + 2 * i, rings + 2 * i + 2),
            )
            &&& 0 <= i < p.labels.len() ==> p.labels[i] == LabelMeta::from_wire(
                s.subrange(labels + 8 * i, labels + 8 * i + 8),
            )
            &&& 0 <= i < p.pois.len() ==> p.pois[i] == PoiMeta::from_wire(
                s.subrange(pois + 6 * i, pois + 6 * i + 6),
            )
        },
{
    if let Some((h, p)) = parts_at(s) {
        assert(s.take(16) =~= s.subrange(0, 16));
        let s0 = s.skip(16);
        lemma_metas(s0, h);
        let m = metas_at(s0, h).0->0;
        let areas = 10 * h.road_count;
        let rings = areas + 8 * h.area_count;
        let labels = rings + 2 * h.ring_count;
        let pois = labels + 8 * h.label_count;
        if 0 <= i < p.roads.len() {
            lemma_shifted(s, 16, 10 * i, 10 * i + 10);
        }
        if 0 <= i < p.areas.len() {
            lemma_shifted(s, 16, areas + 8 * i, areas + 8 * i + 8);
        }
        if 0 <= i < p.rings.len() {
            lemma_shifted(s, 16, rings + 2 * i, rings + 2 * i + 2);
        }
        if 0 <= i < p.labels.len() {
            lemma_shifted(s, 16, labels + 8 * i, labels + 8 * i + 8);
        }
        if 0 <= i < p.pois.len() {
            lemma_shifted(s, 16, pois + 6 * i, pois + 6 * i + 6);
        }
    }
}

proof fn lemma_metas(s: Seq<u8>, h: TileHeader)
    ensures
        metas_at(s, h) matches (Some(p), rest) ==> {
            let areas = 10 * h.road_count;
            let rings = areas + 8 * h.area_count;
            let labels = rings + 2 * h.ring_count;
            let pois = labels + 8 * h.label_count;
            &&& s.len() >= pool_start(h) - 16
            &&& rest == s.skip(pool_start(h) - 16)
            &&& p.roads.len() == h.road_count
            &&& p.areas.len() == h.area_count
            &&& p.rings.len() == h.ring_count
            &&& p.labels.len() == h.label_count
            &&& p.pois.len() == h.poi_count
            &&& forall|i: int|
                0 <= i < p.roads.len() ==> #[trigger] p.roads[i] == RoadMeta::from_wire(
                    s.subrange(10 * i, 10 * i + 10),
                )
            &&& forall|i: int|
                0 <= i < p.areas.len() ==> #[trigger] p.areas[i] == AreaMeta::from_wire(
                    s.subrange(areas + 8 * i, areas + 8 * i + 8),
                )
            &&& forall|i: int|
                0 <= i < p.rings.len() ==> #[trigger] p.rings[i] == RingMeta::from_wire(
                    s.subrange(rings + 2 * i, rings + 2 * i + 2),
                )
            &&& forall|i: int|
                0 <= i < p.labels.len() ==> #[trigger] p.labels[i] == LabelMeta::from_wire(
                    s.subrange(labels + 8 * i, labels + 8 * i + 8),
                )
            &&& forall|i: int|
                0 <= i < p.pois.len() ==> #[trigger] p.pois[i] == PoiMeta::from_wire(
                    s.subrange(pois + 6 * i, pois + 6 * i + 6),
                )
        },
{
    if let (Some(p), rest) = metas_at(s, h) {
        let areas = 10 * h.road_count;
        let rings = areas + 8 * h.area_count;
        let labels = rings + 2 * h.ring_count;
        let pois = labels + 8 * h.label_count;
        lemma_wire_all_at::<RoadMeta>(s, h.road_count as nat);
        lemma_wire_all_at::<AreaMeta>(s.skip(areas), h.area_count as nat);
        lemma_shifted(s, areas, 8 * h.area_count as int, 8 * h.area_count as int);
        lemma_wire_all_at::<RingMeta>(s.skip(rings), h.ring_count as nat);
        lemma_shifted(s, rings, 2 * h.ring_count as int, 2 * h.ring_count as int);
        lemma_wire_all_at::<LabelMeta>(s.skip(labels), h.label_count as nat);
        lemma_shifted(s, labels, 8 * h.label_count as int, 8 * h.label_count as int);
        lemma_wire_all_at::<PoiMeta>(s.skip(pois), h.poi_count as nat);
        lemma_shifted(s, pois, 6 * h.poi_count as int, 6 * h.poi_count as int);
        assert forall|i: int| 0 <= i < p.areas.len() implies #[trigger] p.areas[i]
            == AreaMeta::from_wire(s.subrange(areas + 8 * i, areas + 8 * i + 8)) by {
            lemma_shifted(s, areas, 8 * i, 8 * i + 8);
        }
        assert forall|i: int| 0 <= i < p.rings.len() implies #[trigger] p.rings[i]
            == RingMeta::from_wire(s.subrange(rings + 2 * i, rings + 2 * i + 2)) by {
            lemma_shifted(s, rings, 2 * i, 2 * i + 2);
        }
        assert forall|i: int| 0 <= i < p.labels.len() implies #[trigger] p.labels[i]
            == LabelMeta::from_wire(s.subrange(labels + 8 * i, labels + 8 * i + 8)) by {
            lemma_shifted(s, labels, 8 * i, 8 * i + 8);
        }
        assert forall|i: int| 0 <= i < p.pois.len() implies #[trigger] p.pois[i]
            == PoiMeta::from_wire(s.subrange(pois + 6 * i, pois + 6 * i + 6)) by {
            lemma_shifted(s, pois, 6 * i, 6 * i + 6);
        }
    }
}

// ---- coordinates, strings and flags of a tile ----

/// The difference that a stored 16-bit number stands for: even numbers are half themselves,
/// odd ones count down from minus one.
pub open spec fn stored_step(n: int) -> int {
    if n % 2 == 0 {
        n / 2
    } else {
        -((n + 1) / 2)
    }
}

/// A chain has four bytes per vertex: the steps in x and y from the vertex before, and
/// from the origin for the first.
pub proof fn chains_step(s: Seq<u8>, n: nat, i: int)
    requires
        4 * n <= s.len(),
        0 <= i < n,
    ensures
        delta_chain_at(s, n) matches (Some(c), rest) && c.len() == n && rest == s.skip(
            4 * n as int,
        ) && ({
            let before = if i == 0 {
                (0int, 0int)
            } else {
                (c[i - 1].0 as int, c[i - 1].1 as int)
            };
            &&& (c[i].0 - before.0 - stored_step(short_at(s, 4 * i))) % 65536 == 0
            &&& (c[i].1 - before.1 - stored_step(short_at(s, 4 * i + 2))) % 65536 == 0
        }),
{
    reveal(delta_chain_at);
    lemma_two(s, 4 * i);
    lemma_two(s, 4 * i + 2);
    let c = chain_points(s, n);
    let k = (i + 1) as nat;
    let (a, b) = (delta_sum(s, k, 0), delta_sum(s, k, 2));
    lemma_wrap(a);
    lemma_wrap(b);
    let (a0, b0) = (delta_sum(s, i as nat, 0), delta_sum(s, i as nat, 2));
    lemma_wrap(a0);
    lemma_wrap(b0);
    assert(a == a0 + dezigzag_of(field(s, 4 * i, 2) as int));
    assert(b == b0 + dezigzag_of(field(s, 4 * i + 2, 2) as int));
    assert(dezigzag_of(short_at(s, 4 * i)) == stored_step(short_at(s, 4 * i)));
    assert(dezigzag_of(short_at(s, 4 * i + 2)) == stored_step(short_at(s, 4 * i + 2)));
    if i > 0 {
        lemma_congruent(c[i].0 as int, c[i - 1].0 as int, a, a0);
        lemma_congruent(c[i].1 as int, c[i - 1].1 as int, b, b0);
    }
}

proof fn lemma_wrap(n: int)
    ensures
        (i16_of(n) - n) % 65536 == 0,
{
    vstd::arithmetic::div_mod::lemma_fundamental_div_mod(n, 65536);
}

proof fn lemma_congruent(x: int, y: int, a: int, b: int)
    requires
        (x - a) % 65536 == 0,
        (y - b) % 65536 == 0,
    ensures
        (x - y - (a - b)) % 65536 == 0,
{
    let (p, q) = ((x - a) / 65536, (y - b) / 65536);
    assert(x - a == 65536 * p && y - b == 65536 * q);
    assert(x - y - (a - b) == 65536 * (p - q));
}

/// Chains follow each other without gaps.
pub proof fn chains_follow(s: Seq<u8>, counts: Seq<nat>, i: int)
    requires
        0 <= i < counts.len(),
    ensures
        delta_chains_at(s, counts) matches (Some(cs), rest) ==> {
            let at = 4 * sum_of(counts.take(i));
            &&& cs.len() == counts.len()
            &&& at + 4 * counts[i] <= s.len()
            &&& delta_chain_at(s.skip(at as int), counts[i]).0 == Some(cs[i])
        },
    decreases counts.len(),
{
    if let (Some(cs), rest) = delta_chains_at(s, counts) {
        reveal(delta_chain_at);
        let first = delta_chain_at(s, counts[0]);
        let more = counts.skip(1);
        let tail = delta_chains_at(first.1, more);
        if i == 0 {
            assert(counts.take(0).len() == 0);
            assert(s.skip(0) =~= s);
            if more.len() > 0 {
                chains_follow(first.1, more, 0);
            }
        } else {
            chains_follow(first.1, more, i - 1);
            lemma_sum_first(counts.take(i));
            assert(counts.take(i).skip(1) =~= more.take(i - 1));
            let at = 4 * sum_of(more.take(i - 1));
            assert(first.1.skip(at as int) =~= s.skip((at + 4 * counts[0]) as int));
        }
    }
}

proof fn lemma_sum_first(counts: Seq<nat>)
    requires
        counts.len() > 0,
    ensures
        sum_of(counts) == counts[0] + sum_of(counts.skip(1)),
    decreases counts.len(),
{
    if counts.len() > 1 {
        lemma_sum_first(counts.drop_last());
        assert(counts.drop_last().skip(1) =~= counts.skip(1).drop_last());
        assert(counts.skip(1).last() == counts.last());
        assert(counts.drop_last()[0] == counts[0]);
        assert(sum_of(counts.skip(1)) == sum_of(counts.skip(1).drop_last()) + counts.last());
    } else {
        assert(sum_of(counts.drop_last()) == 0);
        assert(sum_of(counts.skip(1)) == 0);
    }
}

/// The coordinates of a tile's roads stand behind the metadata, and those of its rings
/// behind them.
pub proof fn tile_coordinates(s: Seq<u8>)
    ensures
        parts_at(s) matches Some((h, p)) ==> {
            let roads = delta_chains_at(s.skip(pool_start(h)), road_counts(p.roads));
            &&& roads.0 == Some(p.road_chains)
            &&& delta_chains_at(roads.1, ring_counts(p.rings)).0 == Some(p.ring_chains)
        },
{
    if let Some((h, p)) = parts_at(s) {
        lemma_metas(s.skip(16), h);
        assert(s.skip(16).skip(pool_start(h) - 16) =~= s.skip(pool_start(h)));
    }
}

/// A string is the number of its bytes in 16 bits, then its bytes.
pub proof fn strings_follow_their_length(s: Seq<u8>)
    requires
        s.len() >= 2,
        short_at(s, 0) + 2 <= s.len(),
        vstd::utf8::valid_utf8(s.subrange(2, short_at(s, 0) + 2)),
    ensures
        string_at(s).0 == Some(vstd::utf8::decode_utf8(s.subrange(2, short_at(s, 0) + 2))),
        string_at(s).1 == s.skip(short_at(s, 0) + 2),
{
    reveal(string_at);
    lemma_two(s, 0);
    let n = short_at(s, 0);
    assert(s.take(2) =~= s.subrange(0, 2));
    assert(s.skip(2).take(n) =~= s.subrange(2, n + 2));
    assert(s.skip(2).skip(n) =~= s.skip(n + 2));
}

/// Flag `i` of a mask is the bit of value `2^(i mod 8)` in byte `i / 8`.
pub proof fn flags_fill_bytes(data: Seq<u8>, n: nat, i: int)
    requires
        0 <= i < n,
    ensures
        mask_bits(data, n).len() == n,
        ({
            let b = data[i / 8] as int;
            mask_bits(data, n)[i] == (if i % 8 == 0 {
                b % 2 == 1
            } else if i % 8 == 1 {
                b / 2 % 2 == 1
            } else if i % 8 == 2 {
                b / 4 % 2 == 1
            } else if i % 8 == 3 {
                b / 8 % 2 == 1
            } else if i % 8 == 4 {
                b / 16 % 2 == 1
            } else if i % 8 == 5 {
                b / 32 % 2 == 1
            } else if i % 8 == 6 {
                b / 64 % 2 == 1
            } else {
                b / 128 % 2 == 1
            })
        }),
{
    reveal(mask_bits);
    reveal_with_fuel(bit_of, 8);
}

// ---- records ----

/// A record: the tile's key in eight bytes, a tag, the layer, and what the tag says. From
/// 128 on it is an area of the kind in the low bits, from 64 on a label of the class in the
/// low bits, else a road.
pub proof fn record_fields(s: Seq<u8>)
    ensures
        record_at(s).0 matches Some(r) ==> {
            &&& s.len() >= 10
            &&& r.tile_key == wide_at(s, 0)
            &&& r.layer == signed_byte(s[9])
            &&& r.geometry is Area <==> s[8] >= 128
            &&& r.geometry is Label <==> 64 <= s[8] < 128
            &&& r.geometry is Road <==> s[8] < 64
            &&& r.geometry matches GeometryView::Area { kind, floors, .. } ==> kind.ordinal()
                == s[8] % 64 && s.len() > 10 && floors == s[10]
            &&& r.geometry matches GeometryView::Label { class, anchor, .. } ==> {
                &&& class.ordinal() == s[8] % 64
                &&& s.len() >= 14
                &&& anchor.0 == signed_short_at(s, 10)
                &&& anchor.1 == signed_short_at(s, 12)
            }
            &&& r.geometry matches GeometryView::Road {
                kind,
                start,
                end,
                lanes_forward,
                lanes_backward,
                ..
            } ==> {
                &&& kind.ordinal() == s[8]
                &&& s.len() >= 13
                &&& start.ordinal() == s[10] % 4
                &&& end.ordinal() == s[10] / 4 % 4
                &&& lanes_forward == s[11]
                &&& lanes_backward == s[12]
            }
        },
{
    if let Some(r) = record_at(s).0 {
        assert(s.take(8) =~= s.subrange(0, 8));
        lemma_eight(s, 0);
        let s1 = s.skip(8);
        let s2 = s1.skip(1);
        let s3 = s2.skip(1);
        assert(s3 =~= s.skip(10));
        let ord = (s[8] % 64) as u8;
        RoadKind::Motorway.ordinal_roundtrip(RoadKind::Motorway, ord);
        AreaKind::Land.ordinal_roundtrip(AreaKind::Land, ord);
        LabelClass::Park.ordinal_roundtrip(LabelClass::Park, ord);
        if 64 <= s[8] < 128 {
            assert(s3.take(2) =~= s.subrange(10, 12));
            assert(s3.skip(2).take(2) =~= s.subrange(12, 14));
            lemma_two(s, 10);
            lemma_two(s, 12);
        } else if s[8] < 64 {
            EdgeNode::Cut.ordinal_roundtrip(EdgeNode::Cut, (s[10] % 4) as u8);
            EdgeNode::Cut.ordinal_roundtrip(EdgeNode::Cut, (s[10] / 4 % 4) as u8);
            assert(s3.skip(1)[0] == s[11]);
            assert(s3.skip(1).skip(1)[0] == s[12]);
        }
    }
}

// ---- archive header and directories ----

/// The archive header: seven bytes `PMTiles`, version 3, offset and length of the root
/// directory, the metadata, the leaf directories and the data, three counts, six flags, the
/// bounds, the center zoom and the center.
pub proof fn archive_header_fields(s: Seq<u8>)
    ensures
        header_at(s) matches Some(h) ==> {
            &&& s.len() >= 127
            &&& s[0] == 80 && s[1] == 77 && s[2] == 84 && s[3] == 105 && s[4] == 108 && s[5] == 101
                && s[6] == 115 && s[7] == 3
            &&& h.root_offset == wide_at(s, 8)
            &&& h.root_length == wide_at(s, 16)
            &&& h.metadata_offset == wide_at(s, 24)
            &&& h.metadata_length == wide_at(s, 32)
            &&& h.leaf_offset == wide_at(s, 40)
            &&& h.leaf_length == wide_at(s, 48)
            &&& h.data_offset == wide_at(s, 56)
            &&& h.data_length == wide_at(s, 64)
            &&& h.num_addressed == wide_at(s, 72)
            &&& h.num_entries == wide_at(s, 80)
            &&& h.num_contents == wide_at(s, 88)
            &&& h.clustered == (s[96] != 0)
            &&& h.internal_compression == s[97]
            &&& h.tile_compression == s[98]
            &&& h.tile_type == s[99]
            &&& h.min_zoom == s[100]
            &&& h.max_zoom == s[101]
            &&& h.bounds[0] == signed_long_at(s, 102)
            &&& h.bounds[1] == signed_long_at(s, 106)
            &&& h.bounds[2] == signed_long_at(s, 110)
            &&& h.bounds[3] == signed_long_at(s, 114)
            &&& h.center_zoom == s[118]
            &&& h.center[0] == signed_long_at(s, 119)
            &&& h.center[1] == signed_long_at(s, 123)
        },
{
    if header_at(s) is Some {
        let m = s.take(7);
        assert(m[0] == s[0] && m[1] == s[1] && m[2] == s[2] && m[3] == s[3] && m[4] == s[4] && m[5]
            == s[5] && m[6] == s[6]);
        lemma_eight(s, 8);
        lemma_eight(s, 16);
        lemma_eight(s, 24);
        lemma_eight(s, 32);
        lemma_eight(s, 40);
        lemma_eight(s, 48);
        lemma_eight(s, 56);
        lemma_eight(s, 64);
        lemma_eight(s, 72);
        lemma_eight(s, 80);
        lemma_eight(s, 88);
        lemma_four(s, 102);
        lemma_four(s, 106);
        lemma_four(s, 110);
        lemma_four(s, 114);
        lemma_four(s, 119);
        lemma_four(s, 123);
    }
}

/// A directory is the number of its entries, then their ids as differences, their run
/// lengths, their lengths, and their offsets plus one, where 0 stands for the end of the
/// entry before.
pub proof fn directory_columns(s: Seq<u8>, i: int)
    ensures
        directory_at(s) matches Some(es) ==> {
            let n = uvarint_at(s);
            let ids = many_at(uvarint_reader(), n.1, es.len());
            let runs = many_at(uvarint_reader(), ids.1, es.len());
            let lengths = many_at(uvarint_reader(), runs.1, es.len());
            let offsets = many_at(uvarint_reader(), lengths.1, es.len());
            &&& n.0 == Some(es.len() as u64)
            &&& ids.0 is Some && runs.0 is Some && lengths.0 is Some && offsets.0 is Some
            &&& 0 <= i < es.len() ==> {
                &&& es[i].tile_id == ids.0->0[i] + (if i > 0 {
                    es[i - 1].tile_id as int
                } else {
                    0
                })
                &&& es[i].run_length == runs.0->0[i]
                &&& es[i].length == lengths.0->0[i]
                &&& offsets.0->0[i] > 0 ==> es[i].offset == offsets.0->0[i] - 1
                &&& offsets.0->0[i] == 0 ==> i > 0 && es[i].offset == es[i - 1].offset
                    + es[i - 1].length
            }
        },
{
    reveal(directory_at);
    if let Some(es) = directory_at(s) {
        let n = uvarint_at(s).0->0 as nat;
        let r0 = uvarint_at(s).1;
        lemma_many_len(r0, n);
        let ids = many_at(uvarint_reader(), r0, n);
        lemma_many_len(ids.1, n);
        let runs = many_at(uvarint_reader(), ids.1, n);
        lemma_many_len(runs.1, n);
        let lengths = many_at(uvarint_reader(), runs.1, n);
        lemma_many_len(lengths.1, n);
        let offsets = many_at(uvarint_reader(), lengths.1, n);
        let (a, b, c, d) = (ids.0->0, runs.0->0, lengths.0->0, offsets.0->0);
        assert(es.len() == n);
        if 0 <= i < es.len() {
            assert(column_ok(a, b, c, d, i));
            assert(es[i] == column_entry(a, b, c, d, i));
            assert(a.take(i + 1).drop_last() =~= a.take(i));
            if i > 0 {
                assert(column_ok(a, b, c, d, i - 1));
                assert(es[i - 1] == column_entry(a, b, c, d, i - 1));
            } else {
                assert(a.take(0).len() == 0);
                assert(sum_u64(a.take(0)) == 0);
                assert(offset_at(d, c, -1) is None);
            }
        }
    }
}

proof fn lemma_many_len(s: Seq<u8>, n: nat)
    ensures
        many_at(uvarint_reader(), s, n).0 matches Some(items) ==> items.len() == n,
    decreases n,
{
    if n > 0 {
        lemma_many_len(uvarint_at(s).1, (n - 1) as nat);
    }
}

/// An id in the run of an entry, with no later entry up to it, is found there; an id
/// behind the run of the last entry up to it, or before all entries, is absent; and a leaf
/// takes every id from its own on up to the next entry's.
pub proof fn ids_found_in_runs(es: Seq<DirEntry>, id: u64, i: int)
    requires
        sorted_entries(es),
    ensures
        0 <= i < es.len() && es[i].tile_id <= id && (i + 1 < es.len() ==> id < es[i + 1].tile_id)
            ==> resolved(es, id) == (if es[i].run_length == 0 {
            Located::Leaf { offset: es[i].offset, length: es[i].length }
        } else if id < es[i].tile_id + es[i].run_length {
            Located::Data { offset: es[i].offset, length: es[i].length }
        } else {
            Located::Absent
        }),
        es.len() == 0 || id < es[0].tile_id ==> resolved(es, id) == Located::Absent,
{
    lemma_count_up_to(es, id, es.len());
    let k = count_up_to(es, id, es.len());
    if 0 <= i < es.len() && es[i].tile_id <= id && (i + 1 < es.len() ==> id < es[i + 1].tile_id) {
        if k - 1 > i {
            assert(es[i + 1].tile_id <= es[k - 1].tile_id);
        }
        assert(k == i + 1);
    }
    if k > 0 && es.len() > 0 && id < es[0].tile_id {
        assert(es[0].tile_id <= es[k - 1].tile_id);
    }
}

proof fn lemma_count_up_to(es: Seq<DirEntry>, id: u64, n: nat)
    requires
        n <= es.len(),
    ensures
        ({
            let k = count_up_to(es, id, n);
            &&& k <= n
            &&& k > 0 ==> es[k - 1].tile_id <= id
            &&& forall|j: int| k <= j < n ==> id < (#[trigger] es[j]).tile_id
        }),
    decreases n,
{
    if n > 0 && es[n - 1].tile_id > id {
        lemma_count_up_to(es, id, (n - 1) as nat);
    }
}

// ---- parts of a record ----

/// A chain in a record is the number of its vertices, then x and y of each in two bytes.
pub proof fn record_chains(s: Seq<u8>)
    ensures
        chain_at(s).0 matches Some(c) ==> {
            let n = uvarint_at(s);
            &&& n.0 == Some(c.len() as u64)
            &&& 4 * c.len() <= n.1.len()
            &&& chain_at(s).1 == n.1.skip(4 * c.len() as int)
            &&& forall|i: int|
                0 <= i < c.len() ==> (#[trigger] c[i]).0 == signed_short_at(n.1, 4 * i) && c[i].1
                    == signed_short_at(n.1, 4 * i + 2)
        },
{
    reveal(chain_at);
    if let (Some(n), rest) = uvarint_at(s) {
        lemma_points(rest, n as nat);
    }
}

proof fn lemma_points(s: Seq<u8>, n: nat)
    ensures
        many_at(point_reader(), s, n).0 matches Some(c) ==> {
            &&& c.len() == n
            &&& 4 * n <= s.len()
            &&& many_at(point_reader(), s, n).1 == s.skip(4 * n as int)
            &&& forall|i: int|
                0 <= i < n ==> (#[trigger] c[i]).0 == signed_short_at(s, 4 * i) && c[i].1
                    == signed_short_at(s, 4 * i + 2)
        },
    decreases n,
{
    if n == 0 {
        assert(s.skip(0) =~= s);
    } else if let (Some(p), rest) = point_at(s) {
        assert(s.len() >= 4);
        assert(s.take(2) =~= s.subrange(0, 2));
        assert(s.skip(2).take(2) =~= s.subrange(2, 4));
        assert(rest =~= s.skip(4));
        lemma_two(s, 0);
        lemma_two(s, 2);
        lemma_points(rest, (n - 1) as nat);
        let out = many_at(point_reader(), s, n);
        if let Some(c) = out.0 {
            let more = many_at(point_reader(), rest, (n - 1) as nat);
            let d = more.0->0;
            assert(c == seq![p] + d);
            assert(rest.skip(4 * (n - 1)) =~= s.skip(4 * n as int));
            assert forall|i: int| 0 <= i < n implies (#[trigger] c[i]).0 == signed_short_at(s, 4 * i)
                && c[i].1 == signed_short_at(s, 4 * i + 2) by {
                if i > 0 {
                    assert(c[i] == d[i - 1]);
                    assert(rest[4 * (i - 1)] == s[4 * i]);
                    assert(rest[4 * (i - 1) + 1] == s[4 * i + 1]);
                    assert(rest[4 * (i - 1) + 2] == s[4 * i + 2]);
                    assert(rest[4 * (i - 1) + 3] == s[4 * i + 3]);
                }
            }
        }
    }
}

/// A name in a record is the number of its bytes, then its bytes; none is no bytes.
pub proof fn record_names(s: Seq<u8>)
    ensures
        text_at(s).0 matches Some(name) ==> {
            let n = uvarint_at(s);
            &&& n.0 matches Some(len) && len <= n.1.len() && text_at(s).1 == n.1.skip(len as int)
                && (len == 0 <==> name is None) && (name matches Some(t) ==> t
                == vstd::utf8::decode_utf8(n.1.subrange(0, len as int)))
        },
{
    reveal(text_at);
    if let (Some(len), rest) = uvarint_at(s) {
        if len <= rest.len() {
            assert(rest.take(len as int) =~= rest.subrange(0, len as int));
        }
    }
}

/// The flags of an area in a record are a byte, 0 for none, and otherwise one bit per
/// vertex.
pub proof fn record_flags(s: Seq<u8>, n: nat)
    ensures
        flags_at(s, n).0 matches Some(f) ==> {
            &&& s.len() > 0
            &&& s[0] == 0 ==> f.len() == 0 && flags_at(s, n).1 == s.skip(1)
            &&& s[0] != 0 ==> f == mask_bits(s.subrange(1, 1 + (n + 7) as int / 8), n)
                && flags_at(s, n).1 == s.skip(1 + (n + 7) as int / 8)
        },
{
    reveal(flags_at);
    if s.len() > 0 && s[0] != 0 && flags_at(s, n).0 is Some {
        let len = (n + 7) as int / 8;
        assert(s.skip(1).take(len) =~= s.subrange(1, 1 + len));
        assert(s.skip(1).skip(len) =~= s.skip(1 + len));
    }
}

/// A road in a record: its ends, lanes forward and backward, its line and its name. An
/// area: its floors, the number of its rings, the rings and their flags. A label: its
/// anchor and its name.
pub proof fn record_parts(s: Seq<u8>)
    ensures
        record_at(s).0 matches Some(r) ==> {
            &&& r.geometry matches GeometryView::Road { coords, name, .. } ==> {
                let line = chain_at(s.skip(13));
                line.0 == Some(coords) && text_at(line.1).0 == Some(name)
            }
            &&& r.geometry matches GeometryView::Area { rings, clip, .. } ==> {
                let n = uvarint_at(s.skip(11));
                let chains = many_at(chain_reader(), n.1, rings.len());
                n.0 == Some(rings.len() as u64) && chains.0 == Some(rings) && flags_at(
                    chains.1,
                    vertex_total(rings),
                ).0 == Some(clip)
            }
            &&& r.geometry matches GeometryView::Label { name, .. } ==> (text_at(s.skip(14)).0
                == Some(Some(name)) || (text_at(s.skip(14)).0 == Some(None::<Seq<char>>)
                && name.len() == 0))
        },
{
    if let Some(r) = record_at(s).0 {
        record_fields(s);
        let s3 = s.skip(8).skip(1).skip(1);
        assert(s3 =~= s.skip(10));
        match r.geometry {
            GeometryView::Road { .. } => {
                assert(s3.skip(1).skip(1).skip(1) =~= s.skip(13));
            },
            GeometryView::Area { rings, .. } => {
                assert(s3.skip(1) =~= s.skip(11));
                let n = uvarint_at(s.skip(11));
                lemma_chains_len(n.1, n.0->0 as nat);
            },
            GeometryView::Label { .. } => {
                assert(s3.skip(2).skip(2) =~= s.skip(14));
            },
            _ => {},
        }
    }
}

proof fn lemma_chains_len(s: Seq<u8>, n: nat)
    ensures
        many_at(chain_reader(), s, n).0 matches Some(items) ==> items.len() == n,
    decreases n,
{
    if n > 0 {
        lemma_chains_len(chain_at(s).1, (n - 1) as nat);
    }
}

/// Points, chains and names are what is stored, in order.
pub proof fn views_are_plain(p: [i16; 2], c: Seq<[i16; 2]>, i: int)
    requires
        0 <= i < c.len(),
    ensures
        point_view(p).0 == p[0],
        point_view(p).1 == p[1],
        coords_view(c).len() == c.len(),
        coords_view(c)[i].0 == c[i][0],
        coords_view(c)[i].1 == c[i][1],
{
}

/// A framed record is the length of its bytes in four bytes, then its bytes.
pub proof fn frames_follow_their_length(s: Seq<u8>)
    ensures
        s.len() < 4 ==> frame_at(s).0 is End,
        s.len() >= 4 && long_at(s, 0) + 4 > s.len() ==> frame_at(s).0 is Broken,
        s.len() >= 4 && long_at(s, 0) + 4 <= s.len() ==> {
            let body = s.subrange(4, 4 + long_at(s, 0));
            &&& frame_at(s).1 == s.skip(4 + long_at(s, 0))
            &&& record_at(body).0 matches Some(r) ==> frame_at(s).0 == FrameView::Record(r)
            &&& record_at(body).0 is None ==> frame_at(s).0 is Broken
        },
{
    if s.len() >= 4 {
        lemma_four(s, 0);
        assert(s.take(4) =~= s.subrange(0, 4));
        let n = long_at(s, 0);
        if n + 4 <= s.len() {
            assert(s.skip(4).take(n) =~= s.subrange(4, 4 + n));
            assert(s.skip(4).skip(n) =~= s.skip(4 + n));
        }
    }
}

/// Directory entries whose bytes follow those of the entry before are written without an
/// offset of their own.
pub proof fn following_entries_need_no_offset(es: Seq<DirEntry>, i: int)
    requires
        0 <= i < es.len(),
        es[i].offset < u64::MAX,
    ensures
        offset_column(es)[i] == 0 <==> i > 0 && es[i].offset == es[i - 1].offset + es[i - 1].length,
        offset_column(es)[i] != 0 ==> offset_column(es)[i] == es[i].offset + 1,
{
}

/// The header of a built tile: version 2, a flag for the clip mask where a vertex is
/// flagged, the extent, and how many of each section there are.
pub proof fn headers_announce_parts(p: TileParts, extent: u16)
    ensures
        ({
            let h = header_of(p, extent);
            &&& h.version == 2
            &&& (exists|i: int| 0 <= i < p.flags.len() && #[trigger] p.flags[i]) ==> h.flags == 1
            &&& (forall|i: int| 0 <= i < p.flags.len() ==> !#[trigger] p.flags[i]) ==> h.flags == 0
            &&& h.extent == extent
            &&& p.roads.len() <= 65535 ==> h.road_count == p.roads.len()
            &&& p.areas.len() <= 65535 ==> h.area_count == p.areas.len()
            &&& p.rings.len() <= 65535 ==> h.ring_count == p.rings.len()
            &&& p.labels.len() <= 65535 ==> h.label_count == p.labels.len()
            &&& p.pois.len() <= 65535 ==> h.poi_count == p.pois.len()
            &&& p.table.len() <= 65535 ==> h.string_count == p.table.len()
        }),
{
}

/// A further record adds to the section of its sort alone: a road its line, an area its
/// rings and one flag per vertex, none set where it has none of its own.
pub proof fn records_add_to_their_section(p: TileParts, r: RecordView)
    ensures
        ({
            let q = add_record(p, r);
            match r.geometry {
                GeometryView::Road { coords, .. } => {
                    &&& q.road_chains == p.road_chains.push(coords)
                    &&& q.roads.len() == p.roads.len() + 1
                    &&& q.roads.drop_last() == p.roads
                    &&& q.areas == p.areas && q.rings == p.rings && q.labels == p.labels && q.pois
                        == p.pois && q.flags == p.flags && q.ring_chains == p.ring_chains
                },
                GeometryView::Area { rings, clip, .. } => {
                    &&& q.ring_chains == p.ring_chains + rings
                    &&& q.areas.len() == p.areas.len() + 1
                    &&& q.areas.drop_last() == p.areas
                    &&& clip.len() > 0 ==> q.flags == p.flags + clip
                    &&& clip.len() == 0 ==> q.flags.len() == p.flags.len() + vertex_total(rings)
                        && forall|i: int|
                        p.flags.len() <= i < q.flags.len() ==> !#[trigger] q.flags[i]
                    &&& q.roads == p.roads && q.labels == p.labels && q.pois == p.pois && q.table
                        == p.table && q.road_chains == p.road_chains
                },
                GeometryView::Label { .. } => {
                    &&& q.labels.len() == p.labels.len() + 1
                    &&& q.labels.drop_last() == p.labels
                    &&& q.roads == p.roads && q.areas == p.areas && q.rings == p.rings && q.pois
                        == p.pois && q.flags == p.flags
                },
                GeometryView::Poi { .. } => {
                    &&& q.pois.len() == p.pois.len() + 1
                    &&& q.pois.drop_last() == p.pois
                    &&& q.roads == p.roads && q.areas == p.areas && q.rings == p.rings && q.labels
                        == p.labels && q.flags == p.flags && q.table == p.table
                },
            }
        }),
{
    let q = add_record(p, r);
    match r.geometry {
        GeometryView::Road { .. } => {
            assert(q.roads.drop_last() =~= p.roads);
        },
        GeometryView::Area { rings, clip, .. } => {
            assert(q.areas.drop_last() =~= p.areas);
        },
        GeometryView::Label { .. } => {
            assert(q.labels.drop_last() =~= p.labels);
        },
        GeometryView::Poi { .. } => {
            assert(q.pois.drop_last() =~= p.pois);
        },
    }
}

} // verus!
