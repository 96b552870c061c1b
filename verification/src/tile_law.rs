//! Reading a tile gives back the records it was built from.

use vstd::prelude::*;
use vstd::utf8::encode_utf8;

use crate::bytes::{
    flat, le_bytes, le_read_roundtrip, le_roundtrip, lemma_cat, lemma_flat_first,
    lemma_pow256_values, many_at, many_roundtrip, mask_bytes, mask_roundtrip, take_read_roundtrip,
    utf8_roundtrip,
};
use crate::feature::{Lanes, RoadStructure};
use crate::record::{any_flag, vertex_total, GeometryView, Point, RecordView};
use crate::tile_model::{
    area_flags, area_of, chain_points, clip_at, clip_section, contents_of, delta_bytes,
    delta_chain_at, delta_chains_at, delta_image, delta_sum, header_of, label_of, last_step,
    meta_section, metas_at, name_slot, no_parts, parts_at, parts_of, poi_of, pool_at, pool_section,
    ring_counts, ring_metas_of, road_counts, road_of, string_at, string_bytes, string_image,
    string_reader, sum_of, tile_at, tile_bytes, with_name, AreaView, LabelView, PoiView, RoadView,
    TileContents, TileParts,
};
use crate::tileformat::{
    field, wire_all, wire_all_roundtrip, wire_one_roundtrip, zigzag_of, zigzag_roundtrip, Wire,
    NAME_NONE,
};

verus! {

// ---- what fits the format ----

/// Each step of the chain fits 16 signed bits.
#[verifier::opaque]
pub open spec fn small_steps(c: Seq<Point>) -> bool {
    forall|i: int|
        0 < i <= c.len() ==> {
            let step = #[trigger] last_step(c.take(i));
            -0x8000 <= step.0 <= 0x7fff && -0x8000 <= step.1 <= 0x7fff
        }
}

pub open spec fn chain_fits(c: Seq<Point>) -> bool {
    c.len() <= 0xffff && small_steps(c)
}

pub open spec fn text_fits(s: Seq<char>) -> bool {
    encode_utf8(s).len() <= 0xffff
}

pub open spec fn record_fits(r: RecordView) -> bool {
    match r.geometry {
        GeometryView::Road { coords, name, .. } => chain_fits(coords) && (name matches Some(text)
            ==> text_fits(text)),
        GeometryView::Area { rings, clip, .. } => (forall|i: int|
            0 <= i < rings.len() ==> chain_fits(#[trigger] rings[i])) && (clip.len() == 0
            || clip.len() == vertex_total(rings)),
        GeometryView::Label { name, .. } => text_fits(name),
        GeometryView::Poi { .. } => true,
    }
}

/// The 16-bit counts hold.
pub open spec fn counts_fit(p: TileParts) -> bool {
    &&& p.roads.len() <= 0xffff
    &&& p.areas.len() <= 0xffff
    &&& p.rings.len() <= 0xffff
    &&& p.labels.len() <= 0xffff
    &&& p.pois.len() <= 0xffff
    &&& p.table.len() <= 0xffff
}

/// Records that a tile can hold without loss.
pub open spec fn records_fit(recs: Seq<RecordView>) -> bool {
    &&& forall|i: int| 0 <= i < recs.len() ==> record_fits(#[trigger] recs[i])
    &&& counts_fit(parts_of(recs))
}

// ---- what the records say ----

pub open spec fn road_views(recs: Seq<RecordView>) -> Seq<RoadView>
    decreases recs.len(),
{
    if recs.len() == 0 {
        Seq::empty()
    } else {
        let front = road_views(recs.drop_last());
        match recs.last().geometry {
            GeometryView::Road {
                kind,
                start,
                end,
                coords,
                lanes_forward,
                lanes_backward,
                name,
            } => front.push(
                RoadView {
                    kind,
                    layer: recs.last().layer,
                    lanes: Lanes { forward: lanes_forward, backward: lanes_backward },
                    start,
                    end,
                    structure: RoadStructure::AtGrade,
                    name,
                    coords,
                },
            ),
            _ => front,
        }
    }
}

/// The areas; `clipped` says whether any ring vertex of the tile is flagged, in
/// which case every area carries one flag per vertex.
pub open spec fn area_views(recs: Seq<RecordView>, clipped: bool) -> Seq<AreaView>
    decreases recs.len(),
{
    if recs.len() == 0 {
        Seq::empty()
    } else {
        let front = area_views(recs.drop_last(), clipped);
        match recs.last().geometry {
            GeometryView::Area { kind, floors, rings, clip } => front.push(
                AreaView {
                    kind,
                    layer: recs.last().layer,
                    floors,
                    rings,
                    clip: if clipped {
                        area_flags(rings, clip)
                    } else {
                        Seq::empty()
                    },
                },
            ),
            _ => front,
        }
    }
}

pub open spec fn label_views(recs: Seq<RecordView>) -> Seq<LabelView>
    decreases recs.len(),
{
    if recs.len() == 0 {
        Seq::empty()
    } else {
        let front = label_views(recs.drop_last());
        match recs.last().geometry {
            GeometryView::Label { class, anchor, name } => front.push(
                LabelView { class, rank: class.ordinal(), anchor, name },
            ),
            _ => front,
        }
    }
}

pub open spec fn poi_views(recs: Seq<RecordView>) -> Seq<PoiView>
    decreases recs.len(),
{
    if recs.len() == 0 {
        Seq::empty()
    } else {
        let front = poi_views(recs.drop_last());
        match recs.last().geometry {
            GeometryView::Poi { kind, anchor } => front.push(PoiView { kind, anchor }),
            _ => front,
        }
    }
}

/// Whether any area record flags a vertex.
pub open spec fn any_clip(recs: Seq<RecordView>) -> bool {
    exists|i: int|
        0 <= i < recs.len() && (#[trigger] recs[i].geometry matches GeometryView::Area { clip, .. }
            && any_flag(clip))
}

pub open spec fn record_contents(recs: Seq<RecordView>, extent: u16) -> TileContents {
    TileContents {
        extent,
        roads: road_views(recs),
        areas: area_views(recs, any_clip(recs)),
        labels: label_views(recs),
        pois: poi_views(recs),
    }
}

// ---- chains and strings read back ----

proof fn lemma_delta_len(c: Seq<Point>)
    ensures
        delta_bytes(c).len() == 4 * c.len(),
    decreases c.len(),
{
    if c.len() > 0 {
        lemma_delta_len(c.drop_last());
        crate::bytes::lemma_le_bytes_len(zigzag_of(last_step(c).0), 2);
        crate::bytes::lemma_le_bytes_len(zigzag_of(last_step(c).1), 2);
    }
}

proof fn lemma_delta_field(c: Seq<Point>, tail: Seq<u8>, i: int)
    requires
        0 <= i < c.len(),
    ensures
        field(delta_bytes(c) + tail, 4 * i, 2) == zigzag_of(last_step(c.take(i + 1)).0),
        field(delta_bytes(c) + tail, 4 * i + 2, 2) == zigzag_of(last_step(c.take(i + 1)).1),
    decreases c.len(),
{
    let s = delta_bytes(c) + tail;
    let front = delta_bytes(c.drop_last());
    let a = le_bytes(zigzag_of(last_step(c).0), 2);
    let b = le_bytes(zigzag_of(last_step(c).1), 2);
    lemma_delta_len(c);
    lemma_delta_len(c.drop_last());
    lemma_pow256_values();
    le_roundtrip(zigzag_of(last_step(c).0), 2);
    le_roundtrip(zigzag_of(last_step(c).1), 2);
    assert(delta_bytes(c) == front + a + b);
    if i == c.len() - 1 {
        assert(c.take(i + 1) =~= c);
        assert(s.subrange(4 * i, 4 * i + 2) =~= a);
        assert(s.subrange(4 * i + 2, 4 * i + 4) =~= b);
    } else {
        let t = a + b + tail;
        lemma_delta_field(c.drop_last(), t, i);
        assert(c.drop_last().take(i + 1) =~= c.take(i + 1));
        assert(s =~= front + t);
    }
}

proof fn lemma_delta_sum(c: Seq<Point>, tail: Seq<u8>, k: nat)
    requires
        small_steps(c),
        k <= c.len(),
    ensures
        delta_sum(delta_bytes(c) + tail, k, 0) == if k == 0 {
            0
        } else {
            c[k - 1].0 as int
        },
        delta_sum(delta_bytes(c) + tail, k, 2) == if k == 0 {
            0
        } else {
            c[k - 1].1 as int
        },
    decreases k,
{
    if k > 0 {
        lemma_delta_sum(c, tail, (k - 1) as nat);
        lemma_delta_field(c, tail, k - 1);
        reveal(small_steps);
        let step = last_step(c.take(k as int));
        zigzag_roundtrip(step.0, 0);
        zigzag_roundtrip(step.1, 0);
    }
}

proof fn lemma_chain_read(c: Seq<Point>, tail: Seq<u8>)
    requires
        chain_fits(c),
    ensures
        delta_chain_at(delta_bytes(c) + tail, c.len()) == (Some(c), tail),
{
    reveal(delta_chain_at);
    let s = delta_bytes(c) + tail;
    lemma_delta_len(c);
    assert forall|i: int| 0 <= i < c.len() implies chain_points(s, c.len())[i] == c[i] by {
        lemma_delta_sum(c, tail, (i + 1) as nat);
    }
    assert(chain_points(s, c.len()) =~= c);
    assert(s.skip(4 * c.len() as int) =~= tail);
}

proof fn lemma_chains_read(cs: Seq<Seq<Point>>, counts: Seq<nat>, tail: Seq<u8>)
    requires
        counts.len() == cs.len(),
        forall|i: int| 0 <= i < cs.len() ==> chain_fits(#[trigger] cs[i]) && counts[i] == cs[i].len(),
    ensures
        delta_chains_at(flat(delta_image(), cs) + tail, counts) == (Some(cs), tail),
    decreases cs.len(),
{
    if cs.len() == 0 {
        assert(flat(delta_image(), cs) + tail =~= tail);
        assert(cs =~= Seq::empty());
    } else {
        lemma_flat_first(delta_image(), cs);
        let rest = cs.skip(1);
        let t = flat(delta_image(), rest) + tail;
        assert(flat(delta_image(), cs) + tail =~= delta_bytes(cs[0]) + t);
        lemma_chain_read(cs[0], t);
        assert forall|i: int| 0 <= i < rest.len() implies chain_fits(#[trigger] rest[i])
            && counts.skip(1)[i] == rest[i].len() by {
            assert(rest[i] == cs[i + 1]);
        }
        lemma_chains_read(rest, counts.skip(1), tail);
        assert(seq![cs[0]] + rest =~= cs);
    }
}

proof fn lemma_string_read(text: Seq<char>, tail: Seq<u8>)
    requires
        text_fits(text),
    ensures
        string_at(string_bytes(text) + tail) == (Some(text), tail),
{
    reveal(string_at);
    let utf8 = encode_utf8(text);
    lemma_pow256_values();
    le_read_roundtrip(utf8.len(), 2, utf8 + tail);
    take_read_roundtrip(utf8, tail);
    utf8_roundtrip(text);
    assert(string_bytes(text) + tail =~= le_bytes(utf8.len(), 2) + (utf8 + tail));
}

proof fn lemma_strings_read(table: Seq<Seq<char>>, tail: Seq<u8>)
    requires
        forall|i: int| 0 <= i < table.len() ==> text_fits(#[trigger] table[i]),
    ensures
        many_at(string_reader(), flat(string_image(), table) + tail, table.len()) == (
            Some(table),
            tail,
        ),
{
    assert forall|i: int, t: Seq<u8>| 0 <= i < table.len() implies #[trigger] string_reader()(
        string_image()(table[i]) + t,
    ) == (Some(table[i]), t) by {
        lemma_string_read(table[i], t);
    }
    many_roundtrip(string_reader(), string_image(), table, tail);
}

// ---- parts read back ----

/// Parts that fit together and into the format.
pub open spec fn parts_fit(p: TileParts) -> bool {
    &&& counts_fit(p)
    &&& p.road_chains.len() == p.roads.len()
    &&& forall|i: int|
        0 <= i < p.roads.len() ==> chain_fits(#[trigger] p.road_chains[i])
            && p.roads[i].vertex_count == p.road_chains[i].len()
    &&& p.rings == ring_metas_of(p.ring_chains)
    &&& forall|i: int| 0 <= i < p.ring_chains.len() ==> chain_fits(#[trigger] p.ring_chains[i])
    &&& forall|i: int| 0 <= i < p.table.len() ==> text_fits(#[trigger] p.table[i])
    &&& p.flags.len() == vertex_total(p.ring_chains)
}

/// The parts as a reader sees them: without flags where none is set.
pub open spec fn stored(p: TileParts) -> TileParts {
    TileParts {
        flags: if any_flag(p.flags) {
            p.flags
        } else {
            Seq::empty()
        },
        ..p
    }
}

proof fn lemma_ring_total(rings: Seq<Seq<Point>>)
    requires
        forall|i: int| 0 <= i < rings.len() ==> (#[trigger] rings[i]).len() <= 0xffff,
    ensures
        sum_of(ring_counts(ring_metas_of(rings))) == vertex_total(rings),
    decreases rings.len(),
{
    if rings.len() > 0 {
        let front = rings.drop_last();
        assert forall|i: int| 0 <= i < front.len() implies (#[trigger] front[i]).len() <= 0xffff by {
            assert(front[i] == rings[i]);
        }
        lemma_ring_total(front);
        let counts = ring_counts(ring_metas_of(rings));
        assert(counts.drop_last() =~= ring_counts(ring_metas_of(front)));
        assert(counts.last() == rings.last().len()) by {
            assert(rings[rings.len() - 1].len() <= 0xffff);
        }
    }
}

proof fn lemma_metas_read(p: TileParts, extent: u16, tail: Seq<u8>)
    requires
        counts_fit(p),
    ensures
        metas_at(meta_section(p) + tail, header_of(p, extent)) == (
            Some(
                TileParts {
                    roads: p.roads,
                    areas: p.areas,
                    rings: p.rings,
                    labels: p.labels,
                    pois: p.pois,
                    ..no_parts()
                },
            ),
            tail,
        ),
{
    let t4 = wire_all(p.pois) + tail;
    let t3 = wire_all(p.labels) + t4;
    let t2 = wire_all(p.rings) + t3;
    let t1 = wire_all(p.areas) + t2;
    let t0 = wire_all(p.roads) + t1;
    let (a, b, c, d) = (
        wire_all(p.roads),
        wire_all(p.areas),
        wire_all(p.rings),
        wire_all(p.labels),
    );
    lemma_cat(a + b + c + d, wire_all(p.pois), tail);
    lemma_cat(a + b + c, d, t4);
    lemma_cat(a + b, c, t3);
    lemma_cat(a, b, t2);
    assert(meta_section(p) + tail == t0);
    wire_all_roundtrip(p.roads, t1);
    wire_all_roundtrip(p.areas, t2);
    wire_all_roundtrip(p.rings, t3);
    wire_all_roundtrip(p.labels, t4);
    wire_all_roundtrip(p.pois, tail);
}

proof fn lemma_clip_read(p: TileParts, extent: u16)
    ensures
        clip_at(clip_section(p.flags), header_of(p, extent), p.flags.len()) == Some(
            stored(p).flags,
        ),
{
    reveal(clip_at);
    if any_flag(p.flags) {
        mask_roundtrip(p.flags);
        take_read_roundtrip(mask_bytes(p.flags), Seq::empty());
        assert(mask_bytes(p.flags) + Seq::empty() =~= clip_section(p.flags));
    }
}

/// The sections of a pool read one behind the other give the parts.
proof fn lemma_pool_joined(p: TileParts, extent: u16, t0: Seq<u8>, t1: Seq<u8>, t2: Seq<u8>)
    requires
        delta_chains_at(pool_section(p), road_counts(p.roads)) == (Some(p.road_chains), t0),
        delta_chains_at(t0, ring_counts(p.rings)) == (Some(p.ring_chains), t1),
        many_at(string_reader(), t1, p.table.len()) == (Some(p.table), t2),
        clip_at(t2, header_of(p, extent), sum_of(ring_counts(p.rings))) == Some(stored(p).flags),
        p.table.len() <= 0xffff,
    ensures
        pool_at(
            pool_section(p),
            header_of(p, extent),
            TileParts {
                roads: p.roads,
                areas: p.areas,
                rings: p.rings,
                labels: p.labels,
                pois: p.pois,
                ..no_parts()
            },
        ) == Some(stored(p)),
{
}

proof fn lemma_pool_read(p: TileParts, extent: u16)
    requires
        parts_fit(p),
    ensures
        pool_at(
            pool_section(p),
            header_of(p, extent),
            TileParts {
                roads: p.roads,
                areas: p.areas,
                rings: p.rings,
                labels: p.labels,
                pois: p.pois,
                ..no_parts()
            },
        ) == Some(stored(p)),
{
    let t2 = clip_section(p.flags);
    let t1 = flat(string_image(), p.table) + t2;
    let t0 = flat(delta_image(), p.ring_chains) + t1;
    let roads = flat(delta_image(), p.road_chains);
    let rings = flat(delta_image(), p.ring_chains);
    lemma_cat(roads + rings, flat(string_image(), p.table), t2);
    lemma_cat(roads, rings, t1);
    assert(pool_section(p) == roads + t0);
    assert(delta_chains_at(roads + t0, road_counts(p.roads)) == (Some(p.road_chains), t0)) by {
        lemma_chains_read(p.road_chains, road_counts(p.roads), t0);
    }
    assert(delta_chains_at(t0, ring_counts(p.rings)) == (Some(p.ring_chains), t1)) by {
        assert forall|i: int| 0 <= i < p.ring_chains.len() implies chain_fits(
            #[trigger] p.ring_chains[i],
        ) && ring_counts(p.rings)[i] == p.ring_chains[i].len() by {}
        lemma_chains_read(p.ring_chains, ring_counts(p.rings), t1);
    }
    assert(many_at(string_reader(), t1, p.table.len()) == (Some(p.table), t2)) by {
        lemma_strings_read(p.table, t2);
    }
    let n = sum_of(ring_counts(p.rings));
    assert(clip_at(t2, header_of(p, extent), n) == Some(stored(p).flags)) by {
        assert forall|i: int| 0 <= i < p.ring_chains.len() implies (
        #[trigger] p.ring_chains[i]).len() <= 0xffff by {
            assert(chain_fits(p.ring_chains[i]));
        }
        lemma_ring_total(p.ring_chains);
        lemma_clip_read(p, extent);
    }
    lemma_pool_joined(p, extent, t0, t1, t2);
}

/// The image of parts reads back as the parts.
pub proof fn parts_roundtrip(p: TileParts, extent: u16)
    requires
        parts_fit(p),
    ensures
        parts_at(tile_bytes(p, extent)) == Some((header_of(p, extent), stored(p))),
{
    let h = header_of(p, extent);
    let pool = pool_section(p);
    wire_one_roundtrip(h, meta_section(p) + pool);
    lemma_cat(h.to_wire(), meta_section(p), pool);
    assert(tile_bytes(p, extent) == h.to_wire() + (meta_section(p) + pool));
    lemma_metas_read(p, extent, pool);
    lemma_pool_read(p, extent);
}

// ---- records and their parts ----

/// The second table starts with the first.
spec fn extends(a: Seq<Seq<char>>, b: Seq<Seq<char>>) -> bool {
    a.len() <= b.len() && forall|i: int| 0 <= i < a.len() ==> a[i] == #[trigger] b[i]
}

proof fn lemma_with_name(table: Seq<Seq<char>>, name: Seq<char>)
    requires
        table.no_duplicates(),
    ensures
        with_name(table, name).no_duplicates(),
        extends(table, with_name(table, name)),
        name_slot(with_name(table, name), name) < with_name(table, name).len(),
        with_name(table, name)[name_slot(with_name(table, name), name) as int] == name,
{
    let t = with_name(table, name);
    if table.contains(name) {
        let i = choose|i: int| 0 <= i < table.len() && table[i] == name;
        assert(t[i] == name);
    } else {
        assert(t[table.len() as int] == name);
    }
    assert(t.contains(name));
    assert forall|i: int, j: int| 0 <= i < t.len() && 0 <= j < t.len() && i != j implies t[i]
        != t[j] by {
        if !table.contains(name) {
            if i < table.len() && j < table.len() {
            } else if i < table.len() {
                assert(table.contains(t[i]));
            } else {
                assert(table.contains(t[j]));
            }
        }
    }
}

spec fn record_table(recs: Seq<RecordView>) -> bool {
    let p = parts_of(recs);
    &&& p.table.no_duplicates()
    &&& forall|i: int| 0 <= i < p.table.len() ==> text_fits(#[trigger] p.table[i])
}

/// The name the last record brings to the table.
spec fn last_name(recs: Seq<RecordView>) -> Option<Seq<char>> {
    match recs.last().geometry {
        GeometryView::Road { name, .. } => name,
        GeometryView::Label { name, .. } => Some(name),
        _ => None,
    }
}

proof fn lemma_table_step(recs: Seq<RecordView>)
    requires
        recs.len() > 0,
        record_table(recs.drop_last()),
        record_fits(recs.last()),
    ensures
        record_table(recs),
        extends(parts_of(recs.drop_last()).table, parts_of(recs).table),
        last_name(recs) matches Some(name) ==> {
            let table = parts_of(recs).table;
            name_slot(table, name) < table.len() && table[name_slot(table, name) as int] == name
        },
{
    let before = parts_of(recs.drop_last()).table;
    let after = parts_of(recs).table;
    if let Some(name) = last_name(recs) {
        lemma_with_name(before, name);
        assert(after == with_name(before, name));
        assert forall|i: int| 0 <= i < after.len() implies text_fits(#[trigger] after[i]) by {
            if i < before.len() {
                assert(after[i] == before[i]);
            }
        }
    }
}

spec fn roads_mirror(recs: Seq<RecordView>) -> bool {
    let p = parts_of(recs);
    let views = road_views(recs);
    &&& p.roads.len() == views.len()
    &&& p.road_chains.len() == p.roads.len()
    &&& forall|i: int|
        0 <= i < views.len() ==> {
            &&& #[trigger] road_of(p, i) == Some(views[i])
            &&& p.roads[i].name == NAME_NONE || p.roads[i].name < p.table.len()
            &&& chain_fits(p.road_chains[i])
            &&& p.roads[i].vertex_count == p.road_chains[i].len()
        }
}

proof fn lemma_roads_step(recs: Seq<RecordView>)
    requires
        recs.len() > 0,
        record_table(recs.drop_last()),
        roads_mirror(recs.drop_last()),
        record_fits(recs.last()),
        counts_fit(parts_of(recs)),
    ensures
        roads_mirror(recs),
{
    lemma_table_step(recs);
    let p = parts_of(recs.drop_last());
    let q = parts_of(recs);
    let old_views = road_views(recs.drop_last());
    let views = road_views(recs);
    assert forall|i: int| 0 <= i < views.len() implies {
        &&& #[trigger] road_of(q, i) == Some(views[i])
        &&& q.roads[i].name == NAME_NONE || q.roads[i].name < q.table.len()
        &&& chain_fits(q.road_chains[i])
        &&& q.roads[i].vertex_count == q.road_chains[i].len()
    } by {
        if i < old_views.len() {
            assert(road_of(p, i) == Some(old_views[i]));
            assert(q.roads[i] == p.roads[i]);
            assert(q.road_chains[i] == p.road_chains[i]);
            assert(views[i] == old_views[i]);
        } else if let GeometryView::Road {
            kind,
            start,
            end,
            coords,
            lanes_forward,
            lanes_backward,
            name,
        } = recs.last().geometry {
            kind.ordinal_roundtrip(kind, 0);
            start.ordinal_roundtrip(end, 0);
            end.ordinal_roundtrip(start, 0);
            let caps = q.roads[i].caps;
            assert(caps == start.ordinal() + 4 * end.ordinal());
            assert(caps % 4 == start.ordinal());
            assert(caps / 4 % 4 == end.ordinal());
            assert(caps / 16 % 4 == 0);
            if let Some(text) = name {
                assert(last_name(recs) == Some(text));
            }
        }
    }
}

spec fn labels_mirror(recs: Seq<RecordView>) -> bool {
    let p = parts_of(recs);
    let views = label_views(recs);
    &&& p.labels.len() == views.len()
    &&& forall|i: int|
        0 <= i < views.len() ==> #[trigger] label_of(p, i) == Some(views[i]) && p.labels[i].name
            < p.table.len()
}

proof fn lemma_labels_step(recs: Seq<RecordView>)
    requires
        recs.len() > 0,
        record_table(recs.drop_last()),
        labels_mirror(recs.drop_last()),
        record_fits(recs.last()),
        counts_fit(parts_of(recs)),
    ensures
        labels_mirror(recs),
{
    lemma_table_step(recs);
    let p = parts_of(recs.drop_last());
    let q = parts_of(recs);
    let old_views = label_views(recs.drop_last());
    let views = label_views(recs);
    assert forall|i: int| 0 <= i < views.len() implies #[trigger] label_of(q, i) == Some(views[i])
        && q.labels[i].name < q.table.len() by {
        if i < old_views.len() {
            assert(label_of(p, i) == Some(old_views[i]));
            assert(q.labels[i] == p.labels[i]);
            assert(views[i] == old_views[i]);
        } else if let GeometryView::Label { class, anchor, name } = recs.last().geometry {
            class.ordinal_roundtrip(class, 0);
            assert(last_name(recs) == Some(name));
        }
    }
}

spec fn pois_mirror(recs: Seq<RecordView>) -> bool {
    let p = parts_of(recs);
    let views = poi_views(recs);
    &&& p.pois.len() == views.len()
    &&& forall|i: int| 0 <= i < views.len() ==> #[trigger] poi_of(p, i) == Some(views[i])
}

proof fn lemma_pois_step(recs: Seq<RecordView>)
    requires
        recs.len() > 0,
        pois_mirror(recs.drop_last()),
    ensures
        pois_mirror(recs),
{
    let p = parts_of(recs.drop_last());
    let q = parts_of(recs);
    let old_views = poi_views(recs.drop_last());
    let views = poi_views(recs);
    assert forall|i: int| 0 <= i < views.len() implies #[trigger] poi_of(q, i) == Some(
        views[i],
    ) by {
        if i < old_views.len() {
            assert(poi_of(p, i) == Some(old_views[i]));
            assert(q.pois[i] == p.pois[i]);
            assert(views[i] == old_views[i]);
        } else if let GeometryView::Poi { kind, anchor } = recs.last().geometry {
            kind.ordinal_roundtrip(kind, 0);
        }
    }
}

proof fn lemma_vertex_total_cat(a: Seq<Seq<Point>>, b: Seq<Seq<Point>>)
    ensures
        vertex_total(a + b) == vertex_total(a) + vertex_total(b),
    decreases b.len(),
{
    if b.len() == 0 {
        assert(a + b =~= a);
    } else {
        lemma_vertex_total_cat(a, b.drop_last());
        assert((a + b).drop_last() =~= a + b.drop_last());
        assert((a + b).last() == b.last());
    }
}

proof fn lemma_sum_take(counts: Seq<nat>, a: int, b: int)
    requires
        0 <= a <= b <= counts.len(),
    ensures
        sum_of(counts.take(a)) <= sum_of(counts.take(b)),
    decreases b - a,
{
    if a < b {
        lemma_sum_take(counts, a, b - 1);
        assert(counts.take(b).drop_last() =~= counts.take(b - 1));
    }
}

/// Area `i` of the parts is `v`, its rings and flags where its metadata say.
spec fn area_stands(p: TileParts, i: int, v: AreaView) -> bool {
    let m = p.areas[i];
    let first = m.first_ring as int;
    let end = m.first_ring + m.ring_count;
    let lo = sum_of(ring_counts(p.rings).take(first)) as int;
    let hi = sum_of(ring_counts(p.rings).take(end)) as int;
    &&& m.kind == v.kind.ordinal()
    &&& m.layer == v.layer
    &&& m.floors == v.floors
    &&& end <= p.ring_chains.len()
    &&& v.rings == p.ring_chains.subrange(first, end)
    &&& 0 <= lo <= hi <= p.flags.len()
    &&& v.clip == p.flags.subrange(lo, hi)
}

spec fn areas_mirror(recs: Seq<RecordView>) -> bool {
    let p = parts_of(recs);
    let views = area_views(recs, true);
    &&& p.areas.len() == views.len()
    &&& p.rings == ring_metas_of(p.ring_chains)
    &&& forall|i: int| 0 <= i < p.ring_chains.len() ==> chain_fits(#[trigger] p.ring_chains[i])
    &&& p.flags.len() == vertex_total(p.ring_chains)
    &&& forall|i: int| 0 <= i < views.len() ==> #[trigger] area_stands(p, i, views[i])
}

proof fn lemma_areas_step(recs: Seq<RecordView>)
    requires
        recs.len() > 0,
        areas_mirror(recs.drop_last()),
        record_fits(recs.last()),
        counts_fit(parts_of(recs)),
    ensures
        areas_mirror(recs),
{
    let p = parts_of(recs.drop_last());
    let q = parts_of(recs);
    let old_views = area_views(recs.drop_last(), true);
    let views = area_views(recs, true);
    if let GeometryView::Area { kind, floors, rings, clip } = recs.last().geometry {
        lemma_vertex_total_cat(p.ring_chains, rings);
        assert(q.rings =~= ring_metas_of(q.ring_chains));
        assert forall|i: int| 0 <= i < q.ring_chains.len() implies chain_fits(
            #[trigger] q.ring_chains[i],
        ) by {
            if i < p.ring_chains.len() {
                assert(q.ring_chains[i] == p.ring_chains[i]);
            } else {
                assert(q.ring_chains[i] == rings[i - p.ring_chains.len()]);
            }
        }
        assert(area_flags(rings, clip).len() == vertex_total(rings));
        assert forall|i: int| 0 <= i < views.len() implies #[trigger] area_stands(
            q,
            i,
            views[i],
        ) by {
            let m = q.areas[i];
            let first = m.first_ring as int;
            let end = m.first_ring + m.ring_count;
            let counts = ring_counts(q.rings);
            if i < old_views.len() {
                assert(area_stands(p, i, old_views[i]));
                assert(m == p.areas[i]);
                assert(counts.take(first) =~= ring_counts(p.rings).take(first));
                assert(counts.take(end) =~= ring_counts(p.rings).take(end));
                assert(q.ring_chains.subrange(first, end) =~= p.ring_chains.subrange(first, end));
                let lo = sum_of(counts.take(first)) as int;
                let hi = sum_of(counts.take(end)) as int;
                assert(q.flags.subrange(lo, hi) =~= p.flags.subrange(lo, hi));
            } else {
                kind.ordinal_roundtrip(kind, 0);
                assert(first == p.rings.len());
                assert(end == q.rings.len());
                assert(q.ring_chains.subrange(first, end) =~= rings);
                assert forall|k: int| 0 <= k < p.ring_chains.len() implies (
                #[trigger] p.ring_chains[k]).len() <= 0xffff by {
                    assert(chain_fits(p.ring_chains[k]));
                }
                assert forall|k: int| 0 <= k < q.ring_chains.len() implies (
                #[trigger] q.ring_chains[k]).len() <= 0xffff by {
                    assert(chain_fits(q.ring_chains[k]));
                }
                lemma_ring_total(p.ring_chains);
                lemma_ring_total(q.ring_chains);
                assert(counts.take(first) =~= ring_counts(p.rings));
                assert(counts.take(end) =~= counts);
                let lo = p.flags.len() as int;
                let hi = q.flags.len() as int;
                assert(q.flags.subrange(lo, hi) =~= area_flags(rings, clip));
            }
        }
    } else {
        assert(views == old_views);
        assert forall|i: int| 0 <= i < views.len() implies #[trigger] area_stands(
            q,
            i,
            views[i],
        ) by {
            assert(area_stands(p, i, old_views[i]));
        }
    }
}

proof fn lemma_counts_monotone(recs: Seq<RecordView>)
    requires
        recs.len() > 0,
        counts_fit(parts_of(recs)),
    ensures
        counts_fit(parts_of(recs.drop_last())),
{
}

proof fn lemma_mirror(recs: Seq<RecordView>)
    requires
        records_fit(recs),
    ensures
        record_table(recs),
        roads_mirror(recs),
        areas_mirror(recs),
        labels_mirror(recs),
        pois_mirror(recs),
    decreases recs.len(),
{
    if recs.len() == 0 {
        let p = parts_of(recs);
        assert(p.rings =~= ring_metas_of(p.ring_chains));
    } else {
        let front = recs.drop_last();
        lemma_counts_monotone(recs);
        assert forall|i: int| 0 <= i < front.len() implies record_fits(#[trigger] front[i]) by {
            assert(front[i] == recs[i]);
        }
        assert(record_fits(recs[recs.len() - 1]));
        lemma_mirror(front);
        lemma_table_step(recs);
        lemma_roads_step(recs);
        lemma_areas_step(recs);
        lemma_labels_step(recs);
        lemma_pois_step(recs);
    }
}

proof fn lemma_any_flag_cat(a: Seq<bool>, b: Seq<bool>)
    ensures
        any_flag(a + b) == (any_flag(a) || any_flag(b)),
{
    let c = a + b;
    if any_flag(a) {
        let i = choose|i: int| 0 <= i < a.len() && #[trigger] a[i];
        assert(c[i]);
    }
    if any_flag(b) {
        let i = choose|i: int| 0 <= i < b.len() && #[trigger] b[i];
        assert(c[a.len() + i]);
    }
    if any_flag(c) {
        let i = choose|i: int| 0 <= i < c.len() && #[trigger] c[i];
        if i < a.len() {
            assert(a[i]);
        } else {
            assert(b[i - a.len()]);
        }
    }
}

proof fn lemma_any_clip(recs: Seq<RecordView>)
    ensures
        any_flag(parts_of(recs).flags) == any_clip(recs),
    decreases recs.len(),
{
    if recs.len() > 0 {
        let front = recs.drop_last();
        lemma_any_clip(front);
        let p = parts_of(front);
        let q = parts_of(recs);
        if any_clip(front) {
            let i = choose|i: int|
                0 <= i < front.len() && (
                #[trigger] front[i].geometry matches GeometryView::Area { clip, .. } && any_flag(
                    clip,
                ));
            assert(recs[i] == front[i]);
        }
        if any_clip(recs) {
            let i = choose|i: int|
                0 <= i < recs.len() && (
                #[trigger] recs[i].geometry matches GeometryView::Area { clip, .. } && any_flag(
                    clip,
                ));
            if i < front.len() {
                assert(front[i] == recs[i]);
            }
        }
        if let GeometryView::Area { rings, clip, .. } = recs.last().geometry {
            lemma_any_flag_cat(p.flags, area_flags(rings, clip));
            assert(any_flag(area_flags(rings, clip)) == any_flag(clip));
            if any_flag(clip) {
                assert(recs[recs.len() - 1].geometry == recs.last().geometry);
            }
        }
    } else {
        assert(!any_flag(parts_of(recs).flags));
    }
}

proof fn lemma_area_views_unclipped(recs: Seq<RecordView>)
    ensures
        area_views(recs, false).len() == area_views(recs, true).len(),
        forall|i: int|
            0 <= i < area_views(recs, false).len() ==> #[trigger] area_views(recs, false)[i] == (
            AreaView { clip: Seq::empty(), ..area_views(recs, true)[i] }),
    decreases recs.len(),
{
    if recs.len() > 0 {
        lemma_area_views_unclipped(recs.drop_last());
        let f = area_views(recs, false);
        let t = area_views(recs, true);
        let f0 = area_views(recs.drop_last(), false);
        let t0 = area_views(recs.drop_last(), true);
        assert forall|i: int| 0 <= i < f.len() implies #[trigger] f[i] == (AreaView {
            clip: Seq::empty(),
            ..t[i]
        }) by {
            if i < f0.len() {
                assert(f[i] == f0[i] && t[i] == t0[i]);
            }
        }
    }
}

/// Building a tile and reading it gives back what the records say: every road,
/// area, label and symbol in order, with names and coordinates unchanged.
pub proof fn tile_roundtrip(recs: Seq<RecordView>, extent: u16)
    requires
        records_fit(recs),
    ensures
        tile_at(tile_bytes(parts_of(recs), extent)) == Some(record_contents(recs, extent)),
{
    let p = parts_of(recs);
    let q = stored(p);
    lemma_mirror(recs);
    lemma_any_clip(recs);
    lemma_area_views_unclipped(recs);
    assert(parts_fit(p)) by {
        assert forall|i: int| 0 <= i < p.roads.len() implies chain_fits(#[trigger] p.road_chains[i])
            && p.roads[i].vertex_count == p.road_chains[i].len() by {
            assert(road_of(p, i) == Some(road_views(recs)[i]));
        }
    }
    parts_roundtrip(p, extent);
    let got = contents_of(q, extent);
    let want = record_contents(recs, extent);
    assert forall|i: int| 0 <= i < q.roads.len() implies #[trigger] road_of(q, i) == Some(
        want.roads[i],
    ) by {
        assert(road_of(p, i) == Some(road_views(recs)[i]));
    }
    assert forall|i: int| 0 <= i < q.labels.len() implies #[trigger] label_of(q, i) == Some(
        want.labels[i],
    ) by {
        assert(label_of(p, i) == Some(label_views(recs)[i]));
    }
    assert forall|i: int| 0 <= i < q.pois.len() implies #[trigger] poi_of(q, i) == Some(
        want.pois[i],
    ) by {
        assert(poi_of(p, i) == Some(poi_views(recs)[i]));
    }
    assert forall|i: int| 0 <= i < q.areas.len() implies #[trigger] area_of(q, i) == Some(
        want.areas[i],
    ) by {
        let v = area_views(recs, true)[i];
        assert(area_stands(p, i, v));
        v.kind.ordinal_roundtrip(v.kind, 0);
        if any_flag(p.flags) {
            assert(p.flags.len() > 0);
            assert(want.areas[i] == v);
        } else {
            assert(want.areas[i] == area_views(recs, false)[i]);
        }
    }
    assert(got.roads =~= want.roads);
    assert(got.areas =~= want.areas);
    assert(got.labels =~= want.labels);
    assert(got.pois =~= want.pois);
}

} // verus!
