//! Tile decoding.

use vstd::prelude::*;

use crate::bytes::{
    bytes_to_vec, get_mask, i16_from_bits, i16_of, lemma_many_step, lemma_pow256_values, many_at,
    mask_bits, mask_len, prepend, read_le, string_from_utf8, take,
};
use crate::feature::{AreaKind, EdgeNode, LabelClass, Lanes, PoiKind, RoadKind, RoadStructure};
use crate::record::{coords_view, name_view, point_view, rings_view};
use crate::tile_model::{
    area_of, chain_points, clip_at, contents_of, delta_chain_at, delta_chains_at, delta_sum,
    label_of, metas_at, name_at, no_parts, parts_at, parts_readable, poi_of, pool_at, ring_counts,
    road_counts, road_of, string_at, string_reader, sum_of, tile_at, AreaView, LabelView, PoiView,
    RoadView, TileContents, TileParts,
};
use crate::tileformat::{
    dezigzag, read_one, read_vec, wire_all_at, AreaMeta, LabelMeta, PoiMeta, RingMeta, RoadMeta,
    TileHeader, NAME_NONE,
};

verus! {

/// A tile decoded into owned, tile-local geometry (`[0, extent]` coordinates).
#[derive(Clone)]
pub struct DecodedTile {
    pub extent: u16,
    pub roads: Vec<DecRoad>,
    pub areas: Vec<DecArea>,
    pub labels: Vec<DecLabel>,
    pub pois: Vec<DecPoi>,
}

#[derive(Clone)]
pub struct DecRoad {
    pub kind: RoadKind,
    pub layer: i8,
    pub lanes: Lanes,
    pub start: EdgeNode,
    pub end: EdgeNode,
    pub structure: RoadStructure,
    pub name: Option<String>,
    pub coords: Vec<[i16; 2]>,
}

#[derive(Clone)]
pub struct DecArea {
    pub kind: AreaKind,
    pub layer: i8,
    pub floors: u8,
    /// Ring 0 is the outer ring; the rest are holes.
    pub rings: Vec<Vec<[i16; 2]>>,
    /// One flag per ring vertex (rings concatenated): clip-produced boundary
    /// vertex. Empty means none.
    pub clip: Vec<bool>,
}

#[derive(Clone)]
pub struct DecLabel {
    pub class: LabelClass,
    pub rank: u8,
    pub anchor: [i16; 2],
    pub name: String,
}

#[derive(Clone)]
pub struct DecPoi {
    pub kind: PoiKind,
    pub anchor: [i16; 2],
}

impl View for DecRoad {
    type V = RoadView;

    open spec fn view(&self) -> RoadView {
        RoadView {
            kind: self.kind,
            layer: self.layer,
            lanes: self.lanes,
            start: self.start,
            end: self.end,
            structure: self.structure,
            name: name_view(self.name),
            coords: coords_view(self.coords@),
        }
    }
}

impl View for DecArea {
    type V = AreaView;

    open spec fn view(&self) -> AreaView {
        AreaView {
            kind: self.kind,
            layer: self.layer,
            floors: self.floors,
            rings: rings_view(self.rings@),
            clip: self.clip@,
        }
    }
}

impl View for DecLabel {
    type V = LabelView;

    open spec fn view(&self) -> LabelView {
        LabelView {
            class: self.class,
            rank: self.rank,
            anchor: point_view(self.anchor),
            name: self.name@,
        }
    }
}

impl View for DecPoi {
    type V = PoiView;

    open spec fn view(&self) -> PoiView {
        PoiView { kind: self.kind, anchor: point_view(self.anchor) }
    }
}

impl View for DecodedTile {
    type V = TileContents;

    open spec fn view(&self) -> TileContents {
        TileContents {
            extent: self.extent,
            roads: Seq::new(self.roads@.len(), |i: int| self.roads@[i]@),
            areas: Seq::new(self.areas@.len(), |i: int| self.areas@[i]@),
            labels: Seq::new(self.labels@.len(), |i: int| self.labels@[i]@),
            pois: Seq::new(self.pois@.len(), |i: int| self.pois@[i]@),
        }
    }
}

/// A tile with nothing in it.
pub open spec fn empty_contents() -> TileContents {
    TileContents {
        extent: 0,
        roads: Seq::empty(),
        areas: Seq::empty(),
        labels: Seq::empty(),
        pois: Seq::empty(),
    }
}

impl Default for DecodedTile {
    fn default() -> (r: Self)
        ensures
            r@ == empty_contents(),
    {
        let r = DecodedTile {
            extent: 0,
            roads: Vec::new(),
            areas: Vec::new(),
            labels: Vec::new(),
            pois: Vec::new(),
        };
        assert(r@.roads =~= Seq::empty());
        assert(r@.areas =~= Seq::empty());
        assert(r@.labels =~= Seq::empty());
        assert(r@.pois =~= Seq::empty());
        r
    }
}

/// The sections of a tile as read, before the features are made out.
struct RawTile {
    header: TileHeader,
    road_metas: Vec<RoadMeta>,
    area_metas: Vec<AreaMeta>,
    ring_metas: Vec<RingMeta>,
    label_metas: Vec<LabelMeta>,
    poi_metas: Vec<PoiMeta>,
    road_coords: Vec<Vec<[i16; 2]>>,
    rings: Vec<Vec<[i16; 2]>>,
    strings: Vec<String>,
    clip_bits: Vec<bool>,
}

pub open spec fn strings_view(s: Seq<String>) -> Seq<Seq<char>> {
    Seq::new(s.len(), |i: int| s[i]@)
}

impl View for RawTile {
    type V = TileParts;

    closed spec fn view(&self) -> TileParts {
        TileParts {
            roads: self.road_metas@,
            areas: self.area_metas@,
            rings: self.ring_metas@,
            labels: self.label_metas@,
            pois: self.poi_metas@,
            road_chains: rings_view(self.road_coords@),
            ring_chains: rings_view(self.rings@),
            table: strings_view(self.strings@),
            flags: self.clip_bits@,
        }
    }
}

/// Read `n` zig-zag delta pairs and prefix-sum them to absolute coordinates.
fn read_chain(cursor: &mut &[u8], n: u16) -> (r: Option<Vec<[i16; 2]>>)
    ensures
        match r {
            Some(c) => delta_chain_at(old(cursor)@, n as nat) == (
                Some(coords_view(c@)),
                final(cursor)@,
            ),
            None => delta_chain_at(old(cursor)@, n as nat).0 is None,
        },
{
    proof {
        reveal(delta_chain_at);
        lemma_pow256_values();
    }
    let ghost s = cursor@;
    let bytes: &[u8] = match take(cursor, 4 * (n as u64)) {
        Some(b) => b,
        None => return None,
    };
    let mut rest: &[u8] = bytes;
    let mut out: Vec<[i16; 2]> = Vec::new();
    let mut x: i32 = 0;
    let mut y: i32 = 0;
    let mut i: u16 = 0;
    assert(rest@ =~= s.subrange(0, 4 * n as int));
    while i < n
        invariant
            i <= n,
            4 * n <= s.len(),
            rest@ == s.subrange(4 * i as int, 4 * n as int),
            x == delta_sum(s, i as nat, 0),
            y == delta_sum(s, i as nat, 2),
            -0x8000 * i <= x <= 0x7fff * i,
            -0x8000 * i <= y <= 0x7fff * i,
            coords_view(out@) == chain_points(s, n as nat).take(i as int),
            out@.len() == i,
            crate::bytes::pow256(2) == 0x1_0000,
        decreases n - i,
    {
        let ghost before = rest@;
        let a: u16 = match read_le(&mut rest, 2) {
            Some(v) => v as u16,
            None => return None,
        };
        let b: u16 = match read_le(&mut rest, 2) {
            Some(v) => v as u16,
            None => return None,
        };
        proof {
            assert(before.take(2) =~= s.subrange(4 * i as int, 4 * i + 2));
            assert(before.skip(2).take(2) =~= s.subrange(4 * i + 2, 4 * i + 4));
            assert(before.skip(2).skip(2) =~= s.subrange(4 * (i + 1), 4 * n as int));
            assert(4 * ((i + 1) as nat - 1) == 4 * i);
        }
        x = x + dezigzag(a);
        y = y + dezigzag(b);
        proof {
            assert(delta_sum(s, (i + 1) as nat, 0) == x);
            assert(delta_sum(s, (i + 1) as nat, 2) == y);
        }
        out.push([wrap_i16(x), wrap_i16(y)]);
        i = i + 1;
        assert(coords_view(out@) =~= chain_points(s, n as nat).take(i as int));
    }
    assert(chain_points(s, n as nat).take(n as int) =~= chain_points(s, n as nat));
    Some(out)
}

/// The low 16 bits of `v`, as a signed number.
fn wrap_i16(v: i32) -> (r: i16)
    ensures
        r == i16_of(v as int),
{
    let wide: i64 = v as i64 + 0x8000_0000;
    i16_from_bits((wide % 0x1_0000) as u16)
}

/// Read one chain per count.
fn read_chains(cursor: &mut &[u8], counts: &Vec<u16>) -> (r: Option<Vec<Vec<[i16; 2]>>>)
    ensures
        match r {
            Some(cs) => delta_chains_at(old(cursor)@, nats(counts@)) == (
                Some(rings_view(cs@)),
                final(cursor)@,
            ),
            None => delta_chains_at(old(cursor)@, nats(counts@)).0 is None,
        },
{
    let ghost s = cursor@;
    let ghost all = nats(counts@);
    let mut out: Vec<Vec<[i16; 2]>> = Vec::new();
    let mut i: usize = 0;
    proof {
        assert(all.skip(0) =~= all);
        assert(rings_view(out@) =~= Seq::empty());
        if let Some(cs) = delta_chains_at(s, all).0 {
            assert(Seq::empty() + cs =~= cs);
        }
    }
    while i < counts.len()
        invariant
            i <= counts@.len(),
            s == old(cursor)@,
            all == nats(counts@),
            delta_chains_at(s, all) == prepend(
                rings_view(out@),
                delta_chains_at(cursor@, all.skip(i as int)),
            ),
        decreases counts@.len() - i,
    {
        let ghost before = rings_view(out@);
        let ghost left = all.skip(i as int);
        assert(left.skip(1) =~= all.skip(i + 1));
        assert(left[0] == counts@[i as int] as nat);
        let ghost at = cursor@;
        match read_chain(cursor, counts[i]) {
            None => return None,
            Some(c) => {
                out.push(c);
                proof {
                    let now = rings_view(out@);
                    assert(now =~= before.push(coords_view(c@)));
                    if let Some(cs) = delta_chains_at(cursor@, left.skip(1)).0 {
                        assert(before + (seq![coords_view(c@)] + cs) =~= now + cs);
                    }
                }
            },
        }
        i = i + 1;
    }
    assert(rings_view(out@) + Seq::empty() =~= rings_view(out@));
    Some(out)
}

pub open spec fn nats(s: Seq<u16>) -> Seq<nat> {
    Seq::new(s.len(), |i: int| s[i] as nat)
}

fn road_vertex_counts(metas: &Vec<RoadMeta>) -> (r: Vec<u16>)
    ensures
        nats(r@) == road_counts(metas@),
{
    let mut r: Vec<u16> = Vec::new();
    let mut i: usize = 0;
    while i < metas.len()
        invariant
            i <= metas@.len(),
            nats(r@) == road_counts(metas@).take(i as int),
            r@.len() == i,
        decreases metas@.len() - i,
    {
        r.push(metas[i].vertex_count);
        i = i + 1;
        assert(nats(r@) =~= road_counts(metas@).take(i as int));
    }
    assert(road_counts(metas@).take(i as int) =~= road_counts(metas@));
    r
}

fn ring_vertex_counts(metas: &Vec<RingMeta>) -> (r: Vec<u16>)
    ensures
        nats(r@) == ring_counts(metas@),
{
    let mut r: Vec<u16> = Vec::new();
    let mut i: usize = 0;
    while i < metas.len()
        invariant
            i <= metas@.len(),
            nats(r@) == ring_counts(metas@).take(i as int),
            r@.len() == i,
        decreases metas@.len() - i,
    {
        r.push(metas[i].vertex_count);
        i = i + 1;
        assert(nats(r@) =~= ring_counts(metas@).take(i as int));
    }
    assert(ring_counts(metas@).take(i as int) =~= ring_counts(metas@));
    r
}

/// The vertex offset of each ring, and the total behind the last.
fn ring_prefix(metas: &Vec<RingMeta>) -> (r: Vec<usize>)
    requires
        metas@.len() <= 0xffff,
    ensures
        r@.len() == metas@.len() + 1,
        forall|k: int|
            0 <= k < r@.len() ==> #[trigger] r@[k] == sum_of(ring_counts(metas@).take(k)),
        forall|k: int| 0 <= k < r@.len() ==> #[trigger] r@[k] <= 0xffff * k,
{
    let mut r: Vec<usize> = Vec::new();
    let mut acc: usize = 0;
    r.push(0);
    let ghost counts = ring_counts(metas@);
    let mut i: usize = 0;
    while i < metas.len()
        invariant
            i <= metas@.len() <= 0xffff,
            counts == ring_counts(metas@),
            r@.len() == i + 1,
            acc == sum_of(counts.take(i as int)),
            acc <= 0xffff * i,
            forall|k: int| 0 <= k < r@.len() ==> #[trigger] r@[k] == sum_of(counts.take(k)),
            forall|k: int| 0 <= k < r@.len() ==> #[trigger] r@[k] <= 0xffff * k,
        decreases metas@.len() - i,
    {
        acc = acc + metas[i].vertex_count as usize;
        r.push(acc);
        i = i + 1;
        assert(counts.take(i as int).drop_last() =~= counts.take(i - 1));
    }
    r
}

fn read_string(cursor: &mut &[u8]) -> (r: Option<String>)
    ensures
        match r {
            Some(t) => string_at(old(cursor)@) == (Some(t@), final(cursor)@),
            None => string_at(old(cursor)@).0 is None,
        },
{
    proof {
        reveal(string_at);
    }
    let n: u64 = match read_le(cursor, 2) {
        Some(v) => v,
        None => return None,
    };
    let bytes: &[u8] = match take(cursor, n) {
        Some(b) => b,
        None => return None,
    };
    string_from_utf8(bytes_to_vec(bytes))
}

fn read_strings(cursor: &mut &[u8], n: usize) -> (r: Option<Vec<String>>)
    ensures
        match r {
            Some(v) => many_at(string_reader(), old(cursor)@, n as nat) == (
                Some(strings_view(v@)),
                final(cursor)@,
            ),
            None => many_at(string_reader(), old(cursor)@, n as nat).0 is None,
        },
{
    let ghost s = cursor@;
    let mut out: Vec<String> = Vec::new();
    let mut i: usize = 0;
    proof {
        assert(strings_view(out@) =~= Seq::empty());
        if let Some(items) = many_at(string_reader(), s, n as nat).0 {
            assert(Seq::empty() + items =~= items);
        }
    }
    while i < n
        invariant
            i <= n,
            s == old(cursor)@,
            many_at(string_reader(), s, n as nat) == prepend(
                strings_view(out@),
                many_at(string_reader(), cursor@, (n - i) as nat),
            ),
        decreases n - i,
    {
        proof {
            lemma_many_step(string_reader(), strings_view(out@), cursor@, (n - i) as nat);
        }
        let ghost before = strings_view(out@);
        match read_string(cursor) {
            None => return None,
            Some(t) => {
                out.push(t);
                assert(strings_view(out@) =~= before.push(t@));
            },
        }
        i = i + 1;
    }
    assert(strings_view(out@) + Seq::empty() =~= strings_view(out@));
    Some(out)
}

fn read_bits(cursor: &mut &[u8], header: &TileHeader, n: usize) -> (r: Option<Vec<bool>>)
    ensures
        match r {
            Some(v) => clip_at(old(cursor)@, *header, n as nat) == Some(v@),
            None => clip_at(old(cursor)@, *header, n as nat) is None,
        },
{
    proof {
        reveal(clip_at);
    }
    if header.flags % 2 == 0 {
        let none: Vec<bool> = Vec::new();
        assert(none@ =~= Seq::empty());
        return Some(none);
    }
    let len: u64 = (n / 8 + (if n % 8 == 0 {
        0usize
    } else {
        1usize
    })) as u64;
    assert(len == mask_len(n as nat));
    match take(cursor, len) {
        None => None,
        Some(data) => Some(get_mask(data, n)),
    }
}

proof fn lemma_chains_len(s: Seq<u8>, counts: Seq<nat>)
    ensures
        delta_chains_at(s, counts).0 matches Some(cs) ==> cs.len() == counts.len(),
    decreases counts.len(),
{
    if counts.len() > 0 {
        lemma_chains_len(delta_chain_at(s, counts[0]).1, counts.skip(1));
    }
}

fn read_raw(raw: &[u8]) -> (r: Option<RawTile>)
    ensures
        match r {
            Some(t) => parts_at(raw@) == Some((t.header, t@)) && t.fits(),
            None => parts_at(raw@) is None,
        },
{
    let mut cursor: &[u8] = raw;
    let header: TileHeader = match read_one(&mut cursor) {
        Some(h) => h,
        None => return None,
    };
    let ghost after_header = cursor@;
    let road_metas: Vec<RoadMeta> = match read_vec(&mut cursor, header.road_count as usize) {
        Some(v) => v,
        None => return None,
    };
    let area_metas: Vec<AreaMeta> = match read_vec(&mut cursor, header.area_count as usize) {
        Some(v) => v,
        None => return None,
    };
    let ghost before_rings = cursor@;
    let ring_metas: Vec<RingMeta> = match read_vec(&mut cursor, header.ring_count as usize) {
        Some(v) => v,
        None => return None,
    };
    assert(ring_metas@.len() <= 0xffff) by {
        reveal(wire_all_at);
    }
    let label_metas: Vec<LabelMeta> = match read_vec(&mut cursor, header.label_count as usize) {
        Some(v) => v,
        None => return None,
    };
    let poi_metas: Vec<PoiMeta> = match read_vec(&mut cursor, header.poi_count as usize) {
        Some(v) => v,
        None => return None,
    };
    let ghost m = TileParts {
        roads: road_metas@,
        areas: area_metas@,
        rings: ring_metas@,
        labels: label_metas@,
        pois: poi_metas@,
        ..no_parts()
    };
    assert(metas_at(after_header, header) == (Some(m), cursor@));
    let ghost pool = cursor@;
    // Coordinate pool: road chains first, then ring chains (each zig-zag delta).
    let road_coords: Vec<Vec<[i16; 2]>> = match read_chains(
        &mut cursor,
        &road_vertex_counts(&road_metas),
    ) {
        Some(v) => v,
        None => return None,
    };
    let rings: Vec<Vec<[i16; 2]>> = match read_chains(&mut cursor, &ring_vertex_counts(&ring_metas)) {
        Some(v) => v,
        None => return None,
    };
    let strings: Vec<String> = match read_strings(&mut cursor, header.string_count as usize) {
        Some(v) => v,
        None => return None,
    };
    let prefix: Vec<usize> = ring_prefix(&ring_metas);
    let ring_verts: usize = prefix[ring_metas.len()];
    assert(ring_counts(ring_metas@).take(ring_metas@.len() as int) =~= ring_counts(ring_metas@));
    let clip_bits: Vec<bool> = match read_bits(&mut cursor, &header, ring_verts) {
        Some(v) => v,
        None => return None,
    };
    let t = RawTile {
        header,
        road_metas,
        area_metas,
        ring_metas,
        label_metas,
        poi_metas,
        road_coords,
        rings,
        strings,
        clip_bits,
    };
    assert(pool_at(pool, header, m) == Some(t@));
    proof {
        lemma_chains_len(pool, road_counts(road_metas@));
        lemma_chains_len(
            delta_chains_at(pool, road_counts(road_metas@)).1,
            ring_counts(ring_metas@),
        );
        reveal(clip_at);
        reveal(mask_bits);
    }
    Some(t)
}

/// A copy of `coords`.
pub fn copy_coords(coords: &Vec<[i16; 2]>) -> (r: Vec<[i16; 2]>)
    ensures
        r@ == coords@,
{
    let mut r: Vec<[i16; 2]> = Vec::new();
    let mut i: usize = 0;
    while i < coords.len()
        invariant
            i <= coords@.len(),
            r@ == coords@.take(i as int),
        decreases coords@.len() - i,
    {
        r.push(coords[i]);
        i = i + 1;
        assert(coords@.take(i as int) =~= coords@.take(i - 1).push(coords@[i - 1]));
    }
    assert(coords@.take(i as int) =~= coords@);
    r
}

/// A copy of the flags from `from` up to `to`.
pub fn copy_flags(flags: &Vec<bool>, from: usize, to: usize) -> (r: Vec<bool>)
    requires
        from <= to <= flags@.len(),
    ensures
        r@ == flags@.subrange(from as int, to as int),
{
    let mut r: Vec<bool> = Vec::new();
    let mut i: usize = from;
    while i < to
        invariant
            from <= i <= to <= flags@.len(),
            r@ == flags@.subrange(from as int, i as int),
        decreases to - i,
    {
        r.push(flags[i]);
        i = i + 1;
        assert(flags@.subrange(from as int, i as int) =~= flags@.subrange(
            from as int,
            i - 1,
        ).push(flags@[i - 1]));
    }
    r
}

proof fn lemma_sum_monotone(counts: Seq<nat>, a: int, b: int)
    requires
        0 <= a <= b <= counts.len(),
    ensures
        sum_of(counts.take(a)) <= sum_of(counts.take(b)),
    decreases b - a,
{
    if a < b {
        lemma_sum_monotone(counts, a, b - 1);
        assert(counts.take(b).drop_last() =~= counts.take(b - 1));
    }
}

impl RawTile {
    closed spec fn fits(&self) -> bool {
        &&& self.road_coords@.len() == self.road_metas@.len()
        &&& self.rings@.len() == self.ring_metas@.len()
        &&& self.ring_metas@.len() <= 0xffff
        &&& self.clip_bits@.len() == 0 || self.clip_bits@.len() == sum_of(
            ring_counts(self.ring_metas@),
        )
    }

    fn road(&self, i: usize) -> (r: Option<DecRoad>)
        requires
            self.fits(),
            i < self.road_metas@.len(),
        ensures
            match r {
                Some(f) => road_of(self@, i as int) == Some(f@),
                None => road_of(self@, i as int) is None,
            },
    {
        let m: RoadMeta = self.road_metas[i];
        let kind: RoadKind = match RoadKind::from_u8(m.kind) {
            Some(k) => k,
            None => return None,
        };
        let start: EdgeNode = match EdgeNode::from_u8(m.caps % 4) {
            Some(e) => e,
            None => return None,
        };
        let end: EdgeNode = match EdgeNode::from_u8(m.caps / 4 % 4) {
            Some(e) => e,
            None => return None,
        };
        let structure: RoadStructure = match RoadStructure::from_u8(m.caps / 16 % 4) {
            Some(e) => e,
            None => return None,
        };
        let name: Option<String> = if m.name != NAME_NONE && (m.name as usize) < self.strings.len() {
            Some(self.strings[m.name as usize].clone())
        } else {
            None
        };
        assert(name_view(name) == name_at(self@.table, m.name));
        Some(
            DecRoad {
                kind,
                layer: m.layer,
                lanes: Lanes::new(m.lanes_forward, m.lanes_backward),
                start,
                end,
                structure,
                name,
                coords: copy_coords(&self.road_coords[i]),
            },
        )
    }

    fn area(&self, i: usize, prefix: &Vec<usize>) -> (r: Option<DecArea>)
        requires
            self.fits(),
            i < self.area_metas@.len(),
            prefix@.len() == self.ring_metas@.len() + 1,
            forall|k: int|
                0 <= k < prefix@.len() ==> #[trigger] prefix@[k] == sum_of(
                    ring_counts(self.ring_metas@).take(k),
                ),
        ensures
            match r {
                Some(f) => area_of(self@, i as int) == Some(f@),
                None => area_of(self@, i as int) is None,
            },
    {
        let m: AreaMeta = self.area_metas[i];
        let kind: AreaKind = match AreaKind::from_u8(m.kind) {
            Some(k) => k,
            None => return None,
        };
        let first: usize = m.first_ring as usize;
        let end: usize = first + m.ring_count as usize;
        if end > self.rings.len() {
            return None;
        }
        let mut rings: Vec<Vec<[i16; 2]>> = Vec::new();
        let mut k: usize = first;
        assert(rings_view(rings@) =~= self@.ring_chains.subrange(first as int, first as int));
        while k < end
            invariant
                first <= k <= end <= self.rings@.len(),
                rings_view(rings@) == self@.ring_chains.subrange(first as int, k as int),
            decreases end - k,
        {
            let ghost before = rings_view(rings@);
            rings.push(copy_coords(&self.rings[k]));
            k = k + 1;
            assert(rings_view(rings@) =~= before.push(coords_view(self.rings@[k - 1]@)));
            assert(self@.ring_chains.subrange(first as int, k as int)
                =~= self@.ring_chains.subrange(first as int, k - 1).push(
                self@.ring_chains[k - 1],
            ));
        }
        let clip: Vec<bool> = if self.clip_bits.len() == 0 {
            Vec::new()
        } else {
            proof {
                let counts = ring_counts(self.ring_metas@);
                lemma_sum_monotone(counts, first as int, end as int);
                lemma_sum_monotone(counts, end as int, counts.len() as int);
                assert(counts.take(counts.len() as int) =~= counts);
            }
            copy_flags(&self.clip_bits, prefix[first], prefix[end])
        };
        assert(self.clip_bits@.len() == 0 ==> clip@ =~= Seq::empty());
        Some(DecArea { kind, layer: m.layer, floors: m.floors, rings, clip })
    }

    fn label(&self, i: usize) -> (r: Option<DecLabel>)
        requires
            i < self.label_metas@.len(),
        ensures
            match r {
                Some(f) => label_of(self@, i as int) == Some(f@),
                None => label_of(self@, i as int) is None,
            },
    {
        let m: LabelMeta = self.label_metas[i];
        let class: LabelClass = match LabelClass::from_u8(m.class) {
            Some(c) => c,
            None => return None,
        };
        let name: String = if (m.name as usize) < self.strings.len() {
            self.strings[m.name as usize].clone()
        } else {
            String::new()
        };
        assert(name@ =~= if m.name < self@.table.len() {
            self@.table[m.name as int]
        } else {
            Seq::empty()
        });
        Some(DecLabel { class, rank: m.rank, anchor: [m.anchor_x, m.anchor_y], name })
    }

    fn poi(&self, i: usize) -> (r: Option<DecPoi>)
        requires
            i < self.poi_metas@.len(),
        ensures
            match r {
                Some(f) => poi_of(self@, i as int) == Some(f@),
                None => poi_of(self@, i as int) is None,
            },
    {
        let m: PoiMeta = self.poi_metas[i];
        match PoiKind::from_u8(m.kind) {
            Some(kind) => Some(DecPoi { kind, anchor: [m.anchor_x, m.anchor_y] }),
            None => None,
        }
    }

    fn features(&self) -> (r: Option<DecodedTile>)
        requires
            self.fits(),
        ensures
            match r {
                Some(t) => parts_readable(self@) && t@ == contents_of(self@, self.header.extent),
                None => !parts_readable(self@),
            },
    {
        let ghost p = self@;
        let mut roads: Vec<DecRoad> = Vec::new();
        let mut i: usize = 0;
        while i < self.road_metas.len()
            invariant
                self.fits(),
                p == self@,
                i <= self.road_metas@.len(),
                roads@.len() == i,
                forall|k: int| 0 <= k < i ==> #[trigger] road_of(p, k) == Some(roads@[k]@),
            decreases self.road_metas@.len() - i,
        {
            match self.road(i) {
                Some(f) => roads.push(f),
                None => return None,
            }
            i = i + 1;
        }
        let prefix: Vec<usize> = ring_prefix(&self.ring_metas);
        let mut areas: Vec<DecArea> = Vec::new();
        let mut i: usize = 0;
        while i < self.area_metas.len()
            invariant
                self.fits(),
                p == self@,
                i <= self.area_metas@.len(),
                areas@.len() == i,
                prefix@.len() == self.ring_metas@.len() + 1,
                forall|k: int|
                    0 <= k < prefix@.len() ==> #[trigger] prefix@[k] == sum_of(
                        ring_counts(self.ring_metas@).take(k),
                    ),
                forall|k: int| 0 <= k < i ==> #[trigger] area_of(p, k) == Some(areas@[k]@),
            decreases self.area_metas@.len() - i,
        {
            match self.area(i, &prefix) {
                Some(f) => areas.push(f),
                None => return None,
            }
            i = i + 1;
        }
        let mut labels: Vec<DecLabel> = Vec::new();
        let mut i: usize = 0;
        while i < self.label_metas.len()
            invariant
                p == self@,
                i <= self.label_metas@.len(),
                labels@.len() == i,
                forall|k: int| 0 <= k < i ==> #[trigger] label_of(p, k) == Some(labels@[k]@),
            decreases self.label_metas@.len() - i,
        {
            match self.label(i) {
                Some(f) => labels.push(f),
                None => return None,
            }
            i = i + 1;
        }
        let mut pois: Vec<DecPoi> = Vec::new();
        let mut i: usize = 0;
        while i < self.poi_metas.len()
            invariant
                p == self@,
                i <= self.poi_metas@.len(),
                pois@.len() == i,
                forall|k: int| 0 <= k < i ==> #[trigger] poi_of(p, k) == Some(pois@[k]@),
            decreases self.poi_metas@.len() - i,
        {
            match self.poi(i) {
                Some(f) => pois.push(f),
                None => return None,
            }
            i = i + 1;
        }
        let t = DecodedTile { extent: self.header.extent, roads, areas, labels, pois };
        proof {
            let want = contents_of(p, self.header.extent);
            assert(t@.roads =~= want.roads);
            assert(t@.areas =~= want.areas);
            assert(t@.labels =~= want.labels);
            assert(t@.pois =~= want.pois);
        }
        Some(t)
    }
}

/// Decode an uncompressed tile; `None` where it is truncated or malformed.
pub fn decode_uncompressed(raw: &[u8]) -> (r: Option<DecodedTile>)
    ensures
        match r {
            Some(t) => tile_at(raw@) == Some(t@),
            None => tile_at(raw@) is None,
        },
{
    match read_raw(raw) {
        Some(t) => t.features(),
        None => None,
    }
}

} // verus!
