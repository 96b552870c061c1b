//! The tile builder: clipped records in, the flat tile format out.

use vstd::prelude::*;

use crate::bytes::{flat, put_bytes, put_le, put_mask};
use crate::record::{
    coords_view, has_flag, rings_view, vertex_total, RecordView, TileGeometry, TileRecord,
};
use crate::tile_model::{
    add_record, area_flags, clip_section, delta_bytes, delta_image, header_of, last_step, low16,
    name_slot, no_parts, parts_of, ring_metas_of, string_image, tile_bytes, with_name, TileParts,
};
use crate::tileformat::{
    put_all, wire_all, zigzag, AreaMeta, LabelMeta, PoiMeta, RingMeta, RoadMeta, TileHeader, Wire,
    FLAG_RING_CLIP_MASK, NAME_NONE, TILE_VERSION,
};

verus! {

/// An index of names, held in a `hashbrown` map.
#[verifier::external_body]
pub struct NameIndex<'a> {
    map: hashbrown::HashMap<&'a str, u16>,
}

/// The entries of the map.
pub uninterp spec fn name_index_entries(m: NameIndex) -> Map<Seq<char>, u16>;

impl<'a> NameIndex<'a> {
    /// `hashbrown::HashMap::new`: a map without entries.
    #[verifier::external_body]
    fn new() -> (r: Self)
        ensures
            name_index_entries(r).dom() == Set::<Seq<char>>::empty(),
    {
        NameIndex { map: hashbrown::HashMap::new() }
    }

    /// `hashbrown::HashMap::get`: the value under a key equal to `name`, if there is
    /// one.
    #[verifier::external_body]
    fn get(&self, name: &str) -> (r: Option<u16>)
        ensures
            r == (if name_index_entries(*self).contains_key(name@) {
                Some(name_index_entries(*self)[name@])
            } else {
                None
            }),
    {
        self.map.get(name).copied()
    }

    /// `hashbrown::HashMap::insert`: puts the value under the key, in place of any
    /// value that was there.
    #[verifier::external_body]
    fn insert(&mut self, name: &'a str, index: u16)
        ensures
            name_index_entries(*final(self)) == name_index_entries(*old(self)).insert(name@, index),
    {
        self.map.insert(name, index);
    }
}

pub open spec fn strs_view(s: Seq<&str>) -> Seq<Seq<char>> {
    Seq::new(s.len(), |i: int| s[i]@)
}

pub open spec fn records_view(s: Seq<TileRecord>) -> Seq<RecordView> {
    Seq::new(s.len(), |i: int| s[i]@)
}

fn low16_of(n: usize) -> (r: u16)
    ensures
        r == low16(n as nat),
{
    (n % 0x1_0000) as u16
}

/// Append `coords` as a zig-zag delta chain (first vertex = delta from origin).
pub fn push_deltas(out: &mut Vec<u8>, coords: &Vec<[i16; 2]>)
    ensures
        final(out)@ == old(out)@ + delta_bytes(coords_view(coords@)),
{
    let ghost model = coords_view(coords@);
    let mut px: i32 = 0;
    let mut py: i32 = 0;
    let mut i: usize = 0;
    assert(out@ =~= out@ + delta_bytes(model.take(0)));
    while i < coords.len()
        invariant
            i <= coords@.len(),
            model == coords_view(coords@),
            out@ == old(out)@ + delta_bytes(model.take(i as int)),
            i == 0 ==> px == 0 && py == 0,
            i > 0 ==> px == model[i - 1].0 && py == model[i - 1].1,
            -0x8000 <= px <= 0x7fff,
            -0x8000 <= py <= 0x7fff,
        decreases coords@.len() - i,
    {
        let x: i32 = coords[i][0] as i32;
        let y: i32 = coords[i][1] as i32;
        put_le(out, zigzag(x - px) as u64, 2);
        put_le(out, zigzag(y - py) as u64, 2);
        i = i + 1;
        proof {
            let done = model.take(i as int);
            assert(done.drop_last() =~= model.take(i - 1));
            assert(done.last() == model[i - 1]);
            assert(last_step(done) == (x - px, y - py));
            assert(out@ =~= old(out)@ + delta_bytes(done));
        }
        px = x;
        py = y;
    }
    assert(model.take(i as int) =~= model);
}

proof fn lemma_slot(table: Seq<Seq<char>>, i: int)
    requires
        table.no_duplicates(),
        0 <= i < table.len(),
    ensures
        name_slot(table, table[i]) == i,
{
    let k = table.index_of(table[i]);
    assert(table[i] == table[i]);
    assert(0 <= k < table.len() && table[k] == table[i]);
}

/// The sections of a tile while its records come in.
struct TileBuilder<'a> {
    road_metas: Vec<RoadMeta>,
    area_metas: Vec<AreaMeta>,
    ring_metas: Vec<RingMeta>,
    label_metas: Vec<LabelMeta>,
    poi_metas: Vec<PoiMeta>,
    road_coords: Vec<u8>,
    ring_coords: Vec<u8>,
    /// One flag per ring vertex (rings in emission order): clip-produced?
    ring_clip: Vec<bool>,
    /// Per-tile string table: names are interned so a road split into many segments
    /// (or a repeated place name) stores its text once.
    string_list: Vec<&'a str>,
    interned: NameIndex<'a>,
}

impl<'a> TileBuilder<'a> {
    spec fn names_hold(&self) -> bool {
        let table = strs_view(self.string_list@);
        let entries = name_index_entries(self.interned);
        &&& table.no_duplicates()
        &&& forall|n: Seq<char>| #[trigger] entries.contains_key(n) <==> table.contains(n)
        &&& forall|n: Seq<char>| #[trigger]
            entries.contains_key(n) ==> entries[n] == low16(name_slot(table, n))
    }

    spec fn holds(&self, p: TileParts) -> bool {
        &&& self.names_hold()
        &&& self.road_metas@ == p.roads
        &&& self.area_metas@ == p.areas
        &&& self.ring_metas@ == p.rings
        &&& self.label_metas@ == p.labels
        &&& self.poi_metas@ == p.pois
        &&& self.road_coords@ == flat(delta_image(), p.road_chains)
        &&& self.ring_coords@ == flat(delta_image(), p.ring_chains)
        &&& self.ring_clip@ == p.flags
        &&& strs_view(self.string_list@) == p.table
    }

    fn new() -> (r: Self)
        ensures
            r.holds(no_parts()),
    {
        let r = TileBuilder {
            road_metas: Vec::new(),
            area_metas: Vec::new(),
            ring_metas: Vec::new(),
            label_metas: Vec::new(),
            poi_metas: Vec::new(),
            road_coords: Vec::new(),
            ring_coords: Vec::new(),
            ring_clip: Vec::new(),
            string_list: Vec::new(),
            interned: NameIndex::new(),
        };
        assert(strs_view(r.string_list@) =~= Seq::empty());
        assert(r.road_coords@ =~= Seq::empty());
        assert(r.ring_coords@ =~= Seq::empty());
        r
    }

    /// Intern a name into the per-tile string table, returning its index.
    fn intern(&mut self, s: &'a str) -> (r: u16)
        requires
            old(self).names_hold(),
        ensures
            final(self).names_hold(),
            strs_view(final(self).string_list@) == with_name(
                strs_view(old(self).string_list@),
                s@,
            ),
            r == low16(name_slot(strs_view(final(self).string_list@), s@)),
            *final(self) == (TileBuilder {
                string_list: final(self).string_list,
                interned: final(self).interned,
                ..*old(self)
            }),
    {
        let ghost table = strs_view(self.string_list@);
        let ghost entries = name_index_entries(self.interned);
        if let Some(i) = self.interned.get(s) {
            return i;
        }
        let i: u16 = low16_of(self.string_list.len());
        self.string_list.push(s);
        self.interned.insert(s, i);
        proof {
            let after = strs_view(self.string_list@);
            assert(after =~= table.push(s@));
            assert(after.no_duplicates()) by {
                assert forall|a: int, b: int|
                    0 <= a < after.len() && 0 <= b < after.len() && a != b implies after[a]
                    != after[b] by {
                    if a < table.len() && b == table.len() {
                        assert(table.contains(after[a]));
                    } else if b < table.len() && a == table.len() {
                        assert(table.contains(after[b]));
                    }
                }
            }
            assert(after[table.len() as int] == s@);
            lemma_slot(after, table.len() as int);
            let now = name_index_entries(self.interned);
            assert forall|n: Seq<char>| #[trigger] now.contains_key(n) <==> after.contains(n) by {
                if n == s@ {
                    assert(after.contains(n));
                } else if table.contains(n) {
                    let k = choose|k: int| 0 <= k < table.len() && table[k] == n;
                    assert(after[k] == n);
                    assert(entries.contains_key(n));
                } else if after.contains(n) {
                    let k = choose|k: int| 0 <= k < after.len() && after[k] == n;
                    assert(table[k] == n);
                }
            }
            assert forall|n: Seq<char>| #[trigger] now.contains_key(n) implies now[n] == low16(
                name_slot(after, n),
            ) by {
                if n != s@ {
                    assert(entries.contains_key(n));
                    let k = choose|k: int| 0 <= k < table.len() && table[k] == n;
                    lemma_slot(table, k);
                    assert(after[k] == n);
                    lemma_slot(after, k);
                }
            }
        }
        i
    }

    /// Take in one record.
    fn add(&mut self, record: &'a TileRecord, Ghost(p): Ghost<TileParts>)
        requires
            old(self).holds(p),
        ensures
            final(self).holds(add_record(p, record@)),
    {
        match &record.geometry {
            TileGeometry::Road { kind, start, end, coords, lanes_forward, lanes_backward, name } => {
                let name: u16 = match name {
                    Some(s) => self.intern(s.as_str()),
                    None => NAME_NONE,
                };
                proof {
                    start.ordinal_roundtrip(*end, 0);
                    end.ordinal_roundtrip(*start, 0);
                }
                self.road_metas.push(
                    RoadMeta {
                        kind: kind.to_u8(),
                        caps: start.to_u8() + 4 * end.to_u8(),
                        layer: record.layer,
                        lanes_forward: *lanes_forward,
                        lanes_backward: *lanes_backward,
                        _pad: 0,
                        vertex_count: low16_of(coords.len()),
                        name,
                    },
                );
                push_deltas(&mut self.road_coords, coords);
                proof {
                    let chains = p.road_chains.push(coords_view(coords@));
                    assert(chains.drop_last() =~= p.road_chains);
                }
            },
            TileGeometry::Area { kind, floors, rings, clip } => {
                let first_ring: u16 = low16_of(self.ring_metas.len());
                let ghost model = rings_view(rings@);
                self.add_rings(rings, Ghost(p));
                if clip.len() == 0 {
                    self.add_clear_flags(rings);
                } else {
                    let mut i: usize = 0;
                    let ghost before = *self;
                    while i < clip.len()
                        invariant
                            i <= clip@.len(),
                            *self == (TileBuilder { ring_clip: self.ring_clip, ..before }),
                            self.ring_clip@ == before.ring_clip@ + clip@.take(i as int),
                        decreases clip@.len() - i,
                    {
                        self.ring_clip.push(clip[i]);
                        i = i + 1;
                        assert(clip@.take(i as int) =~= clip@.take(i - 1).push(clip@[i - 1]));
                    }
                    assert(clip@.take(i as int) =~= clip@);
                }
                self.area_metas.push(
                    AreaMeta {
                        kind: kind.to_u8(),
                        layer: record.layer,
                        floors: *floors,
                        _pad: 0,
                        first_ring,
                        ring_count: low16_of(rings.len()),
                    },
                );
                assert(self.ring_clip@ =~= p.flags + area_flags(model, clip@));
            },
            TileGeometry::Label { class, anchor, name } => {
                let name: u16 = self.intern(name.as_str());
                self.label_metas.push(
                    LabelMeta {
                        class: class.to_u8(),
                        rank: class.rank(),
                        anchor_x: anchor[0],
                        anchor_y: anchor[1],
                        name,
                    },
                );
            },
            TileGeometry::Poi { kind, anchor } => {
                self.poi_metas.push(
                    PoiMeta { kind: kind.to_u8(), _pad: 0, anchor_x: anchor[0], anchor_y: anchor[1] },
                );
            },
        }
    }

    /// The ring sections of one area.
    fn add_rings(&mut self, rings: &Vec<Vec<[i16; 2]>>, Ghost(p): Ghost<TileParts>)
        requires
            old(self).ring_metas@ == p.rings,
            old(self).ring_coords@ == flat(delta_image(), p.ring_chains),
        ensures
            final(self).ring_metas@ == p.rings + ring_metas_of(rings_view(rings@)),
            final(self).ring_coords@ == flat(delta_image(), p.ring_chains + rings_view(rings@)),
            *final(self) == (TileBuilder {
                ring_metas: final(self).ring_metas,
                ring_coords: final(self).ring_coords,
                ..*old(self)
            }),
    {
        let ghost model = rings_view(rings@);
        let mut i: usize = 0;
        assert(p.rings + ring_metas_of(model.take(0)) =~= p.rings);
        assert(p.ring_chains + model.take(0) =~= p.ring_chains);
        while i < rings.len()
            invariant
                i <= rings@.len(),
                model == rings_view(rings@),
                self.ring_metas@ == p.rings + ring_metas_of(model.take(i as int)),
                self.ring_coords@ == flat(delta_image(), p.ring_chains + model.take(i as int)),
                *self == (TileBuilder {
                    ring_metas: self.ring_metas,
                    ring_coords: self.ring_coords,
                    ..*old(self)
                }),
            decreases rings@.len() - i,
        {
            self.ring_metas.push(RingMeta { vertex_count: low16_of(rings[i].len()) });
            push_deltas(&mut self.ring_coords, &rings[i]);
            i = i + 1;
            proof {
                let done = p.ring_chains + model.take(i as int);
                assert(done.drop_last() =~= p.ring_chains + model.take(i - 1));
                assert(done.last() == coords_view(rings@[i - 1]@));
                assert(self.ring_metas@ =~= p.rings + ring_metas_of(model.take(i as int)));
            }
        }
        assert(model.take(i as int) =~= model);
    }

    /// One clear flag per ring vertex.
    fn add_clear_flags(&mut self, rings: &Vec<Vec<[i16; 2]>>)
        ensures
            final(self).ring_clip@ == old(self).ring_clip@ + Seq::new(
                vertex_total(rings_view(rings@)),
                |i: int| false,
            ),
            *final(self) == (TileBuilder { ring_clip: final(self).ring_clip, ..*old(self) }),
    {
        let ghost model = rings_view(rings@);
        let mut i: usize = 0;
        assert(self.ring_clip@ =~= self.ring_clip@ + Seq::new(
            vertex_total(model.take(0)),
            |i: int| false,
        ));
        while i < rings.len()
            invariant
                i <= rings@.len(),
                model == rings_view(rings@),
                self.ring_clip@ == old(self).ring_clip@ + Seq::new(
                    vertex_total(model.take(i as int)),
                    |i: int| false,
                ),
                *self == (TileBuilder { ring_clip: self.ring_clip, ..*old(self) }),
            decreases rings@.len() - i,
        {
            let n: usize = rings[i].len();
            let ghost before = vertex_total(model.take(i as int));
            let mut k: usize = 0;
            while k < n
                invariant
                    k <= n,
                    self.ring_clip@ == old(self).ring_clip@ + Seq::new(
                        before + k as nat,
                        |i: int| false,
                    ),
                    *self == (TileBuilder { ring_clip: self.ring_clip, ..*old(self) }),
                decreases n - k,
            {
                self.ring_clip.push(false);
                k = k + 1;
                assert(self.ring_clip@ =~= old(self).ring_clip@ + Seq::new(
                    before + k as nat,
                    |i: int| false,
                ));
            }
            i = i + 1;
            proof {
                let done = model.take(i as int);
                assert(done.drop_last() =~= model.take(i - 1));
                assert(done.last() == coords_view(rings@[i - 1]@));
                assert(vertex_total(done) == before + n);
            }
        }
        assert(model.take(i as int) =~= model);
    }

    /// Lay the sections out.
    fn finish(&self, extent: u16, Ghost(p): Ghost<TileParts>) -> (out: Vec<u8>)
        requires
            self.holds(p),
        ensures
            out@ == tile_bytes(p, extent),
    {
        let has_clip: bool = has_flag(&self.ring_clip);
        let header = TileHeader {
            version: TILE_VERSION,
            flags: if has_clip {
                FLAG_RING_CLIP_MASK
            } else {
                0
            },
            extent,
            road_count: low16_of(self.road_metas.len()),
            area_count: low16_of(self.area_metas.len()),
            ring_count: low16_of(self.ring_metas.len()),
            label_count: low16_of(self.label_metas.len()),
            poi_count: low16_of(self.poi_metas.len()),
            string_count: low16_of(self.string_list.len()),
        };
        assert(p.table.len() == self.string_list@.len());
        assert(header == header_of(p, extent));
        let mut out: Vec<u8> = Vec::new();
        header.put(&mut out);
        put_all(&mut out, &self.road_metas);
        put_all(&mut out, &self.area_metas);
        put_all(&mut out, &self.ring_metas);
        put_all(&mut out, &self.label_metas);
        put_all(&mut out, &self.poi_metas);
        put_bytes(&mut out, &self.road_coords);
        put_bytes(&mut out, &self.ring_coords);
        let ghost fixed = out@;
        let mut i: usize = 0;
        assert(out@ =~= fixed + flat(string_image(), p.table.take(0)));
        while i < self.string_list.len()
            invariant
                i <= self.string_list@.len(),
                strs_view(self.string_list@) == p.table,
                out@ == fixed + flat(string_image(), p.table.take(i as int)),
            decreases self.string_list@.len() - i,
        {
            let utf8: &[u8] = self.string_list[i].as_bytes();
            put_le(&mut out, low16_of(utf8.len()) as u64, 2);
            put_bytes(&mut out, utf8);
            i = i + 1;
            proof {
                let done = p.table.take(i as int);
                assert(done.drop_last() =~= p.table.take(i - 1));
                assert(done.last() == self.string_list@[i - 1]@);
                assert(out@ =~= fixed + flat(string_image(), done));
            }
        }
        assert(p.table.take(i as int) =~= p.table);
        if has_clip {
            put_mask(&mut out, &self.ring_clip);
        }
        proof {
            assert(Seq::<u8>::empty() + header.to_wire() =~= header.to_wire());
            lemma_layout(
                header.to_wire(),
                wire_all(p.roads),
                wire_all(p.areas),
                wire_all(p.rings),
                wire_all(p.labels),
                wire_all(p.pois),
                flat(delta_image(), p.road_chains),
                flat(delta_image(), p.ring_chains),
                flat(string_image(), p.table),
                clip_section(p.flags),
            );
            if !has_clip {
                assert(out@ =~= out@ + clip_section(p.flags));
            }
        }
        out
    }
}

proof fn lemma_layout(
    h: Seq<u8>,
    a: Seq<u8>,
    b: Seq<u8>,
    c: Seq<u8>,
    d: Seq<u8>,
    e: Seq<u8>,
    f: Seq<u8>,
    g: Seq<u8>,
    s: Seq<u8>,
    m: Seq<u8>,
)
    ensures
        h + a + b + c + d + e + f + g + s + m == h + (a + b + c + d + e) + (f + g + s + m),
{
    let meta = a + b + c + d + e;
    assert(h + a + b + c + d + e =~= h + meta);
    let front = h + meta;
    assert(front + f + g + s + m =~= front + (f + g + s + m));
}

/// Serialize a tile's records into the flat tile format (uncompressed bytes;
/// the caller compresses).
pub fn build_tile(records: &[TileRecord], extent: u16) -> (out: Vec<u8>)
    ensures
        out@ == tile_bytes(parts_of(records_view(records@)), extent),
{
    let mut builder: TileBuilder = TileBuilder::new();
    let ghost recs = records_view(records@);
    let mut i: usize = 0;
    assert(parts_of(recs.take(0)) == no_parts());
    while i < records.len()
        invariant
            i <= records@.len(),
            recs == records_view(records@),
            builder.holds(parts_of(recs.take(i as int))),
        decreases records@.len() - i,
    {
        let ghost p = parts_of(recs.take(i as int));
        builder.add(&records[i], Ghost(p));
        i = i + 1;
        proof {
            let done = recs.take(i as int);
            assert(done.drop_last() =~= recs.take(i - 1));
            assert(done.last() == records@[i - 1]@);
        }
    }
    assert(recs.take(i as int) =~= recs);
    builder.finish(extent, Ghost(parts_of(recs)))
}

} // verus!
