//! Assembling a tile archive: what is stored, where, and how it is addressed.
//!
//! Tiles are addressed by their Hilbert-based tile id, content-deduplicated,
//! run-length encoded, and split into a root + leaf directories. Tile bytes go to a
//! data file as they arrive; finishing lays out the archive
//! `header(127) | root_dir | metadata | leaf_dirs | tile_data`, the data reordered by
//! tile id.

use vstd::prelude::*;

use crate::bytes::put_bytes;
use crate::hilbert::{in_square, tile_id, tile_id_of};
use crate::pmtiles::{
    build_directories, directories, entries_fit, entry_fits, header_bytes, sorted_entries, DirEntry,
    Header, COMPRESSION_NONE, HEADER_LEN, ROOT_MAX, TILE_TYPE_UNKNOWN,
};
use crate::sort::{is_permutation, is_stable_order, lemma_permutation_drop, sort_order};
use crate::tile::Tile;

verus! {

// ---- outside items ----

/// What `xxhash_rust::xxh3::xxh3_128` makes of a byte string.
pub uninterp spec fn xxh3_128_of(data: Seq<u8>) -> u128;

/// `xxhash_rust::xxh3::xxh3_128`: the 128-bit hash of the data.
#[verifier::external_body]
fn content_hash(data: &[u8]) -> (h: u128)
    ensures
        h == xxh3_128_of(data@),
{
    xxhash_rust::xxh3::xxh3_128(data)
}

/// Places of stored bytes, `(offset, length)`, under 128-bit keys, held in a
/// `hashbrown` map.
#[verifier::external_body]
pub struct PlaceMap {
    map: hashbrown::HashMap<u128, (u64, u32)>,
}

/// The entries of the map.
pub uninterp spec fn place_map_entries(m: PlaceMap) -> Map<u128, (u64, u32)>;

impl PlaceMap {
    /// `hashbrown::HashMap::new`: a map without entries.
    #[verifier::external_body]
    fn new() -> (r: Self)
        ensures
            place_map_entries(r).dom() == Set::<u128>::empty(),
    {
        PlaceMap { map: hashbrown::HashMap::new() }
    }

    /// `hashbrown::HashMap::get`: the value under a key, if there is one.
    #[verifier::external_body]
    fn get(&self, key: u128) -> (r: Option<(u64, u32)>)
        ensures
            r == (if place_map_entries(*self).contains_key(key) {
                Some(place_map_entries(*self)[key])
            } else {
                None
            }),
    {
        self.map.get(&key).copied()
    }

    /// `hashbrown::HashMap::insert`: puts the value under the key, in place of any
    /// value that was there.
    #[verifier::external_body]
    fn insert(&mut self, key: u128, place: (u64, u32))
        ensures
            place_map_entries(*final(self)) == place_map_entries(*old(self)).insert(key, place),
    {
        self.map.insert(key, place);
    }

    /// `hashbrown::HashMap::len`: the number of entries.
    #[verifier::external_body]
    fn len(&self) -> (n: usize)
        ensures
            n == place_map_entries(*self).dom().len(),
    {
        self.map.len()
    }
}

// ---- writing ----

pub open spec fn tile_valid(t: Tile) -> bool {
    t.z < 32 && in_square(t.z as nat, t.x as int, t.y as int)
}

pub open spec fn id_of(t: Tile) -> u64 {
    tile_id_of(t.z as nat, t.x as int, t.y as int) as u64
}

pub open spec fn length_sum(es: Seq<DirEntry>) -> nat
    decreases es.len(),
{
    if es.len() == 0 {
        0
    } else {
        length_sum(es.drop_last()) + es.last().length as nat
    }
}

/// What a writer has taken in.
#[verifier::ext_equal]
pub struct WriterView {
    pub data_len: u64,
    /// One entry per tile, in the order of writing.
    pub entries: Seq<DirEntry>,
    /// Where each content is stored, by content hash.
    pub stored: Map<u128, (u64, u32)>,
    pub min_zoom: u8,
    pub max_zoom: u8,
}

pub open spec fn new_writer() -> WriterView {
    WriterView {
        data_len: 0,
        entries: Seq::empty(),
        stored: Map::empty(),
        min_zoom: 255,
        max_zoom: 0,
    }
}

/// Whether content like `data` is stored already.
pub open spec fn is_stored(w: WriterView, data: Seq<u8>) -> bool {
    w.stored.contains_key(xxh3_128_of(data))
}

/// Where `data` is stored once it is written.
pub open spec fn place_for(w: WriterView, data: Seq<u8>) -> (u64, u32) {
    if is_stored(w, data) {
        w.stored[xxh3_128_of(data)]
    } else {
        (w.data_len, data.len() as u32)
    }
}

/// The writer after one more tile.
pub open spec fn written(w: WriterView, tile: Tile, data: Seq<u8>) -> WriterView {
    let place = place_for(w, data);
    WriterView {
        data_len: if is_stored(w, data) {
            w.data_len
        } else {
            (w.data_len + data.len()) as u64
        },
        entries: w.entries.push(
            DirEntry { tile_id: id_of(tile), offset: place.0, length: place.1, run_length: 1 },
        ),
        stored: w.stored.insert(xxh3_128_of(data), place),
        min_zoom: if tile.z < w.min_zoom {
            tile.z
        } else {
            w.min_zoom
        },
        max_zoom: if tile.z > w.max_zoom {
            tile.z
        } else {
            w.max_zoom
        },
    }
}

// ---- laying out ----

/// The key of a place.
pub open spec fn place_key(e: DirEntry) -> u128 {
    (e.offset * 0x1_0000_0000 + e.length) as u128
}

/// Entries laid out anew in their order.
#[verifier::ext_equal]
pub struct Cluster {
    /// The entries at their new offsets.
    pub entries: Seq<DirEntry>,
    /// The new place under each old one.
    pub moved: Map<u128, (u64, u32)>,
    /// The old places in the order of copying.
    pub plan: Seq<(u64, u32)>,
    /// The bytes copied.
    pub len: nat,
}

/// Each distinct content is copied once, at its first appearance.
pub open spec fn clustered(es: Seq<DirEntry>) -> Cluster
    decreases es.len(),
{
    if es.len() == 0 {
        Cluster {
            entries: Seq::empty(),
            moved: Map::empty(),
            plan: Seq::empty(),
            len: 0,
        }
    } else {
        let c = clustered(es.drop_last());
        let e = es.last();
        if c.moved.contains_key(place_key(e)) {
            Cluster {
                entries: c.entries.push(DirEntry { offset: c.moved[place_key(e)].0, ..e }),
                ..c
            }
        } else {
            Cluster {
                entries: c.entries.push(DirEntry { offset: c.len as u64, ..e }),
                moved: c.moved.insert(place_key(e), (c.len as u64, e.length)),
                plan: c.plan.push((e.offset, e.length)),
                len: c.len + e.length as nat,
            }
        }
    }
}

/// `e` continues the run `last`: the next tile id with the same content.
pub open spec fn continues_run(last: DirEntry, e: DirEntry) -> bool {
    &&& last.offset == e.offset
    &&& last.length == e.length
    &&& last.tile_id + last.run_length == e.tile_id
    &&& last.run_length < u32::MAX
}

/// A run of consecutive tile ids sharing content collapses into one entry.
pub open spec fn run_length_encoded(es: Seq<DirEntry>) -> Seq<DirEntry>
    decreases es.len(),
{
    if es.len() == 0 {
        Seq::empty()
    } else {
        let front = run_length_encoded(es.drop_last());
        let e = es.last();
        if front.len() > 0 && continues_run(front.last(), e) {
            front.update(
                front.len() - 1,
                DirEntry { run_length: (front.last().run_length + 1) as u32, ..front.last() },
            )
        } else {
            front.push(e)
        }
    }
}

pub open spec fn run_sum(es: Seq<DirEntry>) -> nat
    decreases es.len(),
{
    if es.len() == 0 {
        0
    } else {
        run_sum(es.drop_last()) + es.last().run_length as nat
    }
}

pub open spec fn id_keys(es: Seq<DirEntry>) -> Seq<i128> {
    Seq::new(es.len(), |i: int| es[i].tile_id as i128)
}

/// `{"format":"shashlik-maptile"}`.
pub const METADATA: [u8; 29] = [
    123, 34, 102, 111, 114, 109, 97, 116, 34, 58, 34, 115, 104, 97, 115, 104, 108, 105, 107, 45, 109,
    97, 112, 116, 105, 108, 101, 34, 125,
];

/// Half the sum of two numbers, rounded toward zero.
pub open spec fn midpoint(a: i32, b: i32) -> i32 {
    if a + b >= 0 {
        ((a + b) / 2) as i32
    } else {
        (-((-(a + b)) / 2)) as i32
    }
}

/// An archive before its data section: the header, all bytes up to the data section,
/// and the copying plan for the data.
#[verifier::ext_equal]
pub struct ArchiveView {
    pub header: Header,
    pub head: Seq<u8>,
    pub plan: Seq<(u64, u32)>,
}

/// The directory entries of an archive.
pub open spec fn archive_entries(sorted: Seq<DirEntry>) -> Seq<DirEntry> {
    run_length_encoded(clustered(sorted).entries)
}

/// The header of an archive with the given directories.
pub open spec fn archive_header(
    w: WriterView,
    es: Seq<DirEntry>,
    root: Seq<u8>,
    leaves: Seq<u8>,
    bounds: [i32; 4],
) -> Header {
    let meta_offset = HEADER_LEN + root.len();
    let leaf_offset = meta_offset + METADATA@.len();
    let data_offset = leaf_offset + leaves.len();
    let min_zoom = if es.len() == 0 {
        0
    } else {
        w.min_zoom
    };
    Header {
        root_offset: HEADER_LEN as u64,
        root_length: root.len() as u64,
        metadata_offset: meta_offset as u64,
        metadata_length: METADATA@.len() as u64,
        leaf_offset: leaf_offset as u64,
        leaf_length: leaves.len() as u64,
        data_offset: data_offset as u64,
        data_length: w.data_len,
        num_addressed: run_sum(es) as u64,
        num_entries: es.len() as u64,
        num_contents: w.stored.dom().len() as u64,
        clustered: true,
        internal_compression: COMPRESSION_NONE,
        tile_compression: COMPRESSION_NONE,
        tile_type: TILE_TYPE_UNKNOWN,
        min_zoom,
        max_zoom: if es.len() == 0 {
            0
        } else {
            w.max_zoom
        },
        bounds,
        center_zoom: min_zoom,
        center: [midpoint(bounds[0], bounds[2]), midpoint(bounds[1], bounds[3])],
    }
}

/// The archive of a writer whose entries are, in order of tile id, `sorted`:
/// `header | root_dir | metadata | leaf_dirs`.
pub open spec fn archive_of(w: WriterView, sorted: Seq<DirEntry>, bounds: [i32; 4]) -> ArchiveView {
    let es = archive_entries(sorted);
    let (root, leaves) = directories(es, ROOT_MAX as nat);
    let header = archive_header(w, es, root, leaves, bounds);
    ArchiveView {
        header,
        head: header_bytes(header) + root + METADATA@ + leaves,
        plan: clustered(sorted).plan,
    }
}

/// `sorted` lists the entries by tile id, entries of one tile in the order of writing.
pub open spec fn by_tile_id(sorted: Seq<DirEntry>, es: Seq<DirEntry>) -> bool {
    exists|order: Seq<usize>|
        #![trigger is_stable_order(order, id_keys(es))]
        is_stable_order(order, id_keys(es)) && sorted == Seq::new(
            order.len(),
            |i: int| es[order[i] as int],
        )
}

// ---- the writer ----

/// An archive before its data section.
pub struct Archive {
    pub header: Header,
    /// Everything in front of the data section.
    pub head: Vec<u8>,
    /// `(offset, length)` in the data file, in the order in which the archive's data
    /// section holds them.
    pub plan: Vec<(u64, u32)>,
}

impl View for Archive {
    type V = ArchiveView;

    open spec fn view(&self) -> ArchiveView {
        ArchiveView { header: self.header, head: self.head@, plan: self.plan@ }
    }
}

/// The bookkeeping of an archive on the way: tiles may come in any order.
pub struct PmTilesWriter {
    data_len: u64,
    entries: Vec<DirEntry>,
    /// Content hash -> place of already-stored tile bytes, so identical tiles (open
    /// water, desert, empty) are stored once.
    dedup: PlaceMap,
    min_zoom: u8,
    max_zoom: u8,
}

impl View for PmTilesWriter {
    type V = WriterView;

    closed spec fn view(&self) -> WriterView {
        WriterView {
            data_len: self.data_len,
            entries: self.entries@,
            stored: place_map_entries(self.dedup),
            min_zoom: self.min_zoom,
            max_zoom: self.max_zoom,
        }
    }
}

/// What every writer keeps: stored places lie within the data file, every entry
/// addresses such a place, and the sizes fit 64 bits.
pub open spec fn writer_wf(w: WriterView) -> bool {
    &&& forall|h: u128| #[trigger]
        w.stored.contains_key(h) ==> w.stored[h].0 + w.stored[h].1 <= w.data_len
    &&& forall|i: int|
        0 <= i < w.entries.len() ==> {
            let e = #[trigger] w.entries[i];
            e.offset + e.length <= w.data_len && e.run_length == 1 && e.tile_id
                < 0x5555_5555_5555_5555
        }
    &&& length_sum(w.entries) < u64::MAX
    &&& w.data_len < u64::MAX
}

impl PmTilesWriter {
    pub fn new() -> (r: Self)
        ensures
            r@ == new_writer(),
            writer_wf(r@),
    {
        let r = PmTilesWriter {
            data_len: 0,
            entries: Vec::new(),
            dedup: PlaceMap::new(),
            min_zoom: 255,
            max_zoom: 0,
        };
        assert(place_map_entries(r.dedup) =~= Map::empty());
        assert(r@ =~= new_writer());
        r
    }

    /// Take in one finished tile. Identical tile bytes are stored once (by 128-bit
    /// content hash); duplicates just add a directory entry to the shared data. Returns
    /// whether the bytes are new and have to be appended to the data file.
    pub fn write(&mut self, tile: Tile, data: &[u8]) -> (append: bool)
        requires
            writer_wf(old(self)@),
            tile_valid(tile),
            data@.len() <= u32::MAX,
            old(self)@.data_len + data@.len() < u64::MAX,
            length_sum(old(self)@.entries) + u32::MAX < u64::MAX,
        ensures
            final(self)@ == written(old(self)@, tile, data@),
            append == !is_stored(old(self)@, data@),
            writer_wf(final(self)@),
    {
        let ghost w = self@;
        let hash: u128 = content_hash(data);
        let mut append: bool = false;
        let place: (u64, u32) = match self.dedup.get(hash) {
            Some(p) => p,
            None => {
                let p: (u64, u32) = (self.data_len, data.len() as u32);
                self.data_len = self.data_len + data.len() as u64;
                self.dedup.insert(hash, p);
                append = true;
                p
            },
        };
        self.entries.push(
            DirEntry {
                tile_id: tile_id(tile.z, tile.x, tile.y),
                offset: place.0,
                length: place.1,
                run_length: 1,
            },
        );
        if tile.z < self.min_zoom {
            self.min_zoom = tile.z;
        }
        if tile.z > self.max_zoom {
            self.max_zoom = tile.z;
        }
        proof {
            let want = written(w, tile, data@);
            if !append {
                assert(w.stored.insert(hash, place) =~= w.stored);
            }
            assert(self@ =~= want);
            let es = self@.entries;
            assert(es.drop_last() =~= w.entries);
            assert forall|i: int| 0 <= i < es.len() implies {
                let e = #[trigger] es[i];
                e.offset + e.length <= self@.data_len && e.run_length == 1 && e.tile_id
                    < 0x5555_5555_5555_5555
            } by {
                if i < w.entries.len() {
                    assert(es[i] == w.entries[i]);
                }
            }
            assert forall|h: u128| #[trigger] self@.stored.contains_key(h) implies self@.stored[h].0
                + self@.stored[h].1 <= self@.data_len by {
                if h != hash {
                    assert(w.stored.contains_key(h));
                }
            }
        }
        append
    }

    /// Lay out the archive: entries in the order of tile ids, their data in the same
    /// order, so that spatially adjacent (Hilbert-adjacent) tiles become contiguous and
    /// a viewport fetches in a few coalesced ranged reads; runs of one content
    /// collapsed; a root directory and leaves; and the header. `bounds` is the union of
    /// the written tiles' bounds.
    pub fn finish(&self, bounds: [i32; 4]) -> (r: Archive)
        requires
            writer_wf(self@),
        ensures
            exists|sorted: Seq<DirEntry>|
                #![trigger by_tile_id(sorted, self@.entries)]
                by_tile_id(sorted, self@.entries) && r@ == archive_of(self@, sorted, bounds),
            r.header.data_offset == r.head@.len(),
    {
        let ghost w = self@;
        let count: usize = self.entries.len();
        assert(w.entries.len() == count);
        let sorted: Vec<DirEntry> = sort_entries(&self.entries);
        let ghost s = sorted@;
        proof {
            lemma_sorted_wf(w, s);
            lemma_cluster(s);
        }
        let (laid, plan) = cluster_entries(&sorted);
        let ghost c = clustered(s);
        let entries: Vec<DirEntry> = encode_runs(&laid);
        let ghost es = entries@;
        proof {
            assert forall|i: int, j: int| 0 <= i <= j < c.entries.len() implies (
            #[trigger] c.entries[i]).tile_id <= (#[trigger] c.entries[j]).tile_id by {
                assert(s[i].tile_id <= s[j].tile_id);
            }
            lemma_runs(c.entries, length_sum(s));
        }
        let (root, leaves) = build_directories(&entries, ROOT_MAX);
        // The header's place is kept free until the section offsets are known.
        let mut head: Vec<u8> = Vec::new();
        let mut i: usize = 0;
        while i < HEADER_LEN
            invariant
                i <= HEADER_LEN,
                head@.len() == i,
            decreases HEADER_LEN - i,
        {
            head.push(0);
            i = i + 1;
        }
        let ghost blank = head@;
        put_bytes(&mut head, &root);
        let meta_offset: u64 = head.len() as u64;
        put_metadata(&mut head);
        let leaf_offset: u64 = head.len() as u64;
        put_bytes(&mut head, &leaves);
        let data_offset: u64 = head.len() as u64;
        let none: bool = entries.len() == 0;
        let min_zoom: u8 = if none {
            0
        } else {
            self.min_zoom
        };
        let max_zoom: u8 = if none {
            0
        } else {
            self.max_zoom
        };
        let header = Header {
            root_offset: HEADER_LEN as u64,
            root_length: root.len() as u64,
            metadata_offset: meta_offset,
            metadata_length: 29,
            leaf_offset,
            leaf_length: leaves.len() as u64,
            data_offset,
            data_length: self.data_len,
            num_addressed: laid.len() as u64,
            num_entries: entries.len() as u64,
            num_contents: self.dedup.len() as u64,
            clustered: true,
            internal_compression: COMPRESSION_NONE,
            tile_compression: COMPRESSION_NONE,
            tile_type: TILE_TYPE_UNKNOWN,
            min_zoom,
            max_zoom,
            bounds,
            center_zoom: min_zoom,
            center: [half_way(bounds[0], bounds[2]), half_way(bounds[1], bounds[3])],
        };
        assert(METADATA@.len() == 29);
        proof {
            let want = archive_header(w, es, root@, leaves@, bounds);
            assert(header.center =~= want.center);
            assert(header == want);
        }
        let first: [u8; HEADER_LEN] = header.to_bytes();
        let ghost rest = root@ + METADATA@ + leaves@;
        assert(head@ =~= blank + rest);
        let mut i: usize = 0;
        while i < HEADER_LEN
            invariant
                i <= HEADER_LEN,
                head@.len() == HEADER_LEN + rest.len(),
                head@.skip(HEADER_LEN as int) == rest,
                forall|k: int| 0 <= k < i ==> #[trigger] head@[k] == first@[k],
            decreases HEADER_LEN - i,
        {
            head[i] = first[i];
            i = i + 1;
            assert(head@.skip(HEADER_LEN as int) =~= rest);
        }
        proof {
            assert(head@.take(HEADER_LEN as int) =~= first@);
            assert(head@ =~= head@.take(HEADER_LEN as int) + head@.skip(HEADER_LEN as int));
            assert(head@ =~= header_bytes(header) + root@ + METADATA@ + leaves@);
        }
        let r = Archive { header, head, plan };
        assert(r@ =~= archive_of(w, s, bounds));
        r
    }
}

fn put_metadata(head: &mut Vec<u8>)
    ensures
        final(head)@ == old(head)@ + METADATA@,
{
    let mut i: usize = 0;
    assert(head@ =~= head@ + METADATA@.take(0));
    while i < 29
        invariant
            i <= 29,
            head@ == old(head)@ + METADATA@.take(i as int),
        decreases 29 - i,
    {
        head.push(METADATA[i]);
        i = i + 1;
        assert(METADATA@.take(i as int) =~= METADATA@.take(i - 1).push(METADATA@[i - 1]));
        assert(head@ =~= old(head)@ + METADATA@.take(i as int));
    }
    assert(METADATA@.take(29) =~= METADATA@);
}

fn half_way(a: i32, b: i32) -> (r: i32)
    ensures
        r == midpoint(a, b),
{
    let s: i64 = a as i64 + b as i64;
    if s >= 0 {
        (s / 2) as i32
    } else {
        (-((-s) / 2)) as i32
    }
}

fn sort_entries(entries: &Vec<DirEntry>) -> (r: Vec<DirEntry>)
    ensures
        by_tile_id(r@, entries@),
{
    let ghost es = entries@;
    let mut keys: Vec<i128> = Vec::new();
    let mut i: usize = 0;
    while i < entries.len()
        invariant
            i <= entries@.len(),
            es == entries@,
            keys@ == id_keys(es).take(i as int),
        decreases entries@.len() - i,
    {
        keys.push(entries[i].tile_id as i128);
        i = i + 1;
        assert(keys@ =~= id_keys(es).take(i as int));
    }
    assert(id_keys(es).take(i as int) =~= id_keys(es));
    let order: Vec<usize> = sort_order(&keys);
    let mut r: Vec<DirEntry> = Vec::new();
    let mut k: usize = 0;
    while k < order.len()
        invariant
            k <= order@.len(),
            es == entries@,
            is_stable_order(order@, id_keys(es)),
            r@.len() == k,
            forall|m: int| 0 <= m < k ==> #[trigger] r@[m] == es[order@[m] as int],
        decreases order@.len() - k,
    {
        r.push(entries[order[k]]);
        k = k + 1;
    }
    assert(r@ =~= Seq::new(order@.len(), |i: int| es[order@[i] as int]));
    r
}

fn key_of_place(e: &DirEntry) -> (k: u128)
    ensures
        k == place_key(*e),
{
    (e.offset as u128) * 0x1_0000_0000 + e.length as u128
}

/// Lay the entries' data out in their order: the entries at their new offsets, and the
/// old places in the order of copying.
fn cluster_entries(sorted: &Vec<DirEntry>) -> (r: (Vec<DirEntry>, Vec<(u64, u32)>))
    requires
        length_sum(sorted@) <= u64::MAX,
    ensures
        r.0@ == clustered(sorted@).entries,
        r.1@ == clustered(sorted@).plan,
{
    let ghost s = sorted@;
    let mut entries: Vec<DirEntry> = Vec::new();
    let mut moved: PlaceMap = PlaceMap::new();
    let mut plan: Vec<(u64, u32)> = Vec::new();
    let mut len: u64 = 0;
    let mut i: usize = 0;
    proof {
        assert(place_map_entries(moved) =~= Map::empty());
        assert(s.take(0) =~= Seq::empty());
        assert(entries@ =~= clustered(s.take(0)).entries);
        assert(plan@ =~= clustered(s.take(0)).plan);
    }
    while i < sorted.len()
        invariant
            i <= sorted@.len(),
            s == sorted@,
            length_sum(s) <= u64::MAX,
            entries@ == clustered(s.take(i as int)).entries,
            place_map_entries(moved) == clustered(s.take(i as int)).moved,
            plan@ == clustered(s.take(i as int)).plan,
            len == clustered(s.take(i as int)).len,
            len <= length_sum(s.take(i as int)),
        decreases sorted@.len() - i,
    {
        let e: DirEntry = sorted[i];
        proof {
            let next = s.take(i + 1);
            assert(next.drop_last() =~= s.take(i as int));
            assert(next.last() == e);
            lemma_length_sum_take(s, i + 1);
        }
        let key: u128 = key_of_place(&e);
        let offset: u64 = match moved.get(key) {
            Some(p) => p.0,
            None => {
                let o: u64 = len;
                plan.push((e.offset, e.length));
                len = len + e.length as u64;
                moved.insert(key, (o, e.length));
                o
            },
        };
        entries.push(
            DirEntry { tile_id: e.tile_id, offset, length: e.length, run_length: e.run_length },
        );
        i = i + 1;
    }
    assert(s.take(i as int) =~= s);
    (entries, plan)
}

fn encode_runs(laid: &Vec<DirEntry>) -> (r: Vec<DirEntry>)
    requires
        forall|i: int| 0 <= i < laid@.len() ==> (#[trigger] laid@[i]).tile_id < 0x5555_5555_5555_5555,
    ensures
        r@ == run_length_encoded(laid@),
{
    let ghost es = laid@;
    let mut r: Vec<DirEntry> = Vec::new();
    let mut i: usize = 0;
    assert(r@ =~= run_length_encoded(es.take(0)));
    while i < laid.len()
        invariant
            i <= laid@.len(),
            es == laid@,
            forall|i: int| 0 <= i < es.len() ==> (#[trigger] es[i]).tile_id < 0x5555_5555_5555_5555,
            r@ == run_length_encoded(es.take(i as int)),
            forall|k: int| 0 <= k < r@.len() ==> (#[trigger] r@[k]).tile_id < 0x5555_5555_5555_5555,
        decreases laid@.len() - i,
    {
        let e: DirEntry = laid[i];
        let ghost before = r@;
        proof {
            let next = es.take(i + 1);
            assert(next.drop_last() =~= es.take(i as int));
            assert(next.last() == e);
        }
        let n: usize = r.len();
        if n > 0 {
            let last: DirEntry = r[n - 1];
            if last.offset == e.offset && last.length == e.length && last.tile_id
                + last.run_length as u64 == e.tile_id && last.run_length < u32::MAX {
                r[n - 1] = DirEntry {
                    tile_id: last.tile_id,
                    offset: last.offset,
                    length: last.length,
                    run_length: last.run_length + 1,
                };
            } else {
                r.push(e);
            }
        } else {
            r.push(e);
        }
        i = i + 1;
    }
    assert(es.take(i as int) =~= es);
    r
}

// ---- what the layout keeps ----

proof fn lemma_length_sum_take(s: Seq<DirEntry>, k: int)
    requires
        0 <= k <= s.len(),
    ensures
        length_sum(s.take(k)) <= length_sum(s),
    decreases s.len() - k,
{
    if k < s.len() {
        lemma_length_sum_take(s, k + 1);
        assert(s.take(k + 1).drop_last() =~= s.take(k));
    } else {
        assert(s.take(k) =~= s);
    }
}

proof fn lemma_length_sum_remove(s: Seq<DirEntry>, i: int)
    requires
        0 <= i < s.len(),
    ensures
        length_sum(s.remove(i)) + s[i].length == length_sum(s),
    decreases s.len(),
{
    if i == s.len() - 1 {
        assert(s.remove(i) =~= s.drop_last());
    } else {
        lemma_length_sum_remove(s.drop_last(), i);
        assert(s.remove(i).drop_last() =~= s.drop_last().remove(i));
        assert(s.remove(i).last() == s.last());
    }
}

pub open spec fn permuted(es: Seq<DirEntry>, order: Seq<usize>) -> Seq<DirEntry> {
    Seq::new(order.len(), |i: int| es[order[i] as int])
}

proof fn lemma_permuted_sum(es: Seq<DirEntry>, order: Seq<usize>)
    requires
        is_permutation(order, es.len()),
        es.len() <= usize::MAX,
    ensures
        length_sum(permuted(es, order)) == length_sum(es),
    decreases es.len(),
{
    if es.len() > 0 {
        let p = lemma_permutation_drop(order, es.len());
        let rest = order.remove(p);
        lemma_permuted_sum(es.drop_last(), rest);
        let all = permuted(es, order);
        lemma_length_sum_remove(all, p);
        assert(all.remove(p) =~= permuted(es.drop_last(), rest)) by {
            assert forall|i: int| 0 <= i < rest.len() implies all.remove(p)[i] == permuted(
                es.drop_last(),
                rest,
            )[i] by {
                assert(rest[i] < es.len() - 1);
            }
        }
    }
}

/// Entries in order of tile id are sorted and are the writer's entries.
pub proof fn lemma_sorted_wf(w: WriterView, s: Seq<DirEntry>)
    requires
        writer_wf(w),
        by_tile_id(s, w.entries),
        w.entries.len() <= usize::MAX,
    ensures
        sorted_entries(s),
        s.len() == w.entries.len(),
        length_sum(s) == length_sum(w.entries),
        forall|i: int| 0 <= i < s.len() ==> w.entries.contains(#[trigger] s[i]),
        forall|i: int|
            0 <= i < s.len() ==> {
                let e = #[trigger] s[i];
                e.offset + e.length <= w.data_len && e.run_length == 1 && e.tile_id
                    < 0x5555_5555_5555_5555
            },
{
    let order = choose|order: Seq<usize>|
        #![trigger is_stable_order(order, id_keys(w.entries))]
        is_stable_order(order, id_keys(w.entries)) && s == Seq::new(
            order.len(),
            |i: int| w.entries[order[i] as int],
        );
    let keys = id_keys(w.entries);
    assert(s =~= permuted(w.entries, order));
    lemma_permuted_sum(w.entries, order);
    assert forall|i: int, j: int| 0 <= i <= j < s.len() implies (#[trigger] s[i]).tile_id <= (
    #[trigger] s[j]).tile_id by {
        assert(order[i] < keys.len() && order[j] < keys.len());
        if i < j {
            assert(keys[order[i] as int] <= keys[order[j] as int]);
        }
    }
    assert forall|i: int| 0 <= i < s.len() implies w.entries.contains(#[trigger] s[i]) by {
        assert(order[i] < keys.len());
        assert(w.entries[order[i] as int] == s[i]);
    }
    assert forall|i: int| 0 <= i < s.len() implies {
        let e = #[trigger] s[i];
        e.offset + e.length <= w.data_len && e.run_length == 1 && e.tile_id < 0x5555_5555_5555_5555
    } by {
        assert(order[i] < keys.len());
        let e = w.entries[order[i] as int];
        assert(s[i] == e);
    }
}

/// Entries at their new places keep id, length and run; their places lie within the
/// bytes copied.
pub proof fn lemma_cluster(s: Seq<DirEntry>)
    requires
        length_sum(s) <= u64::MAX,
    ensures
        clustered(s).entries.len() == s.len(),
        clustered(s).len <= length_sum(s),
        forall|k: u128| #[trigger]
            clustered(s).moved.contains_key(k) ==> clustered(s).moved[k].0 + k % 0x1_0000_0000
                <= clustered(s).len,
        forall|i: int|
            0 <= i < s.len() ==> {
                let e = #[trigger] clustered(s).entries[i];
                &&& e.tile_id == s[i].tile_id
                &&& e.length == s[i].length
                &&& e.run_length == s[i].run_length
                &&& e.offset + e.length <= clustered(s).len
                &&& clustered(s).moved.contains_key(place_key(s[i]))
                &&& e.offset == clustered(s).moved[place_key(s[i])].0
            },
    decreases s.len(),
{
    if s.len() > 0 {
        let front = s.drop_last();
        lemma_cluster(front);
        let c = clustered(front);
        let d = clustered(s);
        let last = s.last();
        assert(place_key(last) % 0x1_0000_0000 == last.length);
        assert forall|i: int| 0 <= i < s.len() implies {
            let e = #[trigger] d.entries[i];
            &&& e.tile_id == s[i].tile_id
            &&& e.length == s[i].length
            &&& e.run_length == s[i].run_length
            &&& e.offset + e.length <= d.len
            &&& d.moved.contains_key(place_key(s[i]))
            &&& e.offset == d.moved[place_key(s[i])].0
        } by {
            if i < front.len() {
                assert(d.entries[i] == c.entries[i]);
                assert(front[i] == s[i]);
            }
        }
    }
}

/// Runs are sorted, as many tiles are addressed as before, and every run's place is
/// that of some entry.
pub proof fn lemma_runs(es: Seq<DirEntry>, bound: nat)
    requires
        sorted_entries(es),
        bound < u64::MAX,
        forall|i: int|
            0 <= i < es.len() ==> (#[trigger] es[i]).run_length == 1 && es[i].offset + es[i].length
                <= bound,
    ensures
        sorted_entries(run_length_encoded(es)),
        entries_fit(run_length_encoded(es)),
        run_sum(run_length_encoded(es)) == es.len(),
        run_length_encoded(es).len() <= es.len(),
        run_length_encoded(es).len() > 0 ==> run_length_encoded(es).last().tile_id
            <= es.last().tile_id,
        es.len() > 0 ==> run_length_encoded(es).len() > 0,
        forall|k: int|
            0 <= k < run_length_encoded(es).len() ==> (#[trigger] run_length_encoded(
                es,
            )[k]).run_length >= 1,
    decreases es.len(),
{
    if es.len() > 0 {
        let front = es.drop_last();
        assert(sorted_entries(front)) by {
            assert forall|i: int, j: int| 0 <= i <= j < front.len() implies (
            #[trigger] front[i]).tile_id <= (#[trigger] front[j]).tile_id by {
                assert(front[i] == es[i] && front[j] == es[j]);
            }
        }
        assert forall|i: int| 0 <= i < front.len() implies (#[trigger] front[i]).run_length == 1
            && front[i].offset + front[i].length <= bound by {
            assert(front[i] == es[i]);
        }
        lemma_runs(front, bound);
        let a = run_length_encoded(front);
        let b = run_length_encoded(es);
        let e = es.last();
        assert(es[es.len() - 1] == e);
        if front.len() > 0 {
            assert(front.last() == es[es.len() - 2]);
            assert(es[es.len() - 2].tile_id <= es[es.len() - 1].tile_id);
        }
        if a.len() > 0 && continues_run(a.last(), e) {
            assert(b.drop_last() =~= a.drop_last());
            assert(b.last().run_length == a.last().run_length + 1);
            assert forall|k: int| 0 <= k < b.len() implies entry_fits(#[trigger] b[k]) by {
                assert(entry_fits(a[k]));
            }
            assert forall|i: int, j: int| 0 <= i <= j < b.len() implies (#[trigger] b[i]).tile_id <= (
            #[trigger] b[j]).tile_id by {
                assert(a[i].tile_id <= a[j].tile_id);
            }
            assert forall|k: int| 0 <= k < b.len() implies (#[trigger] b[k]).run_length >= 1 by {
                assert(a[k].run_length >= 1);
            }
        } else {
            assert(b.drop_last() =~= a);
            assert forall|k: int| 0 <= k < b.len() implies entry_fits(#[trigger] b[k]) by {
                if k < a.len() {
                    assert(entry_fits(a[k]));
                }
            }
            assert forall|i: int, j: int| 0 <= i <= j < b.len() implies (#[trigger] b[i]).tile_id <= (
            #[trigger] b[j]).tile_id by {
                if j < a.len() {
                    assert(a[i].tile_id <= a[j].tile_id);
                } else if i < a.len() {
                    assert(a[i].tile_id <= a[a.len() - 1].tile_id);
                }
            }
            assert forall|k: int| 0 <= k < b.len() implies (#[trigger] b[k]).run_length >= 1 by {
                if k < a.len() {
                    assert(a[k].run_length >= 1);
                }
            }
        }
    }
}

} // verus!
