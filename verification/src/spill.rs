//! Tile record spill: framing records for a bucket file, reading them back, and grouping
//! a bucket's records by tile.

use vstd::prelude::*;

use crate::bytes::{
    flat, le_at, le_bytes, le_read_roundtrip, lemma_cat, lemma_pow256_values, many_at,
    many_roundtrip, put_bytes, put_le, read_le, take, take_at, take_read_roundtrip,
};
use crate::compress::{pack_tile, zstd_compresses, zstd_decoded, CompressError, ZSTD_LEVEL};
use crate::format::records_view;
use crate::hilbert::zoom_offset;
use crate::record::{
    decode, encode, record_at, record_bytes, record_roundtrip, spillable, RecordView, TileRecord,
};
use crate::tile::Tile;
use crate::tile_model::{parts_of, tile_bytes};
use crate::tiler::{demorton_of, in_band, routes_to, TileParams};

verus! {

// ---- frames ----

/// A record as a bucket holds it: the length of its bytes (the low 32 bits), then the
/// bytes.
pub open spec fn frame_bytes(r: RecordView) -> Seq<u8> {
    le_bytes(record_bytes(r).len() % 0x1_0000_0000, 4) + record_bytes(r)
}

/// What stands at the front of a bucket's bytes.
pub enum FrameView {
    /// No further record.
    End,
    Record(RecordView),
    /// The bytes break off within a record, or are no record.
    Broken,
}

/// What a read gives, and where it stops.
pub open spec fn frame_at(s: Seq<u8>) -> (FrameView, Seq<u8>) {
    match le_at(s, 4) {
        (Some(n), rest) => match take_at(rest, n) {
            (Some(payload), tail) => match record_at(payload).0 {
                Some(r) => (FrameView::Record(r), tail),
                None => (FrameView::Broken, tail),
            },
            (None, tail) => (FrameView::Broken, tail),
        },
        (None, rest) => (FrameView::End, rest),
    }
}

/// A record that can be read back: its bytes can be counted in 32 bits.
pub open spec fn frameable(r: RecordView) -> bool {
    spillable(r) && record_bytes(r).len() < 0x1_0000_0000
}

/// Reading a frame gives the record back and stops right behind it.
pub proof fn frame_roundtrip(r: RecordView, tail: Seq<u8>)
    requires
        frameable(r),
    ensures
        frame_at(frame_bytes(r) + tail) == (FrameView::Record(r), tail),
{
    lemma_pow256_values();
    let b = record_bytes(r);
    let n = le_bytes(b.len(), 4);
    le_read_roundtrip(b.len(), 4, b + tail);
    lemma_cat(n, b, tail);
    take_read_roundtrip(b, tail);
    record_roundtrip(r, Seq::empty());
    assert(b + Seq::<u8>::empty() =~= b);
}

/// Reading one record, for a sequence of them.
pub open spec fn frame_reader() -> spec_fn(Seq<u8>) -> (Option<RecordView>, Seq<u8>) {
    |s: Seq<u8>|
        match frame_at(s) {
            (FrameView::Record(r), tail) => (Some(r), tail),
            (_, tail) => (None, tail),
        }
}

pub open spec fn frame_image() -> spec_fn(RecordView) -> Seq<u8> {
    |r: RecordView| frame_bytes(r)
}

/// A bucket gives back the records appended to it, in order, and then ends.
pub proof fn bucket_roundtrip(rs: Seq<RecordView>)
    requires
        forall|i: int| 0 <= i < rs.len() ==> frameable(#[trigger] rs[i]),
    ensures
        many_at(frame_reader(), flat(frame_image(), rs), rs.len()) == (
            Some(rs),
            Seq::<u8>::empty(),
        ),
        frame_at(Seq::<u8>::empty()).0 is End,
{
    assert forall|i: int, t: Seq<u8>| 0 <= i < rs.len() implies #[trigger] frame_reader()(
        frame_image()(rs[i]) + t,
    ) == (Some(rs[i]), t) by {
        frame_roundtrip(rs[i], t);
    }
    many_roundtrip(frame_reader(), frame_image(), rs, Seq::empty());
    assert(flat(frame_image(), rs) + Seq::<u8>::empty() =~= flat(frame_image(), rs));
}

/// Tile record spill writer.
pub struct SpillWriter {
    pub params: TileParams,
}

impl SpillWriter {
    pub fn new(params: TileParams) -> (r: Self)
        ensures
            r.params == params,
    {
        SpillWriter { params }
    }

    /// The bucket of a record, and the bytes to append to it.
    pub fn append(&self, record: &TileRecord) -> (r: (u32, Vec<u8>))
        requires
            !(record.geometry is Poi),
            record.tile_key < zoom_offset(32),
            self.params.bucket_zoom < 32,
        ensures
            routes_to(record.tile_key as nat, self.params.bucket_zoom as nat, r.0 as nat),
            r.1@ == frame_bytes(record@),
    {
        let mut body: Vec<u8> = Vec::new();
        encode(&mut body, record);
        assert(body@ =~= record_bytes(record@));
        let size: u64 = (body.len() as u64) % 0x1_0000_0000;
        let mut frame: Vec<u8> = Vec::new();
        put_le(&mut frame, size, 4);
        put_bytes(&mut frame, &body);
        assert(frame@ =~= frame_bytes(record@));
        (self.params.route(record.tile_key), frame)
    }
}

/// One read of a bucket.
pub enum SpillRead {
    /// No further record.
    End,
    Record(TileRecord),
    /// The bytes break off within a record, or are no record.
    Broken,
}

impl View for SpillRead {
    type V = FrameView;

    open spec fn view(&self) -> FrameView {
        match self {
            SpillRead::End => FrameView::End,
            SpillRead::Record(r) => FrameView::Record(r@),
            SpillRead::Broken => FrameView::Broken,
        }
    }
}

/// Reader of the records in a bucket's bytes.
pub struct SpillReader<'a> {
    pub rest: &'a [u8],
}

impl<'a> SpillReader<'a> {
    pub fn new(bytes: &'a [u8]) -> (r: Self)
        ensures
            r.rest@ == bytes@,
    {
        SpillReader { rest: bytes }
    }

    /// Read the next record.
    pub fn read_next(&mut self) -> (r: SpillRead)
        ensures
            (r@, final(self).rest@) == frame_at(old(self).rest@),
    {
        let mut cursor: &[u8] = self.rest;
        let n: u64 = match read_le(&mut cursor, 4) {
            Some(n) => n,
            None => {
                self.rest = cursor;
                return SpillRead::End;
            },
        };
        match take(&mut cursor, n) {
            Some(payload) => {
                self.rest = cursor;
                let mut inner: &[u8] = payload;
                match decode(&mut inner) {
                    Some(r) => SpillRead::Record(r),
                    None => SpillRead::Broken,
                }
            },
            None => {
                self.rest = cursor;
                SpillRead::Broken
            },
        }
    }
}

// ---- bucket files ----

/// A fixed set of append-only buckets: which of them have received data. A bucket's file
/// is created on its first write, so the many empty (ocean) buckets never touch disk.
pub struct BucketWriter {
    opened: Vec<bool>,
}

/// The buckets among the first `n` that have received data, ascending.
pub open spec fn touched(opened: Seq<bool>, n: nat) -> Seq<u32>
    decreases n,
{
    if n == 0 {
        Seq::empty()
    } else if opened[n - 1] {
        touched(opened, (n - 1) as nat).push((n - 1) as u32)
    } else {
        touched(opened, (n - 1) as nat)
    }
}

impl BucketWriter {
    /// For each bucket, whether it has received data.
    pub closed spec fn opened(&self) -> Seq<bool> {
        self.opened@
    }

    /// A set of `bucket_count` buckets.
    pub fn create(bucket_count: u32) -> (r: Self)
        ensures
            r.opened() == Seq::new(bucket_count as nat, |i: int| false),
    {
        let mut opened: Vec<bool> = Vec::new();
        let mut i: u32 = 0;
        while i < bucket_count
            invariant
                i <= bucket_count,
                opened@ == Seq::new(i as nat, |k: int| false),
            decreases bucket_count - i,
        {
            opened.push(false);
            i = i + 1;
            assert(opened@ =~= Seq::new(i as nat, |k: int| false));
        }
        BucketWriter { opened }
    }

    /// Whether a bucket has received data. Where it has not, its file is created (or
    /// truncated) before the write is noted.
    pub fn is_open(&self, index: u32) -> (r: bool)
        requires
            index < self.opened().len(),
        ensures
            r == self.opened()[index as int],
    {
        self.opened[index as usize]
    }

    /// Note a write to a bucket; returns whether it is the first.
    pub fn append(&mut self, index: u32) -> (first: bool)
        requires
            index < old(self).opened().len(),
        ensures
            final(self).opened() == old(self).opened().update(index as int, true),
            first == !old(self).opened()[index as int],
    {
        let i: usize = index as usize;
        let first: bool = !self.opened[i];
        self.opened.set(i, true);
        first
    }

    /// The buckets that received data, ascending.
    pub fn finish(&self) -> (r: Vec<u32>)
        requires
            self.opened().len() <= u32::MAX,
        ensures
            r@ == touched(self.opened(), self.opened().len()),
    {
        let mut r: Vec<u32> = Vec::new();
        let mut i: usize = 0;
        while i < self.opened.len()
            invariant
                i <= self.opened@.len() <= u32::MAX,
                r@ == touched(self.opened@, i as nat),
            decreases self.opened@.len() - i,
        {
            if self.opened[i] {
                r.push(i as u32);
            }
            i = i + 1;
        }
        r
    }
}

// ---- grouping by tile ----

/// Records by tile id, held in a `hashbrown` map.
#[verifier::external_body]
pub struct RecordMap {
    map: hashbrown::HashMap<u64, Vec<TileRecord>>,
}

/// The entries of the map.
pub uninterp spec fn record_map_entries(m: RecordMap) -> Map<u64, Seq<RecordView>>;

impl RecordMap {
    /// `hashbrown::HashMap::new`: a map without entries.
    #[verifier::external_body]
    fn empty() -> (r: Self)
        ensures
            record_map_entries(r).dom() == Set::<u64>::empty(),
    {
        RecordMap { map: hashbrown::HashMap::new() }
    }

    /// `hashbrown::HashMap::remove`: takes the records under a tile id out, if there are
    /// any.
    #[verifier::external_body]
    fn take_records(&mut self, key: u64) -> (r: Option<Vec<TileRecord>>)
        ensures
            record_map_entries(*final(self)) == record_map_entries(*old(self)).remove(key),
            match r {
                Some(v) => record_map_entries(*old(self)).contains_key(key) && record_map_entries(
                    *old(self),
                )[key] == records_view(v@),
                None => !record_map_entries(*old(self)).contains_key(key),
            },
    {
        self.map.remove(&key)
    }

    /// `hashbrown::HashMap::insert`: puts records under a tile id, in place of any that
    /// were there.
    #[verifier::external_body]
    fn put_records(&mut self, key: u64, records: Vec<TileRecord>)
        ensures
            record_map_entries(*final(self)) == record_map_entries(*old(self)).insert(
                key,
                records_view(records@),
            ),
    {
        self.map.insert(key, records);
    }
}

/// The first `n` records of a tile, in order.
pub open spec fn of_tile(rs: Seq<RecordView>, key: u64, n: nat) -> Seq<RecordView>
    decreases n,
{
    if n == 0 {
        Seq::empty()
    } else if rs[n - 1].tile_key == key {
        of_tile(rs, key, (n - 1) as nat).push(rs[n - 1])
    } else {
        of_tile(rs, key, (n - 1) as nat)
    }
}

/// The tiles of the first `n` records, each once, in the order of their first records.
pub open spec fn tiles_seen(rs: Seq<RecordView>, n: nat) -> Seq<u64>
    decreases n,
{
    if n == 0 {
        Seq::empty()
    } else {
        let seen = tiles_seen(rs, (n - 1) as nat);
        if seen.contains(rs[n - 1].tile_key) {
            seen
        } else {
            seen.push(rs[n - 1].tile_key)
        }
    }
}

proof fn lemma_tiles_seen(rs: Seq<RecordView>, n: nat)
    requires
        n <= rs.len(),
    ensures
        tiles_seen(rs, n).no_duplicates(),
        forall|i: int| 0 <= i < n ==> tiles_seen(rs, n).contains((#[trigger] rs[i]).tile_key),
        forall|k: int|
            #![trigger tiles_seen(rs, n)[k]]
            0 <= k < tiles_seen(rs, n).len() ==> of_tile(rs, tiles_seen(rs, n)[k], n).len() > 0,
    decreases n,
{
    if n > 0 {
        lemma_tiles_seen(rs, (n - 1) as nat);
        let before = tiles_seen(rs, (n - 1) as nat);
        let seen = tiles_seen(rs, n);
        let key = rs[n - 1].tile_key;
        assert forall|i: int| 0 <= i < n implies seen.contains((#[trigger] rs[i]).tile_key) by {
            if before.contains(rs[i].tile_key) {
                let k = choose|k: int| 0 <= k < before.len() && before[k] == rs[i].tile_key;
                assert(seen[k] == rs[i].tile_key);
            } else {
                assert(i == n - 1);
                assert(seen[before.len() as int] == key);
            }
        }
        assert forall|k: int| #![trigger seen[k]] 0 <= k < seen.len() implies of_tile(
            rs,
            seen[k],
            n,
        ).len() > 0 by {
            if k < before.len() {
                assert(before[k] == seen[k]);
            }
        }
    }
}

/// Every record is in the group of its tile, and in no other group.
pub proof fn grouping_keeps_records(rs: Seq<RecordView>, i: int)
    requires
        0 <= i < rs.len(),
    ensures
        tiles_seen(rs, rs.len()).no_duplicates(),
        tiles_seen(rs, rs.len()).contains(rs[i].tile_key),
        of_tile(rs, rs[i].tile_key, rs.len()).contains(rs[i]),
        forall|key: u64, k: int|
            0 <= k < of_tile(rs, key, rs.len()).len() ==> (#[trigger] of_tile(
                rs,
                key,
                rs.len(),
            )[k]).tile_key == key,
{
    lemma_tiles_seen(rs, rs.len());
    lemma_of_tile(rs, rs[i].tile_key, rs.len(), i);
    assert forall|key: u64, k: int| 0 <= k < of_tile(rs, key, rs.len()).len() implies (
    #[trigger] of_tile(rs, key, rs.len())[k]).tile_key == key by {
        lemma_of_tile_key(rs, key, rs.len());
    }
}

proof fn lemma_of_tile(rs: Seq<RecordView>, key: u64, n: nat, i: int)
    requires
        0 <= i < n <= rs.len(),
        rs[i].tile_key == key,
    ensures
        of_tile(rs, key, n).contains(rs[i]),
    decreases n,
{
    if i == n - 1 {
        let g = of_tile(rs, key, n);
        assert(g[g.len() - 1] == rs[i]);
    } else {
        lemma_of_tile(rs, key, (n - 1) as nat, i);
        let before = of_tile(rs, key, (n - 1) as nat);
        let k = choose|k: int| 0 <= k < before.len() && before[k] == rs[i];
        assert(of_tile(rs, key, n)[k] == rs[i]);
    }
}

proof fn lemma_of_tile_key(rs: Seq<RecordView>, key: u64, n: nat)
    requires
        n <= rs.len(),
    ensures
        forall|k: int|
            0 <= k < of_tile(rs, key, n).len() ==> (#[trigger] of_tile(rs, key, n)[k]).tile_key
                == key,
    decreases n,
{
    if n > 0 {
        lemma_of_tile_key(rs, key, (n - 1) as nat);
    }
}

/// One tile's records.
pub struct TileGroup {
    pub tile_key: u64,
    pub records: Vec<TileRecord>,
}

/// Group a bucket's records by tile, in the order of each tile's first record.
pub fn group_by_tile(records: Vec<TileRecord>) -> (r: Vec<TileGroup>)
    ensures
        r@.len() == tiles_seen(records_view(records@), records@.len()).len(),
        forall|k: int|
            0 <= k < r@.len() ==> (#[trigger] r@[k]).tile_key == tiles_seen(
                records_view(records@),
                records@.len(),
            )[k] && records_view(r@[k].records@) == of_tile(
                records_view(records@),
                r@[k].tile_key,
                records@.len(),
            ),
{
    let ghost rs = records_view(records@);
    let mut map = RecordMap::empty();
    let mut keys: Vec<u64> = Vec::new();
    let mut left: Vec<TileRecord> = records;
    let n: usize = left.len();
    let mut rev: Vec<TileRecord> = Vec::new();
    // Turn the records round, to take them from the front one by one.
    while left.len() > 0
        invariant
            rs.len() == n,
            left@.len() + rev@.len() == n,
            records_view(left@) == rs.take(left@.len() as int),
            forall|i: int| 0 <= i < rev@.len() ==> (#[trigger] rev@[i])@ == rs[n - 1 - i],
        decreases left@.len(),
    {
        let ghost before = left@;
        if let Some(x) = left.pop() {
            assert(records_view(before)[before.len() - 1] == rs[before.len() - 1]);
            assert(x@ == rs[before.len() - 1]);
            rev.push(x);
            assert(records_view(left@) =~= rs.take(left@.len() as int));
        }
    }
    let mut i: usize = 0;
    while rev.len() > 0
        invariant
            rs.len() == n,
            i <= n,
            rev@.len() == n - i,
            forall|k: int| 0 <= k < rev@.len() ==> (#[trigger] rev@[k])@ == rs[n - 1 - k],
            keys@ == tiles_seen(rs, i as nat),
            forall|key: u64| #[trigger]
                record_map_entries(map).contains_key(key) <==> keys@.contains(key),
            forall|key: u64| #[trigger]
                record_map_entries(map).contains_key(key) ==> record_map_entries(map)[key]
                    == of_tile(rs, key, i as nat),
            forall|key: u64|
                !record_map_entries(map).contains_key(key) ==> (#[trigger] of_tile(
                    rs,
                    key,
                    i as nat,
                )).len() == 0,
        decreases rev@.len(),
    {
        let ghost old_keys = keys@;
        let ghost old_map = record_map_entries(map);
        if let Some(x) = rev.pop() {
            assert(x@ == rs[i as int]);
            let key: u64 = x.tile_key;
            let ghost xv = x@;
            let mut group: Vec<TileRecord> = match map.take_records(key) {
                Some(g) => g,
                None => {
                    keys.push(key);
                    Vec::new()
                },
            };
            let ghost base = records_view(group@);
            assert(base =~= of_tile(rs, key, i as nat));
            group.push(x);
            assert(records_view(group@) =~= base.push(xv));
            map.put_records(key, group);
            i = i + 1;
            proof {
                assert(keys@ == tiles_seen(rs, i as nat));
                assert forall|q: u64| #[trigger]
                    record_map_entries(map).contains_key(q) <==> keys@.contains(q) by {
                    if old_map.contains_key(key) {
                    } else {
                        if old_keys.contains(q) {
                            let j = choose|j: int| 0 <= j < old_keys.len() && old_keys[j] == q;
                            assert(keys@[j] == q);
                        }
                        assert(keys@[old_keys.len() as int] == key);
                        if keys@.contains(q) && q != key {
                            let j = choose|j: int| 0 <= j < keys@.len() && keys@[j] == q;
                            assert(old_keys[j] == q);
                        }
                    }
                }
                assert forall|q: u64| #[trigger]
                    record_map_entries(map).contains_key(q) implies record_map_entries(map)[q]
                    == of_tile(rs, q, i as nat) by {
                    if q != key {
                        assert(old_map.contains_key(q));
                    }
                }
                assert forall|q: u64| !record_map_entries(map).contains_key(q) implies (
                #[trigger] of_tile(rs, q, i as nat)).len() == 0 by {
                    assert(!old_map.contains_key(q));
                    assert(of_tile(rs, q, (i - 1) as nat).len() == 0);
                }
            }
        }
    }
    let mut out: Vec<TileGroup> = Vec::new();
    let mut k: usize = 0;
    proof {
        lemma_tiles_seen(rs, rs.len());
    }
    while k < keys.len()
        invariant
            rs.len() == n,
            keys@ == tiles_seen(rs, n as nat),
            keys@.no_duplicates(),
            k <= keys@.len(),
            out@.len() == k,
            forall|j: int|
                k <= j < keys@.len() ==> record_map_entries(map).contains_key(#[trigger] keys@[j])
                    && record_map_entries(map)[keys@[j]] == of_tile(rs, keys@[j], n as nat),
            forall|j: int|
                0 <= j < k ==> (#[trigger] out@[j]).tile_key == keys@[j] && records_view(
                    out@[j].records@,
                ) == of_tile(rs, keys@[j], n as nat),
        decreases keys@.len() - k,
    {
        let key: u64 = keys[k];
        assert(record_map_entries(map).contains_key(keys@[k as int]));
        let ghost before = record_map_entries(map);
        if let Some(g) = map.take_records(key) {
            out.push(TileGroup { tile_key: key, records: g });
        }
        k = k + 1;
        assert forall|j: int| k <= j < keys@.len() implies record_map_entries(map).contains_key(
            #[trigger] keys@[j],
        ) && record_map_entries(map)[keys@[j]] == of_tile(rs, keys@[j], n as nat) by {
            assert(before.contains_key(keys@[j]));
            assert(keys@[j] != key);
        }
    }
    out
}

/// One stored tile.
pub struct BuiltTile {
    pub tile: Tile,
    pub blob: Vec<u8>,
}

/// The tile and blob of a group: the blob is what the compressor makes of the group's
/// tile, and decompresses to it.
pub open spec fn is_built(b: BuiltTile, g: TileGroup, extent: u16) -> bool {
    let bytes = tile_bytes(parts_of(records_view(g.records@)), extent);
    &&& in_band(g.tile_key as nat, b.tile.z as nat)
    &&& (b.tile.x as nat, b.tile.y as nat) == demorton_of(
        (g.tile_key - zoom_offset(b.tile.z as nat)) as nat,
    )
    &&& zstd_compresses(bytes, ZSTD_LEVEL, b.blob@)
    &&& zstd_decoded(b.blob@) == Some(bytes)
}

/// Put each tile together with its blob. There is a list exactly if every answer is a
/// blob.
pub fn collect_built(tiles: Vec<Tile>, answers: Vec<Result<Vec<u8>, CompressError>>) -> (r: Result<
    Vec<BuiltTile>,
    CompressError,
>)
    requires
        tiles@.len() == answers@.len(),
    ensures
        match r {
            Ok(built) => built@.len() == answers@.len() && forall|k: int|
                0 <= k < built@.len() ==> (#[trigger] built@[k]).tile == tiles@[k] && answers@[k]
                    == Ok::<Vec<u8>, CompressError>(built@[k].blob),
            Err(_) => exists|k: int| 0 <= k < answers@.len() && (#[trigger] answers@[k]) is Err,
        },
{
    let ghost all = answers@;
    let mut left: Vec<Result<Vec<u8>, CompressError>> = answers;
    let mut out: Vec<BuiltTile> = Vec::new();
    let mut i: usize = 0;
    while i < tiles.len()
        invariant
            i <= tiles@.len(),
            tiles@.len() == all.len(),
            all == answers@,
            left@.len() == all.len(),
            forall|k: int| i <= k < all.len() ==> #[trigger] left@[k] == all[k],
            out@.len() == i,
            forall|k: int|
                0 <= k < i ==> (#[trigger] out@[k]).tile == tiles@[k] && all[k] == Ok::<
                    Vec<u8>,
                    CompressError,
                >(out@[k].blob),
        decreases tiles@.len() - i,
    {
        let mut answer: Result<Vec<u8>, CompressError> = Err(CompressError);
        assert(left@[i as int] == all[i as int]);
        std::mem::swap(&mut left[i], &mut answer);
        match answer {
            Ok(blob) => out.push(BuiltTile { tile: tiles[i], blob }),
            Err(e) => {
                assert(all[i as int] is Err);
                return Err(e);
            },
        }
        i = i + 1;
    }
    Ok(out)
}

/// Build the tiles of a bucket's groups.
pub fn build_groups(params: &TileParams, groups: &Vec<TileGroup>, extent: u16) -> (r: Result<
    Vec<BuiltTile>,
    CompressError,
>)
    requires
        forall|k: int| 0 <= k < groups@.len() ==> (#[trigger] groups@[k]).tile_key < zoom_offset(32),
    ensures
        r matches Ok(built) ==> built@.len() == groups@.len() && forall|k: int|
            0 <= k < built@.len() ==> is_built(#[trigger] built@[k], groups@[k], extent),
        groups@.len() == 0 ==> r is Ok,
{
    let mut tiles: Vec<Tile> = Vec::new();
    let mut answers: Vec<Result<Vec<u8>, CompressError>> = Vec::new();
    let mut i: usize = 0;
    while i < groups.len()
        invariant
            i <= groups@.len(),
            forall|k: int|
                0 <= k < groups@.len() ==> (#[trigger] groups@[k]).tile_key < zoom_offset(32),
            tiles@.len() == i,
            answers@.len() == i,
            forall|k: int|
                0 <= k < i ==> ((#[trigger] answers@[k]) matches Ok(blob) ==> is_built(
                    BuiltTile { tile: tiles@[k], blob },
                    groups@[k],
                    extent,
                )),
        decreases groups@.len() - i,
    {
        let g: &TileGroup = &groups[i];
        tiles.push(params.tile(g.tile_key));
        answers.push(pack_tile(&g.records, extent));
        i = i + 1;
    }
    let ghost given = answers@;
    let r = collect_built(tiles, answers);
    proof {
        if r is Ok {
            let built = r->Ok_0;
            assert forall|k: int| 0 <= k < built@.len() implies is_built(
                #[trigger] built@[k],
                groups@[k],
                extent,
            ) by {
                assert(given[k] == Ok::<Vec<u8>, CompressError>(built@[k].blob));
            }
        }
    }
    r
}

} // verus!
