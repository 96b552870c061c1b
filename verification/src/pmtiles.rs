//! PMTiles v3 on-disk codec, shared by the writer and the reader.

use vstd::prelude::*;

use crate::bytes::{
    flat, i32_of, lemma_cat, many_at, put_uvarints, read_uvarints, read_varint, uvarint_at,
    uvarint_extends, uvarint_image, uvarint_read_roundtrip, uvarint_reader, uvarints_extend,
    uvarints_roundtrip,
};
use crate::tileformat::{
    field, get_field, lemma_wire_all_len, lemma_wire_all_slot, put_all, wire_all, Wire,
};
use crate::varint::{uvarint_bytes, write_uvarint};

verus! {

/// `PMTiles`.
pub const MAGIC: [u8; 7] = [80, 77, 84, 105, 108, 101, 115];

pub const VERSION: u8 = 3;

pub const HEADER_LEN: usize = 127;

/// `internal_compression` / `tile_compression`: none (we store opaque bytes).
pub const COMPRESSION_NONE: u8 = 1;

/// `tile_type`: unknown, a custom tile format.
pub const TILE_TYPE_UNKNOWN: u8 = 0;

/// Target maximum root-directory size so the header + root fit one initial fetch.
pub const ROOT_MAX: usize = 16384;

/// A directory entry. A tile entry (`run_length >= 1`) addresses
/// `[tile_id, tile_id + run_length)` at `(offset, length)` within the tile-data
/// section. A leaf pointer (`run_length == 0`) points at a leaf directory at
/// `(offset, length)` within the leaf-directory section.
#[derive(Debug, Clone, Copy, PartialEq, Eq, Structural)]
pub struct DirEntry {
    pub tile_id: u64,
    pub offset: u64,
    pub length: u32,
    pub run_length: u32,
}

impl DirEntry {
    pub open spec fn spec_is_leaf(&self) -> bool {
        self.run_length == 0
    }

    /// Whether this entry points at a leaf directory rather than tile data.
    #[verifier::when_used_as_spec(spec_is_leaf)]
    pub fn is_leaf(&self) -> (r: bool)
        ensures
            r == self.spec_is_leaf(),
    {
        self.run_length == 0
    }
}

// ---- directories ----

/// Entries in the order of their tile ids.
pub open spec fn sorted_entries(es: Seq<DirEntry>) -> bool {
    forall|i: int, j: int|
        0 <= i <= j < es.len() ==> (#[trigger] es[i]).tile_id <= (#[trigger] es[j]).tile_id
}

/// Ends and offsets that 64 bits hold.
pub open spec fn entry_fits(e: DirEntry) -> bool {
    e.offset < u64::MAX && e.offset + e.length <= u64::MAX
}

pub open spec fn entries_fit(es: Seq<DirEntry>) -> bool {
    forall|i: int| 0 <= i < es.len() ==> entry_fits(#[trigger] es[i])
}

/// Each tile id as the distance from the one before.
pub open spec fn id_column(es: Seq<DirEntry>) -> Seq<u64> {
    Seq::new(
        es.len(),
        |i: int|
            if i == 0 {
                es[0].tile_id
            } else {
                (es[i].tile_id - es[i - 1].tile_id) as u64
            },
    )
}

pub open spec fn run_column(es: Seq<DirEntry>) -> Seq<u64> {
    Seq::new(es.len(), |i: int| es[i].run_length as u64)
}

pub open spec fn length_column(es: Seq<DirEntry>) -> Seq<u64> {
    Seq::new(es.len(), |i: int| es[i].length as u64)
}

/// Entry `i` starts where the entry before ends.
pub open spec fn contiguous(es: Seq<DirEntry>, i: int) -> bool {
    i > 0 && es[i].offset == es[i - 1].offset + es[i - 1].length
}

/// Each offset plus one; 0 for an entry that starts where the one before ends.
pub open spec fn offset_column(es: Seq<DirEntry>) -> Seq<u64> {
    Seq::new(
        es.len(),
        |i: int|
            if contiguous(es, i) {
                0
            } else {
                (es[i].offset + 1) as u64
            },
    )
}

/// A directory in the columnar varint layout: count, delta tile ids, run lengths,
/// lengths, offsets.
#[verifier::opaque]
pub open spec fn directory_bytes(es: Seq<DirEntry>) -> Seq<u8> {
    uvarint_bytes(es.len()) + flat(uvarint_image(), id_column(es)) + flat(
        uvarint_image(),
        run_column(es),
    ) + flat(uvarint_image(), length_column(es)) + flat(uvarint_image(), offset_column(es))
}

pub open spec fn sum_u64(s: Seq<u64>) -> nat
    decreases s.len(),
{
    if s.len() == 0 {
        0
    } else {
        sum_u64(s.drop_last()) + s.last() as nat
    }
}

/// The offset of entry `i`; none where a value is malformed or a sum overflows.
pub open spec fn offset_at(offsets: Seq<u64>, lengths: Seq<u64>, i: int) -> Option<u64>
    decreases i + 1,
{
    if i < 0 {
        None
    } else if offsets[i] > 0 {
        Some((offsets[i] - 1) as u64)
    } else {
        match offset_at(offsets, lengths, i - 1) {
            Some(o) => if o + lengths[i - 1] <= u64::MAX {
                Some((o + lengths[i - 1]) as u64)
            } else {
                None
            },
            None => None,
        }
    }
}

/// The columns make an entry at `i`.
pub open spec fn column_ok(
    ids: Seq<u64>,
    runs: Seq<u64>,
    lengths: Seq<u64>,
    offsets: Seq<u64>,
    i: int,
) -> bool {
    &&& sum_u64(ids.take(i + 1)) <= u64::MAX
    &&& runs[i] <= u32::MAX
    &&& lengths[i] <= u32::MAX
    &&& offset_at(offsets, lengths, i) is Some
}

pub open spec fn column_entry(
    ids: Seq<u64>,
    runs: Seq<u64>,
    lengths: Seq<u64>,
    offsets: Seq<u64>,
    i: int,
) -> DirEntry {
    DirEntry {
        tile_id: sum_u64(ids.take(i + 1)) as u64,
        offset: offset_at(offsets, lengths, i)->0,
        length: lengths[i] as u32,
        run_length: runs[i] as u32,
    }
}

/// The entries that four columns make.
pub open spec fn columns_entries(
    ids: Seq<u64>,
    runs: Seq<u64>,
    lengths: Seq<u64>,
    offsets: Seq<u64>,
) -> Option<Seq<DirEntry>> {
    if forall|i: int|
        0 <= i < ids.len() ==> #[trigger] column_ok(ids, runs, lengths, offsets, i) {
        Some(Seq::new(ids.len(), |i: int| column_entry(ids, runs, lengths, offsets, i)))
    } else {
        None
    }
}

/// The directory in a buffer; none where it is truncated or malformed.
#[verifier::opaque]
pub open spec fn directory_at(s: Seq<u8>) -> Option<Seq<DirEntry>> {
    match uvarint_at(s) {
        (None, _) => None,
        (Some(n), rest) => match many_at(uvarint_reader(), rest, n as nat) {
            (None, _) => None,
            (Some(ids), rest) => match many_at(uvarint_reader(), rest, n as nat) {
                (None, _) => None,
                (Some(runs), rest) => match many_at(uvarint_reader(), rest, n as nat) {
                    (None, _) => None,
                    (Some(lengths), rest) => match many_at(uvarint_reader(), rest, n as nat) {
                        (None, _) => None,
                        (Some(offsets), _) => columns_entries(ids, runs, lengths, offsets),
                    },
                },
            },
        },
    }
}

proof fn lemma_id_sum(es: Seq<DirEntry>, i: int)
    requires
        sorted_entries(es),
        0 <= i < es.len(),
    ensures
        sum_u64(id_column(es).take(i + 1)) == es[i].tile_id,
    decreases i,
{
    let ids = id_column(es);
    assert(ids.take(i + 1).drop_last() =~= ids.take(i));
    assert(ids.take(i + 1).last() == ids[i]);
    if i > 0 {
        lemma_id_sum(es, i - 1);
        assert(es[i - 1].tile_id <= es[i].tile_id);
    } else {
        assert(sum_u64(ids.take(0)) == 0);
        assert(ids[0] == es[0].tile_id);
    }
}

proof fn lemma_offsets(es: Seq<DirEntry>, i: int)
    requires
        entries_fit(es),
        0 <= i < es.len(),
    ensures
        offset_at(offset_column(es), length_column(es), i) == Some(es[i].offset),
    decreases i,
{
    assert(entry_fits(es[i]));
    if contiguous(es, i) {
        lemma_offsets(es, i - 1);
        assert(entry_fits(es[i - 1]));
    }
}

/// Parsing a serialized directory gives its entries back.
pub proof fn directory_roundtrip(es: Seq<DirEntry>, tail: Seq<u8>)
    requires
        sorted_entries(es),
        entries_fit(es),
        es.len() <= u64::MAX,
    ensures
        directory_at(directory_bytes(es) + tail) == Some(es),
{
    reveal(directory_at);
    reveal(directory_bytes);
    let n = uvarint_bytes(es.len());
    let a = flat(uvarint_image(), id_column(es));
    let b = flat(uvarint_image(), run_column(es));
    let c = flat(uvarint_image(), length_column(es));
    let d = flat(uvarint_image(), offset_column(es));
    lemma_cat(n + a + b + c, d, tail);
    lemma_cat(n + a + b, c, d + tail);
    lemma_cat(n + a, b, c + (d + tail));
    lemma_cat(n, a, b + (c + (d + tail)));
    uvarint_read_roundtrip(es.len() as u64, a + (b + (c + (d + tail))));
    uvarints_roundtrip(id_column(es), b + (c + (d + tail)));
    uvarints_roundtrip(run_column(es), c + (d + tail));
    uvarints_roundtrip(length_column(es), d + tail);
    uvarints_roundtrip(offset_column(es), tail);
    let (ids, runs, lens, offs) = (
        id_column(es),
        run_column(es),
        length_column(es),
        offset_column(es),
    );
    assert forall|i: int| 0 <= i < es.len() implies #[trigger] column_ok(ids, runs, lens, offs, i)
        && column_entry(ids, runs, lens, offs, i) == es[i] by {
        lemma_id_sum(es, i);
        lemma_offsets(es, i);
    }
    let got = columns_entries(ids, runs, lens, offs)->0;
    assert forall|i: int| 0 <= i < es.len() implies got[i] == es[i] by {
        assert(column_ok(ids, runs, lens, offs, i));
    }
    assert(got =~= es);
}

/// A directory cut short at any byte reads as nothing.
pub proof fn truncated_directory_refused(es: Seq<DirEntry>, cut: nat)
    requires
        es.len() <= u64::MAX,
        cut < directory_bytes(es).len(),
    ensures
        directory_at(directory_bytes(es).take(cut as int)) is None,
{
    reveal(directory_at);
    reveal(directory_bytes);
    let whole = directory_bytes(es);
    let s = whole.take(cut as int);
    let tail = whole.skip(cut as int);
    assert(s + tail =~= whole);
    let n = uvarint_bytes(es.len());
    let a = flat(uvarint_image(), id_column(es));
    let b = flat(uvarint_image(), run_column(es));
    let c = flat(uvarint_image(), length_column(es));
    let d = flat(uvarint_image(), offset_column(es));
    lemma_cat(n + a + b, c, d);
    lemma_cat(n + a, b, c + d);
    lemma_cat(n, a, b + (c + d));
    assert(d + Seq::<u8>::empty() =~= d);
    uvarint_read_roundtrip(es.len() as u64, a + (b + (c + d)));
    uvarints_roundtrip(id_column(es), b + (c + d));
    uvarints_roundtrip(run_column(es), c + d);
    uvarints_roundtrip(length_column(es), d);
    uvarints_roundtrip(offset_column(es), Seq::empty());
    if directory_at(s) is Some {
        let (count, s0) = uvarint_at(s);
        uvarint_extends(s, tail);
        uvarints_extend(s0, es.len(), tail);
        let s1 = many_at(uvarint_reader(), s0, es.len()).1;
        uvarints_extend(s1, es.len(), tail);
        let s2 = many_at(uvarint_reader(), s1, es.len()).1;
        uvarints_extend(s2, es.len(), tail);
        let s3 = many_at(uvarint_reader(), s2, es.len()).1;
        uvarints_extend(s3, es.len(), tail);
        let s4 = many_at(uvarint_reader(), s3, es.len()).1;
        assert((s4 + tail).len() > 0);
    }
}

proof fn lemma_sum_step(s: Seq<u64>, i: int)
    requires
        0 <= i < s.len(),
    ensures
        sum_u64(s.take(i + 1)) == sum_u64(s.take(i)) + s[i],
{
    assert(s.take(i + 1).drop_last() =~= s.take(i));
}

proof fn lemma_sum_take_monotone(s: Seq<u64>, i: int, j: int)
    requires
        0 <= i <= j <= s.len(),
    ensures
        sum_u64(s.take(i)) <= sum_u64(s.take(j)),
    decreases j - i,
{
    if i < j {
        lemma_sum_take_monotone(s, i, j - 1);
        lemma_sum_step(s, j - 1);
    }
}

/// A parsed directory is in the order of its tile ids.
pub proof fn parsed_directory_sorted(s: Seq<u8>)
    ensures
        directory_at(s) matches Some(es) ==> sorted_entries(es),
{
    reveal(directory_at);
    if let Some(es) = directory_at(s) {
        let (n, r0) = uvarint_at(s);
        let (ids, r1) = many_at(uvarint_reader(), r0, n->0 as nat);
        let (runs, r2) = many_at(uvarint_reader(), r1, n->0 as nat);
        let (lens, r3) = many_at(uvarint_reader(), r2, n->0 as nat);
        let (offs, r4) = many_at(uvarint_reader(), r3, n->0 as nat);
        let ids = ids->0;
        assert forall|i: int, j: int| 0 <= i <= j < es.len() implies (#[trigger] es[i]).tile_id <= (
        #[trigger] es[j]).tile_id by {
            assert(column_ok(ids, runs->0, lens->0, offs->0, i));
            assert(column_ok(ids, runs->0, lens->0, offs->0, j));
            lemma_sum_take_monotone(ids, i + 1, j + 1);
        }
    }
}

/// Serialize directory entries (sorted by tile id) in the columnar varint layout:
/// count, delta tile ids, run lengths, lengths, offsets (0 = contiguous with the
/// previous entry).
pub fn serialize_directory(entries: &[DirEntry]) -> (r: Vec<u8>)
    requires
        sorted_entries(entries@),
        entries_fit(entries@),
    ensures
        r@ == directory_bytes(entries@),
{
    let n: usize = entries.len();
    let mut ids: Vec<u64> = Vec::new();
    let mut runs: Vec<u64> = Vec::new();
    let mut lengths: Vec<u64> = Vec::new();
    let mut offsets: Vec<u64> = Vec::new();
    let mut i: usize = 0;
    while i < n
        invariant
            i <= n,
            n == entries@.len(),
            sorted_entries(entries@),
            entries_fit(entries@),
            ids@ == id_column(entries@).take(i as int),
            runs@ == run_column(entries@).take(i as int),
            lengths@ == length_column(entries@).take(i as int),
            offsets@ == offset_column(entries@).take(i as int),
        decreases n - i,
    {
        let e: DirEntry = entries[i];
        assert(entry_fits(e));
        if i == 0 {
            ids.push(e.tile_id);
            offsets.push(e.offset + 1);
        } else {
            let p: DirEntry = entries[i - 1];
            assert(entry_fits(p));
            assert(entries@[i - 1].tile_id <= entries@[i as int].tile_id);
            ids.push(e.tile_id - p.tile_id);
            if e.offset == p.offset + p.length as u64 {
                offsets.push(0);
            } else {
                offsets.push(e.offset + 1);
            }
        }
        runs.push(e.run_length as u64);
        lengths.push(e.length as u64);
        i = i + 1;
        assert(ids@ =~= id_column(entries@).take(i as int));
        assert(runs@ =~= run_column(entries@).take(i as int));
        assert(lengths@ =~= length_column(entries@).take(i as int));
        assert(offsets@ =~= offset_column(entries@).take(i as int));
    }
    assert(id_column(entries@).take(n as int) =~= id_column(entries@));
    assert(run_column(entries@).take(n as int) =~= run_column(entries@));
    assert(length_column(entries@).take(n as int) =~= length_column(entries@));
    assert(offset_column(entries@).take(n as int) =~= offset_column(entries@));
    let mut buf: Vec<u8> = Vec::new();
    write_uvarint(&mut buf, n as u64);
    assert(buf@ =~= uvarint_bytes(entries@.len()));
    put_uvarints(&mut buf, &ids);
    put_uvarints(&mut buf, &runs);
    put_uvarints(&mut buf, &lengths);
    put_uvarints(&mut buf, &offsets);
    proof {
        reveal(directory_bytes);
    }
    buf
}

/// Parse a columnar-varint directory (inverse of `serialize_directory`).
/// Returns `None` on a truncated or malformed buffer.
pub fn parse_directory(buf: &[u8]) -> (r: Option<Vec<DirEntry>>)
    ensures
        match r {
            Some(es) => directory_at(buf@) == Some(es@) && sorted_entries(es@),
            None => directory_at(buf@) is None,
        },
{
    proof {
        reveal(directory_at);
        parsed_directory_sorted(buf@);
    }
    let mut cursor: &[u8] = buf;
    let n: u64 = match read_varint(&mut cursor) {
        Some(v) => v,
        None => return None,
    };
    let ids: Vec<u64> = match read_uvarints(&mut cursor, n) {
        Some(v) => v,
        None => return None,
    };
    let runs: Vec<u64> = match read_uvarints(&mut cursor, n) {
        Some(v) => v,
        None => return None,
    };
    let lengths: Vec<u64> = match read_uvarints(&mut cursor, n) {
        Some(v) => v,
        None => return None,
    };
    let offsets: Vec<u64> = match read_uvarints(&mut cursor, n) {
        Some(v) => v,
        None => return None,
    };
    assemble_entries(&ids, &runs, &lengths, &offsets)
}

fn assemble_entries(
    ids: &Vec<u64>,
    runs: &Vec<u64>,
    lengths: &Vec<u64>,
    offsets: &Vec<u64>,
) -> (r: Option<Vec<DirEntry>>)
    requires
        runs@.len() == ids@.len(),
        lengths@.len() == ids@.len(),
        offsets@.len() == ids@.len(),
    ensures
        match r {
            Some(es) => columns_entries(ids@, runs@, lengths@, offsets@) == Some(es@),
            None => columns_entries(ids@, runs@, lengths@, offsets@) is None,
        },
{
    let mut out: Vec<DirEntry> = Vec::new();
    let mut last: u64 = 0;
    let mut i: usize = 0;
    assert(ids@.take(0) =~= Seq::empty());
    while i < ids.len()
        invariant
            i <= ids@.len(),
            runs@.len() == ids@.len(),
            lengths@.len() == ids@.len(),
            offsets@.len() == ids@.len(),
            out@.len() == i,
            last == sum_u64(ids@.take(i as int)),
            forall|k: int|
                0 <= k < i ==> #[trigger] column_ok(ids@, runs@, lengths@, offsets@, k) && out@[k]
                    == column_entry(ids@, runs@, lengths@, offsets@, k),
        decreases ids@.len() - i,
    {
        proof {
            lemma_sum_step(ids@, i as int);
            if i > 0 {
                assert(column_ok(ids@, runs@, lengths@, offsets@, i - 1));
            }
        }
        let ghost bad = !column_ok(ids@, runs@, lengths@, offsets@, i as int);
        if ids[i] > u64::MAX - last || runs[i] > u32::MAX as u64 || lengths[i] > u32::MAX as u64 {
            assert(bad);
            return None;
        }
        last = last + ids[i];
        let v: u64 = offsets[i];
        let offset: u64 = if v > 0 {
            v - 1
        } else if i == 0 {
            assert(offset_at(offsets@, lengths@, -1) is None);
            assert(bad);
            return None;
        } else {
            let p: DirEntry = out[i - 1];
            if p.offset > u64::MAX - lengths[i - 1] {
                assert(bad);
                return None;
            }
            p.offset + lengths[i - 1]
        };
        out.push(
            DirEntry {
                tile_id: last,
                offset,
                length: lengths[i] as u32,
                run_length: runs[i] as u32,
            },
        );
        i = i + 1;
    }
    proof {
        assert forall|k: int| 0 <= k < out@.len() implies #[trigger] out@[k] == column_entry(
            ids@,
            runs@,
            lengths@,
            offsets@,
            k,
        ) by {
            assert(column_ok(ids@, runs@, lengths@, offsets@, k));
        }
        assert(out@ =~= columns_entries(ids@, runs@, lengths@, offsets@)->0);
    }
    Some(out)
}

// ---- lookup ----

/// How many of the first `n` entries have an id up to `id`; with sorted entries these
/// are the first ones.
pub open spec fn count_up_to(es: Seq<DirEntry>, id: u64, n: nat) -> nat
    decreases n,
{
    if n == 0 {
        0
    } else if es[n - 1].tile_id <= id {
        n
    } else {
        count_up_to(es, id, (n - 1) as nat)
    }
}

/// The entry addressing `id`: the last whose tile id does not exceed it. A tile entry
/// matches only within its run; a leaf pointer always matches.
pub open spec fn lookup(es: Seq<DirEntry>, id: u64) -> Option<DirEntry> {
    let k = count_up_to(es, id, es.len());
    if k == 0 {
        None
    } else {
        let e = es[k - 1];
        if e.is_leaf() || id < e.tile_id + e.run_length {
            Some(e)
        } else {
            None
        }
    }
}

pub proof fn lemma_count_up_to(es: Seq<DirEntry>, id: u64, n: nat)
    requires
        n <= es.len(),
    ensures
        count_up_to(es, id, n) <= n,
        count_up_to(es, id, n) > 0 ==> es[count_up_to(es, id, n) - 1].tile_id <= id,
        forall|k: int| count_up_to(es, id, n) <= k < n ==> (#[trigger] es[k]).tile_id > id,
    decreases n,
{
    if n > 0 && es[n - 1].tile_id > id {
        lemma_count_up_to(es, id, (n - 1) as nat);
    }
}

pub proof fn lemma_count_unique(es: Seq<DirEntry>, id: u64, k: nat)
    requires
        k <= es.len(),
        k > 0 ==> es[k - 1].tile_id <= id,
        forall|i: int| k <= i < es.len() ==> (#[trigger] es[i]).tile_id > id,
    ensures
        count_up_to(es, id, es.len()) == k,
{
    lemma_count_up_to(es, id, es.len());
    let c = count_up_to(es, id, es.len());
    if c < k {
        assert(es[k - 1].tile_id > id);
    } else if c > k {
        assert(es[c - 1].tile_id > id);
    }
}

/// Find the entry addressing `tile_id`: the entry with the greatest `tile_id` not
/// exceeding the query. A tile entry matches only if the query falls within its run; a
/// leaf pointer always matches its subtree and must be descended. Returns `None` if
/// the query precedes all entries or falls behind a run.
pub fn find_entry(entries: &[DirEntry], tile_id: u64) -> (r: Option<&DirEntry>)
    requires
        sorted_entries(entries@),
    ensures
        match r {
            Some(e) => lookup(entries@, tile_id) == Some(*e),
            None => lookup(entries@, tile_id) is None,
        },
{
    let mut lo: usize = 0;
    let mut hi: usize = entries.len();
    while lo < hi
        invariant
            lo <= hi <= entries@.len(),
            sorted_entries(entries@),
            forall|k: int| 0 <= k < lo ==> (#[trigger] entries@[k]).tile_id <= tile_id,
            forall|k: int| hi <= k < entries@.len() ==> (#[trigger] entries@[k]).tile_id > tile_id,
        decreases hi - lo,
    {
        let mid: usize = lo + (hi - lo) / 2;
        if entries[mid].tile_id <= tile_id {
            lo = mid + 1;
        } else {
            hi = mid;
        }
    }
    proof {
        lemma_count_unique(entries@, tile_id, lo as nat);
    }
    if lo == 0 {
        return None;
    }
    let e: &DirEntry = &entries[lo - 1];
    if e.is_leaf() || tile_id - e.tile_id < e.run_length as u64 {
        Some(e)
    } else {
        None
    }
}

// ---- root and leaves ----

/// The `k`-th run of `size` entries.
pub open spec fn chunk(es: Seq<DirEntry>, size: nat, k: int) -> Seq<DirEntry> {
    es.subrange(
        k * size,
        if (k + 1) * size <= es.len() {
            (k + 1) * size
        } else {
            es.len() as int
        },
    )
}

/// How many chunks there are.
pub open spec fn chunk_count(es: Seq<DirEntry>, size: nat) -> nat {
    ((es.len() + size - 1) / size as int) as nat
}

/// The leaf section made of the first `k` chunks.
pub open spec fn leaf_bytes(es: Seq<DirEntry>, size: nat, k: nat) -> Seq<u8>
    decreases k,
{
    if k == 0 {
        Seq::empty()
    } else {
        leaf_bytes(es, size, (k - 1) as nat) + directory_bytes(chunk(es, size, k - 1))
    }
}

/// The pointer to leaf `k`, relative to the leaf section.
pub open spec fn leaf_pointer(es: Seq<DirEntry>, size: nat, k: int) -> DirEntry {
    DirEntry {
        tile_id: chunk(es, size, k)[0].tile_id,
        offset: leaf_bytes(es, size, k as nat).len() as u64,
        length: (directory_bytes(chunk(es, size, k)).len() % 0x1_0000_0000) as u32,
        run_length: 0,
    }
}

pub open spec fn leaf_pointers(es: Seq<DirEntry>, size: nat) -> Seq<DirEntry> {
    Seq::new(chunk_count(es, size), |k: int| leaf_pointer(es, size, k))
}

/// The root and leaves for chunks of `size`, which doubles until the root fits.
pub open spec fn directories_from(es: Seq<DirEntry>, root_max: nat, size: nat) -> (Seq<u8>, Seq<u8>)
    decreases (if size < es.len() { es.len() - size } else { 0 }),
{
    let root = directory_bytes(leaf_pointers(es, size));
    if root.len() <= root_max || chunk_count(es, size) <= 1 || size == 0 || size >= es.len() {
        (root, leaf_bytes(es, size, chunk_count(es, size)))
    } else {
        directories_from(es, root_max, 2 * size)
    }
}

pub open spec fn first_leaf_size(n: nat) -> nat {
    if n / 3500 > 4096 {
        n / 3500
    } else {
        4096
    }
}

/// The root directory and the leaf directories for `es`.
pub open spec fn directories(es: Seq<DirEntry>, root_max: nat) -> (Seq<u8>, Seq<u8>) {
    if directory_bytes(es).len() <= root_max {
        (directory_bytes(es), Seq::empty())
    } else {
        directories_from(es, root_max, first_leaf_size(es.len()))
    }
}

proof fn lemma_chunks(es: Seq<DirEntry>, size: nat, k: int)
    requires
        size >= 1,
        0 <= k < chunk_count(es, size),
    ensures
        0 <= k * size < es.len(),
        k * size < (k + 1) * size,
        (k + 1) * size == k * size + size,
        chunk(es, size, k).len() >= 1,
        chunk(es, size, k).len() <= size,
        chunk(es, size, k)[0] == es[k * size],
        k + 1 < chunk_count(es, size) ==> (k + 1) * size < es.len(),
        k + 1 == chunk_count(es, size) ==> (k + 1) * size >= es.len(),
{
    let n = es.len() as int;
    let c = chunk_count(es, size) as int;
    let sz = size as int;
    vstd::arithmetic::div_mod::lemma_fundamental_div_mod(n + sz - 1, sz);
    let q = (n + sz - 1) / sz;
    let r = (n + sz - 1) % sz;
    assert(0 <= r < sz);
    assert(q >= 0) by (nonlinear_arith)
        requires
            n + sz - 1 == sz * q + r,
            0 <= r < sz,
            n >= 0,
            sz >= 1,
    ;
    assert(0 <= k * sz < n) by (nonlinear_arith)
        requires
            n + sz - 1 == sz * q + r,
            0 <= r < sz,
            0 <= k < q,
            sz >= 1,
    ;
    assert((k + 1) * sz == k * sz + sz) by (nonlinear_arith);
    if k + 1 < c {
        assert((k + 1) * sz < n) by (nonlinear_arith)
            requires
                n + sz - 1 == sz * q + r,
                0 <= r < sz,
                k + 1 < q,
                sz >= 1,
        ;
    } else {
        assert((k + 1) * sz >= n) by (nonlinear_arith)
            requires
                n + sz - 1 == sz * q + r,
                0 <= r < sz,
                k + 1 == q,
                sz >= 1,
        ;
    }
}

proof fn lemma_chunk_sorted(es: Seq<DirEntry>, size: nat, k: int)
    requires
        sorted_entries(es),
        entries_fit(es),
        size >= 1,
        0 <= k < chunk_count(es, size),
    ensures
        sorted_entries(chunk(es, size, k)),
        entries_fit(chunk(es, size, k)),
{
    lemma_chunks(es, size, k);
    let c = chunk(es, size, k);
    assert forall|i: int, j: int| 0 <= i <= j < c.len() implies (#[trigger] c[i]).tile_id <= (
    #[trigger] c[j]).tile_id by {
        assert(c[i] == es[k * size + i] && c[j] == es[k * size + j]);
    }
    assert forall|i: int| 0 <= i < c.len() implies entry_fits(#[trigger] c[i]) by {
        assert(c[i] == es[k * size + i]);
    }
}

proof fn lemma_multiple_monotone(a: int, b: int, size: int)
    requires
        a <= b,
        size >= 0,
    ensures
        a * size <= b * size,
{
    assert(a * size <= b * size) by (nonlinear_arith)
        requires
            a <= b,
            size >= 0,
    ;
}

proof fn lemma_pointers_sorted(es: Seq<DirEntry>, size: nat)
    requires
        sorted_entries(es),
        size >= 1,
    ensures
        sorted_entries(leaf_pointers(es, size)),
{
    let ps = leaf_pointers(es, size);
    assert forall|i: int, j: int| 0 <= i <= j < ps.len() implies (#[trigger] ps[i]).tile_id <= (
    #[trigger] ps[j]).tile_id by {
        lemma_chunks(es, size, i);
        lemma_chunks(es, size, j);
        lemma_multiple_monotone(i, j, size as int);
    }
}

/// The leaf section can be addressed: its end fits 64 bits.
pub open spec fn leaves_fit(es: Seq<DirEntry>, size: nat) -> bool {
    leaf_bytes(es, size, chunk_count(es, size)).len() <= u64::MAX
}

proof fn lemma_leaf_len(es: Seq<DirEntry>, size: nat, a: nat, b: nat)
    requires
        a <= b,
    ensures
        leaf_bytes(es, size, a).len() <= leaf_bytes(es, size, b).len(),
    decreases b,
{
    if a < b {
        lemma_leaf_len(es, size, a, (b - 1) as nat);
    }
}

proof fn lemma_pointers_fit(es: Seq<DirEntry>, size: nat)
    requires
        leaves_fit(es, size),
    ensures
        entries_fit(leaf_pointers(es, size)),
{
    let ps = leaf_pointers(es, size);
    assert forall|i: int| 0 <= i < ps.len() implies entry_fits(#[trigger] ps[i]) by {
        lemma_leaf_len(es, size, (i + 1) as nat, chunk_count(es, size));
        let part = directory_bytes(chunk(es, size, i));
        assert(part.len() >= 1) by {
            reveal(directory_bytes);
        }
        assert(leaf_bytes(es, size, (i + 1) as nat).len() == leaf_bytes(es, size, i as nat).len()
            + part.len());
        assert(part.len() % 0x1_0000_0000 <= part.len());
    }
}

/// Split entries (sorted by tile id) into a root directory and leaf directories.
///
/// If all entries fit in `root_max`, the root holds them and there are no
/// leaves. Otherwise entries are chunked into leaf directories and the root
/// holds one leaf pointer per leaf (`run_length = 0`, `offset` relative to the
/// leaf section). Leaf size grows until the root itself fits `root_max`.
/// Returns `(root_bytes, leaf_bytes)`.
pub fn build_directories(entries: &[DirEntry], root_max: usize) -> (r: (Vec<u8>, Vec<u8>))
    requires
        sorted_entries(entries@),
        entries_fit(entries@),
    ensures
        (r.0@, r.1@) == directories(entries@, root_max as nat),
{
    let root: Vec<u8> = serialize_directory(entries);
    if root.len() <= root_max {
        let none: Vec<u8> = Vec::new();
        assert(none@ =~= Seq::empty());
        return (root, none);
    }
    let n: u128 = entries.len() as u128;
    let ghost es = entries@;
    let mut size: u128 = if n / 3500 > 4096 {
        n / 3500
    } else {
        4096
    };
    loop
        invariant
            n == es.len(),
            n <= usize::MAX,
            es == entries@,
            sorted_entries(es),
            entries_fit(es),
            1 <= size <= usize::MAX * 2 + 8192,
            directories_from(es, root_max as nat, size as nat) == directories(
                es,
                root_max as nat,
            ),
        decreases (if size < n { n - size } else { 0 }),
    {
        let (pointers, leaves) = build_leaves(entries, size);
        let root: Vec<u8> = serialize_directory(&pointers);
        proof {
            if chunk_count(es, size as nat) > 1 {
                lemma_chunks(es, size as nat, 0);
                assert(size < n);
            }
        }
        if root.len() <= root_max || pointers.len() <= 1 {
            return (root, leaves);
        }
        size = size * 2;
    }
}

/// The leaves for chunks of `size` and the pointers to them.
fn build_leaves(entries: &[DirEntry], size: u128) -> (r: (Vec<DirEntry>, Vec<u8>))
    requires
        sorted_entries(entries@),
        entries_fit(entries@),
        1 <= size <= usize::MAX * 2 + 8192,
    ensures
        r.0@ == leaf_pointers(entries@, size as nat),
        r.1@ == leaf_bytes(entries@, size as nat, chunk_count(entries@, size as nat)),
        sorted_entries(r.0@),
        entries_fit(r.0@),
{
    let n: usize = entries.len();
    let ghost es = entries@;
    let ghost sz = size as nat;
    let mut pointers: Vec<DirEntry> = Vec::new();
    let mut leaves: Vec<u8> = Vec::new();
    let mut start: usize = 0;
    let ghost mut k: int = 0;
    proof {
        if n > 0 {
            assert(chunk_count(es, sz) >= 1) by {
                vstd::arithmetic::div_mod::lemma_div_is_ordered(sz as int, n + sz - 1, sz as int);
                vstd::arithmetic::div_mod::lemma_div_by_self(sz as int);
            }
        } else {
            vstd::arithmetic::div_mod::lemma_basic_div(sz - 1, sz as int);
        }
        assert(0 * sz == 0);
    }
    while start < n
        invariant
            n == es.len(),
            es == entries@,
            sz == size,
            sz >= 1,
            size <= usize::MAX * 2 + 8192,
            sorted_entries(es),
            entries_fit(es),
            0 <= k <= chunk_count(es, sz),
            start <= n,
            start < n ==> start == k * sz && k < chunk_count(es, sz),
            start == n ==> k == chunk_count(es, sz),
            pointers@ == leaf_pointers(es, sz).take(k),
            leaves@ == leaf_bytes(es, sz, k as nat),
        decreases n - start,
    {
        proof {
            lemma_chunks(es, sz, k);
            lemma_chunk_sorted(es, sz, k);
        }
        let end: usize = if size < (n - start) as u128 {
            start + size as usize
        } else {
            n
        };
        let part: &[DirEntry] = vstd::slice::slice_subrange(entries, start, end);
        assert(part@ =~= chunk(es, sz, k));
        let leaf: Vec<u8> = serialize_directory(part);
        pointers.push(
            DirEntry {
                tile_id: entries[start].tile_id,
                offset: leaves.len() as u64,
                length: ((leaf.len() as u64) % 0x1_0000_0000) as u32,
                run_length: 0,
            },
        );
        crate::bytes::put_bytes(&mut leaves, &leaf);
        start = end;
        proof {
            k = k + 1;
            assert(pointers@ =~= leaf_pointers(es, sz).take(k));
        }
    }
    proof {
        assert(leaf_pointers(es, sz).take(k) =~= leaf_pointers(es, sz));
        lemma_pointers_sorted(es, sz);
    }
    let total: usize = leaves.len();
    proof {
        assert(leaves_fit(es, sz));
        lemma_pointers_fit(es, sz);
    }
    (pointers, leaves)
}

// ---- finding a tile ----

/// Where a directory says a tile is.
#[derive(Debug, Clone, Copy, PartialEq, Eq, Structural)]
pub enum Located {
    /// The archive has no such tile.
    Absent,
    /// In the data section.
    Data { offset: u64, length: u32 },
    /// In the leaf directory at this place of the leaf section, which is to be searched
    /// next.
    Leaf { offset: u64, length: u32 },
}

pub open spec fn resolved(es: Seq<DirEntry>, id: u64) -> Located {
    match lookup(es, id) {
        None => Located::Absent,
        Some(e) => if e.is_leaf() {
            Located::Leaf { offset: e.offset, length: e.length }
        } else {
            Located::Data { offset: e.offset, length: e.length }
        },
    }
}

/// One step of a tile lookup: what a directory says about `id`. The search starts with
/// the root directory and goes on with the leaf it is sent to.
pub fn resolve(entries: &[DirEntry], id: u64) -> (r: Located)
    requires
        sorted_entries(entries@),
    ensures
        r == resolved(entries@, id),
{
    match find_entry(entries, id) {
        None => Located::Absent,
        Some(e) => if e.is_leaf() {
            Located::Leaf { offset: e.offset, length: e.length }
        } else {
            Located::Data { offset: e.offset, length: e.length }
        },
    }
}

/// The bytes of a leaf directory.
pub open spec fn leaf_at(leaves: Seq<u8>, offset: u64, length: u32) -> Option<Seq<DirEntry>> {
    if offset + length <= leaves.len() {
        directory_at(leaves.subrange(offset as int, offset + length))
    } else {
        None
    }
}

/// Where a search that starts in `es` and descends through at most `depth` leaves ends;
/// none where a leaf is corrupt or leaves nest deeper.
pub open spec fn search(es: Seq<DirEntry>, leaves: Seq<u8>, id: u64, depth: nat) -> Option<Located>
    decreases depth,
{
    match resolved(es, id) {
        Located::Leaf { offset, length } => if depth == 0 {
            None
        } else {
            match leaf_at(leaves, offset, length) {
                None => None,
                Some(leaf) => search(leaf, leaves, id, (depth - 1) as nat),
            }
        },
        found => Some(found),
    }
}

/// The leaf size that `directories_from` settles on.
pub open spec fn settled_size(es: Seq<DirEntry>, root_max: nat, size: nat) -> nat
    decreases (if size < es.len() { es.len() - size } else { 0 }),
{
    let root = directory_bytes(leaf_pointers(es, size));
    if root.len() <= root_max || chunk_count(es, size) <= 1 || size == 0 || size >= es.len() {
        size
    } else {
        settled_size(es, root_max, 2 * size)
    }
}

proof fn lemma_settled(es: Seq<DirEntry>, root_max: nat, size: nat)
    requires
        size >= 1,
    ensures
        ({
            let s = settled_size(es, root_max, size);
            &&& s >= 1
            &&& directories_from(es, root_max, size) == (
                directory_bytes(leaf_pointers(es, s)),
                leaf_bytes(es, s, chunk_count(es, s)),
            )
            &&& directory_bytes(leaf_pointers(es, s)).len() <= root_max || chunk_count(es, s) <= 1
        }),
    decreases (if size < es.len() { es.len() - size } else { 0 }),
{
    let root = directory_bytes(leaf_pointers(es, size));
    if size >= es.len() && chunk_count(es, size) > 1 {
        lemma_chunks(es, size, 1);
        assert(1 * size == size);
    }
    if !(root.len() <= root_max || chunk_count(es, size) <= 1 || size >= es.len()) {
        lemma_settled(es, root_max, 2 * size);
    }
}

/// Every leaf is short enough for the 32-bit length of its pointer.
pub open spec fn leaves_addressable(es: Seq<DirEntry>, root_max: nat) -> bool {
    let size = settled_size(es, root_max, first_leaf_size(es.len()));
    &&& leaves_fit(es, size)
    &&& forall|k: int|
        0 <= k < chunk_count(es, size) ==> (#[trigger] directory_bytes(chunk(es, size, k))).len()
            <= u32::MAX
}

proof fn lemma_leaf_place(es: Seq<DirEntry>, size: nat, k: int, n: nat)
    requires
        0 <= k < n,
    ensures
        ({
            let at = leaf_bytes(es, size, k as nat).len() as int;
            let part = directory_bytes(chunk(es, size, k));
            let all = leaf_bytes(es, size, n);
            at + part.len() <= all.len() && all.subrange(at, at + part.len()) == part
        }),
    decreases n,
{
    let at = leaf_bytes(es, size, k as nat).len() as int;
    let part = directory_bytes(chunk(es, size, k));
    let all = leaf_bytes(es, size, n);
    if k == n - 1 {
        assert(all.subrange(at, at + part.len()) =~= part);
    } else {
        lemma_leaf_place(es, size, k, (n - 1) as nat);
        let front = leaf_bytes(es, size, (n - 1) as nat);
        assert(all.subrange(at, at + part.len()) =~= front.subrange(at, at + part.len()));
    }
}

/// Looking a tile up in the chunk that its id falls in is looking it up in all entries.
proof fn lemma_chunk_lookup(es: Seq<DirEntry>, size: nat, k: nat, id: u64)
    requires
        sorted_entries(es),
        size >= 1,
        0 < k <= chunk_count(es, size),
        es[(k - 1) * size].tile_id <= id,
        k < chunk_count(es, size) ==> es[(k * size) as int].tile_id > id,
    ensures
        lookup(chunk(es, size, k - 1), id) == lookup(es, id),
{
    let base = (k - 1) * size;
    let c = chunk(es, size, k - 1);
    lemma_chunks(es, size, k - 1);
    lemma_count_up_to(es, id, es.len());
    let m = count_up_to(es, id, es.len());
    assert(m > base) by {
        if m <= base {
            assert(es[base].tile_id > id);
        }
    }
    assert(m <= base + c.len()) by {
        if k < chunk_count(es, size) && m > base + c.len() {
            assert(es[(k * size) as int].tile_id <= es[m - 1].tile_id);
        }
    }
    let j = (m - base) as nat;
    assert(c[j - 1] == es[m - 1]);
    assert forall|i: int| j <= i < c.len() implies (#[trigger] c[i]).tile_id > id by {
        assert(c[i] == es[base + i]);
    }
    lemma_count_unique(c, id, j);
}

/// The entries of the first `n` leaves that a root points to, one leaf behind the other.
pub open spec fn joined_leaves(ps: Seq<DirEntry>, leaves: Seq<u8>, n: nat) -> Seq<DirEntry>
    decreases n,
{
    if n == 0 {
        Seq::empty()
    } else {
        let p = ps[n - 1];
        joined_leaves(ps, leaves, (n - 1) as nat) + leaf_at(leaves, p.offset, p.length)->0
    }
}

/// Where leaf `k` ends in the leaf section: where the next one starts, and the last one at
/// the end of the section.
pub open spec fn leaf_end(ps: Seq<DirEntry>, leaves: Seq<u8>, k: int) -> int {
    if k + 1 < ps.len() {
        ps[k + 1].offset as int
    } else {
        leaves.len() as int
    }
}

/// The root points to a leaf that starts at the section's start for the first pointer,
/// that ends where the next one starts, and that parses to entries of which the first has
/// the pointer's tile id.
pub open spec fn points_to_leaf(ps: Seq<DirEntry>, leaves: Seq<u8>, k: int) -> bool {
    let p = ps[k];
    &&& p.run_length == 0
    &&& k == 0 ==> p.offset == 0
    &&& p.offset + p.length == leaf_end(ps, leaves, k)
    &&& leaf_at(leaves, p.offset, p.length) matches Some(leaf) && leaf.len() > 0
        && leaf[0].tile_id == p.tile_id
}

/// Entries that fit the root stand in it, and there are no leaves. Others stand in leaves:
/// the root's pointers split the leaf section without gap or overlap, each leaf parses to
/// a run of the entries that starts at its pointer's tile id, the runs one behind the
/// other are the entries, and the root fits or holds at most one pointer.
pub proof fn directories_split(es: Seq<DirEntry>, root_max: nat)
    requires
        sorted_entries(es),
        entries_fit(es),
        es.len() <= u64::MAX,
        leaves_addressable(es, root_max),
    ensures
        ({
            let (root, leaves) = directories(es, root_max);
            if directory_bytes(es).len() <= root_max {
                root == directory_bytes(es) && leaves.len() == 0
            } else {
                directory_at(root) matches Some(ps) && {
                    &&& forall|k: int| 0 <= k < ps.len() ==> #[trigger] points_to_leaf(ps, leaves, k)
                    &&& ps.len() == 0 ==> leaves.len() == 0
                    &&& joined_leaves(ps, leaves, ps.len()) == es
                    &&& root.len() <= root_max || ps.len() <= 1
                }
            }
        }),
{
    let (root, leaves) = directories(es, root_max);
    if directory_bytes(es).len() > root_max {
        let first = first_leaf_size(es.len());
        let size = settled_size(es, root_max, first);
        lemma_settled(es, root_max, first);
        let ps = leaf_pointers(es, size);
        let count = chunk_count(es, size);
        lemma_pointers_sorted(es, size);
        lemma_pointers_fit(es, size);
        lemma_pointer_count(es, size);
        directory_roundtrip(ps, Seq::empty());
        assert(directory_bytes(ps) + Seq::empty() =~= directory_bytes(ps));
        assert forall|k: int| 0 <= k < ps.len() implies #[trigger] points_to_leaf(ps, leaves, k) by {
            lemma_leaf_read(es, size, k);
            lemma_chunks(es, size, k);
            lemma_leaf_len(es, size, (k + 1) as nat, count);
            lemma_leaf_len(es, size, k as nat, count);
            assert(leaf_bytes(es, size, (k + 1) as nat).len() == leaf_bytes(
                es,
                size,
                k as nat,
            ).len() + directory_bytes(chunk(es, size, k)).len());
        }
        lemma_joined_leaves(es, size, count);
        if count > 0 {
            lemma_chunks(es, size, count - 1);
            assert(es.take(es.len() as int) =~= es);
        } else {
            assert(es.len() == 0) by {
                if es.len() > 0 {
                    vstd::arithmetic::div_mod::lemma_div_is_ordered(
                        size as int,
                        es.len() + size - 1,
                        size as int,
                    );
                    vstd::arithmetic::div_mod::lemma_div_by_self(size as int);
                }
            }
            assert(joined_leaves(ps, leaves, 0) =~= es);
        }
    }
}

proof fn lemma_pointer_count(es: Seq<DirEntry>, size: nat)
    requires
        size >= 1,
    ensures
        leaf_pointers(es, size).len() <= es.len(),
{
    let ps = leaf_pointers(es, size);
    if ps.len() > 0 {
        lemma_chunks(es, size, ps.len() - 1);
        assert((ps.len() - 1) * size >= ps.len() - 1) by (nonlinear_arith)
            requires
                size >= 1,
                ps.len() >= 1,
        ;
    }
}

/// The pointer to leaf `k` leads to the chunk it was made for.
proof fn lemma_leaf_read(es: Seq<DirEntry>, size: nat, k: int)
    requires
        sorted_entries(es),
        entries_fit(es),
        es.len() <= u64::MAX,
        size >= 1,
        leaves_fit(es, size),
        0 <= k < chunk_count(es, size),
        directory_bytes(chunk(es, size, k)).len() <= u32::MAX,
    ensures
        ({
            let p = leaf_pointer(es, size, k);
            let leaves = leaf_bytes(es, size, chunk_count(es, size));
            &&& p.offset == leaf_bytes(es, size, k as nat).len()
            &&& p.length == directory_bytes(chunk(es, size, k)).len()
            &&& leaf_at(leaves, p.offset, p.length) == Some(chunk(es, size, k))
        }),
{
    let leaf = chunk(es, size, k);
    let part = directory_bytes(leaf);
    lemma_chunks(es, size, k);
    lemma_leaf_place(es, size, k, chunk_count(es, size));
    lemma_chunk_sorted(es, size, k);
    lemma_leaf_len(es, size, k as nat, chunk_count(es, size));
    directory_roundtrip(leaf, Seq::empty());
    assert(part + Seq::empty() =~= part);
}

proof fn lemma_joined_leaves(es: Seq<DirEntry>, size: nat, n: nat)
    requires
        sorted_entries(es),
        entries_fit(es),
        es.len() <= u64::MAX,
        size >= 1,
        leaves_fit(es, size),
        forall|k: int|
            0 <= k < chunk_count(es, size) ==> (#[trigger] directory_bytes(
                chunk(es, size, k),
            )).len() <= u32::MAX,
        n <= chunk_count(es, size),
    ensures
        joined_leaves(
            leaf_pointers(es, size),
            leaf_bytes(es, size, chunk_count(es, size)),
            n,
        ) == es.take(
            if n * size <= es.len() {
                (n * size) as int
            } else {
                es.len() as int
            },
        ),
    decreases n,
{
    let ps = leaf_pointers(es, size);
    let leaves = leaf_bytes(es, size, chunk_count(es, size));
    if n == 0 {
        assert(0 * size == 0);
        assert(joined_leaves(ps, leaves, 0) =~= es.take(0));
    } else {
        lemma_joined_leaves(es, size, (n - 1) as nat);
        lemma_chunks(es, size, n - 1);
        assert(directory_bytes(chunk(es, size, n - 1)).len() <= u32::MAX);
        lemma_leaf_read(es, size, n - 1);
        let at = (n - 1) * size;
        assert(joined_leaves(ps, leaves, n) =~= es.take(at) + chunk(es, size, n - 1));
        assert(es.take(at) + chunk(es, size, n - 1) =~= es.take(
            if n * size <= es.len() {
                (n * size) as int
            } else {
                es.len() as int
            },
        ));
    }
}

/// A search through the directories that were built finds what the entries say: the
/// place of a tile that some entry's run covers, and no other.
pub proof fn directories_search(es: Seq<DirEntry>, root_max: nat, id: u64)
    requires
        sorted_entries(es),
        entries_fit(es),
        es.len() <= u64::MAX,
        forall|i: int| 0 <= i < es.len() ==> (#[trigger] es[i]).run_length >= 1,
        leaves_addressable(es, root_max),
    ensures
        ({
            let (root, leaves) = directories(es, root_max);
            directory_at(root) matches Some(top) && search(top, leaves, id, 1) == Some(
                resolved(es, id),
            )
        }),
        !(resolved(es, id) is Leaf),
{
    lemma_count_up_to(es, id, es.len());
    let (root, leaves) = directories(es, root_max);
    let own = directory_bytes(es);
    if own.len() <= root_max {
        directory_roundtrip(es, Seq::empty());
        assert(own + Seq::empty() =~= own);
    } else {
        let first = first_leaf_size(es.len());
        let size = settled_size(es, root_max, first);
        lemma_settled(es, root_max, first);
        let ps = leaf_pointers(es, size);
        lemma_pointers_sorted(es, size);
        lemma_pointers_fit(es, size);
        lemma_pointer_count(es, size);
        directory_roundtrip(ps, Seq::empty());
        assert(directory_bytes(ps) + Seq::empty() =~= directory_bytes(ps));
        if count_up_to(ps, id, ps.len()) == 0 {
            lemma_search_before(es, size, id);
        } else {
            lemma_search_leaf(es, size, id);
        }
    }
}

proof fn lemma_search_before(es: Seq<DirEntry>, size: nat, id: u64)
    requires
        sorted_entries(es),
        size >= 1,
        count_up_to(leaf_pointers(es, size), id, leaf_pointers(es, size).len()) == 0,
    ensures
        lookup(es, id) is None,
        resolved(leaf_pointers(es, size), id) == Located::Absent,
{
    let ps = leaf_pointers(es, size);
    lemma_count_up_to(ps, id, ps.len());
    lemma_count_up_to(es, id, es.len());
    if es.len() > 0 {
        assert(ps.len() > 0) by {
            vstd::arithmetic::div_mod::lemma_div_is_ordered(
                size as int,
                es.len() + size - 1,
                size as int,
            );
            vstd::arithmetic::div_mod::lemma_div_by_self(size as int);
        }
        lemma_chunks(es, size, 0);
        assert(0 * size == 0);
        assert(ps[0].tile_id > id);
        let m = count_up_to(es, id, es.len());
        if m > 0 {
            assert(es[0].tile_id <= es[m - 1].tile_id);
        }
    }
}

proof fn lemma_search_leaf(es: Seq<DirEntry>, size: nat, id: u64)
    requires
        sorted_entries(es),
        entries_fit(es),
        es.len() <= u64::MAX,
        size >= 1,
        leaves_fit(es, size),
        forall|i: int| 0 <= i < es.len() ==> (#[trigger] es[i]).run_length >= 1,
        forall|k: int|
            0 <= k < chunk_count(es, size) ==> (#[trigger] directory_bytes(
                chunk(es, size, k),
            )).len() <= u32::MAX,
        count_up_to(leaf_pointers(es, size), id, leaf_pointers(es, size).len()) > 0,
    ensures
        search(leaf_pointers(es, size), leaf_bytes(es, size, chunk_count(es, size)), id, 1) == Some(
            resolved(es, id),
        ),
{
    let ps = leaf_pointers(es, size);
    let leaves = leaf_bytes(es, size, chunk_count(es, size));
    lemma_count_up_to(ps, id, ps.len());
    lemma_count_up_to(es, id, es.len());
    let k = count_up_to(ps, id, ps.len());
    let e = ps[k - 1];
    let leaf = chunk(es, size, k - 1);
    let part = directory_bytes(leaf);
    lemma_chunks(es, size, k - 1);
    if k < ps.len() {
        lemma_chunks(es, size, k as int);
        assert(ps[k as int].tile_id > id);
    }
    lemma_chunk_lookup(es, size, k, id);
    assert(part.len() <= u32::MAX);
    lemma_leaf_read(es, size, k - 1);
    assert(leaf_at(leaves, e.offset, e.length) == Some(leaf));
    assert(resolved(leaf, id) == resolved(es, id));
    assert(resolved(ps, id) == (Located::Leaf { offset: e.offset, length: e.length }));
    assert(search(leaf, leaves, id, 0) == Some(resolved(es, id)));
}

// ---- the header ----

/// The fixed 127-byte header. Offsets/lengths locate the four sections;
/// `bounds`/`center` are in units of 1e-7 degrees.
#[derive(Debug, Clone, Copy, PartialEq, Eq)]
pub struct Header {
    pub root_offset: u64,
    pub root_length: u64,
    pub metadata_offset: u64,
    pub metadata_length: u64,
    pub leaf_offset: u64,
    pub leaf_length: u64,
    pub data_offset: u64,
    pub data_length: u64,
    pub num_addressed: u64,
    pub num_entries: u64,
    pub num_contents: u64,
    pub clustered: bool,
    pub internal_compression: u8,
    pub tile_compression: u8,
    pub tile_type: u8,
    pub min_zoom: u8,
    pub max_zoom: u8,
    /// `[min_lon, min_lat, max_lon, max_lat]` in 1e-7 degrees.
    pub bounds: [i32; 4],
    pub center_zoom: u8,
    /// `[lon, lat]` in 1e-7 degrees.
    pub center: [i32; 2],
}

pub open spec fn header_words(h: Header) -> Seq<u64> {
    seq![
        h.root_offset,
        h.root_length,
        h.metadata_offset,
        h.metadata_length,
        h.leaf_offset,
        h.leaf_length,
        h.data_offset,
        h.data_length,
        h.num_addressed,
        h.num_entries,
        h.num_contents,
    ]
}

pub open spec fn header_flags(h: Header) -> Seq<u8> {
    seq![
        if h.clustered {
            1u8
        } else {
            0u8
        },
        h.internal_compression,
        h.tile_compression,
        h.tile_type,
        h.min_zoom,
        h.max_zoom,
    ]
}

/// The header's bytes: magic, version, eleven 64-bit words, six flag bytes, the bounds,
/// the center zoom and the center.
pub open spec fn header_bytes(h: Header) -> Seq<u8> {
    MAGIC@ + seq![VERSION] + wire_all(header_words(h)) + header_flags(h) + wire_all(h.bounds@) + seq![
        h.center_zoom,
    ] + wire_all(h.center@)
}

/// The 64-bit word at `at`.
pub open spec fn word(s: Seq<u8>, at: int) -> u64 {
    field(s, at, 8) as u64
}

/// The signed 32-bit number at `at`.
pub open spec fn degrees(s: Seq<u8>, at: int) -> i32 {
    i32_of(field(s, at, 4) as int)
}

/// The header at the front of a buffer; none where the buffer is too short or the magic
/// or version don't match.
pub open spec fn header_at(s: Seq<u8>) -> Option<Header> {
    if s.len() < HEADER_LEN || s.take(7) != MAGIC@ || s[7] != VERSION {
        None
    } else {
        Some(
            Header {
                root_offset: word(s, 8),
                root_length: word(s, 16),
                metadata_offset: word(s, 24),
                metadata_length: word(s, 32),
                leaf_offset: word(s, 40),
                leaf_length: word(s, 48),
                data_offset: word(s, 56),
                data_length: word(s, 64),
                num_addressed: word(s, 72),
                num_entries: word(s, 80),
                num_contents: word(s, 88),
                clustered: s[96] != 0,
                internal_compression: s[97],
                tile_compression: s[98],
                tile_type: s[99],
                min_zoom: s[100],
                max_zoom: s[101],
                bounds: [degrees(s, 102), degrees(s, 106), degrees(s, 110), degrees(s, 114)],
                center_zoom: s[118],
                center: [degrees(s, 119), degrees(s, 123)],
            },
        )
    }
}

proof fn lemma_header_parts(h: Header, tail: Seq<u8>)
    ensures
        ({
            let s = header_bytes(h) + tail;
            &&& header_bytes(h).len() == HEADER_LEN
            &&& s.take(7) == MAGIC@
            &&& s[7] == VERSION
            &&& s.subrange(8, 96) == wire_all(header_words(h))
            &&& s.subrange(96, 102) == header_flags(h)
            &&& s.subrange(102, 118) == wire_all(h.bounds@)
            &&& s[118] == h.center_zoom
            &&& s.subrange(119, 127) == wire_all(h.center@)
        }),
{
    lemma_wire_all_len(header_words(h));
    lemma_wire_all_len(h.bounds@);
    lemma_wire_all_len(h.center@);
    let a = MAGIC@ + seq![VERSION];
    let b = a + wire_all(header_words(h));
    let c = b + header_flags(h);
    let d = c + wire_all(h.bounds@);
    let e = d + seq![h.center_zoom];
    let s = header_bytes(h) + tail;
    assert(header_words(h).len() * <u64 as Wire>::wire_len() == 88) by (nonlinear_arith)
        requires
            header_words(h).len() == 11,
            <u64 as Wire>::wire_len() == 8,
    ;
    assert(h.bounds@.len() * <i32 as Wire>::wire_len() == 16) by (nonlinear_arith)
        requires
            h.bounds@.len() == 4,
            <i32 as Wire>::wire_len() == 4,
    ;
    assert(h.center@.len() * <i32 as Wire>::wire_len() == 8) by (nonlinear_arith)
        requires
            h.center@.len() == 2,
            <i32 as Wire>::wire_len() == 4,
    ;
    assert(a.len() == 8 && b.len() == 96 && c.len() == 102 && d.len() == 118 && e.len() == 119);
    assert(s.take(7) =~= MAGIC@);
    assert(s.subrange(8, 96) =~= wire_all(header_words(h)));
    assert(s.subrange(96, 102) =~= header_flags(h));
    assert(s.subrange(102, 118) =~= wire_all(h.bounds@));
    assert(s.subrange(119, 127) =~= wire_all(h.center@));
}

proof fn lemma_word(s: Seq<u8>, words: Seq<u64>, i: int)
    requires
        s.len() >= 96,
        words.len() == 11,
        s.subrange(8, 96) == wire_all(words),
        0 <= i < 11,
    ensures
        word(s, 8 + 8 * i) == words[i],
{
    lemma_wire_all_slot(words, i);
    words[i].wire_roundtrip();
    assert(s.subrange(8 + 8 * i, 16 + 8 * i) =~= s.subrange(8, 96).subrange(8 * i, 8 * i + 8));
}

proof fn lemma_degrees(s: Seq<u8>, at: int, n: int, values: Seq<i32>, i: int)
    requires
        0 <= at,
        at + 4 * n <= s.len(),
        values.len() == n,
        s.subrange(at, at + 4 * n) == wire_all(values),
        0 <= i < n,
    ensures
        degrees(s, at + 4 * i) == values[i],
{
    lemma_wire_all_slot(values, i);
    values[i].wire_roundtrip();
    assert(s.subrange(at + 4 * i, at + 4 * i + 4) =~= s.subrange(at, at + 4 * n).subrange(
        4 * i,
        4 * i + 4,
    ));
}

/// Parsing a header's bytes, whatever follows them, gives the header back.
pub proof fn header_roundtrip(h: Header, tail: Seq<u8>)
    ensures
        header_at(header_bytes(h) + tail) == Some(h),
        header_bytes(h).len() == HEADER_LEN,
{
    let s = header_bytes(h) + tail;
    let words = header_words(h);
    lemma_header_parts(h, tail);
    lemma_word(s, words, 0);
    lemma_word(s, words, 1);
    lemma_word(s, words, 2);
    lemma_word(s, words, 3);
    lemma_word(s, words, 4);
    lemma_word(s, words, 5);
    lemma_word(s, words, 6);
    lemma_word(s, words, 7);
    lemma_word(s, words, 8);
    lemma_word(s, words, 9);
    lemma_word(s, words, 10);
    let flags = header_flags(h);
    assert(s[96] == flags[0] && s[97] == flags[1] && s[98] == flags[2] && s[99] == flags[3] && s[100]
        == flags[4] && s[101] == flags[5]) by {
        let part = s.subrange(96, 102);
        assert(part[0] == s[96] && part[1] == s[97] && part[2] == s[98] && part[3] == s[99]
            && part[4] == s[100] && part[5] == s[101]);
    }
    lemma_degrees(s, 102, 4, h.bounds@, 0);
    lemma_degrees(s, 102, 4, h.bounds@, 1);
    lemma_degrees(s, 102, 4, h.bounds@, 2);
    lemma_degrees(s, 102, 4, h.bounds@, 3);
    lemma_degrees(s, 119, 2, h.center@, 0);
    lemma_degrees(s, 119, 2, h.center@, 1);
    let got = header_at(s)->0;
    assert(got.bounds =~= h.bounds);
    assert(got.center =~= h.center);
}

impl Header {
    /// Serialize to the fixed-width 127-byte header.
    pub fn to_bytes(&self) -> (r: [u8; HEADER_LEN])
        ensures
            r@ == header_bytes(*self),
    {
        let mut buf: Vec<u8> = Vec::new();
        let mut i: usize = 0;
        while i < 7
            invariant
                i <= 7,
                buf@ == MAGIC@.take(i as int),
            decreases 7 - i,
        {
            buf.push(MAGIC[i]);
            i = i + 1;
            assert(buf@ =~= MAGIC@.take(i as int));
        }
        assert(MAGIC@.take(7) =~= MAGIC@);
        buf.push(VERSION);
        let words: Vec<u64> = vec![
            self.root_offset,
            self.root_length,
            self.metadata_offset,
            self.metadata_length,
            self.leaf_offset,
            self.leaf_length,
            self.data_offset,
            self.data_length,
            self.num_addressed,
            self.num_entries,
            self.num_contents,
        ];
        assert(words@ =~= header_words(*self));
        put_all(&mut buf, &words);
        let ghost before = buf@;
        buf.push(if self.clustered {
            1
        } else {
            0
        });
        buf.push(self.internal_compression);
        buf.push(self.tile_compression);
        buf.push(self.tile_type);
        buf.push(self.min_zoom);
        buf.push(self.max_zoom);
        assert(buf@ =~= before + header_flags(*self));
        let bounds: Vec<i32> = vec![
            self.bounds[0],
            self.bounds[1],
            self.bounds[2],
            self.bounds[3],
        ];
        assert(bounds@ =~= self.bounds@);
        put_all(&mut buf, &bounds);
        buf.push(self.center_zoom);
        let center: Vec<i32> = vec![self.center[0], self.center[1]];
        assert(center@ =~= self.center@);
        put_all(&mut buf, &center);
        assert(buf@ =~= header_bytes(*self));
        proof {
            lemma_header_parts(*self, Seq::empty());
        }
        let mut r: [u8; HEADER_LEN] = [0u8; HEADER_LEN];
        let mut i: usize = 0;
        while i < HEADER_LEN
            invariant
                i <= HEADER_LEN,
                buf@.len() == HEADER_LEN,
                forall|k: int| 0 <= k < i ==> #[trigger] r@[k] == buf@[k],
            decreases HEADER_LEN - i,
        {
            r[i] = buf[i];
            i = i + 1;
        }
        assert(r@ =~= buf@);
        r
    }

    /// Parse a 127-byte header. Returns `None` if too short or the magic/version
    /// don't match.
    pub fn parse(buf: &[u8]) -> (r: Option<Header>)
        ensures
            r == header_at(buf@),
    {
        if buf.len() < HEADER_LEN {
            return None;
        }
        let mut i: usize = 0;
        while i < 7
            invariant
                i <= 7,
                buf@.len() >= HEADER_LEN,
                forall|k: int| 0 <= k < i ==> #[trigger] buf@[k] == MAGIC@[k],
            decreases 7 - i,
        {
            if buf[i] != MAGIC[i] {
                assert(buf@.take(7)[i as int] != MAGIC@[i as int]);
                return None;
            }
            i = i + 1;
        }
        assert(buf@.take(7) =~= MAGIC@);
        if buf[7] != VERSION {
            return None;
        }
        let h = Header {
            root_offset: get_field(buf, 8, 8),
            root_length: get_field(buf, 16, 8),
            metadata_offset: get_field(buf, 24, 8),
            metadata_length: get_field(buf, 32, 8),
            leaf_offset: get_field(buf, 40, 8),
            leaf_length: get_field(buf, 48, 8),
            data_offset: get_field(buf, 56, 8),
            data_length: get_field(buf, 64, 8),
            num_addressed: get_field(buf, 72, 8),
            num_entries: get_field(buf, 80, 8),
            num_contents: get_field(buf, 88, 8),
            clustered: buf[96] != 0,
            internal_compression: buf[97],
            tile_compression: buf[98],
            tile_type: buf[99],
            min_zoom: buf[100],
            max_zoom: buf[101],
            bounds: [
                get_degrees(buf, 102),
                get_degrees(buf, 106),
                get_degrees(buf, 110),
                get_degrees(buf, 114),
            ],
            center_zoom: buf[118],
            center: [get_degrees(buf, 119), get_degrees(buf, 123)],
        };
        proof {
            let want = header_at(buf@)->0;
            assert(h.bounds =~= want.bounds);
            assert(h.center =~= want.center);
        }
        Some(h)
    }
}

fn get_degrees(buf: &[u8], at: usize) -> (r: i32)
    requires
        at + 4 <= buf@.len(),
    ensures
        r == degrees(buf@, at as int),
{
    proof {
        crate::bytes::lemma_pow256_values();
        crate::bytes::lemma_le_value_bound(buf@.subrange(at as int, at + 4));
    }
    crate::bytes::i32_from_bits(get_field(buf, at, 4) as u32)
}

} // verus!
