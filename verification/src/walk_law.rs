//! Where strokes of lines end, which way they run, and in what steps files are read.

use vstd::prelude::*;

use crate::blob::{be_value, next_of, BlobAction, BlobEvent, BlobState, OsmBlobReaderError};
use crate::grid::{block_ok, halves_of, is_single, TileBlock};
use crate::record::RecordView;
use crate::spill::{of_tile, tiles_seen, touched};
use crate::strokes::{best_turn, grown, stroke_from, tail_port, turned, Step, Turn};
use crate::weld_model::{lemma_unused_count_update, unused_count};

verus! {

// ---- turns ----

/// Turn `k` is free and beats all others that are: those before it are no straighter, and
/// those behind it less straight.
pub open spec fn beats(cands: Seq<Turn>, used: Seq<bool>, k: int) -> bool {
    &&& 0 <= k < cands.len()
    &&& !used[cands[k].line as int]
    &&& forall|j: int|
        0 <= j < k && !used[(#[trigger] cands[j]).line as int] ==> cands[j].score <= cands[k].score
    &&& forall|j: int|
        k < j < cands.len() && !used[(#[trigger] cands[j]).line as int] ==> cands[j].score
            < cands[k].score
}

proof fn lemma_best(cands: Seq<Turn>, used: Seq<bool>, n: nat)
    requires
        n <= cands.len(),
    ensures
        match best_turn(cands, used, n) {
            Some(t) => exists|k: int| #[trigger] beats(cands.take(n as int), used, k) && cands[k]
                == t,
            None => forall|k: int| 0 <= k < n ==> used[(#[trigger] cands[k]).line as int],
        },
    decreases n,
{
    if n > 0 {
        let m = (n - 1) as nat;
        lemma_best(cands, used, m);
        let (a, b) = (cands.take(m as int), cands.take(n as int));
        let c = cands[n - 1];
        assert(b[n - 1] == c);
        match best_turn(cands, used, m) {
            Some(t) => {
                let k = choose|k: int| #[trigger] beats(a, used, k) && cands[k] == t;
                if !used[c.line as int] && c.score >= t.score {
                    assert forall|j: int|
                        0 <= j < n - 1 && !used[(#[trigger] b[j]).line as int] implies b[j].score
                        <= c.score by {
                        assert(a[j] == b[j]);
                    }
                    assert(beats(b, used, n - 1));
                } else {
                    assert forall|j: int|
                        k < j < b.len() && !used[(#[trigger] b[j]).line as int] implies b[j].score
                        < b[k].score by {
                        if j < m {
                            assert(a[j] == b[j]);
                        }
                    }
                    assert forall|j: int|
                        0 <= j < k && !used[(#[trigger] b[j]).line as int] implies b[j].score
                        <= b[k].score by {
                        assert(a[j] == b[j]);
                    }
                    assert(a[k] == b[k]);
                    assert(beats(b, used, k));
                }
            },
            None => {
                if !used[c.line as int] {
                    assert forall|j: int|
                        0 <= j < n - 1 && !used[(#[trigger] b[j]).line as int] implies b[j].score
                        <= c.score by {
                        assert(cands[j] == b[j]);
                    }
                    assert(beats(b, used, n - 1));
                }
            },
        }
    }
}

/// A line goes on by the straightest free turn, the last of equal ones, and ends where no
/// turn is free.
pub proof fn straightest_free_turn(cands: Seq<Turn>, used: Seq<bool>)
    ensures
        match best_turn(cands, used, cands.len()) {
            Some(t) => exists|k: int| #[trigger] beats(cands, used, k) && cands[k] == t,
            None => forall|k: int| 0 <= k < cands.len() ==> used[(#[trigger] cands[k]).line as int],
        },
{
    lemma_best(cands, used, cands.len());
    assert(cands.take(cands.len() as int) =~= cands);
}

/// Every turn at an end leads to a line that is used.
pub open spec fn nowhere_to_go(turns: Seq<Vec<Turn>>, used: Seq<bool>, end: int) -> bool {
    forall|k: int|
        0 <= k < turns[end]@.len() ==> used[(#[trigger] turns[end]@[k]).line as int]
}

proof fn lemma_grown_end(turns: Seq<Vec<Turn>>, stroke: Seq<Step>, used: Seq<bool>)
    requires
        stroke.len() > 0,
        forall|p: int, k: int|
            #![trigger turns[p]@[k]]
            0 <= k < turns[p]@.len() ==> turns[p]@[k].line < used.len(),
    ensures
        ({
            let (out, u) = grown(turns, stroke, used);
            &&& out.len() >= stroke.len()
            &&& u.len() == used.len()
            &&& forall|i: int| 0 <= i < stroke.len() ==> #[trigger] out[i] == stroke[i]
            &&& forall|l: int| 0 <= l < used.len() && used[l] ==> #[trigger] u[l]
            &&& nowhere_to_go(turns, u, tail_port(out.last()))
        }),
    decreases unused_count(used),
{
    let cands = turns[tail_port(stroke.last())]@;
    straightest_free_turn(cands, used);
    if let Some(t) = best_turn(cands, used, cands.len()) {
        let k = choose|k: int| #[trigger] beats(cands, used, k) && cands[k] == t;
        assert(turns[tail_port(stroke.last())]@[k].line < used.len());
        lemma_unused_count_update(used, t.line as int);
        let more = stroke.push(Step { line: t.line, forward: t.at_start });
        let now = used.update(t.line as int, true);
        lemma_grown_end(turns, more, now);
        let (out, u) = grown(turns, stroke, used);
        assert forall|i: int| 0 <= i < stroke.len() implies #[trigger] out[i] == stroke[i] by {
            assert(more[i] == stroke[i]);
            assert(out[i] == more[i]);
        }
        assert forall|l: int| 0 <= l < used.len() && used[l] implies #[trigger] u[l] by {
            assert(now[l]);
        }
    }
}

/// A stroke goes as far as it can both ways: at neither of its ends is a turn to a free
/// line left. Its first line runs forward in it.
pub proof fn strokes_go_all_the_way(turns: Seq<Vec<Turn>>, seed: usize, used: Seq<bool>)
    requires
        seed < used.len(),
        forall|p: int, k: int|
            #![trigger turns[p]@[k]]
            0 <= k < turns[p]@.len() ==> turns[p]@[k].line < used.len(),
    ensures
        ({
            let (s, u) = stroke_from(turns, seed, used);
            let (head, tail) = (s[0], s[s.len() - 1]);
            &&& s.len() > 0
            &&& s.contains(Step { line: seed, forward: true })
            &&& nowhere_to_go(
                turns,
                u,
                2 * tail.line + if tail.forward {
                    1int
                } else {
                    0
                },
            )
            &&& nowhere_to_go(
                turns,
                u,
                2 * head.line + if head.forward {
                    0int
                } else {
                    1
                },
            )
        }),
{
    let start = seq![Step { line: seed, forward: true }];
    let used0 = used.update(seed as int, true);
    lemma_grown_end(turns, start, used0);
    let (ahead, u1) = grown(turns, start, used0);
    let back = turned(ahead);
    lemma_grown_end(turns, back, u1);
    let (both, u2) = grown(turns, back, u1);
    let s = turned(both);
    let n = s.len() as int;
    assert(s[n - ahead.len()] == Step { line: seed, forward: true }) by {
        assert(both[ahead.len() - 1] == back[ahead.len() - 1]);
        assert(ahead[0] == start[0]);
    }
    let (head, tail) = (s[0], s[n - 1]);
    assert(tail_port(both.last()) == 2 * head.line + if head.forward {
        0int
    } else {
        1
    });
    assert(both[0] == back[0]);
    assert(tail.line == ahead.last().line && tail.forward == ahead.last().forward);
    let end = tail_port(ahead.last());
    assert(nowhere_to_go(turns, u2, end)) by {
        assert forall|k: int| 0 <= k < turns[end]@.len() implies u2[(#[trigger] turns[end]@[k]).line as int] by {
            assert(u1[turns[end]@[k].line as int]);
        }
    }
}

// ---- splitting blocks of tiles ----

/// A block is halved across its longer side, into halves of the same other side whose long
/// sides differ by one tile at most.
pub proof fn blocks_halve_evenly(b: TileBlock)
    requires
        block_ok(b),
        !is_single(b),
    ensures
        ({
            let (p, q) = halves_of(b);
            if b.x1 - b.x0 >= b.y1 - b.y0 {
                &&& p.y0 == b.y0 && p.y1 == b.y1 && q.y0 == b.y0 && q.y1 == b.y1
                &&& p.x0 == b.x0 && q.x1 == b.x1 && q.x0 == p.x1 + 1
                &&& 0 <= (p.x1 - p.x0) - (q.x1 - q.x0) <= 1
            } else {
                &&& p.x0 == b.x0 && p.x1 == b.x1 && q.x0 == b.x0 && q.x1 == b.x1
                &&& p.y0 == b.y0 && q.y1 == b.y1 && q.y0 == p.y1 + 1
                &&& 0 <= (p.y1 - p.y0) - (q.y1 - q.y0) <= 1
            }
        }),
{
}

// ---- buckets ----

/// The buckets that received data are listed once each, ascending.
pub proof fn touched_buckets_listed(opened: Seq<bool>, n: nat, b: u32)
    requires
        n <= opened.len() <= u32::MAX,
    ensures
        touched(opened, n).contains(b) <==> b < n && opened[b as int],
        forall|i: int, j: int|
            0 <= i < j < touched(opened, n).len() ==> touched(opened, n)[i] < touched(opened, n)[j],
        forall|i: int| 0 <= i < touched(opened, n).len() ==> (#[trigger] touched(opened, n)[i]) < n,
    decreases n,
{
    if n > 0 {
        touched_buckets_listed(opened, (n - 1) as nat, b);
        let front = touched(opened, (n - 1) as nat);
        let out = touched(opened, n);
        if opened[n - 1] {
            if out.contains(b) {
                let k = choose|k: int| 0 <= k < out.len() && out[k] == b;
                if k < front.len() {
                    assert(front[k] == b);
                    assert(front.contains(b));
                }
            }
            if b < n && opened[b as int] {
                if b < n - 1 {
                    let k = choose|k: int| 0 <= k < front.len() && front[k] == b;
                    assert(out[k] == b);
                } else {
                    assert(out[front.len() as int] == b);
                }
            }
        }
    }
}

/// A further record goes behind the others of its own tile and to no other; a tile that was
/// not seen before comes behind the others.
pub proof fn records_join_their_tile(rs: Seq<RecordView>, n: nat, key: u64)
    requires
        n < rs.len(),
    ensures
        rs[n as int].tile_key == key ==> of_tile(rs, key, n + 1) == of_tile(rs, key, n).push(
            rs[n as int],
        ),
        rs[n as int].tile_key != key ==> of_tile(rs, key, n + 1) == of_tile(rs, key, n),
        tiles_seen(rs, n).contains(rs[n as int].tile_key) ==> tiles_seen(rs, n + 1) == tiles_seen(
            rs,
            n,
        ),
        !tiles_seen(rs, n).contains(rs[n as int].tile_key) ==> tiles_seen(rs, n + 1) == tiles_seen(
            rs,
            n,
        ).push(rs[n as int].tile_key),
{
}

// ---- reading blobs ----

/// A file is read as a length of four bytes, most significant first, a header of that
/// length, and the blob that the header announces: data are read and handed on, anything
/// else is skipped; then comes the next length.
pub proof fn blobs_are_read_in_steps(b: [u8; 4], kind: &str, datasize: i32, state: BlobState)
    ensures
        be_value(b) == ((b[0] as int * 256 + b[1]) * 256 + b[2]) * 256 + b[3],
        next_of(state, BlobEvent::Len(b)).0 == BlobState::Header,
        be_value(b) <= usize::MAX ==> next_of(state, BlobEvent::Len(b)).1 == (BlobAction::Read {
            len: be_value(b) as usize,
        }),
        kind@ == "OSMData"@ && datasize >= 0 ==> next_of(
            state,
            BlobEvent::Header { kind, datasize },
        ) == (BlobState::Blob, BlobAction::Read { len: datasize as usize }),
        kind@ != "OSMData"@ ==> next_of(state, BlobEvent::Header { kind, datasize }) == (
            BlobState::Header,
            BlobAction::Skip { by: datasize as i64 },
        ),
        next_of(state, BlobEvent::Blob) == (BlobState::HeaderLen, BlobAction::Yield),
        next_of(state, BlobEvent::Skipped) == (
            BlobState::HeaderLen,
            (BlobAction::Read { len: 4 }),
        ),
        next_of(state, BlobEvent::EndOfFile).1 == BlobAction::End,
        next_of(state, BlobEvent::ReadFailed).1 == BlobAction::Fail(OsmBlobReaderError::Read),
        next_of(state, BlobEvent::DecodeFailed).1 == BlobAction::Fail(OsmBlobReaderError::Decode),
{
}

} // verus!
