//! What a clipped shape keeps of the shape, and what its marks say.

use vstd::prelude::*;

use crate::grid::{
    all_flags, box_area, box_bounds, canonical, coordinate, max_of, min_of, piece_of, ring_flags,
    rotated, runs_from, smallest, stored_holes, stored_ring, Run, Visible,
};
use crate::record::Point;

verus! {

// ---- clip flags ----

/// The vertices of all rings, one ring behind the other.
pub open spec fn laid_out(rings: Seq<Seq<Point>>) -> Seq<Point>
    decreases rings.len(),
{
    if rings.len() == 0 {
        Seq::empty()
    } else {
        laid_out(rings.drop_last()) + rings.last()
    }
}

proof fn lemma_flags(rings: Seq<Seq<Point>>, extent: i16)
    ensures
        all_flags(rings, extent).len() == laid_out(rings).len(),
        forall|k: int|
            0 <= k < laid_out(rings).len() ==> all_flags(rings, extent)[k] == {
                let p = #[trigger] laid_out(rings)[k];
                p.0 == 0 || p.1 == 0 || p.0 == extent || p.1 == extent
            },
    decreases rings.len(),
{
    if rings.len() > 0 {
        lemma_flags(rings.drop_last(), extent);
    }
}

/// A piece has one flag per vertex, and a vertex's flag is set exactly if it lies on one of
/// the four edges of the tile: left, top, right or bottom.
pub proof fn flags_mark_tile_edges(
    outer: Seq<Point>,
    holes: Seq<Seq<Point>>,
    extent: i16,
    least: nat,
)
    ensures
        piece_of(outer, holes, extent, least) matches Some(piece) ==> {
            let vertices = laid_out(piece.0);
            &&& piece.1.len() == vertices.len()
            &&& forall|k: int|
                0 <= k < vertices.len() ==> (piece.1[k] <==> (#[trigger] vertices[k]).0 == 0
                    || vertices[k].1 == 0 || vertices[k].0 == extent || vertices[k].1 == extent)
        },
{
    if let Some(piece) = piece_of(outer, holes, extent, least) {
        lemma_flags(piece.0, extent);
    }
}

/// The ring with x and y of every vertex exchanged.
pub open spec fn transposed(c: Seq<Point>) -> Seq<Point> {
    Seq::new(c.len(), |i: int| (c[i].1, c[i].0))
}

/// The ring seen in a mirror that stands upright in the middle of the tile.
pub open spec fn mirrored(c: Seq<Point>, extent: i16) -> Seq<Point> {
    Seq::new(c.len(), |i: int| ((extent - c[i].0) as i16, c[i].1))
}

/// The four edges count alike: neither exchanging x and y nor mirroring the tile changes
/// which vertices of a ring are flagged.
pub proof fn tile_edges_count_alike(c: Seq<Point>, extent: i16)
    requires
        forall|i: int| 0 <= i < c.len() ==> 0 <= (#[trigger] c[i]).0 <= extent,
    ensures
        ring_flags(transposed(c), extent) == ring_flags(c, extent),
        ring_flags(mirrored(c, extent), extent) == ring_flags(c, extent),
{
    assert(ring_flags(transposed(c), extent) =~= ring_flags(c, extent));
    assert(ring_flags(mirrored(c, extent), extent) =~= ring_flags(c, extent)) by {
        assert forall|i: int| 0 <= i < c.len() implies ring_flags(mirrored(c, extent), extent)[i]
            == ring_flags(c, extent)[i] by {
            assert(0 <= c[i].0 <= extent);
        }
    }
}

// ---- the rings of a piece ----

/// How many vertices a ring has, a closing one left aside.
pub open spec fn corners(c: Seq<Point>) -> int {
    if c.len() >= 2 && c[0] == c[c.len() - 1] {
        c.len() - 1
    } else {
        c.len() as int
    }
}

/// `ring` runs through the corners of `c` in their order, from corner `from` on and round.
pub open spec fn runs_round(ring: Seq<Point>, c: Seq<Point>, from: int) -> bool {
    &&& ring.len() == corners(c)
    &&& 0 <= from < ring.len()
    &&& forall|i: int|
        0 <= i < ring.len() ==> #[trigger] ring[i] == if i + from < ring.len() {
            c[i + from]
        } else {
            c[i + from - ring.len()]
        }
}

/// No corner stands left of the first, nor above it in its column.
pub open spec fn starts_leftmost(ring: Seq<Point>) -> bool {
    forall|i: int|
        0 <= i < ring.len() ==> ring[0].0 < (#[trigger] ring[i]).0 || (ring[0].0 == ring[i].0
            && ring[0].1 <= ring[i].1)
}

/// `ring` is the ring `c` as a tile stores it.
pub open spec fn is_stored(ring: Seq<Point>, c: Seq<Point>) -> bool {
    (exists|from: int| #[trigger] runs_round(ring, c, from)) && starts_leftmost(ring)
}

proof fn lemma_smallest_first(c: Seq<Point>, n: nat)
    requires
        1 <= n <= c.len(),
    ensures
        0 <= smallest(c, n) < n,
        forall|i: int|
            0 <= i < n ==> c[smallest(c, n)].0 < (#[trigger] c[i]).0 || (c[smallest(c, n)].0
                == c[i].0 && c[smallest(c, n)].1 <= c[i].1),
    decreases n,
{
    if n > 1 {
        lemma_smallest_first(c, (n - 1) as nat);
    }
}

proof fn lemma_stored(c: Seq<Point>)
    requires
        corners(c) >= 1,
    ensures
        is_stored(stored_ring(c), c),
        stored_ring(c).len() == corners(c),
{
    let open = if c.len() >= 2 && c[0] == c[c.len() - 1] {
        c.drop_last()
    } else {
        c
    };
    let ring = stored_ring(c);
    assert(ring == canonical(open));
    if open.len() >= 2 {
        let k = smallest(open, open.len());
        lemma_smallest_first(open, open.len());
        assert(ring == rotated(open, k));
        assert(runs_round(ring, c, k));
        assert forall|i: int| 0 <= i < ring.len() implies ring[0].0 < (#[trigger] ring[i]).0 || (
        ring[0].0 == ring[i].0 && ring[0].1 <= ring[i].1) by {
            let j = if i + k < ring.len() {
                i + k
            } else {
                i + k - ring.len()
            };
            assert(ring[i] == open[j]);
            assert(ring[0] == open[k]);
        }
    } else {
        assert(runs_round(ring, c, 0));
    }
}

/// Some ring from `from` on is `c` as stored.
pub open spec fn some_stored(rings: Seq<Seq<Point>>, from: int, c: Seq<Point>) -> bool {
    exists|j: int| from <= j < rings.len() && is_stored(#[trigger] rings[j], c)
}

/// The ring is a hole of three corners or more as stored.
pub open spec fn stored_from(ring: Seq<Point>, holes: Seq<Seq<Point>>) -> bool {
    exists|h: int|
        0 <= h < holes.len() && corners(#[trigger] holes[h]) >= 3 && is_stored(ring, holes[h])
}

proof fn lemma_stored_holes(holes: Seq<Seq<Point>>)
    ensures
        forall|h: int|
            0 <= h < holes.len() && corners(#[trigger] holes[h]) >= 3 ==> some_stored(
                stored_holes(holes),
                0,
                holes[h],
            ),
        forall|j: int|
            0 <= j < stored_holes(holes).len() ==> stored_from(
                #[trigger] stored_holes(holes)[j],
                holes,
            ),
        stored_holes(holes).len() == count_large(holes),
    decreases holes.len(),
{
    if holes.len() > 0 {
        let front = holes.drop_last();
        let all = stored_holes(holes);
        let sub = stored_holes(front);
        lemma_stored_holes(front);
        let last = holes.last();
        if corners(last) >= 1 {
            lemma_stored(last);
        } else {
            assert(stored_ring(last).len() == 0);
        }
        assert forall|h: int| 0 <= h < holes.len() && corners(#[trigger] holes[h]) >= 3 implies some_stored(
            all,
            0,
            holes[h],
        ) by {
            if h < front.len() {
                assert(front[h] == holes[h]);
                assert(some_stored(sub, 0, front[h]));
                let j = choose|j: int| 0 <= j < sub.len() && is_stored(#[trigger] sub[j], front[h]);
                assert(is_stored(all[j], holes[h]));
            } else {
                assert(is_stored(all[sub.len() as int], holes[h]));
            }
        }
        assert forall|j: int| 0 <= j < all.len() implies stored_from(#[trigger] all[j], holes) by {
            if j < sub.len() {
                assert(all[j] == sub[j]);
                assert(stored_from(sub[j], front));
                let h = choose|h: int|
                    0 <= h < front.len() && corners(#[trigger] front[h]) >= 3 && is_stored(
                        sub[j],
                        front[h],
                    );
                assert(corners(holes[h]) >= 3 && is_stored(all[j], holes[h]));
            } else {
                assert(corners(holes[holes.len() - 1]) >= 3);
            }
        }
    }
}

/// How many rings have three corners or more.
pub open spec fn count_large(holes: Seq<Seq<Point>>) -> nat
    decreases holes.len(),
{
    if holes.len() == 0 {
        0
    } else {
        count_large(holes.drop_last()) + if corners(holes.last()) >= 3 {
            1nat
        } else {
            0
        }
    }
}

/// The first ring of a piece is its outline and the others are its holes: each runs through
/// the corners of the ring it was made of, in their order and without a closing one, from
/// the leftmost on. No hole of three corners is lost.
pub proof fn piece_keeps_rings(
    outer: Seq<Point>,
    holes: Seq<Seq<Point>>,
    extent: i16,
    least: nat,
)
    ensures
        piece_of(outer, holes, extent, least) matches Some(piece) ==> {
            let rings = piece.0;
            &&& rings.len() == 1 + count_large(holes)
            &&& is_stored(rings[0], outer)
            &&& forall|h: int|
                0 <= h < holes.len() && corners(#[trigger] holes[h]) >= 3 ==> some_stored(
                    rings,
                    1,
                    holes[h],
                )
            &&& forall|j: int| 1 <= j < rings.len() ==> stored_from(#[trigger] rings[j], holes)
        },
{
    if let Some(piece) = piece_of(outer, holes, extent, least) {
        let rings = piece.0;
        let sub = stored_holes(holes);
        assert(corners(outer) >= 1) by {
            if corners(outer) < 1 {
                assert(stored_ring(outer).len() == 0);
            }
        }
        lemma_stored(outer);
        lemma_stored_holes(holes);
        assert(rings[0] == stored_ring(outer));
        assert forall|h: int| 0 <= h < holes.len() && corners(#[trigger] holes[h]) >= 3 implies some_stored(
            rings,
            1,
            holes[h],
        ) by {
            assert(some_stored(sub, 0, holes[h]));
            let j = choose|j: int| 0 <= j < sub.len() && is_stored(#[trigger] sub[j], holes[h]);
            assert(is_stored(rings[j + 1], holes[h]));
        }
        assert forall|j: int| 1 <= j < rings.len() implies stored_from(#[trigger] rings[j], holes) by {
            assert(rings[j] == sub[j - 1]);
        }
    }
}

// ---- which pieces are kept ----

proof fn lemma_extremes(c: Seq<Point>, axis: int, n: nat)
    requires
        1 <= n <= c.len(),
    ensures
        exists|i: int| 0 <= i < n && coordinate(#[trigger] c[i], axis) == min_of(c, axis, n),
        exists|i: int| 0 <= i < n && coordinate(#[trigger] c[i], axis) == max_of(c, axis, n),
    decreases n,
{
    if n == 1 {
        assert(coordinate(c[0], axis) == min_of(c, axis, n));
    } else {
        lemma_extremes(c, axis, (n - 1) as nat);
        assert(c[n - 1] == c[n - 1]);
    }
}

/// Corners `l` and `r` are so far apart across, and `t` and `b` down, that the box they span
/// has the area, in 65536ths.
pub open spec fn spans_by(c: Seq<Point>, least: nat, l: int, r: int, t: int, b: int) -> bool {
    &&& 0 <= l < c.len() && 0 <= r < c.len() && 0 <= t < c.len() && 0 <= b < c.len()
    &&& c[l].0 <= c[r].0 && c[t].1 <= c[b].1
    &&& (c[r].0 - c[l].0) * (c[b].1 - c[t].1) * 65536 >= least
}

pub open spec fn spans(c: Seq<Point>, least: nat) -> bool {
    exists|l: int, r: int, t: int, b: int| #[trigger] spans_by(c, least, l, r, t, b)
}

proof fn lemma_box(c: Seq<Point>, least: nat)
    requires
        c.len() >= 1,
    ensures
        box_area(c) * 65536 >= least <==> spans(c, least),
{
    let n = c.len();
    lemma_extremes(c, 0, n);
    lemma_extremes(c, 1, n);
    let l = choose|i: int| 0 <= i < n && coordinate(#[trigger] c[i], 0) == min_of(c, 0, n);
    let r = choose|i: int| 0 <= i < n && coordinate(#[trigger] c[i], 0) == max_of(c, 0, n);
    let t = choose|i: int| 0 <= i < n && coordinate(#[trigger] c[i], 1) == min_of(c, 1, n);
    let b = choose|i: int| 0 <= i < n && coordinate(#[trigger] c[i], 1) == max_of(c, 1, n);
    box_bounds(c, n, l, 0);
    box_bounds(c, n, t, 1);
    let w = c[r].0 - c[l].0;
    let h = c[b].1 - c[t].1;
    assert(w * h >= 0) by (nonlinear_arith)
        requires
            w >= 0,
            h >= 0,
    ;
    assert(box_area(c) == w * h);
    if box_area(c) * 65536 >= least {
        assert(spans_by(c, least, l, r, t, b));
    }
    if spans(c, least) {
        let (l2, r2, t2, b2) = choose|l: int, r: int, t: int, b: int|
            #[trigger] spans_by(c, least, l, r, t, b);
        box_bounds(c, n, l2, 0);
        box_bounds(c, n, r2, 0);
        box_bounds(c, n, t2, 1);
        box_bounds(c, n, b2, 1);
        let w2 = c[r2].0 - c[l2].0;
        let h2 = c[b2].1 - c[t2].1;
        assert(w2 * h2 <= w * h) by (nonlinear_arith)
            requires
                0 <= w2 <= w,
                0 <= h2 <= h,
        ;
    }
}

/// A polygon becomes a piece exactly if its outline has three corners or more and its
/// corners span a box of the least area.
pub proof fn piece_kept_by_size(
    outer: Seq<Point>,
    holes: Seq<Seq<Point>>,
    extent: i16,
    least: nat,
)
    ensures
        piece_of(outer, holes, extent, least) is Some <==> corners(outer) >= 3 && spans(
            outer,
            least,
        ),
{
    if corners(outer) >= 1 {
        lemma_stored(outer);
        let e = stored_ring(outer);
        lemma_box(e, least);
        let from = choose|from: int| #[trigger] runs_round(e, outer, from);
        if spans(e, least) {
            let (l, r, t, b) = choose|l: int, r: int, t: int, b: int|
                #[trigger] spans_by(e, least, l, r, t, b);
            let n = e.len();
            assert(spans_by(
                outer,
                least,
                unrolled(n, from, l),
                unrolled(n, from, r),
                unrolled(n, from, t),
                unrolled(n, from, b),
            ));
        }
        if spans(outer, least) {
            let (l, r, t, b) = choose|l: int, r: int, t: int, b: int|
                #[trigger] spans_by(outer, least, l, r, t, b);
            let n = e.len();
            lemma_rolled(e, outer, from, l);
            lemma_rolled(e, outer, from, r);
            lemma_rolled(e, outer, from, t);
            lemma_rolled(e, outer, from, b);
            assert(spans_by(
                e,
                least,
                rolled(n, from, l),
                rolled(n, from, r),
                rolled(n, from, t),
                rolled(n, from, b),
            ));
        }
    } else {
        assert(stored_ring(outer).len() == 0);
    }
}

proof fn lemma_rolled(ring: Seq<Point>, c: Seq<Point>, from: int, i: int)
    requires
        runs_round(ring, c, from),
        0 <= i < c.len(),
    ensures
        0 <= rolled(ring.len(), from, i) < ring.len(),
        ring[rolled(ring.len(), from, i)] == c[i],
{
    let k = rolled(ring.len(), from, i);
    assert(ring[k] == ring[k]);
}

spec fn unrolled(n: nat, from: int, i: int) -> int {
    if i + from < n {
        i + from
    } else {
        i + from - n
    }
}

/// Where the ring from `from` on has corner `i`; a closing one is the first.
spec fn rolled(n: nat, from: int, i: int) -> int {
    let j = if i == n {
        0
    } else {
        i
    };
    if j >= from {
        j - from
    } else {
        j - from + n
    }
}

// ---- cut ends of lines ----

/// A run starts cut exactly if its first segment is entered behind its start, and ends cut
/// exactly if its last segment is left before its end or is not the line's last. A run goes
/// on as long as the line stays inside.
pub open spec fn runs_marked(segs: Seq<Visible>, runs: Seq<Run>) -> bool {
    forall|j: int|
        #![trigger runs[j]]
        0 <= j < runs.len() ==> {
            let r = runs[j];
            &&& r.first <= r.last < segs.len()
            &&& segs[r.first as int] matches Visible::Inside { cut_in, .. } && r.start_cut == cut_in
            &&& segs[r.last as int] matches Visible::Inside { cut_out, .. } && r.end_cut == (cut_out
                || r.last + 1 < segs.len())
            &&& forall|k: int|
                r.first <= k < r.last ==> (#[trigger] segs[k] matches Visible::Inside {
                    cut_out,
                    ..
                } && !cut_out)
            &&& r.first > 0 ==> match segs[r.first - 1] {
                Visible::Outside => true,
                Visible::Inside { cut_out, .. } => cut_out,
            }
        }
}

spec fn open_ok(segs: Seq<Visible>, i: nat, open: Option<(usize, bool)>) -> bool {
    match open {
        Some(o) => {
            &&& o.0 < i
            &&& segs[o.0 as int] matches Visible::Inside { cut_in, .. } && o.1 == cut_in
            &&& forall|k: int|
                o.0 <= k < i ==> (#[trigger] segs[k] matches Visible::Inside { cut_out, .. }
                    && !cut_out)
            &&& o.0 > 0 ==> match segs[o.0 - 1] {
                Visible::Outside => true,
                Visible::Inside { cut_out, .. } => cut_out,
            }
        },
        None => i > 0 ==> match segs[i - 1] {
            Visible::Outside => true,
            Visible::Inside { cut_out, .. } => cut_out,
        },
    }
}

proof fn lemma_runs_marked(segs: Seq<Visible>, i: nat, open: Option<(usize, bool)>)
    requires
        i <= segs.len() <= usize::MAX,
        open_ok(segs, i, open),
    ensures
        runs_marked(segs, runs_from(segs, i, open)),
    decreases segs.len() - i,
{
    let runs = runs_from(segs, i, open);
    if i < segs.len() {
        let seg = segs[i as int];
        let started: Option<(usize, bool)> = match (seg, open) {
            (Visible::Outside, o) => o,
            (Visible::Inside { .. }, Some(o)) => Some(o),
            (Visible::Inside { cut_in, .. }, None) => Some((i as usize, cut_in)),
        };
        let next: Option<(usize, bool)> = match seg {
            Visible::Inside { cut_out: false, .. } => started,
            _ => None,
        };
        assert(open_ok(segs, i + 1, next));
        lemma_runs_marked(segs, i + 1, next);
        let rest = runs_from(segs, i + 1, next);
        assert forall|j: int| #![trigger runs[j]] 0 <= j < runs.len() implies {
            let r = runs[j];
            &&& r.first <= r.last < segs.len()
            &&& segs[r.first as int] matches Visible::Inside { cut_in, .. } && r.start_cut == cut_in
            &&& segs[r.last as int] matches Visible::Inside { cut_out, .. } && r.end_cut == (cut_out
                || r.last + 1 < segs.len())
            &&& forall|k: int|
                r.first <= k < r.last ==> (#[trigger] segs[k] matches Visible::Inside {
                    cut_out,
                    ..
                } && !cut_out)
            &&& r.first > 0 ==> match segs[r.first - 1] {
                Visible::Outside => true,
                Visible::Inside { cut_out, .. } => cut_out,
            }
        } by {
            if runs.len() == rest.len() + 1 {
                if j > 0 {
                    assert(runs[j] == rest[j - 1]);
                }
            } else {
                assert(runs[j] == rest[j]);
            }
        }
    }
}

/// The ends of a line's visible runs are marked as cut where the clip made them, and only
/// there.
pub proof fn runs_cut_where_clipped(segs: Seq<Visible>)
    requires
        segs.len() <= usize::MAX,
    ensures
        runs_marked(segs, runs_from(segs, 0, None)),
{
    lemma_runs_marked(segs, 0, None);
}

} // verus!
