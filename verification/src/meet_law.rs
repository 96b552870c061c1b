//! Two ends that meet come out in one stroke.

use vstd::prelude::*;

use crate::endpoint_grid::{grid_hits, grid_hits_complete, grid_hits_distinct, near};
use crate::feature::RoadKind;
use crate::weld_law::{lemma_stroke_from, lemma_unused_only, within};
use crate::weld_model::{
    group_strokes, grown, joined, kind_strokes, lemma_unused_count_update, next_port, none_used,
    port_points, roads_of_kind, seeded, stroke_from, strokes, turned, unused_count, unused_only,
    weldable, welded, Growth, StrokeView, ROAD_KINDS,
};

verus! {

// ---- ports ----

/// The port at the other end of the piece.
spec fn far(p: int) -> int {
    if p % 2 == 0 {
        p + 1
    } else {
        p - 1
    }
}

/// Ports `p` and `q` of two pieces meet, and no third port is at either.
spec fn only_meet(pieces: Seq<StrokeView>, p: int, q: int, tol: int) -> bool {
    let points = port_points(pieces);
    &&& 0 <= p < points.len()
    &&& 0 <= q < points.len()
    &&& p / 2 != q / 2
    &&& near(points[p], points[q], tol)
    &&& forall|r: int|
        0 <= r < points.len() && r != p && r != q ==> !near(#[trigger] points[r], points[p], tol)
            && !near(points[r], points[q], tol)
}

/// The stroke's tail is at port `t`.
spec fn tail_at(pieces: Seq<StrokeView>, used: Seq<bool>, g: Growth, t: int) -> bool {
    &&& 0 <= t < 2 * pieces.len()
    &&& used[t / 2]
    &&& g.coords.len() >= 1
    &&& g.coords.last() == port_points(pieces)[t]
}

/// A port that continues a line is free and at its tail.
proof fn lemma_next_port_free(
    pieces: Seq<StrokeView>,
    used: Seq<bool>,
    coords: Seq<[i32; 2]>,
    tol: int,
)
    requires
        tol >= 1,
        2 * pieces.len() <= usize::MAX,
        used.len() == pieces.len(),
    ensures
        next_port(pieces, used, coords, tol) matches Some(r) ==> {
            &&& r < 2 * pieces.len()
            &&& !used[r as int / 2]
            &&& near(port_points(pieces)[r as int], coords.last(), tol)
        },
{
    let points = port_points(pieces);
    let here = grid_hits(points, coords.last(), tol);
    let cands = unused_only(here, used);
    lemma_unused_only(here, used);
    if cands.len() > 0 {
        lemma_straightest_listed(pieces, crate::weld_model::incoming(coords), cands, cands.len());
    }
    if let Some(r) = next_port(pieces, used, coords, tol) {
        assert(cands.contains(r));
        let i = choose|i: int| 0 <= i < cands.len() && cands[i] == r;
        assert(here.contains(cands[i]));
        grid_hits_complete(points, coords.last(), tol, r);
    }
}

proof fn lemma_straightest_listed(
    pieces: Seq<StrokeView>,
    u: (int, int),
    cands: Seq<usize>,
    k: nat,
)
    requires
        k <= cands.len(),
    ensures
        crate::weld_model::straightest(pieces, u, cands, k) matches Some(r) ==> cands.contains(r),
    decreases k,
{
    if k > 0 {
        lemma_straightest_listed(pieces, u, cands, (k - 1) as nat);
        assert(cands.contains(cands[k - 1]));
    }
}

/// A line whose tail is at one of two ports that meet goes on through the other while it
/// is free.
proof fn lemma_goes_on(
    pieces: Seq<StrokeView>,
    used: Seq<bool>,
    coords: Seq<[i32; 2]>,
    tol: int,
    p: int,
    q: int,
)
    requires
        tol >= 1,
        2 * pieces.len() <= usize::MAX,
        used.len() == pieces.len(),
        only_meet(pieces, p, q, tol),
        used[p / 2],
        !used[q / 2],
        coords.last() == port_points(pieces)[p],
    ensures
        next_port(pieces, used, coords, tol) == Some(q as usize),
{
    let points = port_points(pieces);
    let here = grid_hits(points, coords.last(), tol);
    let cands = unused_only(here, used);
    lemma_unused_only(here, used);
    grid_hits_complete(points, coords.last(), tol, q as usize);
    grid_hits_distinct(points, coords.last(), tol);
    assert(here.contains(q as usize));
    let at = choose|at: int| 0 <= at < here.len() && here[at] == q as usize;
    assert(cands.contains(here[at]));
    assert forall|i: int| 0 <= i < here.len() implies here[i] == p || here[i] == q by {
        assert(here.contains(here[i]));
        grid_hits_complete(points, coords.last(), tol, here[i]);
        assert(near(points[here[i] as int], points[p], tol));
    }
    if here.len() >= 3 {
        assert(here[0] != here[1] && here[1] != here[2] && here[0] != here[2]);
    }
    assert(here.contains(cands[0]));
}

proof fn lemma_joined_tail(pieces: Seq<StrokeView>, g: Growth, r: int)
    requires
        0 <= r < 2 * pieces.len(),
        weldable(pieces[r / 2]),
        g.coords.len() >= 1,
    ensures
        joined(g, pieces[r / 2], r).coords.len() >= 1,
        joined(g, pieces[r / 2], r).coords.last() == port_points(pieces)[far(r)],
{
    let piece = pieces[r / 2];
    let out = joined(g, piece, r).coords;
    assert(far(r) / 2 == r / 2);
    if r % 2 == 0 {
        let skip = if g.coords.last() == piece.coords.first() {
            1int
        } else {
            0
        };
        let b = piece.coords.skip(skip);
        assert(out == g.coords + b);
        if b.len() > 0 {
            assert(out[out.len() - 1] == piece.coords[piece.coords.len() - 1]);
        } else {
            assert(out =~= g.coords);
        }
    } else {
        let take = piece.coords.len() - if g.coords.last() == piece.coords.last() {
            1int
        } else {
            0
        };
        let b = piece.coords.take(take).reverse();
        assert(out == g.coords + b);
        if b.len() > 0 {
            assert(out[out.len() - 1] == piece.coords[0]);
        } else {
            assert(out =~= g.coords);
        }
    }
}

// ---- growing ----

/// Of the two pieces that meet, one alone is in the stroke only while its end is one of
/// the stroke's.
spec fn half_at_end(used: Seq<bool>, p: int, q: int, head: int, tail: int) -> bool {
    &&& used[p / 2] && !used[q / 2] ==> head == p || tail == p
    &&& used[q / 2] && !used[p / 2] ==> head == q || tail == q
}

proof fn lemma_grown_meets(
    pieces: Seq<StrokeView>,
    used: Seq<bool>,
    g: Growth,
    tol: int,
    p: int,
    q: int,
    head: int,
    tail: int,
) -> (end: int)
    requires
        tol >= 1,
        2 * pieces.len() <= usize::MAX,
        used.len() == pieces.len(),
        forall|k: int| 0 <= k < pieces.len() ==> weldable(#[trigger] pieces[k]),
        only_meet(pieces, p, q, tol),
        tail_at(pieces, used, g, tail),
        half_at_end(used, p, q, head, tail),
    ensures
        ({
            let (used2, g2) = grown(pieces, used, g, tol);
            &&& used2.len() == pieces.len()
            &&& tail_at(pieces, used2, g2, end)
            &&& half_at_end(used2, p, q, head, end)
            &&& end == p ==> used2[q / 2]
            &&& end == q ==> used2[p / 2]
            &&& g2.coords.len() >= 1
            &&& g2.coords.first() == g.coords.first()
            &&& forall|j: int| 0 <= j < used.len() && used[j] ==> #[trigger] used2[j]
        }),
    decreases unused_count(used),
{
    lemma_next_port_free(pieces, used, g.coords, tol);
    lemma_symmetric(pieces, p, q, tol);
    if tail == p && !used[q / 2] {
        lemma_goes_on(pieces, used, g.coords, tol, p, q);
    }
    if tail == q && !used[p / 2] {
        lemma_goes_on(pieces, used, g.coords, tol, q, p);
    }
    match next_port(pieces, used, g.coords, tol) {
        None => tail,
        Some(r) => {
            let j = r as int / 2;
            lemma_unused_count_update(used, j);
            let used1 = used.update(j, true);
            let g1 = joined(g, pieces[j], r as int);
            assert(weldable(pieces[j]));
            lemma_joined_tail(pieces, g, r as int);
            let t1 = far(r as int);
            assert(t1 / 2 == j);
            lemma_step_keeps(pieces, used, tol, p, q, head, tail, r as int);
            assert(g1.coords.first() == g.coords.first()) by {
                assert(g1.coords[0] == g.coords[0]);
            }
            let end = lemma_grown_meets(pieces, used1, g1, tol, p, q, head, t1);
            let used2 = grown(pieces, used, g, tol).0;
            assert forall|k: int| 0 <= k < used.len() && used[k] implies #[trigger] used2[k] by {
                assert(used1[k]);
            }
            end
        },
    }
}

proof fn lemma_symmetric(pieces: Seq<StrokeView>, p: int, q: int, tol: int)
    requires
        only_meet(pieces, p, q, tol),
    ensures
        only_meet(pieces, q, p, tol),
{
}

/// Joining the piece of port `r` to a stroke with tail `tail` keeps the halves at its ends.
proof fn lemma_step_keeps(
    pieces: Seq<StrokeView>,
    used: Seq<bool>,
    tol: int,
    p: int,
    q: int,
    head: int,
    tail: int,
    r: int,
)
    requires
        used.len() == pieces.len(),
        only_meet(pieces, p, q, tol),
        half_at_end(used, p, q, head, tail),
        0 <= tail < 2 * pieces.len(),
        used[tail / 2],
        0 <= r < 2 * pieces.len(),
        !used[r / 2],
        near(port_points(pieces)[r], port_points(pieces)[tail], tol),
        tail == p && !used[q / 2] ==> r == q,
        tail == q && !used[p / 2] ==> r == p,
    ensures
        half_at_end(used.update(r / 2, true), p, q, head, far(r)),
{
    let points = port_points(pieces);
    let now = used.update(r / 2, true);
    if r == p && tail != q {
        assert(tail != p);
        assert(!near(points[tail], points[p], tol));
    }
    if r == q && tail != p {
        assert(tail != q);
        assert(!near(points[tail], points[q], tol));
    }
    assert(r / 2 == p / 2 ==> r == p || far(r) == p);
    assert(r / 2 == q / 2 ==> r == q || far(r) == q);
}

proof fn lemma_stroke_meets(
    pieces: Seq<StrokeView>,
    used: Seq<bool>,
    seed: int,
    tol: int,
    p: int,
    q: int,
)
    requires
        tol >= 1,
        2 * pieces.len() <= usize::MAX,
        used.len() == pieces.len(),
        0 <= seed < pieces.len(),
        forall|k: int| 0 <= k < pieces.len() ==> weldable(#[trigger] pieces[k]),
        only_meet(pieces, p, q, tol),
        !used[p / 2],
        !used[q / 2],
    ensures
        stroke_from(pieces, used, seed, tol).0.len() == used.len(),
        stroke_from(pieces, used, seed, tol).0[p / 2] == stroke_from(pieces, used, seed, tol).0[q
            / 2],
{
    assert(weldable(pieces[seed]));
    let points = port_points(pieces);
    let used0 = used.update(seed, true);
    let g0 = seeded(pieces[seed]);
    let (a, b) = (2 * seed, 2 * seed + 1);
    assert(points[a] == g0.coords.first());
    assert(points[b] == g0.coords.last());
    let t1 = lemma_grown_meets(pieces, used0, g0, tol, p, q, a, b);
    let (used1, g1) = grown(pieces, used0, g0, tol);
    let back = turned(g1);
    assert(back.coords.last() == g1.coords.first());
    assert(used0[seed]);
    assert(used1[seed]);
    let t2 = lemma_grown_meets(pieces, used1, back, tol, p, q, t1, a);
    let (used2, g2) = grown(pieces, used1, back, tol);
    if t1 == p {
        assert(used1[q / 2]);
    }
    if t1 == q {
        assert(used1[p / 2]);
    }
}

/// Some stroke holds both pieces.
spec fn together(out: Seq<StrokeView>, a: StrokeView, b: StrokeView) -> bool {
    exists|k: int|
        0 <= k < out.len() && within(a.coords, (#[trigger] out[k]).coords) && within(
            b.coords,
            out[k].coords,
        ) && out[k].kind == a.kind
}

proof fn lemma_strokes_meet(
    pieces: Seq<StrokeView>,
    used: Seq<bool>,
    seed: nat,
    tol: int,
    kind: RoadKind,
    p: int,
    q: int,
)
    requires
        tol >= 1,
        2 * pieces.len() <= usize::MAX,
        used.len() == pieces.len(),
        seed <= pieces.len(),
        forall|k: int| 0 <= k < pieces.len() ==> weldable(#[trigger] pieces[k]),
        forall|k: int| 0 <= k < pieces.len() ==> (#[trigger] pieces[k]).kind == kind,
        forall|j: int| 0 <= j < seed ==> #[trigger] used[j],
        only_meet(pieces, p, q, tol),
        !used[p / 2],
        !used[q / 2],
    ensures
        together(strokes(pieces, used, seed, tol), pieces[p / 2], pieces[q / 2]),
    decreases pieces.len() - seed,
{
    let out = strokes(pieces, used, seed, tol);
    if used[seed as int] {
        lemma_strokes_meet(pieces, used, seed + 1, tol, kind, p, q);
    } else {
        let (used2, s) = stroke_from(pieces, used, seed as int, tol);
        lemma_stroke_from(pieces, used, seed as int, tol);
        lemma_stroke_meets(pieces, used, seed as int, tol, p, q);
        let rest = strokes(pieces, used2, seed + 1, tol);
        assert(out[0] == s);
        if used2[p / 2] {
            assert(within(pieces[p / 2].coords, out[0].coords));
            assert(within(pieces[q / 2].coords, out[0].coords));
        } else {
            assert forall|j: int| 0 <= j < seed + 1 implies #[trigger] used2[j] by {
                if j < seed {
                    assert(used[j]);
                }
            }
            lemma_strokes_meet(pieces, used2, seed + 1, tol, kind, p, q);
            let k = choose|k: int|
                0 <= k < rest.len() && within(pieces[p / 2].coords, (#[trigger] rest[k]).coords)
                    && within(pieces[q / 2].coords, rest[k].coords) && rest[k].kind
                    == pieces[p / 2].kind;
            assert(out[k + 1] == rest[k]);
        }
    }
}

// ---- roads of a kind ----

/// How many of the first `n` roads are of the kind.
spec fn kind_rank(roads: Seq<StrokeView>, kind: RoadKind, n: nat) -> nat
    decreases n,
{
    if n == 0 {
        0
    } else {
        kind_rank(roads, kind, (n - 1) as nat) + if roads[n - 1].kind == kind {
            1nat
        } else {
            0
        }
    }
}

/// The road that piece `m` of the kind is.
spec fn is_piece(roads: Seq<StrokeView>, kind: RoadKind, i: int, m: int) -> bool {
    0 <= i < roads.len() && roads[i].kind == kind && kind_rank(roads, kind, i as nat) == m
}

spec fn piece_known(roads: Seq<StrokeView>, kind: RoadKind, m: int) -> bool {
    exists|i: int| #[trigger] is_piece(roads, kind, i, m)
}

proof fn lemma_rank_prefix(roads: Seq<StrokeView>, kind: RoadKind, n: nat)
    requires
        n < roads.len(),
    ensures
        kind_rank(roads, kind, n) == kind_rank(roads.drop_last(), kind, n),
    decreases n,
{
    if n > 0 {
        lemma_rank_prefix(roads, kind, (n - 1) as nat);
        assert(roads.drop_last()[n - 1] == roads[n - 1]);
    }
}

proof fn lemma_rank_grows(roads: Seq<StrokeView>, kind: RoadKind, i: int, n: nat)
    requires
        0 <= i < n,
        roads[i].kind == kind,
    ensures
        kind_rank(roads, kind, i as nat) < kind_rank(roads, kind, n),
    decreases n,
{
    if i < n - 1 {
        lemma_rank_grows(roads, kind, i, (n - 1) as nat);
    }
}

proof fn lemma_pieces(roads: Seq<StrokeView>, kind: RoadKind)
    ensures
        ({
            let out = roads_of_kind(roads, kind.ordinal());
            &&& out.len() == kind_rank(roads, kind, roads.len())
            &&& forall|i: int|
                0 <= i < roads.len() && (#[trigger] roads[i]).kind == kind ==> kind_rank(
                    roads,
                    kind,
                    i as nat,
                ) < out.len() && out[kind_rank(roads, kind, i as nat) as int] == roads[i]
            &&& forall|m: int|
                0 <= m < out.len() ==> piece_known(roads, kind, m) && (#[trigger] out[m]).kind
                    == kind
        }),
    decreases roads.len(),
{
    let out = roads_of_kind(roads, kind.ordinal());
    if roads.len() > 0 {
        let front = roads.drop_last();
        let sub = roads_of_kind(front, kind.ordinal());
        lemma_pieces(front, kind);
        roads.last().kind.ordinal_roundtrip(kind, 0);
        lemma_rank_prefix(roads, kind, front.len());
        assert forall|i: int| 0 <= i < roads.len() && (#[trigger] roads[i]).kind == kind implies kind_rank(
            roads,
            kind,
            i as nat,
        ) < out.len() && out[kind_rank(roads, kind, i as nat) as int] == roads[i] by {
            lemma_rank_prefix(roads, kind, i as nat);
            if i < front.len() {
                assert(front[i] == roads[i]);
            }
        }
        assert forall|m: int| 0 <= m < out.len() implies piece_known(roads, kind, m) && (
        #[trigger] out[m]).kind == kind by {
            if m < sub.len() {
                assert(out[m] == sub[m]);
                assert(piece_known(front, kind, m));
                let i = choose|i: int| #[trigger] is_piece(front, kind, i, m);
                assert(front[i] == roads[i]);
                lemma_rank_prefix(roads, kind, i as nat);
                assert(is_piece(roads, kind, i, m));
            } else {
                lemma_rank_prefix(roads, kind, front.len());
                assert(is_piece(roads, kind, roads.len() - 1, m));
            }
        }
    }
}

// ---- the law ----

/// An end of a road: its last vertex or its first.
pub open spec fn road_end(r: StrokeView, last: bool) -> [i32; 2] {
    if last {
        r.coords[r.coords.len() - 1]
    } else {
        r.coords[0]
    }
}

/// No more apart on either axis than a thousandth part of the extent, and one unit at
/// least.
pub open spec fn ends_touch(a: [i32; 2], b: [i32; 2], extent: u16) -> bool {
    &&& a[0] - b[0] <= 1 || (a[0] - b[0]) * 1024 <= extent
    &&& b[0] - a[0] <= 1 || (b[0] - a[0]) * 1024 <= extent
    &&& a[1] - b[1] <= 1 || (a[1] - b[1]) * 1024 <= extent
    &&& b[1] - a[1] <= 1 || (b[1] - a[1]) * 1024 <= extent
}

pub proof fn lemma_touch_is_near(a: [i32; 2], b: [i32; 2], extent: u16)
    ensures
        ends_touch(a, b, extent) == near(a, b, crate::weld_model::weld_tolerance(extent)),
{
}

/// Where exactly two road ends of a kind touch and no third end of the kind touches
/// either, the two roads come out in one stroke of their kind, whatever the angle between
/// them.
pub proof fn touching_pair_is_one_stroke(
    roads: Seq<StrokeView>,
    extent: u16,
    a: int,
    a_last: bool,
    b: int,
    b_last: bool,
)
    requires
        2 * roads.len() <= usize::MAX,
        forall|i: int| 0 <= i < roads.len() ==> weldable(#[trigger] roads[i]),
        0 <= a < roads.len(),
        0 <= b < roads.len(),
        a != b,
        roads[a].kind == roads[b].kind,
        ends_touch(road_end(roads[a], a_last), road_end(roads[b], b_last), extent),
        forall|i: int, last: bool|
            0 <= i < roads.len() && roads[i].kind == roads[a].kind && !(i == a && last == a_last)
                && !(i == b && last == b_last) ==> !ends_touch(
                #[trigger] road_end(roads[i], last),
                road_end(roads[a], a_last),
                extent,
            ) && !ends_touch(road_end(roads[i], last), road_end(roads[b], b_last), extent),
    ensures
        exists|k: int|
            0 <= k < welded(roads, extent).len() && (#[trigger] welded(roads, extent)[k]).kind
                == roads[a].kind && within(roads[a].coords, welded(roads, extent)[k].coords)
                && within(roads[b].coords, welded(roads, extent)[k].coords),
{
    let kind = roads[a].kind;
    let tol = crate::weld_model::weld_tolerance(extent);
    let pieces = roads_of_kind(roads, kind.ordinal());
    let p = port_of(roads, kind, a, a_last);
    let q = port_of(roads, kind, b, b_last);
    lemma_piece_of(roads, kind, a, a_last);
    lemma_piece_of(roads, kind, b, b_last);
    lemma_group(roads, kind);
    lemma_ports_only_meet(roads, extent, a, a_last, b, b_last);
    lemma_strokes_meet(pieces, none_used(pieces.len()), 0, tol, kind, p, q);
    lemma_together_in_all(roads, tol, kind, roads[a], roads[b]);
    assert(together(welded(roads, extent), roads[a], roads[b]));
}

/// The port of a road's end in the group of its kind.
spec fn port_of(roads: Seq<StrokeView>, kind: RoadKind, i: int, last: bool) -> int {
    2 * kind_rank(roads, kind, i as nat) + if last {
        1int
    } else {
        0
    }
}

proof fn lemma_piece_of(roads: Seq<StrokeView>, kind: RoadKind, i: int, last: bool)
    requires
        0 <= i < roads.len(),
        roads[i].kind == kind,
    ensures
        ({
            let pieces = roads_of_kind(roads, kind.ordinal());
            let p = port_of(roads, kind, i, last);
            &&& 0 <= p < 2 * pieces.len()
            &&& pieces[p / 2] == roads[i]
            &&& port_points(pieces)[p] == road_end(roads[i], last)
        }),
{
    lemma_pieces(roads, kind);
    let pieces = roads_of_kind(roads, kind.ordinal());
    let m = kind_rank(roads, kind, i as nat) as int;
    assert(pieces[m] == roads[i]);
    let p = port_of(roads, kind, i, last);
    assert(p / 2 == m);
}

proof fn lemma_group(roads: Seq<StrokeView>, kind: RoadKind)
    requires
        forall|i: int| 0 <= i < roads.len() ==> weldable(#[trigger] roads[i]),
    ensures
        ({
            let pieces = roads_of_kind(roads, kind.ordinal());
            &&& pieces.len() <= roads.len()
            &&& forall|m: int| 0 <= m < pieces.len() ==> weldable(#[trigger] pieces[m])
            &&& forall|m: int| 0 <= m < pieces.len() ==> (#[trigger] pieces[m]).kind == kind
        }),
{
    lemma_pieces(roads, kind);
    lemma_rank_le(roads, kind, roads.len());
    let pieces = roads_of_kind(roads, kind.ordinal());
    assert forall|m: int| 0 <= m < pieces.len() implies weldable(#[trigger] pieces[m]) by {
        assert(pieces[m].kind == kind);
        let i = choose|i: int| #[trigger] is_piece(roads, kind, i, m);
        assert(pieces[m] == roads[i]);
    }
}

/// A port of the group is the end of a road.
proof fn lemma_road_of(roads: Seq<StrokeView>, kind: RoadKind, r: int) -> (i: int)
    requires
        0 <= r < 2 * roads_of_kind(roads, kind.ordinal()).len(),
    ensures
        0 <= i < roads.len(),
        roads[i].kind == kind,
        port_of(roads, kind, i, r % 2 == 1) == r,
{
    lemma_pieces(roads, kind);
    let pieces = roads_of_kind(roads, kind.ordinal());
    let m = r / 2;
    assert(pieces[m].kind == kind);
    choose|i: int| #[trigger] is_piece(roads, kind, i, m)
}

proof fn lemma_ports_only_meet(
    roads: Seq<StrokeView>,
    extent: u16,
    a: int,
    a_last: bool,
    b: int,
    b_last: bool,
)
    requires
        0 <= a < roads.len(),
        0 <= b < roads.len(),
        a != b,
        roads[a].kind == roads[b].kind,
        ends_touch(road_end(roads[a], a_last), road_end(roads[b], b_last), extent),
        forall|i: int, last: bool|
            0 <= i < roads.len() && roads[i].kind == roads[a].kind && !(i == a && last == a_last)
                && !(i == b && last == b_last) ==> !ends_touch(
                #[trigger] road_end(roads[i], last),
                road_end(roads[a], a_last),
                extent,
            ) && !ends_touch(road_end(roads[i], last), road_end(roads[b], b_last), extent),
    ensures
        only_meet(
            roads_of_kind(roads, roads[a].kind.ordinal()),
            port_of(roads, roads[a].kind, a, a_last),
            port_of(roads, roads[a].kind, b, b_last),
            crate::weld_model::weld_tolerance(extent),
        ),
{
    let kind = roads[a].kind;
    let tol = crate::weld_model::weld_tolerance(extent);
    let pieces = roads_of_kind(roads, kind.ordinal());
    let p = port_of(roads, kind, a, a_last);
    let q = port_of(roads, kind, b, b_last);
    lemma_piece_of(roads, kind, a, a_last);
    lemma_piece_of(roads, kind, b, b_last);
    if a < b {
        lemma_rank_grows(roads, kind, a, b as nat);
    } else {
        lemma_rank_grows(roads, kind, b, a as nat);
    }
    let points = port_points(pieces);
    lemma_touch_is_near(points[p], points[q], extent);
    assert forall|r: int| 0 <= r < points.len() && r != p && r != q implies !near(
        #[trigger] points[r],
        points[p],
        tol,
    ) && !near(points[r], points[q], tol) by {
        let i = lemma_road_of(roads, kind, r);
        let last = r % 2 == 1;
        lemma_piece_of(roads, kind, i, last);
        assert(points[r] == road_end(roads[i], last));
        lemma_touch_is_near(points[r], points[p], extent);
        lemma_touch_is_near(points[r], points[q], extent);
    }
}

proof fn lemma_together_in_all(
    roads: Seq<StrokeView>,
    tol: int,
    kind: RoadKind,
    a: StrokeView,
    b: StrokeView,
)
    requires
        together(group_strokes(roads_of_kind(roads, kind.ordinal()), tol), a, b),
    ensures
        together(kind_strokes(roads, tol, ROAD_KINDS as nat), a, b),
{
    let own = group_strokes(roads_of_kind(roads, kind.ordinal()), tol);
    let k = choose|k: int|
        0 <= k < own.len() && within(a.coords, (#[trigger] own[k]).coords) && within(
            b.coords,
            own[k].coords,
        ) && own[k].kind == a.kind;
    kind.ordinal_roundtrip(kind, 0);
    let at = lemma_own_strokes(roads, tol, ROAD_KINDS as nat, kind, k);
}

proof fn lemma_rank_le(roads: Seq<StrokeView>, kind: RoadKind, n: nat)
    ensures
        kind_rank(roads, kind, n) <= n,
    decreases n,
{
    if n > 0 {
        lemma_rank_le(roads, kind, (n - 1) as nat);
    }
}

/// The strokes of a kind are among all strokes.
proof fn lemma_own_strokes(
    roads: Seq<StrokeView>,
    tol: int,
    n: nat,
    kind: RoadKind,
    k: int,
) -> (at: int)
    requires
        kind.ordinal() < n <= ROAD_KINDS,
        0 <= k < group_strokes(roads_of_kind(roads, kind.ordinal()), tol).len(),
    ensures
        0 <= at < kind_strokes(roads, tol, n).len(),
        kind_strokes(roads, tol, n)[at] == group_strokes(
            roads_of_kind(roads, kind.ordinal()),
            tol,
        )[k],
    decreases n,
{
    let front = kind_strokes(roads, tol, (n - 1) as nat);
    if kind.ordinal() == n - 1 {
        front.len() + k
    } else {
        let at = lemma_own_strokes(roads, tol, (n - 1) as nat, kind, k);
        at
    }
}

} // verus!
