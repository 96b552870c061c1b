//! What welding keeps.

use vstd::prelude::*;

use crate::endpoint_grid::{grid_hits, grid_hits_complete, near};
use crate::feature::RoadKind;
use crate::weld_model::{
    finished, group_strokes, grown, joined, kind_strokes, lemma_unused_count_update, next_port,
    none_used, port_points, roads_of_kind, seeded, stroke_from, strokes, turned, unused_count,
    unused_only, weld_tolerance, weldable, welded, Growth, StrokeView, ROAD_KINDS,
};

verus! {

/// Every vertex of `a` occurs in `b`.
pub open spec fn within(a: Seq<[i32; 2]>, b: Seq<[i32; 2]>) -> bool {
    forall|i: int| 0 <= i < a.len() ==> b.contains(#[trigger] a[i])
}

/// Some piece has the vertex.
pub open spec fn has_vertex(pieces: Seq<StrokeView>, v: [i32; 2]) -> bool {
    exists|k: int| 0 <= k < pieces.len() && (#[trigger] pieces[k]).coords.contains(v)
}

/// Every vertex of `c` is a vertex of some piece.
pub open spec fn from_pieces(c: Seq<[i32; 2]>, pieces: Seq<StrokeView>) -> bool {
    forall|i: int| 0 <= i < c.len() ==> has_vertex(pieces, #[trigger] c[i])
}

proof fn lemma_within_cat(a: Seq<[i32; 2]>, b: Seq<[i32; 2]>)
    ensures
        within(a, a + b),
        within(b, a + b),
{
    assert forall|i: int| 0 <= i < a.len() implies (a + b).contains(#[trigger] a[i]) by {
        assert((a + b)[i] == a[i]);
    }
    assert forall|i: int| 0 <= i < b.len() implies (a + b).contains(#[trigger] b[i]) by {
        assert((a + b)[a.len() + i] == b[i]);
    }
}

proof fn lemma_within_trans(a: Seq<[i32; 2]>, b: Seq<[i32; 2]>, c: Seq<[i32; 2]>)
    requires
        within(a, b),
        within(b, c),
    ensures
        within(a, c),
{
    assert forall|i: int| 0 <= i < a.len() implies c.contains(#[trigger] a[i]) by {
        let j = choose|j: int| 0 <= j < b.len() && b[j] == a[i];
        assert(c.contains(b[j]));
    }
}

proof fn lemma_within_reverse(a: Seq<[i32; 2]>)
    ensures
        within(a, a.reverse()),
        within(a.reverse(), a),
{
    let r = a.reverse();
    assert forall|i: int| 0 <= i < a.len() implies r.contains(#[trigger] a[i]) by {
        assert(r[a.len() - 1 - i] == a[i]);
    }
    assert forall|i: int| 0 <= i < r.len() implies a.contains(#[trigger] r[i]) by {
        assert(a[a.len() - 1 - i] == r[i]);
    }
}

/// Joining a piece keeps the stroke's vertices, takes in all of the piece's, and adds
/// no other.
proof fn lemma_joined(g: Growth, piece: StrokeView, p: int)
    requires
        g.coords.len() >= 1,
        g.lanes.len() == g.coords.len(),
        weldable(piece),
    ensures
        within(g.coords, joined(g, piece, p).coords),
        within(piece.coords, joined(g, piece, p).coords),
        forall|i: int|
            0 <= i < joined(g, piece, p).coords.len() ==> g.coords.contains(
                #[trigger] joined(g, piece, p).coords[i],
            ) || piece.coords.contains(joined(g, piece, p).coords[i]),
        joined(g, piece, p).lanes.len() == joined(g, piece, p).coords.len(),
        joined(g, piece, p).coords.len() >= 1,
{
    let out = joined(g, piece, p).coords;
    if p % 2 == 0 {
        let skip = if g.coords.last() == piece.coords.first() {
            1int
        } else {
            0
        };
        let b = piece.coords.skip(skip);
        lemma_within_cat(g.coords, b);
        assert forall|i: int| 0 <= i < piece.coords.len() implies out.contains(
            #[trigger] piece.coords[i],
        ) by {
            if i < skip {
                assert(g.coords[g.coords.len() - 1] == piece.coords[i]);
            } else {
                assert(b[i - skip] == piece.coords[i]);
            }
        }
        assert forall|i: int| 0 <= i < out.len() implies g.coords.contains(#[trigger] out[i])
            || piece.coords.contains(out[i]) by {
            if i < g.coords.len() {
                assert(g.coords[i] == out[i]);
            } else {
                assert(piece.coords[i - g.coords.len() + skip] == out[i]);
            }
        }
    } else {
        let take = piece.coords.len() - if g.coords.last() == piece.coords.last() {
            1int
        } else {
            0
        };
        let b = piece.coords.take(take).reverse();
        lemma_within_cat(g.coords, b);
        assert forall|i: int| 0 <= i < piece.coords.len() implies out.contains(
            #[trigger] piece.coords[i],
        ) by {
            if i < take {
                assert(b[take - 1 - i] == piece.coords[i]);
            } else {
                assert(g.coords[g.coords.len() - 1] == piece.coords[i]);
            }
        }
        assert forall|i: int| 0 <= i < out.len() implies g.coords.contains(#[trigger] out[i])
            || piece.coords.contains(out[i]) by {
            if i < g.coords.len() {
                assert(g.coords[i] == out[i]);
            } else {
                assert(piece.coords[take - 1 - (i - g.coords.len())] == out[i]);
            }
        }
    }
}

/// What growing a stroke does to the pieces' vertices.
spec fn growth_keeps(
    pieces: Seq<StrokeView>,
    used: Seq<bool>,
    g: Growth,
    used2: Seq<bool>,
    g2: Growth,
) -> bool {
    &&& used2.len() == used.len()
    &&& forall|j: int| 0 <= j < used.len() && used[j] ==> #[trigger] used2[j]
    &&& within(g.coords, g2.coords)
    &&& forall|j: int|
        0 <= j < used.len() && #[trigger] used2[j] && !used[j] ==> within(
            pieces[j].coords,
            g2.coords,
        )
    &&& g2.lanes.len() == g2.coords.len()
    &&& g2.coords.len() >= 1
    &&& from_pieces(g.coords, pieces) ==> from_pieces(g2.coords, pieces)
}

proof fn lemma_grown(pieces: Seq<StrokeView>, used: Seq<bool>, g: Growth, tol: int)
    requires
        used.len() == pieces.len(),
        g.coords.len() >= 1,
        g.lanes.len() == g.coords.len(),
        forall|k: int| 0 <= k < pieces.len() ==> weldable(#[trigger] pieces[k]),
    ensures
        ({
            let (used2, g2) = grown(pieces, used, g, tol);
            growth_keeps(pieces, used, g, used2, g2)
        }),
    decreases unused_count(used),
{
    let (used2, g2) = grown(pieces, used, g, tol);
    if let Some(p) = next_port(pieces, used, g.coords, tol) {
        let j = p as int / 2;
        if 0 <= j < used.len() && !used[j] {
            lemma_unused_count_update(used, j);
            let used1 = used.update(j, true);
            let g1 = joined(g, pieces[j], p as int);
            assert(weldable(pieces[j]));
            lemma_joined(g, pieces[j], p as int);
            lemma_grown(pieces, used1, g1, tol);
            lemma_within_trans(g.coords, g1.coords, g2.coords);
            lemma_within_trans(pieces[j].coords, g1.coords, g2.coords);
            assert forall|k: int| 0 <= k < used.len() && used[k] implies #[trigger] used2[k] by {
                assert(used1[k]);
            }
            assert forall|k: int|
                0 <= k < used.len() && #[trigger] used2[k] && !used[k] implies within(
                pieces[k].coords,
                g2.coords,
            ) by {
                if k != j {
                    assert(!used1[k]);
                }
            }
            if from_pieces(g.coords, pieces) {
                assert(from_pieces(g1.coords, pieces)) by {
                    assert forall|i: int| 0 <= i < g1.coords.len() implies has_vertex(
            pieces,
            #[trigger] g1.coords[i],
        ) by {
                        if pieces[j].coords.contains(g1.coords[i]) {
                        } else {
                            assert(g.coords.contains(g1.coords[i]));
                            let m = choose|m: int|
                                0 <= m < g.coords.len() && g.coords[m] == g1.coords[i];
                            let k = choose|k: int|
                0 <= k < pieces.len() && (#[trigger] pieces[k]).coords.contains(g.coords[m]);
                            assert(pieces[k].coords.contains(g1.coords[i]));
                        }
                    }
                }
            }
            return ;
        }
    }
    assert(within(g.coords, g.coords)) by {
        assert forall|i: int| 0 <= i < g.coords.len() implies g.coords.contains(
            #[trigger] g.coords[i],
        ) by {}
    }
}

proof fn lemma_turned(pieces: Seq<StrokeView>, g: Growth)
    requires
        g.lanes.len() == g.coords.len(),
    ensures
        within(g.coords, turned(g).coords),
        turned(g).lanes.len() == turned(g).coords.len(),
        turned(g).coords.len() == g.coords.len(),
        from_pieces(g.coords, pieces) ==> from_pieces(turned(g).coords, pieces),
{
    lemma_within_reverse(g.coords);
    let r = turned(g).coords;
    if from_pieces(g.coords, pieces) {
        assert forall|i: int| 0 <= i < r.len() implies has_vertex(
            pieces,
            #[trigger] r[i],
        ) by {
            let m = g.coords.len() - 1 - i;
            let k = choose|k: int|
                0 <= k < pieces.len() && (#[trigger] pieces[k]).coords.contains(g.coords[m]);
            assert(pieces[k].coords.contains(r[i]));
        }
    }
}

/// What one stroke takes in.
pub proof fn lemma_stroke_from(pieces: Seq<StrokeView>, used: Seq<bool>, seed: int, tol: int)
    requires
        used.len() == pieces.len(),
        0 <= seed < pieces.len(),
        forall|k: int| 0 <= k < pieces.len() ==> weldable(#[trigger] pieces[k]),
    ensures
        ({
            let (used2, s) = stroke_from(pieces, used, seed, tol);
            &&& used2.len() == used.len()
            &&& used2[seed]
            &&& forall|j: int| 0 <= j < used.len() && used[j] ==> #[trigger] used2[j]
            &&& forall|j: int|
                0 <= j < used.len() && #[trigger] used2[j] && !used[j] ==> within(
                    pieces[j].coords,
                    s.coords,
                )
            &&& from_pieces(s.coords, pieces)
            &&& s.lanes.len() == s.coords.len()
            &&& s.coords.len() >= 1
            &&& s.kind == pieces[seed].kind
        }),
{
    assert(weldable(pieces[seed]));
    let used0 = used.update(seed, true);
    let g0 = seeded(pieces[seed]);
    let (used1, g1) = grown(pieces, used0, g0, tol);
    let (used2, g2) = grown(pieces, used1, turned(g1), tol);
    let s = stroke_from(pieces, used, seed, tol).1;
    assert(from_pieces(g0.coords, pieces)) by {
        assert forall|i: int| 0 <= i < g0.coords.len() implies has_vertex(
            pieces,
            #[trigger] g0.coords[i],
        ) by {
            assert(pieces[seed].coords.contains(g0.coords[i]));
        }
    }
    lemma_grown(pieces, used0, g0, tol);
    lemma_turned(pieces, g1);
    lemma_grown(pieces, used1, turned(g1), tol);
    lemma_turned(pieces, g2);
    assert(used0[seed]);
    assert(used1[seed]);
    lemma_within_trans(g1.coords, turned(g1).coords, g2.coords);
    lemma_within_trans(g1.coords, g2.coords, s.coords);
    lemma_within_trans(g0.coords, g1.coords, s.coords);
    assert forall|j: int| 0 <= j < used.len() && used[j] implies #[trigger] used2[j] by {
        assert(used0[j]);
        assert(used1[j]);
    }
    assert forall|j: int| 0 <= j < used.len() && #[trigger] used2[j] && !used[j] implies within(
        pieces[j].coords,
        s.coords,
    ) by {
        if j == seed {
        } else if used1[j] {
            assert(!used0[j]);
            lemma_within_trans(pieces[j].coords, g1.coords, s.coords);
        } else {
            lemma_within_trans(pieces[j].coords, g2.coords, s.coords);
        }
    }
}

/// Some stroke has every vertex of the piece.
pub open spec fn covered(piece: StrokeView, out: Seq<StrokeView>) -> bool {
    exists|k: int|
        0 <= k < out.len() && within(piece.coords, (#[trigger] out[k]).coords) && out[k].kind
            == piece.kind
}

/// A stroke made of the group's vertices only, with a lane split per vertex.
pub open spec fn stroke_of(s: StrokeView, pieces: Seq<StrokeView>) -> bool {
    from_pieces(s.coords, pieces) && s.lanes.len() == s.coords.len() && s.coords.len() >= 1
}

proof fn lemma_strokes(pieces: Seq<StrokeView>, used: Seq<bool>, seed: nat, tol: int, kind: RoadKind)
    requires
        used.len() == pieces.len(),
        seed <= pieces.len(),
        forall|k: int| 0 <= k < pieces.len() ==> weldable(#[trigger] pieces[k]),
        forall|k: int| 0 <= k < pieces.len() ==> (#[trigger] pieces[k]).kind == kind,
        forall|j: int| 0 <= j < seed ==> #[trigger] used[j],
    ensures
        forall|j: int|
            0 <= j < pieces.len() && !used[j] ==> covered(
                #[trigger] pieces[j],
                strokes(pieces, used, seed, tol),
            ),
        forall|k: int|
            0 <= k < strokes(pieces, used, seed, tol).len() ==> stroke_of(
                #[trigger] strokes(pieces, used, seed, tol)[k],
                pieces,
            ) && strokes(pieces, used, seed, tol)[k].kind == kind,
        strokes(pieces, used, seed, tol).len() <= pieces.len() - seed,
    decreases pieces.len() - seed,
{
    let out = strokes(pieces, used, seed, tol);
    if seed < pieces.len() {
        if used[seed as int] {
            lemma_strokes(pieces, used, seed + 1, tol, kind);
        } else {
            let (used2, s) = stroke_from(pieces, used, seed as int, tol);
            lemma_stroke_from(pieces, used, seed as int, tol);
            assert forall|j: int| 0 <= j < seed + 1 implies #[trigger] used2[j] by {
                if j < seed {
                    assert(used[j]);
                }
            }
            lemma_strokes(pieces, used2, seed + 1, tol, kind);
            let rest = strokes(pieces, used2, seed + 1, tol);
            assert(out[0] == s);
            assert(pieces[seed as int].kind == kind);
            assert forall|j: int| 0 <= j < pieces.len() && !used[j] implies covered(
                #[trigger] pieces[j],
                out,
            ) by {
                if used2[j] {
                    assert(within(pieces[j].coords, out[0].coords));
                } else {
                    assert(covered(pieces[j], rest));
                    let k = choose|k: int|
                        0 <= k < rest.len() && within(pieces[j].coords, (#[trigger] rest[k]).coords)
                            && rest[k].kind == pieces[j].kind;
                    assert(out[k + 1] == rest[k]);
                }
            }
            assert forall|k: int| 0 <= k < out.len() implies stroke_of(#[trigger] out[k], pieces)
                && out[k].kind == kind by {
                if k > 0 {
                    assert(out[k] == rest[k - 1]);
                }
            }
        }
    }
}

/// Welding a group loses no vertex and invents none: every piece is part of some
/// stroke with all its vertices, every stroke vertex is a vertex of some piece, and
/// there are no more strokes than pieces.
pub proof fn group_weld_conserves(pieces: Seq<StrokeView>, tol: int, kind: RoadKind)
    requires
        forall|k: int| 0 <= k < pieces.len() ==> weldable(#[trigger] pieces[k]),
        forall|k: int| 0 <= k < pieces.len() ==> (#[trigger] pieces[k]).kind == kind,
    ensures
        forall|j: int|
            0 <= j < pieces.len() ==> covered(#[trigger] pieces[j], group_strokes(pieces, tol)),
        forall|k: int|
            0 <= k < group_strokes(pieces, tol).len() ==> stroke_of(
                #[trigger] group_strokes(pieces, tol)[k],
                pieces,
            ) && group_strokes(pieces, tol)[k].kind == kind,
        group_strokes(pieces, tol).len() <= pieces.len(),
{
    lemma_strokes(pieces, none_used(pieces.len()), 0, tol, kind);
}

proof fn lemma_roads_of_kind(roads: Seq<StrokeView>, kind: RoadKind)
    ensures
        forall|k: int|
            0 <= k < roads_of_kind(roads, kind.ordinal()).len() ==> {
                let r = #[trigger] roads_of_kind(roads, kind.ordinal())[k];
                r.kind == kind && roads.contains(r)
            },
        forall|i: int|
            0 <= i < roads.len() && (#[trigger] roads[i]).kind == kind ==> roads_of_kind(
                roads,
                kind.ordinal(),
            ).contains(roads[i]),
        roads_of_kind(roads, kind.ordinal()).len() <= roads.len(),
    decreases roads.len(),
{
    let out = roads_of_kind(roads, kind.ordinal());
    if roads.len() > 0 {
        let front = roads.drop_last();
        let sub = roads_of_kind(front, kind.ordinal());
        lemma_roads_of_kind(front, kind);
        roads.last().kind.ordinal_roundtrip(kind, 0);
        assert forall|k: int| 0 <= k < out.len() implies {
            let r = #[trigger] out[k];
            r.kind == kind && roads.contains(r)
        } by {
            if k < sub.len() {
                assert(out[k] == sub[k]);
                assert(front.contains(sub[k]));
                let m = choose|m: int| 0 <= m < front.len() && front[m] == sub[k];
                assert(roads[m] == sub[k]);
            } else {
                assert(roads[roads.len() - 1] == out[k]);
            }
        }
        assert forall|i: int| 0 <= i < roads.len() && (#[trigger] roads[i]).kind == kind implies out.contains(
            roads[i],
        ) by {
            if i < front.len() {
                assert(front[i] == roads[i]);
                let m = choose|m: int| 0 <= m < sub.len() && sub[m] == roads[i];
                assert(out[m] == roads[i]);
            } else {
                assert(out[sub.len() as int] == roads[i]);
            }
        }
    }
}

proof fn lemma_kind_strokes(roads: Seq<StrokeView>, tol: int, k: nat)
    requires
        k <= ROAD_KINDS,
        forall|i: int| 0 <= i < roads.len() ==> weldable(#[trigger] roads[i]),
    ensures
        forall|i: int|
            0 <= i < roads.len() && (#[trigger] roads[i]).kind.ordinal() < k ==> covered(
                roads[i],
                kind_strokes(roads, tol, k),
            ),
        forall|m: int|
            0 <= m < kind_strokes(roads, tol, k).len() ==> {
                let s = #[trigger] kind_strokes(roads, tol, k)[m];
                stroke_of(s, roads)
            },
    decreases k,
{
    if k > 0 {
        let front = kind_strokes(roads, tol, (k - 1) as nat);
        let out = kind_strokes(roads, tol, k);
        lemma_kind_strokes(roads, tol, (k - 1) as nat);
        let ord = (k - 1) as u8;
        RoadKind::Motorway.ordinal_roundtrip(RoadKind::Motorway, ord);
        let kind = RoadKind::spec_from_u8(ord)->0;
        let pieces = roads_of_kind(roads, ord);
        lemma_roads_of_kind(roads, kind);
        let own = group_strokes(pieces, tol);
        assert forall|m: int| 0 <= m < pieces.len() implies weldable(#[trigger] pieces[m]) by {
            assert(roads.contains(pieces[m]));
        }
        group_weld_conserves(pieces, tol, kind);
        assert forall|i: int|
            0 <= i < roads.len() && (#[trigger] roads[i]).kind.ordinal() < k implies covered(
            roads[i],
            out,
        ) by {
            if roads[i].kind.ordinal() < k - 1 {
                let m = choose|m: int|
                    0 <= m < front.len() && within(roads[i].coords, (#[trigger] front[m]).coords)
                        && front[m].kind == roads[i].kind;
                assert(out[m] == front[m]);
            } else {
                roads[i].kind.ordinal_roundtrip(kind, 0);
                assert(pieces.contains(roads[i]));
                let j = choose|j: int| 0 <= j < pieces.len() && pieces[j] == roads[i];
                assert(covered(pieces[j], own));
                let m = choose|m: int|
                    0 <= m < own.len() && within(roads[i].coords, (#[trigger] own[m]).coords)
                        && own[m].kind == roads[i].kind;
                assert(out[front.len() + m] == own[m]);
            }
        }
        assert forall|m: int| 0 <= m < out.len() implies stroke_of(#[trigger] out[m], roads) by {
            if m < front.len() {
                assert(out[m] == front[m]);
            } else {
                let s = own[m - front.len()];
                assert(out[m] == s);
                assert(stroke_of(s, pieces));
                assert forall|i: int| 0 <= i < s.coords.len() implies has_vertex(
            roads,
            #[trigger] s.coords[i],
        ) by {
                    let j = choose|j: int|
                0 <= j < pieces.len() && (#[trigger] pieces[j]).coords.contains(s.coords[i]);
                    assert(roads.contains(pieces[j]));
                    let q = choose|q: int| 0 <= q < roads.len() && roads[q] == pieces[j];
                    assert(roads[q].coords.contains(s.coords[i]));
                }
            }
        }
    }
}

/// Welding loses no road and invents no vertex: all vertices of every road come out
/// in one stroke of its kind, every vertex that comes out was a vertex of some road,
/// and every stroke has a lane split per vertex.
pub proof fn weld_conserves(roads: Seq<StrokeView>, extent: u16)
    requires
        forall|i: int| 0 <= i < roads.len() ==> weldable(#[trigger] roads[i]),
    ensures
        forall|i: int|
            0 <= i < roads.len() ==> covered(#[trigger] roads[i], welded(roads, extent)),
        forall|m: int|
            0 <= m < welded(roads, extent).len() ==> stroke_of(
                #[trigger] welded(roads, extent)[m],
                roads,
            ),
{
    lemma_kind_strokes(roads, weld_tolerance(extent), ROAD_KINDS as nat);
    assert forall|i: int| 0 <= i < roads.len() implies covered(
        #[trigger] roads[i],
        welded(roads, extent),
    ) by {
        roads[i].kind.ordinal_roundtrip(roads[i].kind, 0);
    }
}

// ---- lone pieces ----

pub proof fn lemma_unused_only(ids: Seq<usize>, used: Seq<bool>)
    ensures
        forall|i: int|
            0 <= i < unused_only(ids, used).len() ==> ids.contains(#[trigger] unused_only(ids, used)[i])
                && !used[unused_only(ids, used)[i] as int / 2],
        forall|i: int|
            0 <= i < ids.len() && !used[#[trigger] ids[i] as int / 2] ==> unused_only(
                ids,
                used,
            ).contains(ids[i]),
    decreases ids.len(),
{
    let out = unused_only(ids, used);
    if ids.len() > 0 {
        let rest = ids.drop_last();
        let front = unused_only(rest, used);
        lemma_unused_only(rest, used);
        assert forall|i: int| 0 <= i < out.len() implies ids.contains(#[trigger] out[i])
            && !used[out[i] as int / 2] by {
            if i < front.len() {
                assert(out[i] == front[i]);
                let k = choose|k: int| 0 <= k < rest.len() && rest[k] == front[i];
                assert(ids[k] == out[i]);
            } else {
                assert(ids[ids.len() - 1] == out[i]);
            }
        }
        assert forall|i: int| 0 <= i < ids.len() && !used[#[trigger] ids[i] as int / 2] implies out.contains(
            ids[i],
        ) by {
            if i < rest.len() {
                assert(rest[i] == ids[i]);
                let k = choose|k: int| 0 <= k < front.len() && front[k] == rest[i];
                assert(out[k] == ids[i]);
            } else {
                assert(out[front.len() as int] == ids[i]);
            }
        }
    }
}

proof fn lemma_unused_only_none(ids: Seq<usize>, used: Seq<bool>)
    requires
        forall|i: int| 0 <= i < ids.len() ==> used[(#[trigger] ids[i]) as int / 2],
    ensures
        unused_only(ids, used).len() == 0,
    decreases ids.len(),
{
    if ids.len() > 0 {
        let front = ids.drop_last();
        assert forall|i: int| 0 <= i < front.len() implies used[(#[trigger] front[i]) as int / 2] by {
            assert(front[i] == ids[i]);
        }
        lemma_unused_only_none(front, used);
        assert(used[ids[ids.len() - 1] as int / 2]);
    }
}

/// No end of another piece is within the tolerance of `c`.
pub open spec fn apart(pieces: Seq<StrokeView>, k: int, c: [i32; 2], tol: int) -> bool {
    forall|p: int|
        0 <= p < 2 * pieces.len() && p / 2 != k ==> !near(
            #[trigger] port_points(pieces)[p],
            c,
            tol,
        )
}

proof fn lemma_apart_ends(
    pieces: Seq<StrokeView>,
    used: Seq<bool>,
    k: int,
    coords: Seq<[i32; 2]>,
    tol: int,
)
    requires
        tol >= 1,
        2 * pieces.len() <= usize::MAX,
        0 <= k < pieces.len(),
        used.len() == pieces.len(),
        used[k],
        apart(pieces, k, coords.last(), tol),
    ensures
        next_port(pieces, used, coords, tol) is None,
{
    let points = port_points(pieces);
    let here = grid_hits(points, coords.last(), tol);
    assert forall|i: int| 0 <= i < here.len() implies used[(#[trigger] here[i]) as int / 2] by {
        assert(here.contains(here[i]));
        grid_hits_complete(points, coords.last(), tol, here[i]);
        assert(near(points[here[i] as int], coords.last(), tol));
        assert(here[i] as int / 2 == k);
    }
    lemma_unused_only_none(here, used);
}

/// A piece neither of whose ends meets another piece, a dead end or a cut at the edge
/// of the view, comes out as it went in.
pub proof fn lone_piece_unchanged(pieces: Seq<StrokeView>, used: Seq<bool>, k: int, tol: int)
    requires
        tol >= 1,
        2 * pieces.len() <= usize::MAX,
        0 <= k < pieces.len(),
        used.len() == pieces.len(),
        weldable(pieces[k]),
        apart(pieces, k, pieces[k].coords.first(), tol),
        apart(pieces, k, pieces[k].coords.last(), tol),
    ensures
        stroke_from(pieces, used, k, tol) == (used.update(k, true), pieces[k]),
{
    let piece = pieces[k];
    let used0 = used.update(k, true);
    let g0 = seeded(piece);
    lemma_apart_ends(pieces, used0, k, g0.coords, tol);
    assert(grown(pieces, used0, g0, tol) == (used0, g0));
    let t = turned(g0);
    assert(t.coords.last() == piece.coords.first());
    lemma_apart_ends(pieces, used0, k, t.coords, tol);
    assert(grown(pieces, used0, t, tol) == (used0, t));
    let back = turned(t);
    assert(back.coords =~= piece.coords);
    assert(back.lanes =~= piece.lanes) by {
        assert forall|i: int| 0 <= i < piece.lanes.len() implies back.lanes[i] == piece.lanes[i] by {
            piece.lanes[i].swapped_involution();
        }
    }
    assert(finished(piece, back) =~= piece);
}

} // verus!
