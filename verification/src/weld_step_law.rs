//! How strokes grow piece by piece.

use vstd::prelude::*;

use crate::endpoint_grid::{grid_hits, grid_hits_complete, near};
use crate::turn::cosine;
use crate::weld_law::lemma_unused_only;
use crate::weld_model::{
    add_layer, finished, grown, incoming, joined, least_cosine, next_port, outgoing, port_points,
    seeded, straightest, stroke_from, top_layer, turned, unused_count, unused_only, weldable,
    Growth, StrokeView,
};

verus! {

// ---- joining ----

/// A piece that is joined by its start follows as it runs, one joined by its end follows
/// turned round, its lanes with their sides changed; a vertex that both have is kept once;
/// the stroke's own vertices and start stay, and its end becomes the piece's far end.
pub proof fn pieces_follow_on(g: Growth, piece: StrokeView, p: int, i: int)
    requires
        g.coords.len() >= 1,
        g.lanes.len() == g.coords.len(),
        weldable(piece),
    ensures
        ({
            let out = joined(g, piece, p);
            let n = g.coords.len() as int;
            let len = piece.coords.len() as int;
            let shared = if p % 2 == 0 {
                g.coords[n - 1] == piece.coords[0]
            } else {
                g.coords[n - 1] == piece.coords[len - 1]
            };
            let skip = if shared {
                1int
            } else {
                0
            };
            &&& out.coords.len() == n + len - skip
            &&& out.lanes.len() == n + len - skip
            &&& 0 <= i < n ==> out.coords[i] == g.coords[i] && out.lanes[i] == g.lanes[i]
            &&& 0 <= i < len - skip && p % 2 == 0 ==> out.coords[n + i] == piece.coords[i + skip]
                && out.lanes[n + i] == piece.lanes[i + skip]
            &&& 0 <= i < len - skip && p % 2 != 0 ==> {
                let k = len - 1 - skip - i;
                &&& out.coords[n + i] == piece.coords[k]
                &&& out.lanes[n + i].forward == piece.lanes[k].backward
                &&& out.lanes[n + i].backward == piece.lanes[k].forward
            }
            &&& out.start == g.start
            &&& p % 2 == 0 ==> out.end == piece.end
            &&& p % 2 != 0 ==> out.end == piece.start
        }),
{
}

/// A stroke that is turned round runs the other way, its lanes with their sides changed and
/// its ends swapped.
pub proof fn turning_swaps_all(g: Growth, i: int)
    requires
        g.lanes.len() == g.coords.len(),
        0 <= i < g.coords.len(),
    ensures
        turned(g).coords.len() == g.coords.len(),
        turned(g).lanes.len() == g.coords.len(),
        turned(g).coords[i] == g.coords[g.coords.len() - 1 - i],
        turned(g).lanes[i].forward == g.lanes[g.coords.len() - 1 - i].backward,
        turned(g).lanes[i].backward == g.lanes[g.coords.len() - 1 - i].forward,
        turned(g).start == g.end,
        turned(g).end == g.start,
{
}

// ---- layers ----

/// How many vertices lie on a layer.
pub open spec fn layer_total(layers: Seq<(i8, nat)>, layer: i8) -> nat
    decreases layers.len(),
{
    if layers.len() == 0 {
        0
    } else {
        layer_total(layers.skip(1), layer) + if layers[0].0 == layer {
            layers[0].1
        } else {
            0
        }
    }
}

/// A piece adds its vertices to its own layer and to no other.
pub proof fn layers_add_up(layers: Seq<(i8, nat)>, layer: i8, n: nat, other: i8)
    ensures
        layer_total(add_layer(layers, layer, n), other) == layer_total(layers, other) + (if other
            == layer {
            n
        } else {
            0
        }),
    decreases layers.len(),
{
    let out = add_layer(layers, layer, n);
    if layers.len() == 0 {
        assert(out.skip(1) =~= Seq::<(i8, nat)>::empty());
        assert(layer_total(out.skip(1), other) == 0);
    } else if layers[0].0 == layer {
        assert(out.skip(1) =~= layers.skip(1));
    } else {
        layers_add_up(layers.skip(1), layer, n, other);
        assert(out.skip(1) =~= add_layer(layers.skip(1), layer, n));
    }
}

/// The layer of a stroke is the one with the most vertices, the higher of equals.
pub proof fn most_vertices_win(layers: Seq<(i8, nat)>, i: int)
    requires
        0 <= i < layers.len(),
    ensures
        layers.contains(top_layer(layers)),
        layers[i].1 <= top_layer(layers).1,
        layers[i].1 == top_layer(layers).1 ==> layers[i].0 <= top_layer(layers).0,
    decreases layers.len(),
{
    if layers.len() > 1 {
        let rest = layers.drop_last();
        most_vertices_win(
            rest,
            if i < rest.len() {
                i
            } else {
                0
            },
        );
        let k = choose|k: int| 0 <= k < rest.len() && rest[k] == top_layer(rest);
        assert(layers[k] == rest[k]);
        assert(layers[layers.len() - 1] == layers.last());
        if i < rest.len() {
            assert(rest[i] == layers[i]);
        }
    } else {
        assert(layers[0] == top_layer(layers));
    }
}

// ---- the piece that starts a stroke ----

/// `part` stands in `whole` from place `at` on.
pub open spec fn runs_at<A>(part: Seq<A>, whole: Seq<A>, at: int) -> bool {
    0 <= at && at + part.len() <= whole.len() && forall|i: int|
        0 <= i < part.len() ==> #[trigger] whole[at + i] == part[i]
}

proof fn lemma_grown_prefix(pieces: Seq<StrokeView>, used: Seq<bool>, g: Growth, tol: int)
    requires
        g.coords.len() >= 1,
        g.lanes.len() == g.coords.len(),
        used.len() == pieces.len(),
        forall|k: int| 0 <= k < pieces.len() ==> weldable(#[trigger] pieces[k]),
    ensures
        ({
            let out = grown(pieces, used, g, tol).1;
            &&& out.coords.len() >= g.coords.len()
            &&& out.lanes.len() == out.coords.len()
            &&& out.start == g.start
            &&& forall|i: int|
                0 <= i < g.coords.len() ==> #[trigger] out.coords[i] == g.coords[i]
            &&& forall|i: int| 0 <= i < g.coords.len() ==> #[trigger] out.lanes[i] == g.lanes[i]
        }),
    decreases unused_count(used),
{
    if let Some(p) = next_port(pieces, used, g.coords, tol) {
        let j = p as int / 2;
        if 0 <= j < used.len() && !used[j] {
            crate::weld_model::lemma_unused_count_update(used, j);
            assert(weldable(pieces[j]));
            let g1 = joined(g, pieces[j], p as int);
            pieces_follow_on(g, pieces[j], p as int, 0);
            lemma_grown_prefix(pieces, used.update(j, true), g1, tol);
            let out = grown(pieces, used, g, tol).1;
            assert forall|i: int| 0 <= i < g.coords.len() implies #[trigger] out.coords[i]
                == g.coords[i] by {
                assert(g1.coords[i] == g.coords[i]);
            }
            assert forall|i: int| 0 <= i < g.coords.len() implies #[trigger] out.lanes[i]
                == g.lanes[i] by {
                assert(g1.lanes[i] == g.lanes[i]);
            }
        }
    }
}

/// A stroke runs the way of the piece that started it, holds that piece's vertices and
/// lanes unbroken, and has its kind, structure and name.
pub proof fn strokes_run_like_their_seed(
    pieces: Seq<StrokeView>,
    used: Seq<bool>,
    seed: int,
    tol: int,
) -> (at: int)
    requires
        used.len() == pieces.len(),
        0 <= seed < pieces.len(),
        forall|k: int| 0 <= k < pieces.len() ==> weldable(#[trigger] pieces[k]),
    ensures
        ({
            let s = stroke_from(pieces, used, seed, tol).1;
            &&& s.kind == pieces[seed].kind
            &&& s.structure == pieces[seed].structure
            &&& s.name == pieces[seed].name
            &&& runs_at(pieces[seed].coords, s.coords, at)
            &&& runs_at(pieces[seed].lanes, s.lanes, at)
        }),
{
    assert(weldable(pieces[seed]));
    let piece = pieces[seed];
    let g0 = seeded(piece);
    let used0 = used.update(seed, true);
    lemma_grown_prefix(pieces, used0, g0, tol);
    let (used1, g1) = grown(pieces, used0, g0, tol);
    let back = turned(g1);
    lemma_used_len(pieces, used0, g0, tol);
    lemma_grown_prefix(pieces, used1, back, tol);
    let (used2, g2) = grown(pieces, used1, back, tol);
    let out = turned(g2);
    let n1 = g1.coords.len() as int;
    let n2 = g2.coords.len() as int;
    let at = n2 - n1;
    assert forall|i: int| 0 <= i < piece.coords.len() implies #[trigger] out.coords[at + i]
        == piece.coords[i] by {
        assert(out.coords[at + i] == g2.coords[n1 - 1 - i]);
        assert(g2.coords[n1 - 1 - i] == back.coords[n1 - 1 - i]);
        assert(back.coords[n1 - 1 - i] == g1.coords[i]);
        assert(g1.coords[i] == g0.coords[i]);
    }
    assert forall|i: int| 0 <= i < piece.lanes.len() implies #[trigger] out.lanes[at + i]
        == piece.lanes[i] by {
        assert(out.lanes[at + i] == g2.lanes[n1 - 1 - i].spec_swapped());
        assert(g2.lanes[n1 - 1 - i] == back.lanes[n1 - 1 - i]);
        assert(back.lanes[n1 - 1 - i] == g1.lanes[i].spec_swapped());
        assert(g1.lanes[i] == g0.lanes[i]);
        piece.lanes[i].swapped_involution();
    }
    at
}

proof fn lemma_used_len(pieces: Seq<StrokeView>, used: Seq<bool>, g: Growth, tol: int)
    ensures
        grown(pieces, used, g, tol).0.len() == used.len(),
    decreases unused_count(used),
{
    if let Some(p) = next_port(pieces, used, g.coords, tol) {
        let j = p as int / 2;
        if 0 <= j < used.len() && !used[j] {
            crate::weld_model::lemma_unused_count_update(used, j);
            lemma_used_len(pieces, used.update(j, true), joined(g, pieces[j], p as int), tol);
        }
    }
}

// ---- junctions ----

/// The step with which a line arrives.
pub open spec fn arriving(coords: Seq<[i32; 2]>) -> (int, int) {
    let n = coords.len() as int;
    (coords[n - 1][0] - coords[n - 2][0], coords[n - 1][1] - coords[n - 2][1])
}

/// The step with which a piece leaves one of its ends.
pub open spec fn leaving(pieces: Seq<StrokeView>, r: int) -> (int, int) {
    let c = pieces[r / 2].coords;
    let n = c.len() as int;
    if r % 2 == 0 {
        (c[1][0] - c[0][0], c[1][1] - c[0][1])
    } else {
        (c[n - 2][0] - c[n - 1][0], c[n - 2][1] - c[n - 1][1])
    }
}

/// Port `r` is free and within the tolerance of `c`.
pub open spec fn free_at(
    pieces: Seq<StrokeView>,
    used: Seq<bool>,
    c: [i32; 2],
    tol: int,
    r: int,
) -> bool {
    &&& 0 <= r < 2 * pieces.len()
    &&& !used[r / 2]
    &&& near(port_points(pieces)[r], c, tol)
}

proof fn lemma_straightest_best(
    pieces: Seq<StrokeView>,
    u: (int, int),
    cands: Seq<usize>,
    k: nat,
)
    requires
        k <= cands.len(),
    ensures
        match straightest(pieces, u, cands, k) {
            Some(r) => cands.contains(r) && cosine(u, outgoing(pieces, r as int)) > least_cosine()
                && forall|i: int|
                0 <= i < k ==> cosine(u, outgoing(pieces, #[trigger] cands[i] as int)) <= cosine(
                    u,
                    outgoing(pieces, r as int),
                ),
            None => forall|i: int|
                0 <= i < k ==> cosine(u, outgoing(pieces, #[trigger] cands[i] as int))
                    <= least_cosine(),
        },
    decreases k,
{
    if k > 0 {
        lemma_straightest_best(pieces, u, cands, (k - 1) as nat);
        assert(cands.contains(cands[k - 1]));
    }
}

/// Where three ends or more meet, a line goes on through the free end that turns the least,
/// if its turn is straighter than half; else it ends there.
pub proof fn junctions_go_straight(
    pieces: Seq<StrokeView>,
    used: Seq<bool>,
    coords: Seq<[i32; 2]>,
    tol: int,
    x: int,
    y: int,
    z: int,
)
    requires
        tol >= 1,
        2 * pieces.len() <= usize::MAX,
        used.len() == pieces.len(),
        coords.len() >= 2,
        forall|k: int| 0 <= k < pieces.len() ==> (#[trigger] pieces[k]).coords.len() >= 2,
        0 <= x < y < z < 2 * pieces.len(),
        near(port_points(pieces)[x], coords[coords.len() - 1], tol),
        near(port_points(pieces)[y], coords[coords.len() - 1], tol),
        near(port_points(pieces)[z], coords[coords.len() - 1], tol),
    ensures
        ({
            let at = coords[coords.len() - 1];
            match next_port(pieces, used, coords, tol) {
                Some(r) => free_at(pieces, used, at, tol, r as int) && cosine(
                    arriving(coords),
                    leaving(pieces, r as int),
                ) > least_cosine() && forall|q: int| #[trigger]
                    free_at(pieces, used, at, tol, q) ==> cosine(
                        arriving(coords),
                        leaving(pieces, q),
                    ) <= cosine(arriving(coords), leaving(pieces, r as int)),
                None => forall|q: int| #[trigger]
                    free_at(pieces, used, at, tol, q) ==> cosine(
                        arriving(coords),
                        leaving(pieces, q),
                    ) <= least_cosine(),
            }
        }),
{
    let at = coords[coords.len() - 1];
    let points = port_points(pieces);
    let here = grid_hits(points, at, tol);
    let cands = unused_only(here, used);
    let u = incoming(coords);
    assert(u == arriving(coords));
    lemma_unused_only(here, used);
    grid_hits_complete(points, at, tol, x as usize);
    grid_hits_complete(points, at, tol, y as usize);
    grid_hits_complete(points, at, tol, z as usize);
    lemma_three(here, x as usize, y as usize, z as usize);
    lemma_straightest_best(pieces, u, cands, cands.len());
    assert forall|q: int| #[trigger] free_at(pieces, used, at, tol, q) implies cands.contains(
        q as usize,
    ) && outgoing(pieces, q) == leaving(pieces, q) by {
        grid_hits_complete(points, at, tol, q as usize);
        let i = choose|i: int| 0 <= i < here.len() && here[i] == q as usize;
        assert(!used[here[i] as int / 2]);
        assert(pieces[q / 2].coords.len() >= 2);
    }
    if let Some(r) = next_port(pieces, used, coords, tol) {
        let i = choose|i: int| 0 <= i < cands.len() && cands[i] == r;
        assert(here.contains(cands[i]));
        grid_hits_complete(points, at, tol, r);
        assert(free_at(pieces, used, at, tol, r as int));
        assert forall|q: int| #[trigger] free_at(pieces, used, at, tol, q) implies cosine(
            arriving(coords),
            leaving(pieces, q),
        ) <= cosine(arriving(coords), leaving(pieces, r as int)) by {
            let k = choose|k: int| 0 <= k < cands.len() && cands[k] == q as usize;
            assert(cosine(u, outgoing(pieces, cands[k] as int)) <= cosine(
                u,
                outgoing(pieces, r as int),
            ));
        }
    } else {
        assert forall|q: int| #[trigger] free_at(pieces, used, at, tol, q) implies cosine(
            arriving(coords),
            leaving(pieces, q),
        ) <= least_cosine() by {
            let k = choose|k: int| 0 <= k < cands.len() && cands[k] == q as usize;
            assert(cosine(u, outgoing(pieces, cands[k] as int)) <= least_cosine());
        }
    }
}

proof fn lemma_three(s: Seq<usize>, x: usize, y: usize, z: usize)
    requires
        s.contains(x),
        s.contains(y),
        s.contains(z),
        x < y < z,
    ensures
        s.len() >= 3,
{
    let i = choose|i: int| 0 <= i < s.len() && s[i] == x;
    let j = choose|j: int| 0 <= j < s.len() && s[j] == y;
    let k = choose|k: int| 0 <= k < s.len() && s[k] == z;
}

// ---- the layer of a stroke ----

/// A stroke counts the vertices of each of its pieces on the piece's layer, from the first
/// piece on, and takes the layer that has the most.
pub proof fn strokes_lie_where_most_vertices_do(
    g: Growth,
    piece: StrokeView,
    p: int,
    layer: i8,
)
    ensures
        layer_total(seeded(piece).layers, layer) == (if layer == piece.layer {
            piece.coords.len()
        } else {
            0
        }),
        layer_total(joined(g, piece, p).layers, layer) == layer_total(g.layers, layer) + (if layer
            == piece.layer {
            piece.coords.len()
        } else {
            0
        }),
        turned(g).layers == g.layers,
        finished(piece, g).layer == top_layer(g.layers).0,
        finished(piece, g).start == g.start,
        finished(piece, g).end == g.end,
        finished(piece, g).coords == g.coords,
        finished(piece, g).lanes == g.lanes,
        seeded(piece).coords == piece.coords,
        seeded(piece).lanes == piece.lanes,
        seeded(piece).start == piece.start,
        seeded(piece).end == piece.end,
{
    layers_add_up(g.layers, piece.layer, piece.coords.len(), layer);
    let s = seeded(piece).layers;
    assert(s.skip(1) =~= Seq::<(i8, nat)>::empty());
    assert(layer_total(s.skip(1), layer) == 0);
}

/// Of equally straight continuations the first one found goes on.
pub proof fn first_of_equals_goes_on(
    pieces: Seq<StrokeView>,
    u: (int, int),
    cands: Seq<usize>,
    k: nat,
)
    requires
        k <= cands.len(),
    ensures
        straightest(pieces, u, cands, k) matches Some(r) ==> exists|i: int|
            0 <= i < k && #[trigger] cands[i] == r && forall|j: int|
                0 <= j < i ==> cosine(u, outgoing(pieces, #[trigger] cands[j] as int)) < cosine(
                    u,
                    outgoing(pieces, r as int),
                ),
    decreases k,
{
    if k > 0 {
        let n = (k - 1) as nat;
        first_of_equals_goes_on(pieces, u, cands, n);
        lemma_straightest_best(pieces, u, cands, n);
        let p = cands[k - 1];
        let best = straightest(pieces, u, cands, n);
        if straightest(pieces, u, cands, k) == Some(p) && best != Some(p) {
            assert forall|j: int| 0 <= j < k - 1 implies cosine(
                u,
                outgoing(pieces, #[trigger] cands[j] as int),
            ) < cosine(u, outgoing(pieces, p as int)) by {}
            assert(cands[k - 1] == p);
        }
    }
}

} // verus!
