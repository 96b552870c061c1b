//! How road pieces are joined into strokes.
//!
//! Pieces of one kind are taken in order. Each that is not part of a stroke yet
//! starts one; the stroke grows at its tail, piece by piece, then is turned round,
//! grows at the other end and is turned back.

use vstd::prelude::*;

use crate::bytes::pow2n;
use crate::endpoint_grid::grid_hits;
use crate::feature::{EdgeNode, Lanes, RoadKind, RoadStructure};
use crate::turn::cosine;

verus! {

/// A road in the scene frame.
#[verifier::ext_equal]
pub struct StrokeView {
    pub kind: RoadKind,
    pub layer: i8,
    pub start: EdgeNode,
    pub end: EdgeNode,
    pub structure: RoadStructure,
    pub name: Option<Seq<char>>,
    pub coords: Seq<[i32; 2]>,
    /// One lane split per vertex.
    pub lanes: Seq<Lanes>,
}

/// A piece that can be welded: it has a vertex, a lane split per vertex, and at its ends
/// steps that fit 32 bits.
pub open spec fn weldable(r: StrokeView) -> bool {
    &&& r.coords.len() >= 1
    &&& r.lanes.len() == r.coords.len()
    &&& ends_fit(r.coords)
}

pub open spec fn step_fits(a: [i32; 2], b: [i32; 2]) -> bool {
    -0x8000_0000 <= b[0] - a[0] <= 0x7fff_ffff && -0x8000_0000 <= b[1] - a[1] <= 0x7fff_ffff
        && -0x8000_0000 <= a[0] - b[0] <= 0x7fff_ffff && -0x8000_0000 <= a[1] - b[1] <= 0x7fff_ffff
}

/// The first step and the last fit 32 bits either way.
pub open spec fn ends_fit(c: Seq<[i32; 2]>) -> bool {
    c.len() >= 2 ==> step_fits(c[0], c[1]) && step_fits(c[c.len() - 2], c[c.len() - 1])
}

/// The ends of the pieces: port `2k` is the start of piece `k`, port `2k + 1` its
/// end.
pub open spec fn port_points(pieces: Seq<StrokeView>) -> Seq<[i32; 2]> {
    Seq::new(
        2 * pieces.len(),
        |p: int|
            if p % 2 == 0 {
                pieces[p / 2].coords.first()
            } else {
                pieces[p / 2].coords.last()
            },
    )
}

// ---- direction ----

/// The direction from `a` to `b`.
pub open spec fn direction(a: [i32; 2], b: [i32; 2]) -> (int, int) {
    (b[0] - a[0], b[1] - a[1])
}

/// One half, in the units of `cosine`: the least cosine of a turn with which a piece counts
/// as continuing a line through a junction, about 60 degrees.
pub open spec fn least_cosine() -> int {
    pow2n(295) as int
}

/// The direction in which a line arrives at its last vertex.
pub open spec fn incoming(coords: Seq<[i32; 2]>) -> (int, int) {
    if coords.len() >= 2 {
        direction(coords[coords.len() - 2], coords[coords.len() - 1])
    } else {
        (0, 0)
    }
}

/// The direction in which a piece leaves port `p`.
pub open spec fn outgoing(pieces: Seq<StrokeView>, p: int) -> (int, int) {
    let c = pieces[p / 2].coords;
    if c.len() < 2 {
        (0, 0)
    } else if p % 2 == 0 {
        direction(c[0], c[1])
    } else {
        direction(c[c.len() - 1], c[c.len() - 2])
    }
}

/// The straightest continuation among the first `k` candidates, the first of equals.
pub open spec fn straightest(
    pieces: Seq<StrokeView>,
    u: (int, int),
    cands: Seq<usize>,
    k: nat,
) -> Option<usize>
    decreases k,
{
    if k == 0 {
        None
    } else {
        let best = straightest(pieces, u, cands, (k - 1) as nat);
        let p = cands[k - 1];
        if cosine(u, outgoing(pieces, p as int)) > best_cosine(pieces, u, best) {
            Some(p)
        } else {
            best
        }
    }
}

/// The cosine that a further candidate has to exceed.
pub open spec fn best_cosine(pieces: Seq<StrokeView>, u: (int, int), best: Option<usize>) -> int {
    match best {
        Some(p) => cosine(u, outgoing(pieces, p as int)),
        None => least_cosine(),
    }
}

// ---- growing a stroke ----

/// A stroke on the way.
#[verifier::ext_equal]
pub struct Growth {
    pub coords: Seq<[i32; 2]>,
    pub lanes: Seq<Lanes>,
    pub start: EdgeNode,
    pub end: EdgeNode,
    /// For each layer met, in the order of meeting, how many piece vertices lie on it.
    pub layers: Seq<(i8, nat)>,
}

/// The ports in `ids` whose piece is not part of a stroke yet.
pub open spec fn unused_only(ids: Seq<usize>, used: Seq<bool>) -> Seq<usize>
    decreases ids.len(),
{
    if ids.len() == 0 {
        Seq::empty()
    } else {
        let front = unused_only(ids.drop_last(), used);
        if !used[ids.last() as int / 2] {
            front.push(ids.last())
        } else {
            front
        }
    }
}

/// The port that continues a line which ends in `coords`: where no more than two
/// piece ends meet, the free one, at any angle; at a junction the straightest that
/// turns by less than about 60 degrees.
pub open spec fn next_port(
    pieces: Seq<StrokeView>,
    used: Seq<bool>,
    coords: Seq<[i32; 2]>,
    tol: int,
) -> Option<usize> {
    let here = grid_hits(port_points(pieces), coords.last(), tol);
    let cands = unused_only(here, used);
    if cands.len() == 0 {
        None
    } else if here.len() <= 2 {
        Some(cands[0])
    } else {
        straightest(pieces, incoming(coords), cands, cands.len())
    }
}

/// `n` more vertices on `layer`.
pub open spec fn add_layer(layers: Seq<(i8, nat)>, layer: i8, n: nat) -> Seq<(i8, nat)>
    decreases layers.len(),
{
    if layers.len() == 0 {
        seq![(layer, n)]
    } else if layers[0].0 == layer {
        layers.update(0, (layer, layers[0].1 + n))
    } else {
        seq![layers[0]] + add_layer(layers.skip(1), layer, n)
    }
}

/// A lane split per vertex, as seen in the opposite direction of travel.
pub open spec fn lanes_reversed(lanes: Seq<Lanes>) -> Seq<Lanes> {
    Seq::new(lanes.len(), |i: int| lanes[lanes.len() - 1 - i].spec_swapped())
}

/// The stroke with a piece joined to its tail by port `p`. A joining vertex that
/// coincides is kept once.
pub open spec fn joined(g: Growth, piece: StrokeView, p: int) -> Growth {
    let layers = add_layer(g.layers, piece.layer, piece.coords.len());
    if p % 2 == 0 {
        let skip = if g.coords.last() == piece.coords.first() {
            1int
        } else {
            0
        };
        Growth {
            coords: g.coords + piece.coords.skip(skip),
            lanes: g.lanes + piece.lanes.skip(skip),
            start: g.start,
            end: piece.end,
            layers,
        }
    } else {
        let take = piece.coords.len() - if g.coords.last() == piece.coords.last() {
            1int
        } else {
            0
        };
        Growth {
            coords: g.coords + piece.coords.take(take).reverse(),
            lanes: g.lanes + lanes_reversed(piece.lanes.take(take)),
            start: g.start,
            end: piece.start,
            layers,
        }
    }
}

/// The stroke turned round.
pub open spec fn turned(g: Growth) -> Growth {
    Growth {
        coords: g.coords.reverse(),
        lanes: lanes_reversed(g.lanes),
        start: g.end,
        end: g.start,
        layers: g.layers,
    }
}

pub open spec fn unused_count(used: Seq<bool>) -> nat
    decreases used.len(),
{
    if used.len() == 0 {
        0
    } else {
        unused_count(used.drop_last()) + if used.last() {
            0nat
        } else {
            1nat
        }
    }
}

pub proof fn lemma_unused_count_update(used: Seq<bool>, j: int)
    requires
        0 <= j < used.len(),
        !used[j],
    ensures
        unused_count(used.update(j, true)) < unused_count(used),
    decreases used.len(),
{
    let now = used.update(j, true);
    if j == used.len() - 1 {
        assert(now.drop_last() =~= used.drop_last());
    } else {
        lemma_unused_count_update(used.drop_last(), j);
        assert(now.drop_last() =~= used.drop_last().update(j, true));
    }
}

/// Grow a stroke at its tail as far as it goes.
pub open spec fn grown(pieces: Seq<StrokeView>, used: Seq<bool>, g: Growth, tol: int) -> (
    Seq<bool>,
    Growth,
)
    decreases unused_count(used),
{
    match next_port(pieces, used, g.coords, tol) {
        None => (used, g),
        Some(p) => {
            let j = p as int / 2;
            if 0 <= j < used.len() && !used[j] {
                proof {
                    lemma_unused_count_update(used, j);
                }
                grown(pieces, used.update(j, true), joined(g, pieces[j], p as int), tol)
            } else {
                (used, g)
            }
        },
    }
}

/// A stroke of one piece.
pub open spec fn seeded(piece: StrokeView) -> Growth {
    Growth {
        coords: piece.coords,
        lanes: piece.lanes,
        start: piece.start,
        end: piece.end,
        layers: seq![(piece.layer, piece.coords.len())],
    }
}

/// The layer that covers the most vertices, the higher of equals.
pub open spec fn top_layer(layers: Seq<(i8, nat)>) -> (i8, nat)
    decreases layers.len(),
{
    if layers.len() <= 1 {
        layers[0]
    } else {
        let best = top_layer(layers.drop_last());
        let (l, n) = layers.last();
        if n > best.1 || (n == best.1 && l >= best.0) {
            (l, n)
        } else {
            best
        }
    }
}

/// The road that a finished stroke becomes: kind, structure and name of the piece
/// that started it.
pub open spec fn finished(seed: StrokeView, g: Growth) -> StrokeView {
    StrokeView {
        kind: seed.kind,
        layer: top_layer(g.layers).0,
        start: g.start,
        end: g.end,
        structure: seed.structure,
        name: seed.name,
        coords: g.coords,
        lanes: g.lanes,
    }
}

/// The stroke that starts from piece `seed`, grown both ways, and the pieces used.
pub open spec fn stroke_from(pieces: Seq<StrokeView>, used: Seq<bool>, seed: int, tol: int) -> (
    Seq<bool>,
    StrokeView,
) {
    let (used1, g1) = grown(pieces, used.update(seed, true), seeded(pieces[seed]), tol);
    let (used2, g2) = grown(pieces, used1, turned(g1), tol);
    (used2, finished(pieces[seed], turned(g2)))
}

/// The strokes of the pieces from `seed` on.
pub open spec fn strokes(pieces: Seq<StrokeView>, used: Seq<bool>, seed: nat, tol: int) -> Seq<
    StrokeView,
>
    decreases pieces.len() - seed,
{
    if seed >= pieces.len() {
        Seq::empty()
    } else if used[seed as int] {
        strokes(pieces, used, seed + 1, tol)
    } else {
        let (used2, stroke) = stroke_from(pieces, used, seed as int, tol);
        seq![stroke] + strokes(pieces, used2, seed + 1, tol)
    }
}

pub open spec fn none_used(n: nat) -> Seq<bool> {
    Seq::new(n, |i: int| false)
}

/// The strokes of a group of pieces.
pub open spec fn group_strokes(pieces: Seq<StrokeView>, tol: int) -> Seq<StrokeView> {
    strokes(pieces, none_used(pieces.len()), 0, tol)
}

/// The roads of one kind, in order.
pub open spec fn roads_of_kind(roads: Seq<StrokeView>, kind: u8) -> Seq<StrokeView>
    decreases roads.len(),
{
    if roads.len() == 0 {
        Seq::empty()
    } else {
        let front = roads_of_kind(roads.drop_last(), kind);
        if roads.last().kind.ordinal() == kind {
            front.push(roads.last())
        } else {
            front
        }
    }
}

/// The strokes of the first `k` kinds.
pub open spec fn kind_strokes(roads: Seq<StrokeView>, tol: int, k: nat) -> Seq<StrokeView>
    decreases k,
{
    if k == 0 {
        Seq::empty()
    } else {
        kind_strokes(roads, tol, (k - 1) as nat) + group_strokes(
            roads_of_kind(roads, (k - 1) as u8),
            tol,
        )
    }
}

/// How many road kinds there are.
pub const ROAD_KINDS: u8 = 16;

/// How far apart two ends may lie and still meet.
pub open spec fn weld_tolerance(extent: u16) -> int {
    if extent / 1024 >= 1 {
        extent as int / 1024
    } else {
        1
    }
}

/// The strokes of all roads, kind by kind.
pub open spec fn welded(roads: Seq<StrokeView>, extent: u16) -> Seq<StrokeView> {
    kind_strokes(roads, weld_tolerance(extent), ROAD_KINDS as nat)
}

} // verus!
