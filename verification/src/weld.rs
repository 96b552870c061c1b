//! Welding road pieces into continuous strokes, and matching stroke widths where
//! strokes meet.

use vstd::prelude::*;

use crate::bytes::pow2n;
use crate::double::{lemma_pow2n_joins, lemma_pow2n_values};
use crate::endpoint_grid::{grid_hits, grid_hits_complete, near, EndpointGrid};
use crate::feature::{EdgeNode, Lanes, RoadKind, RoadStructure};
use crate::hilbert::lemma_pow2n_positive;
use crate::record::name_view;
use crate::turn::{cosine, cosine_of, dir_view, is_small};
use crate::weld_model::{
    add_layer, best_cosine, direction, ends_fit, group_strokes, grown, incoming, joined,
    kind_strokes, lanes_reversed, least_cosine, lemma_unused_count_update, next_port, none_used,
    outgoing, port_points, roads_of_kind, seeded, step_fits, straightest, stroke_from, strokes,
    top_layer, turned, unused_count, unused_only, weld_tolerance, weldable, welded, Growth,
    StrokeView, ROAD_KINDS,
};

verus! {

pub struct SceneRoad {
    pub kind: RoadKind,
    pub layer: i8,
    pub start: EdgeNode,
    pub end: EdgeNode,
    pub structure: RoadStructure,
    pub name: Option<String>,
    pub coords: Vec<[i32; 2]>,
    /// Per-vertex lane split (forward/backward), parallel to `coords`. The total
    /// (`forward + backward`) drives the stroke width and varies it smoothly at
    /// lane changes; the split places the direction divider (center line) for
    /// lane-line rendering. `forward == backward == 0` means untagged.
    pub lanes: Vec<Lanes>,
}

impl View for SceneRoad {
    type V = StrokeView;

    open spec fn view(&self) -> StrokeView {
        StrokeView {
            kind: self.kind,
            layer: self.layer,
            start: self.start,
            end: self.end,
            structure: self.structure,
            name: name_view(self.name),
            coords: self.coords@,
            lanes: self.lanes@,
        }
    }
}

pub open spec fn roads_view(roads: Seq<SceneRoad>) -> Seq<StrokeView> {
    Seq::new(roads.len(), |i: int| roads[i]@)
}

/// The roads at the given indices.
pub open spec fn pieces_at(roads: Seq<SceneRoad>, idxs: Seq<usize>) -> Seq<StrokeView> {
    Seq::new(idxs.len(), |k: int| roads[idxs[k] as int]@)
}

/// Fraction of the tile extent used as the endpoint-welding tolerance: two piece
/// ends within `extent / WELD_TOL_DIV` scene units are treated as the same node.
/// At extent 8192 this is 8 units, a couple of metres at the base grid zoom: far
/// below the spacing between distinct or parallel roads (tens of metres), so it only
/// ever stitches a shared node that was digitised as two near-coincident points,
/// never merges separate roads.
pub const WELD_TOL_DIV: u16 = 1024;

pub fn tolerance(extent: u16) -> (r: i32)
    ensures
        r == weld_tolerance(extent),
        1 <= r <= 63,
{
    let t: i32 = (extent / WELD_TOL_DIV) as i32;
    if t >= 1 {
        t
    } else {
        1
    }
}

/// Minimum cosine of the turn for a piece to count as continuing a line through a junction:
/// one half, about 60 degrees, in units of `2^-118`. A sharper piece is a branch, so the
/// line ends and the branch stays a separate stroke. The straightest candidate always wins,
/// so this only gates the case where no near-straight continuation exists.
pub const CONTINUATION_MIN_COS: i128 = 0x20_0000_0000_0000_0000_0000_0000_0000;

// ---- direction ----

fn dir(a: [i32; 2], b: [i32; 2]) -> (r: (i64, i64))
    requires
        step_fits(a, b),
    ensures
        dir_view(r) == direction(a, b),
        is_small(r),
{
    (b[0] as i64 - a[0] as i64, b[1] as i64 - a[1] as i64)
}

// ---- a stroke on the way ----

struct Stroke {
    coords: Vec<[i32; 2]>,
    lanes: Vec<Lanes>,
    start: EdgeNode,
    end: EdgeNode,
    /// Vertices per layer. Pieces may span structural layers (bridge/tunnel portals).
    layer_len: Vec<(i8, u128)>,
}

spec fn layers_view(s: Seq<(i8, u128)>) -> Seq<(i8, nat)> {
    Seq::new(s.len(), |i: int| (s[i].0, s[i].1 as nat))
}

impl View for Stroke {
    type V = Growth;

    closed spec fn view(&self) -> Growth {
        Growth {
            coords: self.coords@,
            lanes: self.lanes@,
            start: self.start,
            end: self.end,
            layers: layers_view(self.layer_len@),
        }
    }
}

/// What every stroke on the way keeps.
spec fn growth_ok(g: Growth) -> bool {
    &&& g.coords.len() >= 1
    &&& g.lanes.len() == g.coords.len()
    &&& ends_fit(g.coords)
    &&& g.layers.len() >= 1
}

/// No layer has more vertices than `k` pieces can bring.
spec fn layers_within(layers: Seq<(i8, nat)>, k: nat) -> bool {
    forall|i: int| 0 <= i < layers.len() ==> (#[trigger] layers[i]).1 <= k * usize::MAX as nat
}

proof fn lemma_add_layer(layers: Seq<(i8, nat)>, layer: i8, n: nat, k: nat)
    requires
        layers_within(layers, k),
        n <= usize::MAX,
    ensures
        layers_within(add_layer(layers, layer, n), k + 1),
        add_layer(layers, layer, n).len() >= 1,
    decreases layers.len(),
{
    let out = add_layer(layers, layer, n);
    assert((k + 1) * usize::MAX as nat == k * usize::MAX as nat + usize::MAX) by (nonlinear_arith);
    if layers.len() == 0 {
    } else if layers[0].0 == layer {
        assert forall|i: int| 0 <= i < out.len() implies (#[trigger] out[i]).1 <= (k + 1)
            * usize::MAX as nat by {
            assert(layers[i].1 <= k * usize::MAX as nat);
        }
    } else {
        let rest = layers.skip(1);
        assert forall|i: int| 0 <= i < rest.len() implies (#[trigger] rest[i]).1 <= k
            * usize::MAX as nat by {
            assert(rest[i] == layers[i + 1]);
        }
        lemma_add_layer(rest, layer, n, k);
        assert forall|i: int| 0 <= i < out.len() implies (#[trigger] out[i]).1 <= (k + 1)
            * usize::MAX as nat by {
            if i == 0 {
                assert(layers[0].1 <= k * usize::MAX as nat);
            } else {
                assert(out[i] == add_layer(rest, layer, n)[i - 1]);
            }
        }
    }
}

proof fn lemma_add_layer_miss(layers: Seq<(i8, nat)>, layer: i8, n: nat, k: int)
    requires
        0 <= k <= layers.len(),
        forall|i: int| 0 <= i < k ==> (#[trigger] layers[i]).0 != layer,
    ensures
        k == layers.len() ==> add_layer(layers, layer, n) == layers.push((layer, n)),
        k < layers.len() && layers[k].0 == layer ==> add_layer(layers, layer, n) == layers.update(
            k,
            (layer, layers[k].1 + n),
        ),
    decreases layers.len(),
{
    if layers.len() == 0 {
        assert(add_layer(layers, layer, n) =~= layers.push((layer, n)));
    } else if k > 0 {
        let rest = layers.skip(1);
        assert(layers[0].0 != layer);
        assert forall|i: int| 0 <= i < k - 1 implies (#[trigger] rest[i]).0 != layer by {
            assert(rest[i] == layers[i + 1]);
        }
        lemma_add_layer_miss(rest, layer, n, k - 1);
        if k == layers.len() {
            assert(seq![layers[0]] + rest.push((layer, n)) =~= layers.push((layer, n)));
        } else if layers[k].0 == layer {
            assert(rest[k - 1] == layers[k]);
            assert(seq![layers[0]] + rest.update(k - 1, (layer, layers[k].1 + n))
                =~= layers.update(k, (layer, layers[k].1 + n)));
        }
    }
}

impl Stroke {
    fn seed(piece: &SceneRoad) -> (r: Self)
        ensures
            r@ == seeded(piece@),
    {
        let mut layer_len: Vec<(i8, u128)> = Vec::new();
        layer_len.push((piece.layer, piece.coords.len() as u128));
        let r = Stroke {
            coords: copy_points(&piece.coords),
            lanes: copy_lanes(&piece.lanes),
            start: piece.start,
            end: piece.end,
            layer_len,
        };
        assert(r@.layers =~= seeded(piece@).layers);
        r
    }

    fn add_layer(&mut self, layer: i8, n: usize, Ghost(k): Ghost<nat>)
        requires
            layers_within(old(self)@.layers, k),
            k < usize::MAX,
        ensures
            final(self)@ == (Growth {
                layers: add_layer(old(self)@.layers, layer, n as nat),
                ..old(self)@
            }),
            layers_within(final(self)@.layers, k + 1),
            final(self)@.layers.len() >= 1,
    {
        let ghost before = self@.layers;
        let mut i: usize = 0;
        while i < self.layer_len.len() && self.layer_len[i].0 != layer
            invariant
                *self == *old(self),
                before == layers_view(self.layer_len@),
                i <= self.layer_len@.len(),
                forall|m: int| 0 <= m < i ==> (#[trigger] before[m]).0 != layer,
            decreases self.layer_len@.len() - i,
        {
            assert(before[i as int].0 != layer);
            i = i + 1;
        }
        proof {
            lemma_add_layer_miss(before, layer, n as nat, i as int);
            lemma_add_layer(before, layer, n as nat, k);
            if i < before.len() {
                assert(before[i as int].1 <= k * usize::MAX as nat);
                assert(k * usize::MAX as nat + usize::MAX <= u128::MAX) by (nonlinear_arith)
                    requires
                        k < usize::MAX,
                ;
            }
        }
        if i < self.layer_len.len() {
            let old_n: u128 = self.layer_len[i].1;
            self.layer_len[i] = (layer, old_n + n as u128);
        } else {
            self.layer_len.push((layer, n as u128));
        }
        assert(layers_view(self.layer_len@) =~= add_layer(before, layer, n as nat));
    }

    /// Join a piece to the tail by port `p`.
    fn join(&mut self, piece: &SceneRoad, p: usize, Ghost(k): Ghost<nat>)
        requires
            growth_ok(old(self)@),
            weldable(piece@),
            layers_within(old(self)@.layers, k),
            k < usize::MAX,
            step_fits(
                old(self)@.coords.last(),
                if p % 2 == 0 {
                    piece@.coords.first()
                } else {
                    piece@.coords.last()
                },
            ),
        ensures
            final(self)@ == joined(old(self)@, piece@, p as int),
            growth_ok(final(self)@),
            layers_within(final(self)@.layers, k + 1),
    {
        let ghost g = self@;
        let ghost want = joined(g, piece@, p as int);
        self.add_layer(piece.layer, piece.coords.len(), Ghost(k));
        let tail: [i32; 2] = self.coords[self.coords.len() - 1];
        let n: usize = piece.coords.len();
        if p % 2 == 0 {
            let head: [i32; 2] = piece.coords[0];
            let same: bool = tail[0] == head[0] && tail[1] == head[1];
            assert(same == (tail == head)) by {
                if same {
                    assert(tail =~= head);
                }
            }
            let skip: usize = if same {
                1
            } else {
                0
            };
            let mut i: usize = skip;
            assert(self.coords@ =~= g.coords + piece.coords@.subrange(skip as int, skip as int));
            assert(self.lanes@ =~= g.lanes + piece.lanes@.subrange(skip as int, skip as int));
            while i < n
                invariant
                    skip <= i <= n,
                    n == piece.coords@.len(),
                    n == piece.lanes@.len(),
                    self.coords@ == g.coords + piece.coords@.subrange(skip as int, i as int),
                    self.lanes@ == g.lanes + piece.lanes@.subrange(skip as int, i as int),
                    self.start == g.start,
                    self@.layers == want.layers,
                decreases n - i,
            {
                self.coords.push(piece.coords[i]);
                self.lanes.push(piece.lanes[i]);
                i = i + 1;
                assert(self.coords@ =~= g.coords + piece.coords@.subrange(skip as int, i as int));
                assert(self.lanes@ =~= g.lanes + piece.lanes@.subrange(skip as int, i as int));
            }
            self.end = piece.end;
            proof {
                assert(piece.coords@.subrange(skip as int, n as int) =~= piece.coords@.skip(
                    skip as int,
                ));
                assert(piece.lanes@.subrange(skip as int, n as int) =~= piece.lanes@.skip(
                    skip as int,
                ));
                lemma_ends_join(g.coords, piece.coords@.skip(skip as int));
            }
        } else {
            let last: [i32; 2] = piece.coords[n - 1];
            let same: bool = tail[0] == last[0] && tail[1] == last[1];
            assert(same == (tail == last)) by {
                if same {
                    assert(tail =~= last);
                }
            }
            let take: usize = if same {
                n - 1
            } else {
                n
            };
            let mut i: usize = take;
            let ghost added = piece.coords@.take(take as int).reverse();
            let ghost added_lanes = lanes_reversed(piece.lanes@.take(take as int));
            assert(self.coords@ =~= g.coords + added.take(0));
            assert(self.lanes@ =~= g.lanes + added_lanes.take(0));
            while i > 0
                invariant
                    0 <= i <= take <= n,
                    n == piece.coords@.len(),
                    n == piece.lanes@.len(),
                    added == piece.coords@.take(take as int).reverse(),
                    added_lanes == lanes_reversed(piece.lanes@.take(take as int)),
                    self.coords@ == g.coords + added.take(take - i),
                    self.lanes@ == g.lanes + added_lanes.take(take - i),
                    self.start == g.start,
                    self@.layers == want.layers,
                decreases i,
            {
                i = i - 1;
                self.coords.push(piece.coords[i]);
                self.lanes.push(piece.lanes[i].swapped());
                assert(self.coords@ =~= g.coords + added.take(take - i));
                assert(self.lanes@ =~= g.lanes + added_lanes.take(take - i));
            }
            self.end = piece.start;
            proof {
                assert(added.take(take as int) =~= added);
                assert(added_lanes.take(take as int) =~= added_lanes);
                lemma_ends_join(g.coords, added);
            }
        }
        assert(self@ =~= want);
    }

    /// Turn the stroke round: flipping the whole polyline flips every vertex's travel
    /// direction.
    fn turn_round(&mut self)
        requires
            growth_ok(old(self)@),
        ensures
            final(self)@ == turned(old(self)@),
            growth_ok(final(self)@),
    {
        let ghost g = self@;
        let n: usize = self.coords.len();
        let mut coords: Vec<[i32; 2]> = Vec::new();
        let mut lanes: Vec<Lanes> = Vec::new();
        let mut i: usize = n;
        while i > 0
            invariant
                i <= n,
                n == self.coords@.len(),
                n == self.lanes@.len(),
                coords@.len() == n - i,
                lanes@.len() == n - i,
                forall|m: int| 0 <= m < n - i ==> #[trigger] coords@[m] == self.coords@[n - 1 - m],
                forall|m: int|
                    0 <= m < n - i ==> #[trigger] lanes@[m] == self.lanes@[n - 1 - m].spec_swapped(),
            decreases i,
        {
            i = i - 1;
            coords.push(self.coords[i]);
            lanes.push(self.lanes[i].swapped());
        }
        self.coords = coords;
        self.lanes = lanes;
        let start: EdgeNode = self.start;
        self.start = self.end;
        self.end = start;
        proof {
            assert(self@.coords =~= g.coords.reverse());
            assert(self@.lanes =~= lanes_reversed(g.lanes));
        }
    }

    /// The layer covering the most length (ties go to the higher layer), so a
    /// mostly-surface road with a short bridge stays at surface level.
    fn top_layer(&self) -> (r: i8)
        requires
            self@.layers.len() >= 1,
        ensures
            r == top_layer(self@.layers).0,
    {
        let ghost layers = self@.layers;
        let mut best: (i8, u128) = self.layer_len[0];
        let mut i: usize = 1;
        assert(layers.take(1)[0] == layers[0]);
        while i < self.layer_len.len()
            invariant
                1 <= i <= self.layer_len@.len(),
                layers == layers_view(self.layer_len@),
                top_layer(layers.take(i as int)) == (best.0, best.1 as nat),
            decreases self.layer_len@.len() - i,
        {
            let e: (i8, u128) = self.layer_len[i];
            if e.1 > best.1 || (e.1 == best.1 && e.0 >= best.0) {
                best = e;
            }
            i = i + 1;
            proof {
                let done = layers.take(i as int);
                assert(done.drop_last() =~= layers.take(i - 1));
                assert(done.last() == (e.0, e.1 as nat));
            }
        }
        assert(layers.take(i as int) =~= layers);
        best.0
    }
}

proof fn lemma_ends_join(a: Seq<[i32; 2]>, b: Seq<[i32; 2]>)
    requires
        a.len() >= 1,
        ends_fit(a),
        b.len() > 0 ==> step_fits(a.last(), b[0]),
        b.len() >= 2 ==> step_fits(b[b.len() - 2], b[b.len() - 1]),
    ensures
        ends_fit(a + b),
{
    assert(b.len() == 0 ==> a + b =~= a);
}

pub fn copy_points(c: &Vec<[i32; 2]>) -> (r: Vec<[i32; 2]>)
    ensures
        r@ == c@,
{
    let mut r: Vec<[i32; 2]> = Vec::new();
    let mut i: usize = 0;
    while i < c.len()
        invariant
            i <= c@.len(),
            r@ == c@.take(i as int),
        decreases c@.len() - i,
    {
        r.push(c[i]);
        i = i + 1;
        assert(c@.take(i as int) =~= c@.take(i - 1).push(c@[i - 1]));
    }
    assert(c@.take(i as int) =~= c@);
    r
}

fn copy_lanes(c: &Vec<Lanes>) -> (r: Vec<Lanes>)
    ensures
        r@ == c@,
{
    let mut r: Vec<Lanes> = Vec::new();
    let mut i: usize = 0;
    while i < c.len()
        invariant
            i <= c@.len(),
            r@ == c@.take(i as int),
        decreases c@.len() - i,
    {
        r.push(c[i]);
        i = i + 1;
        assert(c@.take(i as int) =~= c@.take(i - 1).push(c@[i - 1]));
    }
    assert(c@.take(i as int) =~= c@);
    r
}

// ---- welding ----

proof fn lemma_unused_only(ids: Seq<usize>, used: Seq<bool>, m: nat)
    requires
        forall|i: int| 0 <= i < ids.len() ==> (#[trigger] ids[i]) < m,
    ensures
        forall|i: int|
            0 <= i < unused_only(ids, used).len() ==> {
                let p = #[trigger] unused_only(ids, used)[i];
                p < m && !used[p as int / 2] && ids.contains(p)
            },
    decreases ids.len(),
{
    if ids.len() > 0 {
        let front = ids.drop_last();
        assert forall|i: int| 0 <= i < front.len() implies (#[trigger] front[i]) < m by {
            assert(front[i] == ids[i]);
        }
        lemma_unused_only(front, used, m);
        let out = unused_only(ids, used);
        assert forall|i: int| 0 <= i < out.len() implies {
            let p = #[trigger] out[i];
            p < m && !used[p as int / 2] && ids.contains(p)
        } by {
            let sub = unused_only(front, used);
            if i < sub.len() {
                assert(out[i] == sub[i]);
                let p = sub[i];
                assert(front.contains(p));
                let j = choose|j: int| 0 <= j < front.len() && front[j] == p;
                assert(ids[j] == p);
            } else {
                assert(ids[ids.len() - 1] == out[i]);
            }
        }
    }
}

/// The straightest of the candidates wins, and none does that turns too sharply.
pub proof fn straightest_wins(pieces: Seq<StrokeView>, u: (int, int), cands: Seq<usize>, k: nat)
    requires
        k <= cands.len(),
    ensures
        ({
            let best = straightest(pieces, u, cands, k);
            &&& best matches Some(p) ==> cands.contains(p) && cosine(u, outgoing(pieces, p as int))
                > least_cosine()
            &&& forall|i: int|
                0 <= i < k ==> cosine(u, outgoing(pieces, #[trigger] cands[i] as int))
                    <= best_cosine(pieces, u, best)
        }),
    decreases k,
{
    if k > 0 {
        straightest_wins(pieces, u, cands, (k - 1) as nat);
        assert(cands.contains(cands[k - 1]));
    }
}

/// The port a line continues by is a free piece's end within the tolerance of its
/// last vertex.
pub proof fn next_port_meets(
    pieces: Seq<StrokeView>,
    used: Seq<bool>,
    coords: Seq<[i32; 2]>,
    tol: int,
)
    requires
        tol >= 1,
        used.len() == pieces.len(),
        2 * pieces.len() <= usize::MAX,
    ensures
        next_port(pieces, used, coords, tol) matches Some(p) ==> p < 2 * pieces.len()
            && !used[p as int / 2] && near(port_points(pieces)[p as int], coords.last(), tol),
{
    let points = port_points(pieces);
    let here = grid_hits(points, coords.last(), tol);
    crate::endpoint_grid::lemma_hits_in_range(points, coords.last(), tol);
    lemma_unused_only(here, used, points.len());
    let cands = unused_only(here, used);
    straightest_wins(pieces, incoming(coords), cands, cands.len());
    if let Some(p) = next_port(pieces, used, coords, tol) {
        assert(cands.contains(p)) by {
            if here.len() <= 2 {
                assert(cands[0] == p);
            }
        }
        let i = choose|i: int| 0 <= i < cands.len() && cands[i] == p;
        assert(cands[i] == p);
        grid_hits_complete(points, coords.last(), tol, p);
    }
}

/// The ends of a group's pieces.
fn ports_of(roads: &Vec<SceneRoad>, idxs: &Vec<usize>) -> (r: Vec<[i32; 2]>)
    requires
        forall|k: int| 0 <= k < idxs@.len() ==> (#[trigger] idxs@[k]) < roads@.len(),
        forall|k: int|
            0 <= k < idxs@.len() ==> weldable(#[trigger] pieces_at(roads@, idxs@)[k]),
    ensures
        r@ == port_points(pieces_at(roads@, idxs@)),
{
    let ghost pieces = pieces_at(roads@, idxs@);
    let mut r: Vec<[i32; 2]> = Vec::new();
    let mut k: usize = 0;
    while k < idxs.len()
        invariant
            k <= idxs@.len(),
            pieces == pieces_at(roads@, idxs@),
            forall|k: int| 0 <= k < idxs@.len() ==> (#[trigger] idxs@[k]) < roads@.len(),
            forall|k: int| 0 <= k < idxs@.len() ==> weldable(#[trigger] pieces[k]),
            r@.len() == 2 * k,
            forall|p: int| 0 <= p < r@.len() ==> #[trigger] r@[p] == port_points(pieces)[p],
        decreases idxs@.len() - k,
    {
        assert(weldable(pieces[k as int]));
        let piece: &SceneRoad = &roads[idxs[k]];
        r.push(piece.coords[0]);
        r.push(piece.coords[piece.coords.len() - 1]);
        k = k + 1;
    }
    assert(r@ =~= port_points(pieces));
    r
}

/// A group of pieces to weld.
struct Group<'a> {
    roads: &'a Vec<SceneRoad>,
    idxs: &'a Vec<usize>,
    grid: EndpointGrid,
}

impl<'a> Group<'a> {
    spec fn pieces(&self) -> Seq<StrokeView> {
        pieces_at(self.roads@, self.idxs@)
    }

    spec fn wf(&self) -> bool {
        &&& self.grid.wf()
        &&& 1 <= self.grid.tol() <= 63
        &&& self.grid.points() == port_points(self.pieces())
        &&& 2 * self.idxs@.len() <= usize::MAX
        &&& forall|k: int| 0 <= k < self.idxs@.len() ==> (#[trigger] self.idxs@[k]) < self.roads@.len()
        &&& forall|k: int| 0 <= k < self.idxs@.len() ==> weldable(#[trigger] self.pieces()[k])
    }

    fn leaving(&self, p: usize) -> (r: (i64, i64))
        requires
            self.wf(),
            p < 2 * self.idxs@.len(),
        ensures
            dir_view(r) == outgoing(self.pieces(), p as int),
            is_small(r),
    {
        let ghost piece_view = self.pieces()[p as int / 2];
        assert(weldable(piece_view));
        let piece: &SceneRoad = &self.roads[self.idxs[p / 2]];
        let n: usize = piece.coords.len();
        if n < 2 {
            (0, 0)
        } else if p % 2 == 0 {
            assert(step_fits(piece.coords@[1 - 1], piece.coords@[1]));
            dir(piece.coords[0], piece.coords[1])
        } else {
            assert(step_fits(piece.coords@[n - 1 - 1], piece.coords@[n - 1]));
            dir(piece.coords[n - 1], piece.coords[n - 2])
        }
    }

    /// The port that continues the stroke.
    fn next(&self, used: &Vec<bool>, stroke: &Stroke) -> (r: Option<usize>)
        requires
            self.wf(),
            used@.len() == self.idxs@.len(),
            growth_ok(stroke@),
        ensures
            r == next_port(self.pieces(), used@, stroke@.coords, self.grid.tol()),
    {
        let ghost pieces = self.pieces();
        let m: usize = stroke.coords.len();
        let tail: [i32; 2] = stroke.coords[m - 1];
        let here: Vec<usize> = self.grid.hits(tail);
        // Unused pieces meeting at the tail (the tail's own end is used).
        let mut cands: Vec<usize> = Vec::new();
        let mut i: usize = 0;
        assert(cands@ =~= unused_only(here@.take(0), used@));
        while i < here.len()
            invariant
                i <= here@.len(),
                self.wf(),
                used@.len() == self.idxs@.len(),
                forall|i: int|
                    0 <= i < here@.len() ==> (#[trigger] here@[i]) < self.grid.points().len(),
                cands@ == unused_only(here@.take(i as int), used@),
            decreases here@.len() - i,
        {
            let p: usize = here[i];
            if !used[p / 2] {
                cands.push(p);
            }
            i = i + 1;
            proof {
                let done = here@.take(i as int);
                assert(done.drop_last() =~= here@.take(i - 1));
                assert(done.last() == p);
                assert(cands@ =~= unused_only(done, used@));
            }
        }
        assert(here@.take(i as int) =~= here@);
        if cands.len() == 0 {
            return None;
        }
        if here.len() <= 2 {
            // A single continuation: weld it at any angle, so both gentle and sharp
            // bends of one road join.
            return Some(cands[0]);
        }
        // A junction: weld only the piece that best continues the line (smallest
        // turn) so the road runs through while branches stay split; if nothing
        // continues closely enough, the line ends here.
        let u: (i64, i64) = if m >= 2 {
            assert(step_fits(stroke.coords@[m - 1 - 1], stroke.coords@[m - 1]));
            dir(stroke.coords[m - 2], stroke.coords[m - 1])
        } else {
            (0, 0)
        };
        let ghost w = incoming(stroke@.coords);
        proof {
            lemma_unused_only(here@, used@, 2 * pieces.len());
        }
        let mut best: Option<usize> = None;
        let mut best_score: i128 = CONTINUATION_MIN_COS;
        let mut i: usize = 0;
        proof {
            lemma_pow2n_joins(117, 178);
            lemma_pow2n_values();
        }
        while i < cands.len()
            invariant
                i <= cands@.len(),
                self.wf(),
                pieces == self.pieces(),
                is_small(u),
                dir_view(u) == w,
                forall|i: int| 0 <= i < cands@.len() ==> (#[trigger] cands@[i]) < 2 * pieces.len(),
                best == straightest(pieces, w, cands@, i as nat),
                best_score * pow2n(178) == best_cosine(pieces, w, best),
            decreases cands@.len() - i,
        {
            let p: usize = cands[i];
            let score: i128 = cosine_of(u, self.leaving(p));
            proof {
                let unit = pow2n(178) as int;
                lemma_pow2n_positive(178);
                assert(score > best_score <==> score * unit > best_score * unit)
                    by (nonlinear_arith)
                    requires
                        unit > 0,
                ;
            }
            if score > best_score {
                best_score = score;
                best = Some(p);
            }
            i = i + 1;
        }
        best
    }

    /// Grow a stroke at its tail as far as it goes.
    fn grow(&self, used: &mut Vec<bool>, stroke: &mut Stroke)
        requires
            self.wf(),
            old(used)@.len() == self.idxs@.len(),
            growth_ok(old(stroke)@),
            layers_within(
                old(stroke)@.layers,
                (self.idxs@.len() - unused_count(old(used)@)) as nat,
            ),
            unused_count(old(used)@) <= self.idxs@.len(),
        ensures
            (final(used)@, final(stroke)@) == grown(
                self.pieces(),
                old(used)@,
                old(stroke)@,
                self.grid.tol(),
            ),
            final(used)@.len() == self.idxs@.len(),
            growth_ok(final(stroke)@),
            layers_within(
                final(stroke)@.layers,
                (self.idxs@.len() - unused_count(final(used)@)) as nat,
            ),
            unused_count(final(used)@) <= unused_count(old(used)@),
    {
        let ghost pieces = self.pieces();
        let ghost tol = self.grid.tol();
        let ghost want = grown(pieces, used@, stroke@, tol);
        loop
            invariant
                self.wf(),
                pieces == self.pieces(),
                tol == self.grid.tol(),
                used@.len() == self.idxs@.len(),
                growth_ok(stroke@),
                unused_count(used@) <= unused_count(old(used)@) <= self.idxs@.len(),
                layers_within(
                    stroke@.layers,
                    (self.idxs@.len() - unused_count(used@)) as nat,
                ),
                grown(pieces, used@, stroke@, tol) == want,
                want == grown(self.pieces(), old(used)@, old(stroke)@, self.grid.tol()),
            decreases unused_count(used@),
        {
            proof {
                next_port_meets(pieces, used@, stroke@.coords, tol);
            }
            match self.next(used, stroke) {
                None => return,
                Some(p) => {
                    let j: usize = p / 2;
                    let ghost before = used@;
                    let ghost k = (self.idxs@.len() - unused_count(before)) as nat;
                    proof {
                        lemma_unused_count_update(before, j as int);
                        assert(weldable(pieces[j as int]));
                    }
                    used[j] = true;
                    stroke.join(&self.roads[self.idxs[j]], p, Ghost(k));
                    proof {
                        let k2 = (self.idxs@.len() - unused_count(used@)) as nat;
                        lemma_layers_widen(stroke@.layers, k + 1, k2);
                    }
                },
            }
        }
    }
}

proof fn lemma_layers_widen(layers: Seq<(i8, nat)>, a: nat, b: nat)
    requires
        layers_within(layers, a),
        a <= b,
    ensures
        layers_within(layers, b),
{
    assert forall|i: int| 0 <= i < layers.len() implies (#[trigger] layers[i]).1 <= b
        * usize::MAX as nat by {
        assert(layers[i].1 <= a * usize::MAX as nat);
        assert(a * usize::MAX as nat <= b * usize::MAX as nat) by (nonlinear_arith)
            requires
                a <= b,
        ;
    }
}

proof fn lemma_unused_bound(used: Seq<bool>)
    ensures
        unused_count(used) <= used.len(),
    decreases used.len(),
{
    if used.len() > 0 {
        lemma_unused_bound(used.drop_last());
    }
}

/// Weld the pieces at `idxs`: each piece becomes part of one stroke, and the strokes
/// are appended to `out`.
pub fn weld_group(roads: &Vec<SceneRoad>, idxs: &Vec<usize>, tol: i32, out: &mut Vec<SceneRoad>)
    requires
        1 <= tol <= 63,
        forall|k: int| 0 <= k < idxs@.len() ==> (#[trigger] idxs@[k]) < roads@.len(),
        forall|k: int|
            0 <= k < idxs@.len() ==> weldable(#[trigger] pieces_at(roads@, idxs@)[k]),
    ensures
        roads_view(final(out)@) == roads_view(old(out)@) + group_strokes(
            pieces_at(roads@, idxs@),
            tol as int,
        ),
{
    let ghost pieces = pieces_at(roads@, idxs@);
    let ports: Vec<[i32; 2]> = ports_of(roads, idxs);
    let port_count: usize = ports.len();
    assert(port_count == 2 * idxs@.len());
    let group = Group { roads, idxs, grid: EndpointGrid::new(ports, tol) };
    let n: usize = idxs.len();
    let mut used: Vec<bool> = Vec::new();
    let mut i: usize = 0;
    while i < n
        invariant
            i <= n,
            used@ == none_used(i as nat),
        decreases n - i,
    {
        used.push(false);
        i = i + 1;
        assert(used@ =~= none_used(i as nat));
    }
    let mut seed: usize = 0;
    let ghost base = roads_view(out@);
    let ghost want = group_strokes(pieces, tol as int);
    assert(base + want == roads_view(out@) + strokes(pieces, used@, 0, tol as int));
    while seed < n
        invariant
            seed <= n,
            n == idxs@.len(),
            group.wf(),
            group.roads == roads,
            group.idxs == idxs,
            group.grid.tol() == tol,
            pieces == group.pieces(),
            used@.len() == n,
            base == roads_view(old(out)@),
            want == group_strokes(pieces, tol as int),
            base + want == roads_view(out@) + strokes(pieces, used@, seed as nat, tol as int),
        decreases n - seed,
    {
        if !used[seed] {
            let ghost before = used@;
            let ghost done = roads_view(out@);
            assert(weldable(pieces[seed as int]));
            let r0: &SceneRoad = &roads[idxs[seed]];
            let len0: usize = r0.coords.len();
            assert(r0.coords@.len() == len0);
            used[seed] = true;
            let mut stroke = Stroke::seed(r0);
            proof {
                lemma_unused_count_update(before, seed as int);
                lemma_unused_bound(before);
                lemma_unused_bound(used@);
                let k = (n - unused_count(used@)) as nat;
                assert(stroke@.layers =~= seq![(r0.layer, r0.coords@.len())]);
                assert forall|i: int| 0 <= i < stroke@.layers.len() implies (
                #[trigger] stroke@.layers[i]).1 <= k * usize::MAX as nat by {
                    assert(usize::MAX as nat <= k * usize::MAX as nat) by (nonlinear_arith)
                        requires
                            k >= 1,
                    ;
                }
            }
            group.grow(&mut used, &mut stroke);
            stroke.turn_round();
            group.grow(&mut used, &mut stroke);
            stroke.turn_round();
            let layer: i8 = stroke.top_layer();
            let name: Option<String> = match &r0.name {
                Some(s) => Some(s.clone()),
                None => None,
            };
            let road = SceneRoad {
                kind: r0.kind,
                layer,
                start: stroke.start,
                end: stroke.end,
                structure: r0.structure,
                name,
                coords: stroke.coords,
                lanes: stroke.lanes,
            };
            let ghost (used2, view) = stroke_from(pieces, before, seed as int, tol as int);
            assert(road@ == view);
            out.push(road);
            proof {
                assert(roads_view(out@) =~= done.push(view));
                let rest = strokes(pieces, used2, (seed + 1) as nat, tol as int);
                assert(done + (seq![view] + rest) =~= done.push(view) + rest);
            }
        }
        seed = seed + 1;
    }
    assert(roads_view(out@) + Seq::empty() =~= roads_view(out@));
}

/// The indices of the roads of one kind.
fn indices_of_kind(roads: &Vec<SceneRoad>, kind: u8) -> (r: Vec<usize>)
    ensures
        pieces_at(roads@, r@) == roads_of_kind(roads_view(roads@), kind),
        forall|k: int| 0 <= k < r@.len() ==> (#[trigger] r@[k]) < roads@.len(),
{
    let ghost views = roads_view(roads@);
    let mut r: Vec<usize> = Vec::new();
    let mut i: usize = 0;
    assert(pieces_at(roads@, r@) =~= roads_of_kind(views.take(0), kind));
    while i < roads.len()
        invariant
            i <= roads@.len(),
            views == roads_view(roads@),
            pieces_at(roads@, r@) == roads_of_kind(views.take(i as int), kind),
            forall|k: int| 0 <= k < r@.len() ==> (#[trigger] r@[k]) < roads@.len(),
        decreases roads@.len() - i,
    {
        let ghost before = r@;
        if roads[i].kind.to_u8() == kind {
            r.push(i);
            assert(pieces_at(roads@, r@) =~= pieces_at(roads@, before).push(views[i as int]));
        }
        i = i + 1;
        proof {
            let done = views.take(i as int);
            assert(done.drop_last() =~= views.take(i - 1));
            assert(done.last() == views[i - 1]);
        }
    }
    assert(views.take(i as int) =~= views);
    r
}

/// Weld road segments into continuous polylines: pieces split across tile
/// boundaries, pieces split within a tile (ways sharing an interior node, e.g. at a
/// lane-count change), and pieces whose shared node drifted by sub-metre digitising
/// noise. Within the roads of one kind, join wherever exactly two piece-ends meet,
/// and at a junction only the straightest continuation, so branches, lone dead-ends
/// and viewport cuts stay split.
///
/// Roads are grouped by `kind` only, not by lanes, name or layer: a road that
/// changes lane count, name, or dips through a bridge or tunnel portal is one
/// continuous carriageway.
pub fn weld_scene_roads(roads: Vec<SceneRoad>, extent: u16) -> (r: Vec<SceneRoad>)
    requires
        forall|i: int| 0 <= i < roads@.len() ==> weldable((#[trigger] roads@[i])@),
    ensures
        roads_view(r@) == welded(roads_view(roads@), extent),
{
    let tol: i32 = tolerance(extent);
    let ghost views = roads_view(roads@);
    let mut out: Vec<SceneRoad> = Vec::new();
    let mut k: u8 = 0;
    assert(roads_view(out@) =~= kind_strokes(views, tol as int, 0));
    while k < ROAD_KINDS
        invariant
            k <= ROAD_KINDS,
            1 <= tol <= 63,
            views == roads_view(roads@),
            forall|i: int| 0 <= i < roads@.len() ==> weldable((#[trigger] roads@[i])@),
            roads_view(out@) == kind_strokes(views, tol as int, k as nat),
        decreases ROAD_KINDS - k,
    {
        let idxs: Vec<usize> = indices_of_kind(&roads, k);
        assert forall|m: int| 0 <= m < idxs@.len() implies weldable(
            #[trigger] pieces_at(roads@, idxs@)[m],
        ) by {
            assert(idxs@[m] < roads@.len());
        }
        weld_group(&roads, &idxs, tol, &mut out);
        k = k + 1;
    }
    out
}

} // verus!
