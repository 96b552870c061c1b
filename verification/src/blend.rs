//! Matching stroke widths where strokes of one kind meet without being welded.

use vstd::prelude::*;

use crate::endpoint_grid::{grid_hits_complete, near, EndpointGrid};
use crate::feature::Lanes;
use crate::weld::{roads_view, tolerance, SceneRoad};
use crate::weld_model::{weld_tolerance, StrokeView};

verus! {

/// One end of a road; the origin where it has no vertex.
pub open spec fn end_point(r: StrokeView, start: bool) -> [i32; 2] {
    if r.coords.len() == 0 {
        [0, 0]
    } else if start {
        r.coords.first()
    } else {
        r.coords.last()
    }
}

/// Total lanes (forward + backward) at one end: the fill width.
pub open spec fn end_width(r: StrokeView, start: bool) -> u8 {
    if start {
        r.lanes.first().total()
    } else {
        r.lanes.last().total()
    }
}

/// The end `s` of road `j` meets the end of road `i` at `c`: another road of the same
/// kind, within the tolerance.
pub open spec fn meets(roads: Seq<StrokeView>, i: int, c: [i32; 2], tol: int, j: int, s: bool) -> bool {
    &&& 0 <= j < roads.len()
    &&& j != i
    &&& roads[j].kind == roads[i].kind
    &&& roads[j].coords.len() >= 2
    &&& near(end_point(roads[j], s), c, tol)
}

pub open spec fn wider(a: u8, b: u8) -> u8 {
    if b > a {
        b
    } else {
        a
    }
}

/// The greatest width among `own` and the ends of the first `n` roads that meet the
/// end of road `i` at `c`.
pub open spec fn join_width(
    roads: Seq<StrokeView>,
    i: int,
    c: [i32; 2],
    tol: int,
    own: u8,
    n: nat,
) -> u8
    decreases n,
{
    if n == 0 {
        own
    } else {
        let j = n - 1;
        let best = join_width(roads, i, c, tol, own, j as nat);
        let best = if meets(roads, i, c, tol, j, true) {
            wider(best, end_width(roads[j], true))
        } else {
            best
        };
        if meets(roads, i, c, tol, j, false) {
            wider(best, end_width(roads[j], false))
        } else {
            best
        }
    }
}

/// A lane split raised to a total width by lanes going forward, so the direction
/// divider stays put.
pub open spec fn raised(l: Lanes, width: u8) -> Lanes {
    if width > l.total() {
        Lanes { forward: (width - l.backward) as u8, backward: l.backward }
    } else {
        l
    }
}

/// The width an end is raised to.
pub open spec fn end_join_width(roads: Seq<StrokeView>, i: int, tol: int, start: bool) -> u8 {
    join_width(
        roads,
        i,
        end_point(roads[i], start),
        tol,
        end_width(roads[i], start),
        roads.len(),
    )
}

/// Road `i` with both ends raised.
pub open spec fn blended_road(roads: Seq<StrokeView>, i: int, tol: int) -> StrokeView {
    let r = roads[i];
    if r.coords.len() < 2 {
        r
    } else {
        let last = r.lanes.len() - 1;
        StrokeView {
            lanes: r.lanes.update(
                0,
                raised(r.lanes[0], end_join_width(roads, i, tol, true)),
            ).update(last, raised(r.lanes[last], end_join_width(roads, i, tol, false))),
            ..r
        }
    }
}

/// All roads with their ends raised; widths are read before any is written.
pub open spec fn blended(roads: Seq<StrokeView>, tol: int) -> Seq<StrokeView> {
    Seq::new(roads.len(), |i: int| blended_road(roads, i, tol))
}

/// A lane split per vertex.
pub open spec fn parallel(r: StrokeView) -> bool {
    r.lanes.len() == r.coords.len()
}

// ---- laws ----

/// The join width is the greatest of the widths that meet: none of them exceeds it,
/// and it is one of them.
pub proof fn join_width_greatest(
    roads: Seq<StrokeView>,
    i: int,
    c: [i32; 2],
    tol: int,
    own: u8,
    n: nat,
)
    requires
        n <= roads.len(),
    ensures
        join_width(roads, i, c, tol, own, n) >= own,
        forall|j: int, s: bool|
            j < n && #[trigger] meets(roads, i, c, tol, j, s) ==> end_width(roads[j], s)
                <= join_width(roads, i, c, tol, own, n),
        join_width(roads, i, c, tol, own, n) == own || exists|j: int, s: bool|
            j < n && #[trigger] meets(roads, i, c, tol, j, s) && end_width(roads[j], s)
                == join_width(roads, i, c, tol, own, n),
    decreases n,
{
    if n > 0 {
        join_width_greatest(roads, i, c, tol, own, (n - 1) as nat);
        let j = n - 1;
        let before = join_width(roads, i, c, tol, own, j as nat);
        let best = join_width(roads, i, c, tol, own, n);
        if best != own {
            if best == before {
                let (k, s) = choose|k: int, s: bool|
                    k < j && #[trigger] meets(roads, i, c, tol, k, s) && end_width(roads[k], s)
                        == before;
                assert(meets(roads, i, c, tol, k, s));
            } else if meets(roads, i, c, tol, j, false) && best == end_width(roads[j], false) {
            } else {
                assert(meets(roads, i, c, tol, j, true) && best == end_width(roads[j], true));
            }
        }
    }
}

/// Blending never narrows an end, keeps the backward lanes, and touches nothing but
/// the two end splits of a road.
pub proof fn blend_only_raises_ends(roads: Seq<StrokeView>, i: int, tol: int)
    requires
        0 <= i < roads.len(),
        parallel(roads[i]),
    ensures
        ({
            let a = roads[i];
            let b = blended(roads, tol)[i];
            &&& b == (StrokeView { lanes: b.lanes, ..a })
            &&& b.lanes.len() == a.lanes.len()
            &&& forall|k: int| 0 < k < a.lanes.len() - 1 ==> b.lanes[k] == a.lanes[k]
            &&& forall|k: int|
                0 <= k < a.lanes.len() ==> (#[trigger] b.lanes[k]).backward == a.lanes[k].backward
                    && b.lanes[k].forward >= a.lanes[k].forward
        }),
{
    let a = roads[i];
    join_width_greatest(
        roads,
        i,
        end_point(a, true),
        tol,
        end_width(a, true),
        roads.len(),
    );
}

/// Ends of one kind that meet come out equally wide: each end's join width is at least
/// the width of every end it meets.
pub proof fn blend_covers_meeting_ends(
    roads: Seq<StrokeView>,
    i: int,
    start: bool,
    j: int,
    s: bool,
    tol: int,
)
    requires
        0 <= i < roads.len(),
        meets(roads, i, end_point(roads[i], start), tol, j, s),
    ensures
        end_join_width(roads, i, tol, start) >= end_width(roads[j], s),
{
    join_width_greatest(
        roads,
        i,
        end_point(roads[i], start),
        tol,
        end_width(roads[i], start),
        roads.len(),
    );
}

// ---- blending ----

spec fn ends_of(roads: Seq<StrokeView>) -> Seq<[i32; 2]> {
    Seq::new(2 * roads.len(), |p: int| end_point(roads[p / 2], p % 2 == 0))
}

fn ends(roads: &Vec<SceneRoad>) -> (r: Vec<[i32; 2]>)
    ensures
        r@ == ends_of(roads_view(roads@)),
{
    let mut r: Vec<[i32; 2]> = Vec::new();
    let mut i: usize = 0;
    let ghost views = roads_view(roads@);
    while i < roads.len()
        invariant
            i <= roads@.len(),
            views == roads_view(roads@),
            r@.len() == 2 * i,
            forall|p: int| 0 <= p < r@.len() ==> #[trigger] r@[p] == ends_of(views)[p],
        decreases roads@.len() - i,
    {
        let n: usize = roads[i].coords.len();
        if n == 0 {
            r.push([0, 0]);
            r.push([0, 0]);
        } else {
            r.push(roads[i].coords[0]);
            r.push(roads[i].coords[n - 1]);
        }
        i = i + 1;
    }
    assert(r@ =~= ends_of(views));
    r
}

fn width_at(r: &SceneRoad, start: bool) -> (w: u8)
    requires
        r.lanes@.len() >= 1,
    ensures
        w == end_width(r@, start),
{
    let l: Lanes = if start {
        r.lanes[0]
    } else {
        r.lanes[r.lanes.len() - 1]
    };
    l.total()
}

/// Port `p` is the start of road `p / 2` where `p` is even, else its end.
spec fn port_meets(roads: Seq<StrokeView>, i: int, c: [i32; 2], tol: int, p: usize) -> bool {
    meets(roads, i, c, tol, p as int / 2, p % 2 == 0)
}

spec fn port_width(roads: Seq<StrokeView>, p: usize) -> u8 {
    end_width(roads[p as int / 2], p % 2 == 0)
}

/// The width that one end of a road is raised to.
fn join_width_at(roads: &Vec<SceneRoad>, grid: &EndpointGrid, i: usize, start: bool) -> (w: u8)
    requires
        grid.wf(),
        grid.tol() >= 1,
        grid.points() == ends_of(roads_view(roads@)),
        2 * roads@.len() <= usize::MAX,
        i < roads@.len(),
        roads@[i as int].coords@.len() >= 2,
        forall|k: int| 0 <= k < roads@.len() ==> parallel((#[trigger] roads@[k])@),
    ensures
        w == end_join_width(roads_view(roads@), i as int, grid.tol(), start),
{
    let ghost views = roads_view(roads@);
    let ghost tol = grid.tol();
    let n: usize = roads[i].coords.len();
    assert(parallel(roads@[i as int]@));
    let c: [i32; 2] = if start {
        roads[i].coords[0]
    } else {
        roads[i].coords[n - 1]
    };
    let own: u8 = width_at(&roads[i], start);
    let here: Vec<usize> = grid.hits(c);
    let mut best: u8 = own;
    let mut k: usize = 0;
    assert(c == end_point(views[i as int], start));
    while k < here.len()
        invariant
            k <= here@.len(),
            grid.wf(),
            grid.tol() >= 1,
            tol == grid.tol(),
            views == roads_view(roads@),
            grid.points() == ends_of(views),
            here@ == crate::endpoint_grid::grid_hits(grid.points(), c, tol),
            2 * roads@.len() <= usize::MAX,
            i < roads@.len(),
            forall|k: int| 0 <= k < roads@.len() ==> parallel((#[trigger] roads@[k])@),
            forall|m: int| 0 <= m < here@.len() ==> (#[trigger] here@[m]) < grid.points().len(),
            best >= own,
            forall|m: int|
                0 <= m < k && port_meets(views, i as int, c, tol, #[trigger] here@[m]) ==> port_width(
                    views,
                    here@[m],
                ) <= best,
            best == own || exists|j: int, s: bool| #[trigger]
                meets(views, i as int, c, tol, j, s) && end_width(views[j], s) == best,
        decreases here@.len() - k,
    {
        let p: usize = here[k];
        let j: usize = p / 2;
        let s: bool = p % 2 == 0;
        let ghost before = best;
        proof {
            assert(here@.contains(p));
            grid_hits_complete(grid.points(), c, tol, p);
            assert(near(end_point(views[j as int], s), c, tol));
            assert(parallel(roads@[j as int]@));
        }
        if j != i && roads[j].kind == roads[i].kind && roads[j].coords.len() >= 2 {
            assert(meets(views, i as int, c, tol, j as int, s));
            let w: u8 = width_at(&roads[j], s);
            if w > best {
                best = w;
            }
        }
        k = k + 1;
    }
    proof {
        join_width_greatest(views, i as int, c, tol, own, views.len());
        let want = join_width(views, i as int, c, tol, own, views.len());
        assert forall|j: int, s: bool| #[trigger] meets(
            views,
            i as int,
            c,
            tol,
            j,
            s,
        ) implies end_width(views[j], s) <= best by {
            let p = (2 * j + if s {
                0int
            } else {
                1
            }) as usize;
            assert(p as int / 2 == j && (p % 2 == 0) == s);
            assert(grid.points()[p as int] == end_point(views[j], s));
            grid_hits_complete(grid.points(), c, tol, p);
            let m = choose|m: int| 0 <= m < here@.len() && here@[m] == p;
            assert(port_meets(views, i as int, c, tol, here@[m]));
        }
        assert(want <= best);
        assert(best <= want);
    }
    best
}

fn raise(l: Lanes, width: u8) -> (r: Lanes)
    ensures
        r == raised(l, width),
{
    if width > l.total() {
        Lanes { forward: width - l.backward, backward: l.backward }
    } else {
        l
    }
}

/// Smooth stroke-width discontinuities where the welder leaves same-kind polylines
/// split: real junctions, divided-carriageway Y-splits, bridge/tunnel transitions.
/// Every incident same-kind endpoint is raised to the local maximum lane count, so
/// the variable-width stroke tapers each piece's end segment up to a common join
/// width instead of butting two different-width rectangles together. Endpoint lane
/// counts are read before any are written, so the maximum is that of the widths the
/// roads came with.
pub fn blend_join_widths(roads: &mut Vec<SceneRoad>, extent: u16)
    requires
        forall|k: int| 0 <= k < old(roads)@.len() ==> parallel((#[trigger] old(roads)@[k])@),
    ensures
        roads_view(final(roads)@) == blended(roads_view(old(roads)@), weld_tolerance(extent)),
{
    let tol: i32 = tolerance(extent);
    let ghost views = roads_view(roads@);
    let points: Vec<[i32; 2]> = ends(roads);
    let count: usize = points.len();
    assert(count == 2 * roads@.len());
    let grid = EndpointGrid::new(points, tol);
    let n: usize = roads.len();
    // The width for each end; unused for roads without two vertices.
    let mut widths: Vec<(u8, u8)> = Vec::new();
    let mut i: usize = 0;
    while i < n
        invariant
            i <= n,
            n == roads@.len(),
            2 * n <= usize::MAX,
            *roads == *old(roads),
            views == roads_view(roads@),
            grid.wf(),
            grid.tol() == tol,
            tol >= 1,
            grid.points() == ends_of(views),
            forall|k: int| 0 <= k < roads@.len() ==> parallel((#[trigger] roads@[k])@),
            widths@.len() == i,
            forall|k: int|
                0 <= k < i && views[k].coords.len() >= 2 ==> #[trigger] widths@[k] == (
                    end_join_width(views, k, tol as int, true),
                    end_join_width(views, k, tol as int, false),
                ),
        decreases n - i,
    {
        if roads[i].coords.len() >= 2 {
            let a: u8 = join_width_at(roads, &grid, i, true);
            let b: u8 = join_width_at(roads, &grid, i, false);
            widths.push((a, b));
        } else {
            widths.push((0, 0));
        }
        i = i + 1;
    }
    let mut i: usize = 0;
    while i < n
        invariant
            i <= n,
            n == roads@.len(),
            views == roads_view(old(roads)@),
            widths@.len() == n,
            old(roads)@.len() == n,
            forall|k: int| 0 <= k < n ==> parallel((#[trigger] old(roads)@[k])@),
            forall|k: int|
                0 <= k < n && views[k].coords.len() >= 2 ==> #[trigger] widths@[k] == (
                    end_join_width(views, k, tol as int, true),
                    end_join_width(views, k, tol as int, false),
                ),
            forall|k: int| i <= k < n ==> #[trigger] roads@[k] == old(roads)@[k],
            forall|k: int| 0 <= k < i ==> (#[trigger] roads@[k])@ == blended_road(views, k, tol as int),
        decreases n - i,
    {
        let ghost r0 = roads@[i as int];
        assert(r0 == old(roads)@[i as int]);
        assert(parallel(r0@));
        if roads[i].coords.len() >= 2 {
            let last: usize = roads[i].lanes.len() - 1;
            let first_lanes: Lanes = roads[i].lanes[0];
            let last_lanes: Lanes = roads[i].lanes[last];
            let w: (u8, u8) = widths[i];
            roads[i].lanes[0] = raise(first_lanes, w.0);
            roads[i].lanes[last] = raise(last_lanes, w.1);
            proof {
                let want = blended_road(views, i as int, tol as int);
                assert(roads@[i as int]@.lanes =~= want.lanes);
                assert(roads@[i as int]@ == want);
            }
        }
        i = i + 1;
    }
    assert(roads_view(roads@) =~= blended(views, tol as int));
}

} // verus!
