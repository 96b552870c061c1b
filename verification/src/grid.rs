//! Cutting shapes into the tile grid: how a block of tiles is split, and what a clipped
//! polygon becomes in a tile.

use vstd::prelude::*;

use crate::decode::copy_coords;
use crate::record::{coords_view, rings_view, vertex_total, Point};

verus! {

// ---- splitting a block of tiles ----

/// An inclusive block of tiles.
#[derive(Debug, Clone, Copy, PartialEq, Eq, Structural)]
pub struct TileBlock {
    pub x0: u32,
    pub y0: u32,
    pub x1: u32,
    pub y1: u32,
}

pub open spec fn block_ok(b: TileBlock) -> bool {
    b.x0 <= b.x1 && b.y0 <= b.y1
}

pub open spec fn block_has(b: TileBlock, x: u32, y: u32) -> bool {
    b.x0 <= x <= b.x1 && b.y0 <= y <= b.y1
}

/// A single tile.
pub open spec fn is_single(b: TileBlock) -> bool {
    b.x0 == b.x1 && b.y0 == b.y1
}

/// The two halves of a block, along its longer axis.
pub open spec fn halves_of(b: TileBlock) -> (TileBlock, TileBlock) {
    if b.x1 - b.x0 >= b.y1 - b.y0 {
        let mid = (b.x0 + (b.x1 - b.x0) / 2) as u32;
        (TileBlock { x1: mid, ..b }, TileBlock { x0: (mid + 1) as u32, ..b })
    } else {
        let mid = (b.y0 + (b.y1 - b.y0) / 2) as u32;
        (TileBlock { y1: mid, ..b }, TileBlock { y0: (mid + 1) as u32, ..b })
    }
}

/// The halves are blocks, smaller than the whole, and every tile of the whole is in
/// exactly one of them: a recursive split reaches every tile once.
pub proof fn halves_partition(b: TileBlock, x: u32, y: u32)
    requires
        block_ok(b),
        !is_single(b),
    ensures
        ({
            let (p, q) = halves_of(b);
            &&& block_ok(p) && block_ok(q)
            &&& block_has(b, x, y) <==> block_has(p, x, y) != block_has(q, x, y)
            &&& !(block_has(p, x, y) && block_has(q, x, y))
            &&& block_size(p) < block_size(b) && block_size(q) < block_size(b)
        }),
{
}

/// The sum of a block's sides.
pub open spec fn block_size(b: TileBlock) -> nat {
    (b.x1 - b.x0 + b.y1 - b.y0) as nat
}

/// The tiles that splitting a block again and again ends at, in order.
pub open spec fn leaves(b: TileBlock) -> Seq<(u32, u32)>
    decreases block_size(b),
{
    if !block_ok(b) {
        Seq::empty()
    } else if is_single(b) {
        seq![(b.x0, b.y0)]
    } else {
        leaves(halves_of(b).0) + leaves(halves_of(b).1)
    }
}

/// Splitting a block again and again reaches each of its tiles, and no other, once.
pub proof fn split_reaches_each_tile_once(b: TileBlock)
    requires
        block_ok(b),
    ensures
        leaves(b).no_duplicates(),
        forall|x: u32, y: u32| #[trigger] leaves(b).contains((x, y)) <==> block_has(b, x, y),
    decreases block_size(b),
{
    let l = leaves(b);
    if is_single(b) {
        assert(l[0] == (b.x0, b.y0));
    } else {
        let (p, q) = halves_of(b);
        halves_partition(b, b.x0, b.y0);
        split_reaches_each_tile_once(p);
        split_reaches_each_tile_once(q);
        let (lp, lq) = (leaves(p), leaves(q));
        assert forall|i: int, j: int| 0 <= i < j < l.len() implies l[i] != l[j] by {
            if j < lp.len() {
                assert(lp[i] != lp[j]);
            } else if i >= lp.len() {
                assert(lq[i - lp.len()] != lq[j - lp.len()]);
            } else {
                let (x, y) = l[i];
                assert(lp.contains((x, y)));
                halves_partition(b, x, y);
                if l[i] == l[j] {
                    assert(lq[j - lp.len()] == (x, y));
                    assert(lq.contains((x, y)));
                }
            }
        }
        assert forall|x: u32, y: u32| #[trigger] l.contains((x, y)) <==> block_has(b, x, y) by {
            halves_partition(b, x, y);
            if l.contains((x, y)) {
                let k = choose|k: int| 0 <= k < l.len() && l[k] == (x, y);
                if k < lp.len() {
                    assert(lp[k] == (x, y));
                    assert(lp.contains((x, y)));
                } else {
                    assert(lq[k - lp.len()] == (x, y));
                    assert(lq.contains((x, y)));
                }
            }
            if block_has(p, x, y) {
                assert(lp.contains((x, y)));
                let k = choose|k: int| 0 <= k < lp.len() && lp[k] == (x, y);
                assert(l[k] == (x, y));
            }
            if block_has(q, x, y) {
                assert(lq.contains((x, y)));
                let k = choose|k: int| 0 <= k < lq.len() && lq[k] == (x, y);
                assert(l[k + lp.len()] == (x, y));
            }
        }
    }
}

/// Split the longer axis of a block; none for a single tile.
pub fn split_block(b: &TileBlock) -> (r: Option<(TileBlock, TileBlock)>)
    requires
        block_ok(*b),
    ensures
        r == (if is_single(*b) {
            None
        } else {
            Some(halves_of(*b))
        }),
{
    if b.x0 == b.x1 && b.y0 == b.y1 {
        return None;
    }
    if b.x1 - b.x0 >= b.y1 - b.y0 {
        let mid: u32 = b.x0 + (b.x1 - b.x0) / 2;
        Some(
            (
                TileBlock { x0: b.x0, y0: b.y0, x1: mid, y1: b.y1 },
                TileBlock { x0: mid + 1, y0: b.y0, x1: b.x1, y1: b.y1 },
            ),
        )
    } else {
        let mid: u32 = b.y0 + (b.y1 - b.y0) / 2;
        Some(
            (
                TileBlock { x0: b.x0, y0: b.y0, x1: b.x1, y1: mid },
                TileBlock { x0: b.x0, y0: mid + 1, x1: b.x1, y1: b.y1 },
            ),
        )
    }
}

// ---- pieces ----

/// One polygon clipped to one tile. `rings[0]` is the outer ring, the rest are holes, all
/// in tile-local `i16`. `clip` is parallel to the rings' vertices (concatenated in ring
/// order): `true` where a vertex lies on the tile boundary (an artificial cut edge the
/// renderer should not outline).
#[derive(Debug, Clone, PartialEq)]
pub struct AreaPiece {
    pub rings: Vec<Vec<[i16; 2]>>,
    pub clip: Vec<bool>,
}

/// One polyline piece clipped to one tile, in tile-local `i16`. `start_cut` / `end_cut`
/// mark endpoints created by the clip (tile boundary) rather than the road's true ends.
#[derive(Debug, Clone, PartialEq)]
pub struct LinePiece {
    pub points: Vec<[i16; 2]>,
    pub start_cut: bool,
    pub end_cut: bool,
}

/// Lexicographic order of vertices.
pub open spec fn vertex_less(a: Point, b: Point) -> bool {
    a.0 < b.0 || (a.0 == b.0 && a.1 < b.1)
}

/// The first of the lexicographically smallest among the first `n` vertices.
pub open spec fn smallest(c: Seq<Point>, n: nat) -> int
    decreases n,
{
    if n <= 1 {
        0
    } else {
        let m = smallest(c, (n - 1) as nat);
        if vertex_less(c[n - 1], c[m]) {
            n - 1
        } else {
            m
        }
    }
}

/// The ring started at vertex `k`.
pub open spec fn rotated(c: Seq<Point>, k: int) -> Seq<Point> {
    c.skip(k) + c.take(k)
}

/// The ring started at its smallest vertex.
pub open spec fn canonical(c: Seq<Point>) -> Seq<Point> {
    if c.len() < 2 {
        c
    } else {
        rotated(c, smallest(c, c.len()))
    }
}

proof fn lemma_smallest(c: Seq<Point>, n: nat)
    requires
        1 <= n <= c.len(),
    ensures
        0 <= smallest(c, n) < n,
        forall|i: int| 0 <= i < n ==> !vertex_less(#[trigger] c[i], c[smallest(c, n)]),
        forall|i: int| 0 <= i < smallest(c, n) ==> vertex_less(c[smallest(c, n)], #[trigger] c[i]),
    decreases n,
{
    if n > 1 {
        lemma_smallest(c, (n - 1) as nat);
    }
}

/// A canonical ring has the same vertices in the same cyclic order, and starts at a
/// vertex that none of them is smaller than.
pub proof fn canonical_starts_smallest(c: Seq<Point>)
    requires
        c.len() >= 2,
    ensures
        canonical(c).len() == c.len(),
        forall|i: int| 0 <= i < c.len() ==> !vertex_less(#[trigger] canonical(c)[i], canonical(c)[0]),
        exists|k: int| 0 <= k < c.len() && canonical(c) == #[trigger] rotated(c, k),
{
    lemma_smallest(c, c.len());
    let k = smallest(c, c.len());
    let r = canonical(c);
    assert(r == rotated(c, k));
    assert forall|i: int| 0 <= i < c.len() implies !vertex_less(#[trigger] r[i], r[0]) by {
        let j = if i < c.len() - k {
            i + k
        } else {
            i - (c.len() - k)
        };
        assert(r[i] == c[j]);
        assert(r[0] == c[k]);
    }
}

/// Rotate a ring to start at its lexicographically-smallest vertex so identical (e.g.
/// full-ocean) tiles encode to identical bytes and content-dedup collapses them.
pub fn canonicalize(ring: Vec<[i16; 2]>) -> (r: Vec<[i16; 2]>)
    ensures
        coords_view(r@) == canonical(coords_view(ring@)),
        r@.len() == ring@.len(),
{
    let ghost c = coords_view(ring@);
    let n: usize = ring.len();
    if n < 2 {
        return ring;
    }
    let mut mi: usize = 0;
    let mut i: usize = 1;
    while i < n
        invariant
            1 <= i <= n,
            n == ring@.len(),
            c == coords_view(ring@),
            mi < i,
            mi == smallest(c, i as nat),
        decreases n - i,
    {
        let a: [i16; 2] = ring[i];
        let b: [i16; 2] = ring[mi];
        if a[0] < b[0] || (a[0] == b[0] && a[1] < b[1]) {
            mi = i;
        }
        i = i + 1;
    }
    let mut r: Vec<[i16; 2]> = Vec::new();
    let mut k: usize = mi;
    while k < n
        invariant
            mi <= k <= n,
            n == ring@.len(),
            c == coords_view(ring@),
            r@ == ring@.subrange(mi as int, k as int),
        decreases n - k,
    {
        r.push(ring[k]);
        k = k + 1;
        assert(r@ =~= ring@.subrange(mi as int, k as int));
    }
    let ghost tail = r@;
    let mut k: usize = 0;
    while k < mi
        invariant
            k <= mi <= n,
            n == ring@.len(),
            r@ == tail + ring@.take(k as int),
        decreases mi - k,
    {
        r.push(ring[k]);
        k = k + 1;
        assert(r@ =~= tail + ring@.take(k as int));
    }
    assert(coords_view(r@) =~= rotated(c, mi as int));
    r
}

/// A clipped ring as a tile stores it: without a closing vertex, started at its smallest
/// vertex.
pub open spec fn stored_ring(c: Seq<Point>) -> Seq<Point> {
    canonical(
        if c.len() >= 2 && c.first() == c.last() {
            c.drop_last()
        } else {
            c
        },
    )
}

/// Drop the closing vertex of a quantized ring and rotate it to its canonical start.
pub fn finish_ring(ring: Vec<[i16; 2]>) -> (r: Vec<[i16; 2]>)
    ensures
        coords_view(r@) == stored_ring(coords_view(ring@)),
{
    let mut ring: Vec<[i16; 2]> = ring;
    let ghost before = ring@;
    let n: usize = ring.len();
    if n >= 2 && ring[0][0] == ring[n - 1][0] && ring[0][1] == ring[n - 1][1] {
        ring.pop();
        assert(coords_view(ring@) =~= coords_view(before).drop_last());
    }
    canonicalize(ring)
}

// ---- the visible runs of a line ----

/// What is visible of one segment of a line: whether it is entered behind its start
/// (`cut_in`), and whether it is left before its end (`cut_out`).
#[derive(Debug, Clone, Copy, PartialEq, Eq, Structural)]
pub enum Visible {
    Outside,
    Inside { cut_in: bool, cut_out: bool },
}

/// A visible piece of a line: the segments from `first` to `last`, and whether its ends
/// were made by the clip rather than being the line's own.
#[derive(Debug, Clone, Copy, PartialEq, Eq, Structural)]
pub struct Run {
    pub first: usize,
    pub last: usize,
    pub start_cut: bool,
    pub end_cut: bool,
}

/// The runs of the segments from `i` on, where a run that starts at segment `open` (cut at
/// its start or not) may be under way.
pub open spec fn runs_from(segs: Seq<Visible>, i: nat, open: Option<(usize, bool)>) -> Seq<Run>
    decreases segs.len() - i,
{
    if i >= segs.len() {
        match open {
            Some((first, start_cut)) => seq![
                Run { first, last: (i - 1) as usize, start_cut, end_cut: false },
            ],
            None => Seq::empty(),
        }
    } else {
        match segs[i as int] {
            Visible::Outside => match open {
                Some((first, start_cut)) => seq![
                    Run { first, last: (i - 1) as usize, start_cut, end_cut: true },
                ] + runs_from(segs, i + 1, None),
                None => runs_from(segs, i + 1, None),
            },
            Visible::Inside { cut_in, cut_out } => {
                let (first, start_cut) = match open {
                    Some(o) => o,
                    None => (i as usize, cut_in),
                };
                if cut_out {
                    seq![Run { first, last: i as usize, start_cut, end_cut: true }] + runs_from(
                        segs,
                        i + 1,
                        None,
                    )
                } else {
                    runs_from(segs, i + 1, Some((first, start_cut)))
                }
            },
        }
    }
}

/// The visible runs of a line, in order. A line that leaves and re-enters has several; one
/// that is inside throughout has a single run with neither end cut.
pub fn visible_runs(segs: &Vec<Visible>) -> (r: Vec<Run>)
    ensures
        r@ == runs_from(segs@, 0, None),
{
    let mut r: Vec<Run> = Vec::new();
    let mut open: Option<(usize, bool)> = None;
    let mut i: usize = 0;
    let ghost all = runs_from(segs@, 0, None);
    assert(r@ + all =~= all);
    while i < segs.len()
        invariant
            i <= segs@.len(),
            open matches Some(o) ==> i > 0,
            r@ + runs_from(segs@, i as nat, open) == all,
        decreases segs@.len() - i,
    {
        let ghost before = r@;
        let ghost rest = runs_from(segs@, i as nat, open);
        match segs[i] {
            Visible::Outside => {
                if let Some((first, start_cut)) = open {
                    r.push(Run { first, last: i - 1, start_cut, end_cut: true });
                }
                open = None;
            },
            Visible::Inside { cut_in, cut_out } => {
                let (first, start_cut): (usize, bool) = match open {
                    Some(o) => o,
                    None => (i, cut_in),
                };
                if cut_out {
                    r.push(Run { first, last: i, start_cut, end_cut: true });
                    open = None;
                } else {
                    open = Some((first, start_cut));
                }
            },
        }
        i = i + 1;
        assert(r@ + runs_from(segs@, i as nat, open) =~= before + rest);
    }
    if let Some((first, start_cut)) = open {
        let ghost before = r@;
        r.push(Run { first, last: i - 1, start_cut, end_cut: false });
        assert(r@ =~= before + runs_from(segs@, i as nat, open));
    } else {
        assert(r@ =~= r@ + runs_from(segs@, i as nat, open));
    }
    r
}

/// The segment is in the run.
pub open spec fn in_run(r: Run, k: int) -> bool {
    r.first <= k <= r.last
}

pub open spec fn some_run(runs: Seq<Run>, k: int) -> bool {
    exists|j: int| 0 <= j < runs.len() && in_run(#[trigger] runs[j], k)
}

/// The runs hold every visible segment once, in order, and no other: a run ends before the
/// next one starts.
pub proof fn runs_cover_visible(segs: Seq<Visible>, k: int)
    requires
        segs.len() <= usize::MAX,
    ensures
        ({
            let runs = runs_from(segs, 0, None);
            &&& some_run(runs, k) <==> 0 <= k < segs.len() && segs[k] is Inside
            &&& forall|a: int, b: int|
                0 <= a < b < runs.len() ==> (#[trigger] runs[a]).last < (#[trigger] runs[b]).first
        }),
{
    lemma_runs(segs, 0, None, k);
}

proof fn lemma_runs(segs: Seq<Visible>, i: nat, open: Option<(usize, bool)>, k: int)
    requires
        i <= segs.len() <= usize::MAX,
        open matches Some(o) ==> o.0 < i,
    ensures
        ({
            let runs = runs_from(segs, i, open);
            let from = match open {
                Some(o) => o.0 as int,
                None => i as int,
            };
            &&& some_run(runs, k) <==> (from <= k < i) || (i <= k < segs.len() && segs[k] is Inside)
            &&& forall|a: int, b: int|
                0 <= a < b < runs.len() ==> (#[trigger] runs[a]).last < (#[trigger] runs[b]).first
            &&& forall|a: int| 0 <= a < runs.len() ==> (#[trigger] runs[a]).first >= from
        }),
    decreases segs.len() - i,
{
    let runs = runs_from(segs, i, open);
    if i >= segs.len() {
        if let Some(o) = open {
            assert(runs.len() == 1);
            assert(in_run(runs[0], k) <==> o.0 <= k < i);
        }
    } else {
        let (first, start_cut, ends) = match segs[i as int] {
            Visible::Outside => match open {
                Some(o) => (o.0, o.1, true),
                None => (0usize, false, false),
            },
            Visible::Inside { cut_in, cut_out } => match open {
                Some(o) => (o.0, o.1, cut_out),
                None => (i as usize, cut_in, cut_out),
            },
        };
        let next = match segs[i as int] {
            Visible::Inside { cut_out: false, .. } => Some((first, start_cut)),
            _ => None,
        };
        lemma_runs(segs, i + 1, next, k);
        let rest = runs_from(segs, i + 1, next);
        if ends {
            let last = if segs[i as int] is Outside {
                (i - 1) as usize
            } else {
                i as usize
            };
            let head = Run { first, last, start_cut, end_cut: true };
            assert(runs =~= seq![head] + rest);
            assert forall|a: int, b: int| 0 <= a < b < runs.len() implies (#[trigger] runs[a]).last
                < (#[trigger] runs[b]).first by {
                assert(runs[b] == rest[b - 1]);
                if a > 0 {
                    assert(runs[a] == rest[a - 1]);
                }
            }
            assert forall|a: int| 0 <= a < runs.len() implies (#[trigger] runs[a]).first >= first by {
                if a > 0 {
                    assert(runs[a] == rest[a - 1]);
                }
            }
            assert(some_run(runs, k) <==> in_run(head, k) || some_run(rest, k)) by {
                if in_run(head, k) {
                    assert(in_run(runs[0], k));
                }
                if some_run(rest, k) {
                    let j = choose|j: int| 0 <= j < rest.len() && in_run(#[trigger] rest[j], k);
                    assert(in_run(runs[j + 1], k));
                }
                if some_run(runs, k) {
                    let j = choose|j: int| 0 <= j < runs.len() && in_run(#[trigger] runs[j], k);
                    if j > 0 {
                        assert(in_run(rest[j - 1], k));
                    }
                }
            }
        } else {
            assert(runs == rest);
        }
    }
}

/// A line that is inside throughout is one run with neither end cut.
pub proof fn inside_is_one_run(segs: Seq<Visible>)
    requires
        0 < segs.len() <= usize::MAX,
        forall|i: int|
            0 <= i < segs.len() ==> #[trigger] segs[i] == (Visible::Inside {
                cut_in: false,
                cut_out: false,
            }),
    ensures
        runs_from(segs, 0, None) == seq![
            Run { first: 0, last: (segs.len() - 1) as usize, start_cut: false, end_cut: false },
        ],
{
    assert(segs[0] == (Visible::Inside { cut_in: false, cut_out: false }));
    lemma_inside_runs(segs, 1);
}

proof fn lemma_inside_runs(segs: Seq<Visible>, i: nat)
    requires
        1 <= i <= segs.len() <= usize::MAX,
        forall|i: int|
            0 <= i < segs.len() ==> #[trigger] segs[i] == (Visible::Inside {
                cut_in: false,
                cut_out: false,
            }),
    ensures
        runs_from(segs, i, Some((0usize, false))) == seq![
            Run { first: 0, last: (segs.len() - 1) as usize, start_cut: false, end_cut: false },
        ],
    decreases segs.len() - i,
{
    if i < segs.len() {
        assert(segs[i as int] == (Visible::Inside { cut_in: false, cut_out: false }));
        lemma_inside_runs(segs, i + 1);
    }
}

// ---- bounding boxes ----

pub open spec fn min_of(c: Seq<Point>, axis: int, n: nat) -> i16
    decreases n,
{
    if n <= 1 {
        coordinate(c[0], axis)
    } else {
        let m = min_of(c, axis, (n - 1) as nat);
        let v = coordinate(c[n - 1], axis);
        if v < m {
            v
        } else {
            m
        }
    }
}

pub open spec fn max_of(c: Seq<Point>, axis: int, n: nat) -> i16
    decreases n,
{
    if n <= 1 {
        coordinate(c[0], axis)
    } else {
        let m = max_of(c, axis, (n - 1) as nat);
        let v = coordinate(c[n - 1], axis);
        if v > m {
            v
        } else {
            m
        }
    }
}

pub open spec fn coordinate(p: Point, axis: int) -> i16 {
    if axis == 0 {
        p.0
    } else {
        p.1
    }
}

/// The area of the bounding box of a ring.
pub open spec fn box_area(c: Seq<Point>) -> nat {
    if c.len() == 0 {
        0
    } else {
        ((max_of(c, 0, c.len()) - min_of(c, 0, c.len())) * (max_of(c, 1, c.len()) - min_of(
            c,
            1,
            c.len(),
        ))) as nat
    }
}

/// Every vertex lies between the least and the greatest coordinate on each axis.
pub proof fn box_bounds(c: Seq<Point>, n: nat, i: int, axis: int)
    requires
        0 <= i < n <= c.len(),
    ensures
        min_of(c, axis, n) <= coordinate(c[i], axis) <= max_of(c, axis, n),
    decreases n,
{
    if n > 1 {
        if i < n - 1 {
            box_bounds(c, (n - 1) as nat, i, axis);
        } else {
            box_bounds(c, (n - 1) as nat, 0, axis);
        }
    }
}

/// Bounding-box area of a ring in tile-local units^2.
pub fn bbox_area(ring: &Vec<[i16; 2]>) -> (r: u64)
    ensures
        r == box_area(coords_view(ring@)),
        r <= 0xffff * 0xffff,
{
    let ghost c = coords_view(ring@);
    let n: usize = ring.len();
    if n == 0 {
        return 0;
    }
    let mut x0: i16 = ring[0][0];
    let mut x1: i16 = ring[0][0];
    let mut y0: i16 = ring[0][1];
    let mut y1: i16 = ring[0][1];
    let mut i: usize = 1;
    while i < n
        invariant
            1 <= i <= n,
            n == ring@.len(),
            c == coords_view(ring@),
            x0 == min_of(c, 0, i as nat),
            x1 == max_of(c, 0, i as nat),
            y0 == min_of(c, 1, i as nat),
            y1 == max_of(c, 1, i as nat),
            x0 <= x1,
            y0 <= y1,
        decreases n - i,
    {
        let x: i16 = ring[i][0];
        let y: i16 = ring[i][1];
        assert(c[i as int] == (x, y));
        if x < x0 {
            x0 = x;
        }
        if x > x1 {
            x1 = x;
        }
        if y < y0 {
            y0 = y;
        }
        if y > y1 {
            y1 = y;
        }
        i = i + 1;
    }
    let w: u64 = (x1 as i32 - x0 as i32) as u64;
    let h: u64 = (y1 as i32 - y0 as i32) as u64;
    assert(w * h <= 0xffff * 0xffff) by (nonlinear_arith)
        requires
            w <= 0xffff,
            h <= 0xffff,
    ;
    w * h
}

/// The vertex lies on the boundary of the tile.
pub open spec fn on_boundary(p: Point, extent: i16) -> bool {
    p.0 == 0 || p.0 == extent || p.1 == 0 || p.1 == extent
}

/// One flag per vertex of a ring.
pub open spec fn ring_flags(c: Seq<Point>, extent: i16) -> Seq<bool> {
    Seq::new(c.len(), |i: int| on_boundary(c[i], extent))
}

/// One flag per vertex of all rings.
pub open spec fn all_flags(rings: Seq<Seq<Point>>, extent: i16) -> Seq<bool>
    decreases rings.len(),
{
    if rings.len() == 0 {
        Seq::empty()
    } else {
        all_flags(rings.drop_last(), extent) + ring_flags(rings.last(), extent)
    }
}

/// The holes of three or more vertices, as stored.
pub open spec fn stored_holes(holes: Seq<Seq<Point>>) -> Seq<Seq<Point>>
    decreases holes.len(),
{
    if holes.len() == 0 {
        Seq::empty()
    } else {
        let front = stored_holes(holes.drop_last());
        let h = stored_ring(holes.last());
        if h.len() >= 3 {
            front.push(h)
        } else {
            front
        }
    }
}

/// The least box area of a piece that is kept, times 65536: a piece smaller than two by
/// two rendered pixels of a 512-pixel tile, in units of which the tile has `extent`, is
/// dropped.
pub fn least_area(extent: i16) -> (r: u64)
    requires
        extent >= 0,
    ensures
        r * 512 * 512 == 65536 * (2 * extent) * (2 * extent),
{
    let e: u64 = extent as u64;
    assert(e * e <= 0x7fff * 0x7fff) by (nonlinear_arith)
        requires
            e <= 0x7fff,
    ;
    assert((e * e) * 512 * 512 == 65536 * (2 * e) * (2 * e)) by (nonlinear_arith);
    e * e
}

/// What a polygon clipped to a tile becomes: nothing where its outer ring has fewer than
/// three vertices or too small a box.
pub open spec fn piece_of(
    outer: Seq<Point>,
    holes: Seq<Seq<Point>>,
    extent: i16,
    least: nat,
) -> Option<(Seq<Seq<Point>>, Seq<bool>)> {
    let e = stored_ring(outer);
    if e.len() < 3 || box_area(e) * 65536 < least {
        None
    } else {
        let rings = seq![e] + stored_holes(holes);
        Some((rings, all_flags(rings, extent)))
    }
}

/// There is one clip flag per vertex.
pub proof fn flags_per_vertex(rings: Seq<Seq<Point>>, extent: i16)
    ensures
        all_flags(rings, extent).len() == vertex_total(rings),
    decreases rings.len(),
{
    if rings.len() > 0 {
        flags_per_vertex(rings.drop_last(), extent);
    }
}

fn flag_vertices(rings: &Vec<Vec<[i16; 2]>>, extent: i16) -> (r: Vec<bool>)
    ensures
        r@ == all_flags(rings_view(rings@), extent),
{
    let ghost model = rings_view(rings@);
    let mut r: Vec<bool> = Vec::new();
    let mut i: usize = 0;
    assert(r@ =~= all_flags(model.take(0), extent));
    while i < rings.len()
        invariant
            i <= rings@.len(),
            model == rings_view(rings@),
            r@ == all_flags(model.take(i as int), extent),
        decreases rings@.len() - i,
    {
        let ghost before = r@;
        let ghost own = ring_flags(model[i as int], extent);
        let mut k: usize = 0;
        assert(before + own.take(0) =~= before);
        while k < rings[i].len()
            invariant
                i < rings@.len(),
                model == rings_view(rings@),
                own == ring_flags(model[i as int], extent),
                k <= rings@[i as int]@.len(),
                r@ == before + own.take(k as int),
            decreases rings@[i as int]@.len() - k,
        {
            let p: [i16; 2] = rings[i][k];
            assert(model[i as int][k as int] == (p[0], p[1]));
            r.push(p[0] == 0 || p[0] == extent || p[1] == 0 || p[1] == extent);
            k = k + 1;
            assert(r@ =~= before + own.take(k as int));
        }
        assert(own.take(k as int) =~= own);
        i = i + 1;
        proof {
            let done = model.take(i as int);
            assert(done.drop_last() =~= model.take(i - 1));
            assert(done.last() == model[i - 1]);
        }
    }
    assert(model.take(i as int) =~= model);
    r
}

/// Make the piece of a clipped, quantized polygon. `extent` is the tile extent; `least`
/// is the least box area times 65536, 0 to keep every piece.
pub fn make_piece(
    outer: Vec<[i16; 2]>,
    holes: Vec<Vec<[i16; 2]>>,
    extent: i16,
    least: u64,
) -> (r: Option<AreaPiece>)
    ensures
        match r {
            Some(p) => piece_of(
                coords_view(outer@),
                rings_view(holes@),
                extent,
                least as nat,
            ) == Some((rings_view(p.rings@), p.clip@)),
            None => piece_of(
                coords_view(outer@),
                rings_view(holes@),
                extent,
                least as nat,
            ) is None,
        },
{
    let ghost (o, hs) = (coords_view(outer@), rings_view(holes@));
    let e: Vec<[i16; 2]> = finish_ring(outer);
    assert(coords_view(e@).len() == e@.len());
    if e.len() < 3 || bbox_area(&e) * 65536 < least {
        return None;
    }
    let ghost first = coords_view(e@);
    let mut rings: Vec<Vec<[i16; 2]>> = Vec::new();
    rings.push(e);
    let mut i: usize = 0;
    assert(rings_view(rings@) =~= seq![first] + stored_holes(hs.take(0)));
    while i < holes.len()
        invariant
            i <= holes@.len(),
            hs == rings_view(holes@),
            rings_view(rings@) == seq![first] + stored_holes(hs.take(i as int)),
        decreases holes@.len() - i,
    {
        let ghost before = rings_view(rings@);
        let ghost front = stored_holes(hs.take(i as int));
        let h: Vec<[i16; 2]> = finish_ring(copy_coords(&holes[i]));
        let ghost hv = coords_view(h@);
        assert(hv == stored_ring(hs[i as int]));
        proof {
            let next = hs.take(i + 1);
            assert(next.drop_last() =~= hs.take(i as int));
            assert(next.last() == hs[i as int]);
        }
        assert(hv.len() == h@.len());
        if h.len() >= 3 {
            rings.push(h);
            assert(rings_view(rings@) =~= before.push(hv));
            assert(seq![first] + front.push(hv) =~= before.push(hv));
        }
        i = i + 1;
    }
    assert(hs.take(i as int) =~= hs);
    let clip: Vec<bool> = flag_vertices(&rings, extent);
    Some(AreaPiece { rings, clip })
}

} // verus!
