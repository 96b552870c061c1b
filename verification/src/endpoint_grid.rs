//! A spatial hash of line endpoints: which endpoints lie within a tolerance of a
//! point.
//!
//! The cell size equals the tolerance, so any endpoint within it falls in the
//! point's own cell or one of the eight around it.

use std::collections::HashMap;
use vstd::arithmetic::div_mod::{lemma_div_multiples_vanish_fancy, lemma_fundamental_div_mod};
use vstd::prelude::*;
use vstd::std_specs::hash::group_hash_axioms;

verus! {

broadcast use group_hash_axioms;

/// Within `tol` of each other on both axes.
pub open spec fn near(a: [i32; 2], b: [i32; 2], tol: int) -> bool {
    -tol <= a[0] - b[0] <= tol && -tol <= a[1] - b[1] <= tol
}

/// The cell of a point.
pub open spec fn cell_of(c: [i32; 2], tol: int) -> (int, int) {
    (c[0] as int / tol, c[1] as int / tol)
}

/// The endpoints in a cell, among the first `n`, in order.
pub open spec fn cell_members(points: Seq<[i32; 2]>, tol: int, cell: (int, int), n: nat) -> Seq<usize>
    decreases n,
{
    if n == 0 {
        Seq::empty()
    } else {
        let front = cell_members(points, tol, cell, (n - 1) as nat);
        if cell_of(points[n - 1], tol) == cell {
            front.push((n - 1) as usize)
        } else {
            front
        }
    }
}

/// Those of `ids` whose endpoint is within `tol` of `c`, in order.
pub open spec fn near_only(ids: Seq<usize>, points: Seq<[i32; 2]>, c: [i32; 2], tol: int) -> Seq<
    usize,
>
    decreases ids.len(),
{
    if ids.len() == 0 {
        Seq::empty()
    } else {
        let front = near_only(ids.drop_last(), points, c, tol);
        if near(points[ids.last() as int], c, tol) {
            front.push(ids.last())
        } else {
            front
        }
    }
}

/// The endpoints within `tol` of `c` in the cell that stands `(dx, dy)` from its own.
pub open spec fn cell_hits(points: Seq<[i32; 2]>, c: [i32; 2], tol: int, dx: int, dy: int) -> Seq<
    usize,
> {
    let (cx, cy) = cell_of(c, tol);
    near_only(cell_members(points, tol, (cx + dx, cy + dy), points.len()), points, c, tol)
}

/// The hits in the first `k` of the nine cells around `c`, column by column.
pub open spec fn block_hits(points: Seq<[i32; 2]>, c: [i32; 2], tol: int, k: nat) -> Seq<usize>
    decreases k,
{
    if k == 0 {
        Seq::empty()
    } else {
        block_hits(points, c, tol, (k - 1) as nat) + cell_hits(
            points,
            c,
            tol,
            (k - 1) / 3 - 1,
            (k - 1) % 3 - 1,
        )
    }
}

/// The endpoints within `tol` of `c`: cell by cell, each cell's in order.
pub open spec fn grid_hits(points: Seq<[i32; 2]>, c: [i32; 2], tol: int) -> Seq<usize> {
    block_hits(points, c, tol, 9)
}

// ---- laws ----

proof fn lemma_members(points: Seq<[i32; 2]>, tol: int, cell: (int, int), n: nat)
    requires
        n <= points.len() <= usize::MAX,
    ensures
        forall|p: usize|
            #![trigger cell_members(points, tol, cell, n).contains(p)]
            cell_members(points, tol, cell, n).contains(p) <==> p < n && cell_of(
                points[p as int],
                tol,
            ) == cell,
    decreases n,
{
    let all = cell_members(points, tol, cell, n);
    if n > 0 {
        let front = cell_members(points, tol, cell, (n - 1) as nat);
        lemma_members(points, tol, cell, (n - 1) as nat);
        let last = (n - 1) as usize;
        assert forall|p: usize| #[trigger] all.contains(p) <==> p < n && cell_of(
            points[p as int],
            tol,
        ) == cell by {
            if all.contains(p) {
                let i = choose|i: int| 0 <= i < all.len() && all[i] == p;
                if i < front.len() {
                    assert(front[i] == p);
                    assert(front.contains(p));
                }
            }
            if p < n && cell_of(points[p as int], tol) == cell {
                if p == last {
                    assert(all[front.len() as int] == last);
                } else {
                    assert(front.contains(p));
                    let i = choose|i: int| 0 <= i < front.len() && front[i] == p;
                    assert(all[i] == p);
                }
            }
        }
    }
}

proof fn lemma_near_only(ids: Seq<usize>, points: Seq<[i32; 2]>, c: [i32; 2], tol: int)
    ensures
        forall|p: usize|
            #![trigger near_only(ids, points, c, tol).contains(p)]
            near_only(ids, points, c, tol).contains(p) <==> ids.contains(p) && near(
                points[p as int],
                c,
                tol,
            ),
    decreases ids.len(),
{
    let out = near_only(ids, points, c, tol);
    if ids.len() > 0 {
        let front = near_only(ids.drop_last(), points, c, tol);
        lemma_near_only(ids.drop_last(), points, c, tol);
        assert forall|p: usize| #[trigger] out.contains(p) <==> ids.contains(p) && near(
            points[p as int],
            c,
            tol,
        ) by {
            if out.contains(p) {
                let i = choose|i: int| 0 <= i < out.len() && out[i] == p;
                if i < front.len() {
                    assert(front[i] == p);
                    assert(front.contains(p));
                    assert(ids.drop_last().contains(p));
                    let j = choose|j: int| 0 <= j < ids.drop_last().len() && ids.drop_last()[j] == p;
                    assert(ids[j] == p);
                } else {
                    assert(ids[ids.len() - 1] == p);
                }
            }
            if ids.contains(p) && near(points[p as int], c, tol) {
                let j = choose|j: int| 0 <= j < ids.len() && ids[j] == p;
                if j < ids.len() - 1 {
                    assert(ids.drop_last()[j] == p);
                    assert(ids.drop_last().contains(p));
                    assert(front.contains(p));
                    let i = choose|i: int| 0 <= i < front.len() && front[i] == p;
                    assert(out[i] == p);
                } else {
                    assert(out[front.len() as int] == p);
                }
            }
        }
    }
}

proof fn lemma_block_contains(points: Seq<[i32; 2]>, c: [i32; 2], tol: int, k: nat, p: usize)
    ensures
        block_hits(points, c, tol, k).contains(p) <==> exists|m: int|
            0 <= m < k && #[trigger] cell_hits(points, c, tol, m / 3 - 1, m % 3 - 1).contains(p),
    decreases k,
{
    if k > 0 {
        let front = block_hits(points, c, tol, (k - 1) as nat);
        let last = cell_hits(points, c, tol, (k - 1) / 3 - 1, (k - 1) % 3 - 1);
        let all = block_hits(points, c, tol, k);
        lemma_block_contains(points, c, tol, (k - 1) as nat, p);
        if all.contains(p) {
            let i = choose|i: int| 0 <= i < all.len() && all[i] == p;
            if i < front.len() {
                assert(front[i] == p);
            } else {
                assert(last[i - front.len()] == p);
                assert(cell_hits(points, c, tol, (k - 1) / 3 - 1, (k - 1) % 3 - 1).contains(p));
            }
        }
        if exists|m: int|
            0 <= m < k && #[trigger] cell_hits(points, c, tol, m / 3 - 1, m % 3 - 1).contains(p) {
            let m = choose|m: int|
                0 <= m < k && #[trigger] cell_hits(points, c, tol, m / 3 - 1, m % 3 - 1).contains(
                    p,
                );
            if m < k - 1 {
                let i = choose|i: int| 0 <= i < front.len() && front[i] == p;
                assert(all[i] == p);
            } else {
                let i = choose|i: int| 0 <= i < last.len() && last[i] == p;
                assert(all[front.len() + i] == p);
            }
        }
    }
}

proof fn lemma_adjacent(a: int, b: int, tol: int)
    requires
        tol >= 1,
        -tol <= a - b <= tol,
    ensures
        -1 <= a / tol - b / tol <= 1,
{
    lemma_fundamental_div_mod(a, tol);
    lemma_fundamental_div_mod(b, tol);
    let qa = a / tol;
    let qb = b / tol;
    assert(0 <= a % tol < tol && 0 <= b % tol < tol);
    if qa - qb >= 2 {
        assert(tol * qa >= tol * qb + 2 * tol) by (nonlinear_arith)
            requires
                qa >= qb + 2,
                tol >= 1,
        ;
    }
    if qb - qa >= 2 {
        assert(tol * qb >= tol * qa + 2 * tol) by (nonlinear_arith)
            requires
                qb >= qa + 2,
                tol >= 1,
        ;
    }
}

/// The hits are exactly the endpoints within the tolerance.
pub proof fn grid_hits_complete(points: Seq<[i32; 2]>, c: [i32; 2], tol: int, p: usize)
    requires
        tol >= 1,
        points.len() <= usize::MAX,
    ensures
        grid_hits(points, c, tol).contains(p) <==> p < points.len() && near(
            points[p as int],
            c,
            tol,
        ),
{
    lemma_block_contains(points, c, tol, 9, p);
    let (cx, cy) = cell_of(c, tol);
    assert forall|m: int|
        0 <= m < 9 && #[trigger] cell_hits(points, c, tol, m / 3 - 1, m % 3 - 1).contains(
            p,
        ) implies p < points.len() && near(points[p as int], c, tol) by {
        let cell = (cx + (m / 3 - 1), cy + (m % 3 - 1));
        let ids = cell_members(points, tol, cell, points.len());
        lemma_members(points, tol, cell, points.len());
        lemma_near_only(ids, points, c, tol);
        assert(ids.contains(p));
    }
    if p < points.len() && near(points[p as int], c, tol) {
        let (px, py) = cell_of(points[p as int], tol);
        lemma_adjacent(points[p as int][0] as int, c[0] as int, tol);
        lemma_adjacent(points[p as int][1] as int, c[1] as int, tol);
        let m = (px - cx + 1) * 3 + (py - cy + 1);
        assert(0 <= m < 9 && m / 3 - 1 == px - cx && m % 3 - 1 == py - cy);
        let ids = cell_members(points, tol, (px, py), points.len());
        lemma_members(points, tol, (px, py), points.len());
        lemma_near_only(ids, points, c, tol);
        assert(ids.contains(p));
        assert(cell_hits(points, c, tol, m / 3 - 1, m % 3 - 1).contains(p));
    }
}

proof fn lemma_members_increase(points: Seq<[i32; 2]>, tol: int, cell: (int, int), n: nat)
    requires
        n <= points.len() <= usize::MAX,
    ensures
        cell_members(points, tol, cell, n).no_duplicates(),
    decreases n,
{
    if n > 0 {
        lemma_members(points, tol, cell, (n - 1) as nat);
        lemma_members_increase(points, tol, cell, (n - 1) as nat);
        let front = cell_members(points, tol, cell, (n - 1) as nat);
        let all = cell_members(points, tol, cell, n);
        assert forall|i: int, j: int| 0 <= i < j < all.len() implies all[i] != all[j] by {
            assert(all[i] == front[i]);
            assert(front.contains(front[i]));
            if j < front.len() {
                assert(all[j] == front[j]);
            }
        }
    }
}

proof fn lemma_near_only_distinct(ids: Seq<usize>, points: Seq<[i32; 2]>, c: [i32; 2], tol: int)
    requires
        ids.no_duplicates(),
    ensures
        near_only(ids, points, c, tol).no_duplicates(),
    decreases ids.len(),
{
    if ids.len() > 0 {
        let rest = ids.drop_last();
        lemma_near_only_distinct(rest, points, c, tol);
        lemma_near_only(rest, points, c, tol);
        let front = near_only(rest, points, c, tol);
        let all = near_only(ids, points, c, tol);
        assert forall|i: int, j: int| 0 <= i < j < all.len() implies all[i] != all[j] by {
            assert(all[i] == front[i]);
            assert(front.contains(front[i]));
            assert(rest.contains(front[i]));
            if j < front.len() {
                assert(all[j] == front[j]);
            }
        }
    }
}

proof fn lemma_block_distinct(points: Seq<[i32; 2]>, c: [i32; 2], tol: int, k: nat)
    requires
        k <= 9,
        points.len() <= usize::MAX,
    ensures
        block_hits(points, c, tol, k).no_duplicates(),
    decreases k,
{
    if k > 0 {
        let (cx, cy) = cell_of(c, tol);
        let n = (k - 1) as nat;
        let front = block_hits(points, c, tol, n);
        let last = cell_hits(points, c, tol, n as int / 3 - 1, n as int % 3 - 1);
        lemma_block_distinct(points, c, tol, n);
        let own = (cx + (n as int / 3 - 1), cy + (n as int % 3 - 1));
        let ids = cell_members(points, tol, own, points.len());
        lemma_members(points, tol, own, points.len());
        lemma_members_increase(points, tol, own, points.len());
        lemma_near_only(ids, points, c, tol);
        lemma_near_only_distinct(ids, points, c, tol);
        assert forall|i: int, j: int| 0 <= i < front.len() && 0 <= j < last.len() implies front[i]
            != last[j] by {
            let p = front[i];
            assert(front.contains(p));
            lemma_block_contains(points, c, tol, n, p);
            let m = choose|m: int|
                0 <= m < n && #[trigger] cell_hits(points, c, tol, m / 3 - 1, m % 3 - 1).contains(
                    p,
                );
            let other = (cx + (m / 3 - 1), cy + (m % 3 - 1));
            let theirs = cell_members(points, tol, other, points.len());
            lemma_members(points, tol, other, points.len());
            lemma_near_only(theirs, points, c, tol);
            assert(theirs.contains(p));
            if front[i] == last[j] {
                assert(last.contains(p));
                assert(ids.contains(p));
                assert(other == own);
            }
        }
        let all = block_hits(points, c, tol, k);
        assert(all == front + last);
        assert forall|i: int, j: int| 0 <= i < j < all.len() implies all[i] != all[j] by {
            if j < front.len() {
                assert(all[i] == front[i] && all[j] == front[j]);
            } else if i < front.len() {
                assert(all[i] == front[i] && all[j] == last[j - front.len()]);
            } else {
                assert(all[i] == last[i - front.len()] && all[j] == last[j - front.len()]);
            }
        }
    }
}

/// No endpoint is hit twice.
pub proof fn grid_hits_distinct(points: Seq<[i32; 2]>, c: [i32; 2], tol: int)
    requires
        points.len() <= usize::MAX,
    ensures
        grid_hits(points, c, tol).no_duplicates(),
{
    lemma_block_distinct(points, c, tol, 9);
}

// ---- order of hits ----

/// The cell of `a` stands before that of `b`: in a column before, or in the same column
/// and a row before.
pub open spec fn cell_before(a: [i32; 2], b: [i32; 2], tol: int) -> bool {
    ||| a[0] as int / tol < b[0] as int / tol
    ||| a[0] as int / tol == b[0] as int / tol && (a[1] as int / tol) < b[1] as int / tol
}

/// The hits come cell by cell, and in each cell in the order of the endpoints.
pub open spec fn hits_ordered(points: Seq<[i32; 2]>, hits: Seq<usize>, tol: int) -> bool {
    forall|i: int, j: int|
        0 <= i < j < hits.len() ==> {
            let (p, q) = (#[trigger] hits[i], #[trigger] hits[j]);
            cell_before(points[p as int], points[q as int], tol) || (cell_of(
                points[p as int],
                tol,
            ) == cell_of(points[q as int], tol) && p < q)
        }
}

spec fn ascending(s: Seq<usize>) -> bool {
    forall|i: int, j: int| 0 <= i < j < s.len() ==> #[trigger] s[i] < #[trigger] s[j]
}

proof fn lemma_members_ascend(points: Seq<[i32; 2]>, tol: int, cell: (int, int), n: nat)
    requires
        n <= points.len() <= usize::MAX,
    ensures
        ascending(cell_members(points, tol, cell, n)),
    decreases n,
{
    if n > 0 {
        lemma_members(points, tol, cell, (n - 1) as nat);
        lemma_members_ascend(points, tol, cell, (n - 1) as nat);
        let front = cell_members(points, tol, cell, (n - 1) as nat);
        let all = cell_members(points, tol, cell, n);
        assert forall|i: int, j: int| 0 <= i < j < all.len() implies #[trigger] all[i]
            < #[trigger] all[j] by {
            assert(all[i] == front[i]);
            assert(front.contains(front[i]));
            if j < front.len() {
                assert(all[j] == front[j]);
            }
        }
    }
}

proof fn lemma_near_only_ascends(ids: Seq<usize>, points: Seq<[i32; 2]>, c: [i32; 2], tol: int)
    requires
        ascending(ids),
    ensures
        ascending(near_only(ids, points, c, tol)),
    decreases ids.len(),
{
    if ids.len() > 0 {
        let rest = ids.drop_last();
        assert(ascending(rest)) by {
            assert forall|i: int, j: int| 0 <= i < j < rest.len() implies #[trigger] rest[i]
                < #[trigger] rest[j] by {
                assert(ids[i] < ids[j]);
            }
        }
        lemma_near_only_ascends(rest, points, c, tol);
        lemma_near_only(rest, points, c, tol);
        let front = near_only(rest, points, c, tol);
        let all = near_only(ids, points, c, tol);
        assert forall|i: int, j: int| 0 <= i < j < all.len() implies #[trigger] all[i]
            < #[trigger] all[j] by {
            assert(all[i] == front[i]);
            assert(front.contains(front[i]));
            assert(rest.contains(front[i]));
            if j < front.len() {
                assert(all[j] == front[j]);
            } else {
                let k = choose|k: int| 0 <= k < rest.len() && rest[k] == front[i];
                assert(ids[k] < ids[ids.len() - 1]);
            }
        }
    }
}

proof fn lemma_block_ordered(points: Seq<[i32; 2]>, c: [i32; 2], tol: int, k: nat)
    requires
        k <= 9,
        points.len() <= usize::MAX,
    ensures
        hits_ordered(points, block_hits(points, c, tol, k), tol),
    decreases k,
{
    if k > 0 {
        let (cx, cy) = cell_of(c, tol);
        let n = (k - 1) as nat;
        let front = block_hits(points, c, tol, n);
        let last = cell_hits(points, c, tol, n as int / 3 - 1, n as int % 3 - 1);
        lemma_block_ordered(points, c, tol, n);
        let own = (cx + (n as int / 3 - 1), cy + (n as int % 3 - 1));
        let ids = cell_members(points, tol, own, points.len());
        lemma_members(points, tol, own, points.len());
        lemma_members_ascend(points, tol, own, points.len());
        lemma_near_only(ids, points, c, tol);
        lemma_near_only_ascends(ids, points, c, tol);
        let all = block_hits(points, c, tol, k);
        assert(all == front + last);
        assert forall|i: int, j: int| 0 <= i < j < all.len() implies {
            let (p, q) = (#[trigger] all[i], #[trigger] all[j]);
            cell_before(points[p as int], points[q as int], tol) || (cell_of(
                points[p as int],
                tol,
            ) == cell_of(points[q as int], tol) && p < q)
        } by {
            if j < front.len() {
                assert(all[i] == front[i] && all[j] == front[j]);
            } else {
                let q = last[j - front.len()];
                assert(all[j] == q);
                assert(last.contains(q));
                assert(ids.contains(q));
                if i < front.len() {
                    let p = front[i];
                    assert(front.contains(p));
                    lemma_block_contains(points, c, tol, n, p);
                    let m = choose|m: int|
                        0 <= m < n && #[trigger] cell_hits(
                            points,
                            c,
                            tol,
                            m / 3 - 1,
                            m % 3 - 1,
                        ).contains(p);
                    let other = (cx + (m / 3 - 1), cy + (m % 3 - 1));
                    let theirs = cell_members(points, tol, other, points.len());
                    lemma_members(points, tol, other, points.len());
                    lemma_near_only(theirs, points, c, tol);
                    assert(theirs.contains(p));
                } else {
                    let p = last[i - front.len()];
                    assert(all[i] == p);
                    assert(last.contains(p));
                    assert(ids.contains(p));
                }
            }
        }
    }
}

/// The endpoints that are hit come cell by cell, and in each cell in their own order.
pub proof fn grid_hits_ordered(points: Seq<[i32; 2]>, c: [i32; 2], tol: int)
    requires
        points.len() <= usize::MAX,
    ensures
        hits_ordered(points, grid_hits(points, c, tol), tol),
{
    lemma_block_ordered(points, c, tol, 9);
}

pub proof fn lemma_hits_in_range(points: Seq<[i32; 2]>, c: [i32; 2], tol: int)
    requires
        tol >= 1,
        points.len() <= usize::MAX,
    ensures
        forall|i: int|
            0 <= i < grid_hits(points, c, tol).len() ==> (#[trigger] grid_hits(points, c, tol)[i])
                < points.len(),
{
    let h = grid_hits(points, c, tol);
    assert forall|i: int| 0 <= i < h.len() implies (#[trigger] h[i]) < points.len() by {
        assert(h.contains(h[i]));
        grid_hits_complete(points, c, tol, h[i]);
    }
}

// ---- the index ----

/// A cell as one number.
spec fn cell_key(cell: (int, int)) -> int {
    cell.0 * 0x100_0000_0000 + cell.1
}

spec fn cell_small(cell: (int, int)) -> bool {
    -0x1_0000_0000 <= cell.0 <= 0x1_0000_0000 && -0x1_0000_0000 <= cell.1 <= 0x1_0000_0000
}

proof fn lemma_cell_key_injective(a: (int, int), b: (int, int))
    requires
        cell_small(a),
        cell_small(b),
        cell_key(a) == cell_key(b),
    ensures
        a == b,
{
}

/// Floor division.
fn floor_div(a: i32, t: i32) -> (r: i64)
    requires
        t >= 1,
    ensures
        r == a as int / t as int,
        -0x8000_0000 <= r <= 0x7fff_ffff,
{
    let k: i64 = 0x8000_0000;
    let wide: i64 = t as i64;
    proof {
        assert(k * wide <= 0x8000_0000 * 0x7fff_ffff) by (nonlinear_arith)
            requires
                k == 0x8000_0000,
                1 <= wide <= 0x7fff_ffff,
        ;
        assert(k * wide >= 0x8000_0000) by (nonlinear_arith)
            requires
                k == 0x8000_0000,
                1 <= wide,
        ;
        let q = a as int / t as int;
        let m = a as int % t as int;
        lemma_fundamental_div_mod(a as int, t as int);
        lemma_div_multiples_vanish_fancy(k + q, m, t as int);
        assert(t as int * (k + q) + m == a + k * wide) by (nonlinear_arith)
            requires
                a == t * q + m,
                wide == t,
        ;
        assert((a + k * wide) / t as int == k + q);
        assert(q >= -0x8000_0000) by (nonlinear_arith)
            requires
                a == t * q + m,
                0 <= m < t,
                a >= -0x8000_0000,
                t >= 1,
        ;
        assert(q <= 0x7fff_ffff) by (nonlinear_arith)
            requires
                a == t * q + m,
                0 <= m < t,
                a <= 0x7fff_ffff,
                t >= 1,
        ;
    }
    (a as i64 + k * wide) / wide - k
}

fn key_of(kx: i64, ky: i64) -> (r: i128)
    requires
        cell_small((kx as int, ky as int)),
    ensures
        r == cell_key((kx as int, ky as int)),
{
    (kx as i128) * 0x100_0000_0000 + ky as i128
}

/// Endpoints, indexed by cell.
pub struct EndpointGrid {
    tol: i32,
    points: Vec<[i32; 2]>,
    cells: HashMap<i128, Vec<usize>>,
}

impl EndpointGrid {
    pub closed spec fn points(&self) -> Seq<[i32; 2]> {
        self.points@
    }

    pub closed spec fn tol(&self) -> int {
        self.tol as int
    }

    spec fn indexed(&self, n: nat) -> bool {
        &&& forall|cell: (int, int)| #[trigger]
            cell_small(cell) ==> {
                let key = cell_key(cell) as i128;
                let members = cell_members(self.points@, self.tol as int, cell, n);
                if self.cells@.contains_key(key) {
                    self.cells@[key]@ == members
                } else {
                    members.len() == 0
                }
            }
    }

    pub closed spec fn wf(&self) -> bool {
        &&& self.tol >= 1
        &&& self.points@.len() <= usize::MAX
        &&& self.indexed(self.points@.len())
    }

    /// Index `points` for a tolerance.
    pub fn new(points: Vec<[i32; 2]>, tol: i32) -> (r: Self)
        requires
            tol >= 1,
        ensures
            r.wf(),
            r.points() == points@,
            r.tol() == tol,
    {
        let n: usize = points.len();
        let mut grid = EndpointGrid { tol, points, cells: HashMap::new() };
        let mut p: usize = 0;
        while p < n
            invariant
                p <= n,
                n == points@.len(),
                grid.points@ == points@,
                grid.tol == tol,
                tol >= 1,
                grid.indexed(p as nat),
            decreases n - p,
        {
            let c: [i32; 2] = grid.points[p];
            let kx: i64 = floor_div(c[0], tol);
            let ky: i64 = floor_div(c[1], tol);
            let key: i128 = key_of(kx, ky);
            let ghost own = (kx as int, ky as int);
            assert(own == cell_of(c, tol as int));
            let ghost before = grid.cells@;
            let ghost old_grid = grid;
            let mut ids: Vec<usize> = match grid.cells.remove(&key) {
                Some(v) => v,
                None => Vec::new(),
            };
            proof {
                assert(cell_small(own));
                assert(ids@ =~= cell_members(points@, tol as int, own, p as nat));
            }
            ids.push(p);
            grid.cells.insert(key, ids);
            p = p + 1;
            proof {
                assert forall|cell: (int, int)| #[trigger] cell_small(cell) implies {
                    let k = cell_key(cell) as i128;
                    let members = cell_members(grid.points@, grid.tol as int, cell, p as nat);
                    if grid.cells@.contains_key(k) {
                        grid.cells@[k]@ == members
                    } else {
                        members.len() == 0
                    }
                } by {
                    let k = cell_key(cell) as i128;
                    if cell == own {
                        assert(grid.cells@[k] == ids);
                    } else {
                        if k == key {
                            lemma_cell_key_injective(cell, own);
                        }
                        assert(grid.cells@.contains_key(k) == before.contains_key(k));
                        if before.contains_key(k) {
                            assert(grid.cells@[k] == before[k]);
                        }
                    }
                }
            }
        }
        grid
    }

    /// The endpoints within the tolerance of `c`.
    pub fn hits(&self, c: [i32; 2]) -> (r: Vec<usize>)
        requires
            self.wf(),
        ensures
            r@ == grid_hits(self.points(), c, self.tol()),
            forall|i: int| 0 <= i < r@.len() ==> (#[trigger] r@[i]) < self.points().len(),
    {
        let cx: i64 = floor_div(c[0], self.tol);
        let cy: i64 = floor_div(c[1], self.tol);
        let ghost tol = self.tol as int;
        let ghost points = self.points@;
        let mut hits: Vec<usize> = Vec::new();
        let mut k: i64 = 0;
        assert(hits@ =~= block_hits(points, c, tol, 0));
        while k < 9
            invariant
                0 <= k <= 9,
                self.wf(),
                tol == self.tol as int,
                points == self.points@,
                (cx as int, cy as int) == cell_of(c, tol),
                -0x8000_0000 <= cx <= 0x7fff_ffff,
                -0x8000_0000 <= cy <= 0x7fff_ffff,
                hits@ == block_hits(points, c, tol, k as nat),
            decreases 9 - k,
        {
            let kx: i64 = cx + (k / 3 - 1);
            let ky: i64 = cy + (k % 3 - 1);
            let ghost cell = (kx as int, ky as int);
            assert(cell_small(cell));
            let ghost members = cell_members(points, tol, cell, points.len());
            let ghost before = hits@;
            proof {
                lemma_members(points, tol, cell, points.len());
            }
            let key: i128 = key_of(kx, ky);
            match self.cells.get(&key) {
                Some(ids) => {
                    assert(ids@ == members);
                    let mut i: usize = 0;
                    assert(before + near_only(ids@.take(0), points, c, tol) =~= before);
                    while i < ids.len()
                        invariant
                            i <= ids@.len(),
                            ids@ == members,
                            tol == self.tol as int,
                            tol >= 1,
                            points == self.points@,
                            forall|p: usize| #[trigger] members.contains(p) ==> p < points.len(),
                            hits@ == before + near_only(ids@.take(i as int), points, c, tol),
                        decreases ids@.len() - i,
                    {
                        let pid: usize = ids[i];
                        assert(members.contains(members[i as int]));
                        let q: [i32; 2] = self.points[pid];
                        let dx: i64 = q[0] as i64 - c[0] as i64;
                        let dy: i64 = q[1] as i64 - c[1] as i64;
                        let t: i64 = self.tol as i64;
                        let ghost was = hits@;
                        if -t <= dx && dx <= t && -t <= dy && dy <= t {
                            hits.push(pid);
                        }
                        i = i + 1;
                        proof {
                            let done = ids@.take(i as int);
                            assert(done.drop_last() =~= ids@.take(i - 1));
                            assert(done.last() == pid);
                            assert(hits@ =~= before + near_only(done, points, c, tol));
                        }
                    }
                    assert(ids@.take(i as int) =~= ids@);
                },
                None => {
                    assert(members =~= Seq::empty());
                    assert(hits@ =~= before + near_only(members, points, c, tol));
                },
            }
            k = k + 1;
        }
        proof {
            lemma_hits_in_range(points, c, tol);
            assert(hits@ == grid_hits(points, c, tol));
            assert forall|i: int| 0 <= i < hits@.len() implies (#[trigger] hits@[i])
                < points.len() by {
                assert(grid_hits(points, c, tol)[i] < points.len());
            }
        }
        hits
    }
}

} // verus!
