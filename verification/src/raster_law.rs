//! What growing and shrinking do to a raster.

use vstd::prelude::*;

use crate::mask::{
    all_near, any_near, cell, closed_mask, cropped, neighbour, pass_of, window_of, CellBox,
};

verus! {

/// The cell is in the raster and set.
pub open spec fn lit(s: Seq<u8>, w: int, h: int, x: int, y: int) -> bool {
    0 <= x < w && 0 <= y < h && s[y * w + x] == 1
}

proof fn lemma_place(w: int, h: int, x: int, y: int)
    requires
        0 <= x < w,
        0 <= y < h,
    ensures
        0 <= y * w + x < w * h,
        (y * w + x) % w == x,
        (y * w + x) / w == y,
{
    assert(0 <= y * w + x < w * h) by (nonlinear_arith)
        requires
            0 <= x < w,
            0 <= y < h,
    ;
    vstd::arithmetic::div_mod::lemma_fundamental_div_mod_converse(y * w + x, w, y, x);
}

proof fn lemma_cell(s: Seq<u8>, w: int, h: int, x: int, y: int)
    ensures
        cell(s, w, h, x, y) == 1 <==> lit(s, w, h, x, y),
{
}

/// Some cell of the row within `r` columns is set.
pub open spec fn row_near(s: Seq<u8>, w: int, h: int, x: int, y: int, r: int) -> bool {
    exists|k: int| x - r <= k <= x + r && #[trigger] lit(s, w, h, k, y)
}

/// Some cell of the column within `r` rows is set.
pub open spec fn column_near(s: Seq<u8>, w: int, h: int, x: int, y: int, r: int) -> bool {
    exists|k: int| y - r <= k <= y + r && #[trigger] lit(s, w, h, x, k)
}

/// Growing sets the cells within `r` columns, or rows, of a set one, and no others.
pub proof fn growing_reaches(s: Seq<u8>, w: int, h: int, r: int, x: int, y: int)
    requires
        w >= 1,
        s.len() == w * h,
        0 <= x < w,
        0 <= y < h,
    ensures
        lit(pass_of(s, w, h, r, true, true), w, h, x, y) <==> row_near(s, w, h, x, y, r),
        lit(pass_of(s, w, h, r, false, true), w, h, x, y) <==> column_near(s, w, h, x, y, r),
{
    lemma_place(w, h, x, y);
    if any_near(s, w, h, x, y, r, true) {
        let d = choose|d: int| -r <= d <= r && #[trigger] neighbour(s, w, h, x, y, d, true) == 1;
        lemma_cell(s, w, h, x + d, y);
        assert(lit(s, w, h, x + d, y));
    }
    if row_near(s, w, h, x, y, r) {
        let k = choose|k: int| x - r <= k <= x + r && #[trigger] lit(s, w, h, k, y);
        lemma_cell(s, w, h, k, y);
        assert(neighbour(s, w, h, x, y, k - x, true) == 1);
    }
    if any_near(s, w, h, x, y, r, false) {
        let d = choose|d: int| -r <= d <= r && #[trigger] neighbour(s, w, h, x, y, d, false) == 1;
        lemma_cell(s, w, h, x, y + d);
        assert(lit(s, w, h, x, y + d));
    }
    if column_near(s, w, h, x, y, r) {
        let k = choose|k: int| y - r <= k <= y + r && #[trigger] lit(s, w, h, x, k);
        lemma_cell(s, w, h, x, k);
        assert(neighbour(s, w, h, x, y, k - y, false) == 1);
    }
}

/// Shrinking keeps the cells whose whole row, or column, within `r` is set; what lies
/// outside the raster is not.
pub proof fn shrinking_keeps(s: Seq<u8>, w: int, h: int, r: int, x: int, y: int)
    requires
        w >= 1,
        s.len() == w * h,
        0 <= x < w,
        0 <= y < h,
    ensures
        lit(pass_of(s, w, h, r, true, false), w, h, x, y) <==> forall|k: int|
            x - r <= k <= x + r ==> #[trigger] lit(s, w, h, k, y),
        lit(pass_of(s, w, h, r, false, false), w, h, x, y) <==> forall|k: int|
            y - r <= k <= y + r ==> #[trigger] lit(s, w, h, x, k),
{
    lemma_place(w, h, x, y);
    if all_near(s, w, h, x, y, r, true) {
        assert forall|k: int| x - r <= k <= x + r implies #[trigger] lit(s, w, h, k, y) by {
            lemma_cell(s, w, h, k, y);
            assert(neighbour(s, w, h, x, y, k - x, true) == 1);
        }
    }
    if forall|k: int| x - r <= k <= x + r ==> #[trigger] lit(s, w, h, k, y) {
        assert forall|d: int| -r <= d <= r implies #[trigger] neighbour(s, w, h, x, y, d, true)
            == 1 by {
            assert(lit(s, w, h, x + d, y));
        }
    }
    if all_near(s, w, h, x, y, r, false) {
        assert forall|k: int| y - r <= k <= y + r implies #[trigger] lit(s, w, h, x, k) by {
            lemma_cell(s, w, h, x, k);
            assert(neighbour(s, w, h, x, y, k - y, false) == 1);
        }
    }
    if forall|k: int| y - r <= k <= y + r ==> #[trigger] lit(s, w, h, x, k) {
        assert forall|d: int| -r <= d <= r implies #[trigger] neighbour(s, w, h, x, y, d, false)
            == 1 by {
            assert(lit(s, w, h, x, y + d));
        }
    }
}

/// Some cell within `r` columns and rows is set.
pub open spec fn block_near(s: Seq<u8>, w: int, h: int, x: int, y: int, r: int) -> bool {
    exists|j: int, k: int|
        x - r <= j <= x + r && y - r <= k <= y + r && #[trigger] lit(s, w, h, j, k)
}

/// The raster grown along both axes.
spec fn grown_mask(s: Seq<u8>, w: int, h: int, r: int) -> Seq<u8> {
    pass_of(pass_of(s, w, h, r, true, true), w, h, r, false, true)
}

proof fn lemma_grown(s: Seq<u8>, w: int, h: int, r: int, x: int, y: int)
    requires
        w >= 1,
        r >= 0,
        s.len() == w * h,
        0 <= x < w,
        0 <= y < h,
    ensures
        lit(grown_mask(s, w, h, r), w, h, x, y) <==> block_near(s, w, h, x, y, r),
{
    let m = pass_of(s, w, h, r, true, true);
    growing_reaches(m, w, h, r, x, y);
    if lit(grown_mask(s, w, h, r), w, h, x, y) {
        let k = choose|k: int| y - r <= k <= y + r && #[trigger] lit(m, w, h, x, k);
        growing_reaches(s, w, h, r, x, k);
        let j = choose|j: int| x - r <= j <= x + r && #[trigger] lit(s, w, h, j, k);
        assert(lit(s, w, h, j, k));
    }
    if block_near(s, w, h, x, y, r) {
        let (j, k) = choose|j: int, k: int|
            x - r <= j <= x + r && y - r <= k <= y + r && #[trigger] lit(s, w, h, j, k);
        growing_reaches(s, w, h, r, x, k);
        assert(row_near(s, w, h, x, k, r));
        assert(lit(m, w, h, x, k));
    }
}

/// Every cell within `r` columns and rows is in the raster and has a set cell within `r`
/// columns and rows of its own.
pub open spec fn filled(s: Seq<u8>, w: int, h: int, x: int, y: int, r: int) -> bool {
    forall|j: int, k: int| #[trigger]
        beside(x, y, r, j, k) ==> 0 <= j < w && 0 <= k < h && block_near(s, w, h, j, k, r)
}

/// Within `r` columns and rows.
pub open spec fn beside(x: int, y: int, r: int, j: int, k: int) -> bool {
    x - r <= j <= x + r && y - r <= k <= y + r
}

/// Closing sets a cell exactly if every cell within `r` columns and rows of it is in the
/// raster and has a set cell within `r` columns and rows of its own. So it fills gaps of
/// up to `2 r`, and sets nothing that has no set cell within `r`.
pub proof fn closing_fills_gaps(s: Seq<u8>, w: int, h: int, r: int, x: int, y: int)
    requires
        w >= 1,
        r >= 0,
        s.len() == w * h,
        0 <= x < w,
        0 <= y < h,
    ensures
        lit(closed_mask(s, w, h, r), w, h, x, y) <==> filled(s, w, h, x, y, r),
{
    let g = grown_mask(s, w, h, r);
    let m = pass_of(g, w, h, r, true, false);
    assert(closed_mask(s, w, h, r) == pass_of(m, w, h, r, false, false));
    shrinking_keeps(m, w, h, r, x, y);
    if lit(closed_mask(s, w, h, r), w, h, x, y) {
        assert forall|j: int, k: int| #[trigger] beside(x, y, r, j, k) implies 0 <= j < w && 0 <= k
            < h && block_near(s, w, h, j, k, r) by {
            assert(lit(pass_of(m, w, h, r, false, false), w, h, x, y));
            assert(lit(m, w, h, x, k));
            shrinking_keeps(g, w, h, r, x, k);
            assert(lit(g, w, h, j, k));
            lemma_grown(s, w, h, r, j, k);
        }
    }
    if filled(s, w, h, x, y, r) {
        assert forall|k: int| y - r <= k <= y + r implies #[trigger] lit(m, w, h, x, k) by {
            assert(beside(x, y, r, x, k));
            shrinking_keeps(g, w, h, r, x, k);
            assert forall|j: int| x - r <= j <= x + r implies #[trigger] lit(g, w, h, j, k) by {
                assert(beside(x, y, r, j, k));
                lemma_grown(s, w, h, r, j, k);
            }
            assert(lit(pass_of(g, w, h, r, true, false), w, h, x, k));
        }
        assert(lit(pass_of(m, w, h, r, false, false), w, h, x, y));
    }
}

/// A set cell further than `r` from the edge of the raster stays set when it is closed.
pub proof fn closing_keeps(s: Seq<u8>, w: int, h: int, r: int, x: int, y: int)
    requires
        w >= 1,
        r >= 0,
        s.len() == w * h,
        r <= x < w - r,
        r <= y < h - r,
        lit(s, w, h, x, y),
    ensures
        lit(closed_mask(s, w, h, r), w, h, x, y),
{
    closing_fills_gaps(s, w, h, r, x, y);
    assert forall|j: int, k: int| #[trigger] beside(x, y, r, j, k) implies 0 <= j < w && 0 <= k < h
        && block_near(s, w, h, j, k, r) by {
        assert(lit(s, w, h, x, y));
    }
}

/// A part of a raster holds the cells that stand there, row by row.
pub proof fn cropping_moves_cells(s: Seq<u8>, w: int, h: int, b: CellBox, x: int, y: int)
    requires
        b.x0 <= x <= b.x1 < w,
        b.y0 <= y <= b.y1 < h,
    ensures
        ({
            let cw = b.x1 - b.x0 + 1;
            &&& cropped(s, w, h, b).len() == cw * (b.y1 - b.y0 + 1)
            &&& cropped(s, w, h, b)[(y - b.y0) * cw + (x - b.x0)] == s[y * w + x]
        }),
{
    let cw = b.x1 - b.x0 + 1;
    let ch = b.y1 - b.y0 + 1;
    lemma_place(cw, ch, x - b.x0, y - b.y0);
}

/// The part that is looked at has one cell more on every side than what is set, as far as
/// the raster of 8192 cells a side goes.
pub proof fn windows_have_a_margin(b: CellBox)
    requires
        b.x0 <= b.x1 < 8192,
        b.y0 <= b.y1 < 8192,
    ensures
        ({
            let o = window_of(b);
            &&& b.x0 > 0 ==> o.x0 == b.x0 - 1
            &&& b.x0 == 0 ==> o.x0 == 0
            &&& b.y0 > 0 ==> o.y0 == b.y0 - 1
            &&& b.y0 == 0 ==> o.y0 == 0
            &&& b.x1 < 8191 ==> o.x1 == b.x1 + 1
            &&& b.x1 == 8191 ==> o.x1 == 8191
            &&& b.y1 < 8191 ==> o.y1 == b.y1 + 1
            &&& b.y1 == 8191 ==> o.y1 == 8191
        }),
{
}

} // verus!
