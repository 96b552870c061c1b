//! The raster mask for low-zoom aggregation: which cells are occupied, and closing gaps
//! between them.

use vstd::prelude::*;

verus! {

/// Tile zoom whose grid sets the mask resolution: one pixel = one tile at this zoom.
pub const MASK_ZOOM: u8 = 13;

/// Pixels per axis.
pub const W: usize = 8192;

/// Morphological closing radius, in pixels; bridges gaps up to `2 * radius`. `0` disables
/// closing (aggregation comes only from the resolution coarsening).
pub const CLOSE_RADIUS: usize = 0;

/// A raster of `w * h` cells, row by row.
pub open spec fn raster_ok(s: Seq<u8>, w: nat, h: nat) -> bool {
    s.len() == w * h
}

/// The cell at column `x` of row `y`; cells outside the raster are clear.
pub open spec fn cell(s: Seq<u8>, w: int, h: int, x: int, y: int) -> u8 {
    if 0 <= x < w && 0 <= y < h {
        s[y * w + x]
    } else {
        0
    }
}

pub proof fn lemma_cell_index(w: int, h: int, x: int, y: int)
    requires
        0 <= x < w,
        0 <= y < h,
    ensures
        0 <= y * w + x < w * h,
{
    assert(0 <= y * w + x < w * h) by (nonlinear_arith)
        requires
            0 <= x < w,
            0 <= y < h,
    ;
}

/// An inclusive box of cells.
#[derive(Debug, Clone, Copy, PartialEq, Eq, Structural)]
pub struct CellBox {
    pub x0: usize,
    pub y0: usize,
    pub x1: usize,
    pub y1: usize,
}

pub open spec fn box_has(b: CellBox, x: int, y: int) -> bool {
    b.x0 <= x <= b.x1 && b.y0 <= y <= b.y1
}

pub open spec fn is_set(s: Seq<u8>, w: int, h: int, x: int, y: int) -> bool {
    0 <= x < w && 0 <= y < h && cell(s, w, h, x, y) != 0
}

/// The smallest box around the set cells: it holds them all, and each of its sides touches
/// one.
pub open spec fn is_bounding_box(s: Seq<u8>, w: int, h: int, b: CellBox) -> bool {
    &&& forall|x: int, y: int| #[trigger] is_set(s, w, h, x, y) ==> box_has(b, x, y)
    &&& exists|y: int| #[trigger] is_set(s, w, h, b.x0 as int, y)
    &&& exists|y: int| #[trigger] is_set(s, w, h, b.x1 as int, y)
    &&& exists|x: int| #[trigger] is_set(s, w, h, x, b.y0 as int)
    &&& exists|x: int| #[trigger] is_set(s, w, h, x, b.y1 as int)
}

/// Bounding box (inclusive) of set pixels, or `None` if the mask is empty.
pub fn occupied_bbox(raw: &[u8], w: usize, h: usize) -> (r: Option<CellBox>)
    requires
        raster_ok(raw@, w as nat, h as nat),
    ensures
        match r {
            Some(b) => is_bounding_box(raw@, w as int, h as int, b) && b.x1 < w && b.y1 < h && b.x0
                <= b.x1 && b.y0 <= b.y1,
            None => forall|x: int, y: int| !#[trigger] is_set(raw@, w as int, h as int, x, y),
        },
{
    let ghost s = raw@;
    let ghost (wi, hi) = (w as int, h as int);
    let mut found: Option<CellBox> = None;
    let mut y: usize = 0;
    while y < h
        invariant
            y <= h,
            s == raw@,
            (wi, hi) == (w as int, h as int),
            raster_ok(s, w as nat, h as nat),
            match found {
                Some(b) => b.x0 <= b.x1 < w && b.y0 <= b.y1 < y && (forall|i: int, j: int|
                    j < y && #[trigger] is_set(s, wi, hi, i, j) ==> box_has(b, i, j)) && (exists|
                    j: int,
                | #[trigger] is_set(s, wi, hi, b.x0 as int, j)) && (exists|j: int| #[trigger]
                    is_set(s, wi, hi, b.x1 as int, j)) && (exists|i: int| #[trigger]
                    is_set(s, wi, hi, i, b.y0 as int)) && (exists|i: int| #[trigger]
                    is_set(s, wi, hi, i, b.y1 as int)),
                None => forall|i: int, j: int| j < y ==> !#[trigger] is_set(s, wi, hi, i, j),
            },
        decreases h - y,
    {
        let mut x: usize = 0;
        while x < w
            invariant
                x <= w,
                y < h,
                s == raw@,
                (wi, hi) == (w as int, h as int),
                raster_ok(s, w as nat, h as nat),
                match found {
                    Some(b) => b.x0 <= b.x1 < w && b.y0 <= b.y1 <= y && (forall|i: int, j: int|
                        (j < y || (j == y && i < x)) && #[trigger] is_set(s, wi, hi, i, j)
                            ==> box_has(b, i, j)) && (exists|j: int| #[trigger]
                        is_set(s, wi, hi, b.x0 as int, j)) && (exists|j: int| #[trigger]
                        is_set(s, wi, hi, b.x1 as int, j)) && (exists|i: int| #[trigger]
                        is_set(s, wi, hi, i, b.y0 as int)) && (exists|i: int| #[trigger]
                        is_set(s, wi, hi, i, b.y1 as int)),
                    None => forall|i: int, j: int|
                        (j < y || (j == y && i < x)) ==> !#[trigger] is_set(s, wi, hi, i, j),
                },
            decreases w - x,
        {
            proof {
                lemma_cell_index(wi, hi, x as int, y as int);
                assert(y * w + x < raw@.len());
            }
            let len: usize = raw.len();
            assert(0 <= y * w <= y * w + x) by (nonlinear_arith)
                requires
                    y >= 0,
                    w >= 0,
                    x >= 0,
            ;
            if raw[y * w + x] != 0 {
                assert(is_set(s, wi, hi, x as int, y as int));
                let ghost was = found;
                match found {
                    None => {
                        found = Some(CellBox { x0: x, y0: y, x1: x, y1: y });
                    },
                    Some(b) => {
                        let nb = CellBox {
                            x0: if x < b.x0 {
                                x
                            } else {
                                b.x0
                            },
                            y0: b.y0,
                            x1: if x > b.x1 {
                                x
                            } else {
                                b.x1
                            },
                            y1: y,
                        };
                        found = Some(nb);
                        proof {
                            assert forall|i: int, j: int|
                                (j < y || (j == y && i < x + 1)) && #[trigger] is_set(s, wi, hi, i, j) implies box_has(
                            nb, i, j) by {
                                if j < y || i < x {
                                    assert(box_has(b, i, j));
                                }
                            }
                        }
                    },
                }
            }
            x = x + 1;
        }
        y = y + 1;
    }
    proof {
        assert forall|i: int, j: int| #[trigger] is_set(s, wi, hi, i, j) implies j < h by {}
    }
    found
}

/// A box grown by `pad` cells on each side, kept within the raster.
pub fn padded(b: &CellBox, pad: usize, w: usize, h: usize) -> (r: CellBox)
    requires
        b.x0 <= b.x1 < w,
        b.y0 <= b.y1 < h,
    ensures
        r.x0 == if b.x0 >= pad { b.x0 - pad } else { 0 },
        r.y0 == if b.y0 >= pad { b.y0 - pad } else { 0 },
        r.x1 == if b.x1 + pad < w { b.x1 + pad } else { w - 1 },
        r.y1 == if b.y1 + pad < h { b.y1 + pad } else { h - 1 },
        r.x0 <= r.x1 < w,
        r.y0 <= r.y1 < h,
{
    CellBox {
        x0: if b.x0 >= pad {
            b.x0 - pad
        } else {
            0
        },
        y0: if b.y0 >= pad {
            b.y0 - pad
        } else {
            0
        },
        x1: if pad < w - b.x1 {
            b.x1 + pad
        } else {
            w - 1
        },
        y1: if pad < h - b.y1 {
            b.y1 + pad
        } else {
            h - 1
        },
    }
}

/// The cells of a box, as a raster of its own.
pub open spec fn cropped(s: Seq<u8>, w: int, h: int, b: CellBox) -> Seq<u8> {
    let cw = b.x1 - b.x0 + 1;
    let ch = b.y1 - b.y0 + 1;
    Seq::new(
        (cw * ch) as nat,
        |i: int| cell(s, w, h, b.x0 + i % cw, b.y0 + i / cw),
    )
}

pub fn crop(raw: &[u8], w: usize, h: usize, b: &CellBox) -> (r: Vec<u8>)
    requires
        raster_ok(raw@, w as nat, h as nat),
        b.x0 <= b.x1 < w,
        b.y0 <= b.y1 < h,
    ensures
        r@ == cropped(raw@, w as int, h as int, *b),
        raster_ok(r@, (b.x1 - b.x0 + 1) as nat, (b.y1 - b.y0 + 1) as nat),
{
    let ghost s = raw@;
    let ghost (wi, hi) = (w as int, h as int);
    let ghost cw = b.x1 - b.x0 + 1;
    let ghost ch = b.y1 - b.y0 + 1;
    let ghost want = cropped(s, wi, hi, *b);
    let mut r: Vec<u8> = Vec::new();
    let mut y: usize = b.y0;
    let len: usize = raw.len();
    assert(cw * 0 == 0);
    proof {
        assert(cw * ch >= 0) by (nonlinear_arith)
            requires
                cw >= 1,
                ch >= 1,
        ;
    }
    while y <= b.y1
        invariant
            b.y0 <= y <= b.y1 + 1,
            b.x0 <= b.x1 < w,
            b.y1 < h,
            s == raw@,
            len == s.len(),
            (wi, hi) == (w as int, h as int),
            raster_ok(s, w as nat, h as nat),
            cw == b.x1 - b.x0 + 1,
            ch == b.y1 - b.y0 + 1,
            want == cropped(s, wi, hi, *b),
            want.len() == cw * ch,
            r@.len() == cw * (y - b.y0),
            forall|i: int| 0 <= i < r@.len() ==> #[trigger] r@[i] == want[i],
        decreases b.y1 + 1 - y,
    {
        let ghost row = y - b.y0;
        let ghost base = cw * row;
        assert(cw * (row + 1) == base + cw) by (nonlinear_arith)
            requires
                base == cw * row,
        ;
        assert(cw * (row + 1) <= cw * ch) by (nonlinear_arith)
            requires
                row + 1 <= ch,
                cw >= 1,
        ;
        let mut x: usize = b.x0;
        while x <= b.x1
            invariant
                b.x0 <= x <= b.x1 + 1,
                b.x1 < w,
                b.y0 <= y <= b.y1,
                b.y1 < h,
                s == raw@,
                len == s.len(),
                (wi, hi) == (w as int, h as int),
                raster_ok(s, w as nat, h as nat),
                cw == b.x1 - b.x0 + 1,
                row == y - b.y0,
                base == cw * row,
                base >= 0,
                base + cw <= want.len(),
                want == cropped(s, wi, hi, *b),
                r@.len() == base + (x - b.x0),
                forall|i: int| 0 <= i < r@.len() ==> #[trigger] r@[i] == want[i],
            decreases b.x1 + 1 - x,
        {
            let ghost col = x - b.x0;
            let ghost i = base + col;
            proof {
                lemma_cell_index(wi, hi, x as int, y as int);
                vstd::arithmetic::div_mod::lemma_fundamental_div_mod_converse(i, cw, row, col);
                assert(y * w >= 0) by (nonlinear_arith)
                    requires
                        y >= 0,
                        w >= 0,
                ;
            }
            r.push(raw[y * w + x]);
            assert(want[i] == cell(s, wi, hi, x as int, y as int));
            x = x + 1;
        }
        y = y + 1;
        assert(cw * (y - b.y0) >= 0) by (nonlinear_arith)
            requires
                cw >= 1,
                y >= b.y0,
        ;
    }
    assert(r@ =~= want);
    r
}

// ---- morphology ----

/// The cell `d` steps along one axis.
pub open spec fn neighbour(s: Seq<u8>, w: int, h: int, x: int, y: int, d: int, horizontal: bool) -> u8 {
    if horizontal {
        cell(s, w, h, x + d, y)
    } else {
        cell(s, w, h, x, y + d)
    }
}

/// Whether a cell within `r` steps along one axis is set.
pub open spec fn any_near(s: Seq<u8>, w: int, h: int, x: int, y: int, r: int, horizontal: bool) -> bool {
    exists|d: int| -r <= d <= r && #[trigger] neighbour(s, w, h, x, y, d, horizontal) == 1
}

/// Whether every cell within `r` steps along one axis is set.
pub open spec fn all_near(s: Seq<u8>, w: int, h: int, x: int, y: int, r: int, horizontal: bool) -> bool {
    forall|d: int| -r <= d <= r ==> #[trigger] neighbour(s, w, h, x, y, d, horizontal) == 1
}

/// The cell after a pass: dilation sets it where any near cell is set, erosion where all
/// are. Cells outside the raster count as clear.
pub open spec fn passed(
    s: Seq<u8>,
    w: int,
    h: int,
    x: int,
    y: int,
    r: int,
    horizontal: bool,
    dilate: bool,
) -> u8 {
    if (dilate && any_near(s, w, h, x, y, r, horizontal)) || (!dilate && all_near(
        s,
        w,
        h,
        x,
        y,
        r,
        horizontal,
    )) {
        1
    } else {
        0
    }
}

pub open spec fn pass_of(
    s: Seq<u8>,
    w: int,
    h: int,
    r: int,
    horizontal: bool,
    dilate: bool,
) -> Seq<u8> {
    Seq::new(s.len(), |i: int| passed(s, w, h, i % w, i / w, r, horizontal, dilate))
}

/// Cells are 0 or 1.
pub open spec fn is_binary(s: Seq<u8>) -> bool {
    forall|i: int| 0 <= i < s.len() ==> #[trigger] s[i] == 0 || s[i] == 1
}

pub open spec fn closed_mask(s: Seq<u8>, w: int, h: int, r: int) -> Seq<u8> {
    let dilated = pass_of(pass_of(s, w, h, r, true, true), w, h, r, false, true);
    pass_of(pass_of(dilated, w, h, r, true, false), w, h, r, false, false)
}

/// One separable morphology pass. `horizontal` picks the axis; `dilate` picks OR (max) vs
/// AND (min). Out-of-bounds neighbours count as `0`.
pub fn morph_pass(src: &Vec<u8>, w: usize, h: usize, r: usize, horizontal: bool, dilate: bool) -> (out:
    Vec<u8>)
    requires
        raster_ok(src@, w as nat, h as nat),
        is_binary(src@),
    ensures
        out@ == pass_of(src@, w as int, h as int, r as int, horizontal, dilate),
        is_binary(out@),
        raster_ok(out@, w as nat, h as nat),
{
    let ghost s = src@;
    let ghost (wi, hi, ri) = (w as int, h as int, r as int);
    let mut out: Vec<u8> = Vec::new();
    let mut i: usize = 0;
    let mut x: usize = 0;
    let mut y: usize = 0;
    let n: usize = src.len();
    assert(0 < w * h ==> 0 < w && 0 < h) by (nonlinear_arith)
        requires
            w >= 0,
            h >= 0,
    ;
    while i < n
        invariant
            i <= n,
            n == s.len(),
            s == src@,
            (wi, hi, ri) == (w as int, h as int, r as int),
            raster_ok(s, w as nat, h as nat),
            is_binary(s),
            i < n ==> x < w && y < h,
            i == y * w + x,
            x <= w,
            out@.len() == i,
            forall|k: int|
                0 <= k < i ==> #[trigger] out@[k] == passed(
                    s,
                    wi,
                    hi,
                    k % wi,
                    k / wi,
                    ri,
                    horizontal,
                    dilate,
                ),
        decreases n - i,
    {
        let ghost (xi, yi) = (x as int, y as int);
        let mut hit: bool = !dilate;
        let mut d: i128 = -(r as i128);
        let ghost mut witness: int = 0;
        while d <= r as i128
            invariant
                -ri <= d <= ri + 1,
                ri == r as int,
                x < w,
                y < h,
                n == s.len(),
                s == src@,
                (wi, hi) == (w as int, h as int),
                (xi, yi) == (x as int, y as int),
                raster_ok(s, w as nat, h as nat),
                is_binary(s),
                dilate && hit ==> -ri <= witness <= ri && neighbour(
                    s,
                    wi,
                    hi,
                    xi,
                    yi,
                    witness,
                    horizontal,
                ) == 1,
                dilate && !hit ==> forall|e: int|
                    -ri <= e < d ==> #[trigger] neighbour(s, wi, hi, xi, yi, e, horizontal) != 1,
                !dilate && hit ==> forall|e: int|
                    -ri <= e < d ==> #[trigger] neighbour(s, wi, hi, xi, yi, e, horizontal) == 1,
                !dilate && !hit ==> -ri <= witness <= ri && neighbour(
                    s,
                    wi,
                    hi,
                    xi,
                    yi,
                    witness,
                    horizontal,
                ) != 1,
            decreases ri + 1 - d,
        {
            let nx: i128 = if horizontal {
                x as i128 + d
            } else {
                x as i128
            };
            let ny: i128 = if horizontal {
                y as i128
            } else {
                y as i128 + d
            };
            let mut v: u8 = 0;
            if nx >= 0 && nx < w as i128 && ny >= 0 && ny < h as i128 {
                proof {
                    lemma_cell_index(wi, hi, nx as int, ny as int);
                    assert(ny * w >= 0) by (nonlinear_arith)
                        requires
                            ny >= 0,
                            w >= 0,
                    ;
                }
                v = src[ny as usize * w + nx as usize];
            }
            assert(v == neighbour(s, wi, hi, xi, yi, d as int, horizontal));
            if dilate {
                if v == 1 {
                    proof {
                        witness = d as int;
                    }
                    hit = true;
                }
            } else {
                if v != 1 {
                    proof {
                        witness = d as int;
                    }
                    hit = false;
                }
            }
            d = d + 1;
        }
        proof {
            vstd::arithmetic::div_mod::lemma_fundamental_div_mod_converse(
                i as int,
                wi,
                yi,
                xi,
            );
            if dilate && hit {
                assert(any_near(s, wi, hi, xi, yi, ri, horizontal));
            }
            if !dilate && !hit {
                assert(!all_near(s, wi, hi, xi, yi, ri, horizontal));
            }
        }
        out.push(if hit {
            1
        } else {
            0
        });
        i = i + 1;
        x = x + 1;
        if x == w {
            assert((y + 1) * w == y * w + w) by (nonlinear_arith);
            x = 0;
            proof {
                if i < n {
                    assert(y + 1 < h) by (nonlinear_arith)
                        requires
                            (y + 1) * w < w * h,
                            w >= 1,
                    ;
                }
            }
            y = y + 1;
        }
    }
    assert(out@ =~= pass_of(s, wi, hi, ri, horizontal, dilate));
    out
}

/// Morphological closing: dilate by `r` then erode by `r` (separable per axis).
pub fn morph_close(src: &Vec<u8>, w: usize, h: usize, r: usize) -> (out: Vec<u8>)
    requires
        raster_ok(src@, w as nat, h as nat),
        is_binary(src@),
    ensures
        out@ == closed_mask(src@, w as int, h as int, r as int),
{
    let a: Vec<u8> = morph_pass(src, w, h, r, true, true);
    let b: Vec<u8> = morph_pass(&a, w, h, r, false, true);
    let c: Vec<u8> = morph_pass(&b, w, h, r, true, false);
    morph_pass(&c, w, h, r, false, false)
}

/// A pass of radius 0 leaves the raster as it is.
pub proof fn radius_zero_is_identity(s: Seq<u8>, w: int, h: int, horizontal: bool, dilate: bool)
    requires
        w >= 1,
        h >= 0,
        s.len() == w * h,
        is_binary(s),
    ensures
        pass_of(s, w, h, 0, horizontal, dilate) == s,
{
    let out = pass_of(s, w, h, 0, horizontal, dilate);
    assert forall|i: int| 0 <= i < s.len() implies out[i] == s[i] by {
        vstd::arithmetic::div_mod::lemma_fundamental_div_mod(i, w);
        let (x, y) = (i % w, i / w);
        assert(0 <= y < h) by (nonlinear_arith)
            requires
                i == w * y + x,
                0 <= x < w,
                0 <= i < w * h,
        ;
        assert(w * y == y * w) by (nonlinear_arith);
        assert(neighbour(s, w, h, x, y, 0, horizontal) == s[i]);
        assert(s[i] == 0 || s[i] == 1);
    }
    assert(out =~= s);
}

/// Dilation keeps every set cell.
pub proof fn dilation_keeps(s: Seq<u8>, w: int, h: int, r: int, horizontal: bool, i: int)
    requires
        w >= 1,
        h >= 0,
        r >= 0,
        s.len() == w * h,
        0 <= i < s.len(),
        s[i] == 1,
    ensures
        pass_of(s, w, h, r, horizontal, true)[i] == 1,
{
    vstd::arithmetic::div_mod::lemma_fundamental_div_mod(i, w);
    let (x, y) = (i % w, i / w);
    assert(0 <= y < h) by (nonlinear_arith)
        requires
            i == w * y + x,
            0 <= x < w,
            0 <= i < w * h,
    ;
    assert(w * y == y * w) by (nonlinear_arith);
    assert(neighbour(s, w, h, x, y, 0, horizontal) == 1);
}

// ---- the mask ----

/// A global polygon coverage bitmap: `W * W` cells, each `0` or `1`.
pub struct PolygonMask {
    bits: Vec<u8>,
}

/// The occupied part of a mask, closed: the cells of `window`, row by row.
pub struct ClosedMask {
    pub window: CellBox,
    pub cells: Vec<u8>,
}

/// The box around the set cells, padded by the closing radius (and one cell more for the
/// contour's boundary).
pub open spec fn window_of(b: CellBox) -> CellBox {
    let pad = CLOSE_RADIUS + 1;
    CellBox {
        x0: (if b.x0 >= pad { b.x0 - pad } else { 0 }) as usize,
        y0: (if b.y0 >= pad { b.y0 - pad } else { 0 }) as usize,
        x1: (if b.x1 + pad < W { b.x1 + pad } else { W - 1 }) as usize,
        y1: (if b.y1 + pad < W { b.y1 + pad } else { W - 1 }) as usize,
    }
}

impl PolygonMask {
    /// The cells, row by row.
    pub closed spec fn cells(&self) -> Seq<u8> {
        self.bits@
    }

    pub open spec fn wf(&self) -> bool {
        raster_ok(self.cells(), W as nat, W as nat) && is_binary(self.cells())
    }

    /// A mask without set cells.
    pub fn new() -> (r: Self)
        ensures
            r.wf(),
            forall|x: int, y: int| !#[trigger] is_set(r.cells(), W as int, W as int, x, y),
    {
        let bits: Vec<u8> = vec![0u8; 67_108_864];
        let r = PolygonMask { bits };
        proof {
            assert forall|x: int, y: int| !#[trigger] is_set(r.cells(), W as int, W as int, x, y) by {
                if 0 <= x < W && 0 <= y < W {
                    lemma_cell_index(W as int, W as int, x, y);
                }
            }
        }
        r
    }

    /// Set one cell.
    pub fn set(&mut self, x: usize, y: usize)
        requires
            old(self).wf(),
            x < W,
            y < W,
        ensures
            final(self).wf(),
            final(self).cells() == old(self).cells().update(y * W + x, 1),
            forall|i: int, j: int| #[trigger]
                is_set(final(self).cells(), W as int, W as int, i, j) == ((i == x && j == y)
                    || is_set(old(self).cells(), W as int, W as int, i, j)),
    {
        proof {
            lemma_cell_index(W as int, W as int, x as int, y as int);
        }
        self.bits.set(y * W + x, 1);
        proof {
            let (a, b) = (old(self).cells(), self.cells());
            assert forall|i: int, j: int| #[trigger]
                is_set(b, W as int, W as int, i, j) == ((i == x && j == y) || is_set(
                    a,
                    W as int,
                    W as int,
                    i,
                    j,
                )) by {
                if 0 <= i < W && 0 <= j < W {
                    lemma_cell_index(W as int, W as int, i, j);
                }
            }
        }
    }

    /// Set the cells from `x0` to `x1` of a row.
    pub fn set_span(&mut self, x0: usize, x1: usize, y: usize)
        requires
            old(self).wf(),
            x1 < W,
            y < W,
        ensures
            final(self).wf(),
            forall|i: int, j: int| #[trigger]
                is_set(final(self).cells(), W as int, W as int, i, j) == ((x0 <= i <= x1 && j == y)
                    || is_set(old(self).cells(), W as int, W as int, i, j)),
    {
        let mut x: usize = x0;
        while x <= x1
            invariant
                self.wf(),
                x1 < W,
                y < W,
                x0 <= x,
                x <= x1 + 1 || x == x0,
                forall|i: int, j: int| #[trigger]
                    is_set(self.cells(), W as int, W as int, i, j) == ((x0 <= i < x && j == y)
                        || is_set(old(self).cells(), W as int, W as int, i, j)),
            decreases x1 + 1 - x,
        {
            self.set(x, y);
            x = x + 1;
        }
    }

    /// Close the mask within the box of its set cells; none if no cell is set.
    pub fn closed(&self) -> (r: Option<ClosedMask>)
        requires
            self.wf(),
        ensures
            match r {
                Some(m) => exists|b: CellBox|
                    #![trigger window_of(b)]
                    is_bounding_box(self.cells(), W as int, W as int, b) && m.window == window_of(b)
                        && m.cells@ == closed_mask(
                        cropped(self.cells(), W as int, W as int, m.window),
                        m.window.x1 - m.window.x0 + 1,
                        m.window.y1 - m.window.y0 + 1,
                        CLOSE_RADIUS as int,
                    ),
                None => forall|x: int, y: int|
                    !#[trigger] is_set(self.cells(), W as int, W as int, x, y),
            },
    {
        let b: CellBox = match occupied_bbox(&self.bits, W, W) {
            Some(b) => b,
            None => return None,
        };
        let window: CellBox = padded(&b, CLOSE_RADIUS + 1, W, W);
        assert(window == window_of(b));
        let cells: Vec<u8> = crop(&self.bits, W, W, &window);
        let w: usize = window.x1 - window.x0 + 1;
        let h: usize = window.y1 - window.y0 + 1;
        proof {
            lemma_crop_binary(self.cells(), window);
        }
        let cells: Vec<u8> = morph_close(&cells, w, h, CLOSE_RADIUS);
        Some(ClosedMask { window, cells })
    }
}

proof fn lemma_crop_binary(s: Seq<u8>, b: CellBox)
    requires
        is_binary(s),
        raster_ok(s, W as nat, W as nat),
        b.x0 <= b.x1 < W,
        b.y0 <= b.y1 < W,
    ensures
        is_binary(cropped(s, W as int, W as int, b)),
{
    let c = cropped(s, W as int, W as int, b);
    assert forall|i: int| 0 <= i < c.len() implies #[trigger] c[i] == 0 || c[i] == 1 by {
        let cw = b.x1 - b.x0 + 1;
        let (x, y) = (b.x0 + i % cw, b.y0 + i / cw);
        if 0 <= x < W && 0 <= y < W {
            lemma_cell_index(W as int, W as int, x, y);
        }
    }
}

impl Default for PolygonMask {
    fn default() -> (r: Self)
        ensures
            r.wf(),
            forall|x: int, y: int| !#[trigger] is_set(r.cells(), W as int, W as int, x, y),
    {
        PolygonMask::new()
    }
}

} // verus!
