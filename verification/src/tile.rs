//! Tile addresses.

use vstd::prelude::*;

verus! {

#[derive(Clone, Copy, Debug, PartialEq, Eq, Structural, Hash)]
pub struct Tile {
    pub x: u32,
    pub y: u32,
    pub z: u8,
}

impl Tile {
    pub fn new(x: u32, y: u32, z: u8) -> (r: Self)
        ensures
            r == (Tile { x, y, z }),
    {
        Tile { x, y, z }
    }

    pub open spec fn spec_parent(&self) -> Option<Tile> {
        if self.z > 0 {
            Some(Tile { x: self.x / 2, y: self.y / 2, z: (self.z - 1) as u8 })
        } else {
            None
        }
    }

    /// The tile one zoom coarser that this one lies in; none at zoom 0.
    #[verifier::when_used_as_spec(spec_parent)]
    pub fn parent(&self) -> (r: Option<Tile>)
        ensures
            r == self.spec_parent(),
    {
        if self.z > 0 {
            Some(Tile { x: self.x / 2, y: self.y / 2, z: self.z - 1 })
        } else {
            None
        }
    }

    /// The four tiles one zoom finer: north-west, north-east, south-west, south-east.
    pub fn children(&self) -> (r: [Tile; 4])
        requires
            self.x < 0x8000_0000,
            self.y < 0x8000_0000,
            self.z < 255,
        ensures
            r[0] == (Tile { x: (2 * self.x) as u32, y: (2 * self.y) as u32, z: (self.z + 1) as u8 }),
            r[1] == (Tile { x: (2 * self.x + 1) as u32, ..r[0] }),
            r[2] == (Tile { y: (2 * self.y + 1) as u32, ..r[0] }),
            r[3] == (Tile { x: (2 * self.x + 1) as u32, y: (2 * self.y + 1) as u32, ..r[0] }),
            forall|i: int| 0 <= i < 4 ==> (#[trigger] r[i]).spec_parent() == Some(*self),
    {
        let x: u32 = self.x * 2;
        let y: u32 = self.y * 2;
        let z: u8 = self.z + 1;
        let r: [Tile; 4] = [
            Tile { x, y, z },
            Tile { x: x + 1, y, z },
            Tile { x, y: y + 1, z },
            Tile { x: x + 1, y: y + 1, z },
        ];
        assert forall|i: int| 0 <= i < 4 implies (#[trigger] r[i]).spec_parent() == Some(*self) by {
            if i == 0 {
            } else if i == 1 {
            } else if i == 2 {
            } else {
                assert(i == 3);
            }
        }
        r
    }

    /// `a` lies `n` zooms above `t`.
    pub open spec fn is_ancestor(a: Tile, t: Tile, n: nat) -> bool
        decreases n,
    {
        if n == 0 {
            a == t
        } else {
            match t.spec_parent() {
                Some(p) => Tile::is_ancestor(a, p, (n - 1) as nat),
                None => false,
            }
        }
    }
}

/// An inclusive rectangular block of tiles at one zoom, e.g. a map viewport.
#[derive(Debug, Clone, Copy, PartialEq, Eq, Structural)]
pub struct TileRange {
    pub z: u8,
    pub min_x: u32,
    pub max_x: u32,
    pub min_y: u32,
    pub max_y: u32,
}

impl TileRange {
    pub fn new(z: u8, min_x: u32, max_x: u32, min_y: u32, max_y: u32) -> (r: Self)
        ensures
            r == (TileRange { z, min_x, max_x, min_y, max_y }),
    {
        TileRange { z, min_x, max_x, min_y, max_y }
    }

    /// The smallest range that holds both tiles.
    pub fn spanning(z: u8, a: Tile, b: Tile) -> (r: Self)
        ensures
            r.z == z,
            r.min_x == if a.x <= b.x { a.x } else { b.x },
            r.max_x == if a.x <= b.x { b.x } else { a.x },
            r.min_y == if a.y <= b.y { a.y } else { b.y },
            r.max_y == if a.y <= b.y { b.y } else { a.y },
    {
        TileRange {
            z,
            min_x: if a.x <= b.x {
                a.x
            } else {
                b.x
            },
            max_x: if a.x <= b.x {
                b.x
            } else {
                a.x
            },
            min_y: if a.y <= b.y {
                a.y
            } else {
                b.y
            },
            max_y: if a.y <= b.y {
                b.y
            } else {
                a.y
            },
        }
    }

    pub open spec fn columns(&self) -> nat {
        if self.max_x >= self.min_x {
            (self.max_x - self.min_x + 1) as nat
        } else {
            0
        }
    }

    pub open spec fn rows(&self) -> nat {
        if self.max_y >= self.min_y {
            (self.max_y - self.min_y + 1) as nat
        } else {
            0
        }
    }

    /// The tiles row by row.
    pub open spec fn row_major(&self) -> Seq<Tile> {
        Seq::new(
            self.columns() * self.rows(),
            |i: int|
                Tile {
                    x: (self.min_x + i % self.columns() as int) as u32,
                    y: (self.min_y + i / self.columns() as int) as u32,
                    z: self.z,
                },
        )
    }

    /// Number of tiles in the range.
    pub fn len(&self) -> (n: usize)
        requires
            self.min_x <= self.max_x,
            self.min_y <= self.max_y,
            self.columns() <= u32::MAX,
            self.rows() <= u32::MAX,
            self.columns() * self.rows() <= usize::MAX,
        ensures
            n == self.row_major().len(),
    {
        (self.max_x - self.min_x + 1) as usize * (self.max_y - self.min_y + 1) as usize
    }

    pub fn is_empty(&self) -> (r: bool)
        ensures
            r == (self.row_major().len() == 0),
    {
        let r: bool = self.max_x < self.min_x || self.max_y < self.min_y;
        assert(r == (self.columns() * self.rows() == 0)) by (nonlinear_arith)
            requires
                r == (self.columns() == 0 || self.rows() == 0),
        ;
        r
    }

    /// The tiles row-major (y outer, x inner).
    pub fn tiles(&self) -> (r: Vec<Tile>)
        ensures
            r@ == self.row_major(),
    {
        let mut r: Vec<Tile> = Vec::new();
        if self.max_x < self.min_x || self.max_y < self.min_y {
            assert(self.columns() * self.rows() == 0) by (nonlinear_arith)
                requires
                    self.columns() == 0 || self.rows() == 0,
            ;
            assert(r@ =~= self.row_major());
            return r;
        }
        let ghost w = self.columns() as int;
        let ghost want = self.row_major();
        let mut y: u64 = self.min_y as u64;
        assert(w * 0 == 0);
        while y <= self.max_y as u64
            invariant
                self.min_x <= self.max_x,
                self.min_y <= y <= self.max_y + 1,
                w == self.columns(),
                w >= 1,
                want == self.row_major(),
                r@.len() == w * (y - self.min_y),
                forall|i: int| 0 <= i < r@.len() ==> #[trigger] r@[i] == want[i],
                w * (y - self.min_y) <= want.len(),
            decreases self.max_y + 1 - y,
        {
            let ghost row = y - self.min_y;
            let ghost base = w * row;
            assert(w * row + w == w * (row + 1)) by (nonlinear_arith);
            assert(w * (row + 1) <= w * self.rows()) by (nonlinear_arith)
                requires
                    row + 1 <= self.rows(),
                    w >= 1,
            ;
            assert(w * self.rows() == self.columns() * self.rows());
            let mut x: u64 = self.min_x as u64;
            while x <= self.max_x as u64
                invariant
                    self.min_x <= x <= self.max_x + 1,
                    self.min_y <= y <= self.max_y,
                    w == self.columns(),
                    w == self.max_x - self.min_x + 1,
                    row == y - self.min_y,
                    base == w * row,
                    base + w <= want.len(),
                    base >= 0,
                    want == self.row_major(),
                    r@.len() == base + (x - self.min_x),
                    forall|i: int| 0 <= i < r@.len() ==> #[trigger] r@[i] == want[i],
                decreases self.max_x + 1 - x,
            {
                let ghost i = base + (x - self.min_x);
                let ghost col = x - self.min_x;
                proof {
                    vstd::arithmetic::div_mod::lemma_fundamental_div_mod_converse(i, w, row, col);
                }
                r.push(Tile { x: x as u32, y: y as u32, z: self.z });
                x = x + 1;
            }
            y = y + 1;
            assert(0 <= w * (y - self.min_y));
        }
        assert(w * (y - self.min_y) == self.columns() * self.rows()) by (nonlinear_arith)
            requires
                y - self.min_y == self.rows(),
                w == self.columns(),
        ;
        assert(r@ =~= want);
        r
    }

    /// Tile `(x, y)` is in the range.
    pub open spec fn covers(&self, x: u32, y: u32) -> bool {
        self.min_x <= x <= self.max_x && self.min_y <= y <= self.max_y
    }

    /// The listing has every tile of the range, and nothing else.
    pub proof fn row_major_complete(&self, t: Tile)
        ensures
            self.row_major().contains(t) <==> t.z == self.z && self.covers(t.x, t.y),
    {
        let w = self.columns() as int;
        let h = self.rows() as int;
        let s = self.row_major();
        if s.contains(t) {
            let i = choose|i: int| 0 <= i < s.len() && s[i] == t;
            assert(w >= 1 && h >= 1) by (nonlinear_arith)
                requires
                    0 <= i < w * h,
                    w >= 0,
                    h >= 0,
            ;
            assert(0 <= i % w < w);
            vstd::arithmetic::div_mod::lemma_fundamental_div_mod(i, w);
            assert(0 <= i / w < h) by (nonlinear_arith)
                requires
                    i == w * (i / w) + i % w,
                    0 <= i % w < w,
                    0 <= i < w * h,
            ;
        }
        if t.z == self.z && self.covers(t.x, t.y) {
            let row = t.y - self.min_y;
            let col = t.x - self.min_x;
            let i = w * row + col;
            assert(0 <= i < w * h) by (nonlinear_arith)
                requires
                    i == w * row + col,
                    0 <= row < h,
                    0 <= col < w,
            ;
            vstd::arithmetic::div_mod::lemma_fundamental_div_mod_converse(i, w, row, col);
            assert(s[i] == t);
        }
    }
}

} // verus!
