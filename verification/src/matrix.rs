//! Dense, heap-allocated 2D matrices, and the symmetric kernel-editing
//! operations that act on square weight matrices.

use vstd::prelude::*;

use crate::cell_type::{CellType, FieldType};
use crate::random::{random_field, random_usize};

verus! {

/// A symmetry group for mirrored kernel editing: writing one cell also
/// writes every image of it under the chosen symmetry, and `DONUT` fills a
/// ring measured from the border inward.
#[derive(Copy, Clone, Debug, PartialEq, Eq, Structural)]
pub enum Symmetry {
    X,
    Y,
    XY,
    ROT90,
    ROT180,
    DONUT,
}

/// A dense `width x height` matrix in row-major order.  The dimensions are
/// fixed at construction.
#[derive(Clone, Debug)]
pub struct VecMatrix<T> {
    pub data: Vec<T>,
    pub width: usize,
    pub height: usize,
}

/// Row-major position of `(x, y)` in a matrix `w` cells wide.
pub open spec fn rm_pos(w: int, x: int, y: int) -> int {
    y * w + x
}

/// A row-major position of an in-bounds coordinate is itself in bounds.
pub proof fn lemma_rm_pos_bounds(w: int, h: int, x: int, y: int)
    requires
        0 <= x < w,
        0 <= y < h,
    ensures
        0 <= rm_pos(w, x, y) < w * h,
{
    assert(0 <= y * w + x < w * h) by (nonlinear_arith)
        requires
            0 <= x < w,
            0 <= y < h,
    ;
}

/// Row-major positions of distinct in-bounds coordinates differ.
pub proof fn lemma_rm_pos_injective(w: int, x1: int, y1: int, x2: int, y2: int)
    requires
        0 <= x1 < w,
        0 <= x2 < w,
        y1 != y2 || x1 != x2,
    ensures
        rm_pos(w, x1, y1) != rm_pos(w, x2, y2),
{
    assert(y1 * w + x1 != y2 * w + x2) by (nonlinear_arith)
        requires
            0 <= x1 < w,
            0 <= x2 < w,
            y1 != y2 || x1 != x2,
    ;
}

impl<T: Copy> VecMatrix<T> {
    /// The stored elements fill the stated dimensions exactly.
    pub open spec fn wf(self) -> bool {
        &&& self.data@.len() == self.width * self.height
        &&& self.width * self.height <= usize::MAX
    }

    pub open spec fn spec_width(self) -> int {
        self.width as int
    }

    pub open spec fn spec_height(self) -> int {
        self.height as int
    }

    /// The element at column `x`, row `y`.
    pub open spec fn at(self, x: int, y: int) -> T {
        self.data@[rm_pos(self.spec_width(), x, y)]
    }

    pub open spec fn in_bounds(self, x: int, y: int) -> bool {
        0 <= x < self.spec_width() && 0 <= y < self.spec_height()
    }

    /// A fresh matrix with every cell set to `fill`.
    pub fn new(width: usize, height: usize, fill: T) -> (r: Self)
        requires
            width * height <= usize::MAX,
        ensures
            r.wf(),
            r.spec_width() == width,
            r.spec_height() == height,
            forall|x: int, y: int| r.in_bounds(x, y) ==> #[trigger] r.at(x, y) == fill,
    {
        let n = width * height;
        let mut data: Vec<T> = Vec::new();
        let mut i: usize = 0;
        while i < n
            invariant
                i <= n,
                data@.len() == i,
                forall|k: int| 0 <= k < i ==> data@[k] == fill,
            decreases n - i,
        {
            data.push(fill);
            i = i + 1;
        }
        let r = VecMatrix { data, width, height };
        proof {
            assert forall|x: int, y: int| r.in_bounds(x, y) implies #[trigger] r.at(x, y)
                == fill by {
                lemma_rm_pos_bounds(width as int, height as int, x, y);
            }
        }
        r
    }

    /// The element at `ix`; the coordinate must be inside the matrix.
    pub fn index(&self, ix: (usize, usize)) -> (r: T)
        requires
            self.wf(),
            self.in_bounds(ix.0 as int, ix.1 as int),
        ensures
            r == self.at(ix.0 as int, ix.1 as int),
    {
        let (ixx, ixy) = ix;
        let n = self.data.len();
        proof {
            lemma_rm_pos_bounds(self.spec_width(), self.spec_height(), ixx as int, ixy as int);
        }
        assert(ixy * self.width + ixx < n);
        self.data[ixy * self.width + ixx]
    }

    /// Overwrite the element at `ix`; every other element is untouched.
    pub fn set_at_index(&mut self, ix: (usize, usize), value: T)
        requires
            old(self).wf(),
            old(self).in_bounds(ix.0 as int, ix.1 as int),
        ensures
            final(self).wf(),
            final(self).spec_width() == old(self).spec_width(),
            final(self).spec_height() == old(self).spec_height(),
            final(self).at(ix.0 as int, ix.1 as int) == value,
            forall|x: int, y: int|
                old(self).in_bounds(x, y) && (x != ix.0 || y != ix.1)
                    ==> #[trigger] final(self).at(x, y) == old(self).at(x, y),
    {
        let (ixx, ixy) = ix;
        let n = self.data.len();
        proof {
            lemma_rm_pos_bounds(self.spec_width(), self.spec_height(), ixx as int, ixy as int);
        }
        assert(ixy * self.width + ixx < n);
        let pos = ixy * self.width + ixx;
        self.data.set(pos, value);
        proof {
            assert forall|x: int, y: int|
                old(self).in_bounds(x, y) && (x != ixx || y != ixy) implies #[trigger] self.at(
                x,
                y,
            ) == old(self).at(x, y) by {
                lemma_rm_pos_bounds(self.spec_width(), self.spec_height(), x, y);
                lemma_rm_pos_injective(self.spec_width(), x, y, ixx as int, ixy as int);
            }
        }
    }

    /// An element-wise copy of the matrix.
    #[verifier::loop_isolation(false)]
    pub fn duplicate(&self) -> (r: Self)
        requires
            self.wf(),
        ensures
            r.wf(),
            r.spec_width() == self.spec_width(),
            r.spec_height() == self.spec_height(),
            forall|x: int, y: int|
                self.in_bounds(x, y) ==> #[trigger] r.at(x, y) == self.at(x, y),
    {
        let n = self.data.len();
        let mut data: Vec<T> = Vec::new();
        let mut i: usize = 0;
        while i < n
            invariant
                i <= n,
                data@.len() == i,
                forall|k: int| 0 <= k < i ==> data@[k] == self.data@[k],
            decreases n - i,
        {
            data.push(self.data[i]);
            i = i + 1;
        }
        let r = VecMatrix { data, width: self.width, height: self.height };
        proof {
            assert forall|x: int, y: int|
                self.in_bounds(x, y) implies #[trigger] r.at(x, y) == self.at(x, y) by {
                lemma_rm_pos_bounds(self.spec_width(), self.spec_height(), x, y);
            }
        }
        r
    }

    pub fn width(&self) -> (r: usize)
        ensures
            r == self.spec_width(),
    {
        self.width
    }

    pub fn height(&self) -> (r: usize)
        ensures
            r == self.spec_height(),
    {
        self.height
    }

    /// Overwrite every element with `val`.
    pub fn clear(&mut self, val: T)
        requires
            old(self).wf(),
        ensures
            final(self).wf(),
            final(self).spec_width() == old(self).spec_width(),
            final(self).spec_height() == old(self).spec_height(),
            forall|x: int, y: int|
                final(self).in_bounds(x, y) ==> #[trigger] final(self).at(x, y) == val,
    {
        let w = self.width;
        let h = self.height;
        let mut y: usize = 0;
        while y < h
            invariant
                y <= h,
                self.wf(),
                self.spec_width() == w,
                self.spec_height() == h,
                forall|xx: int, yy: int|
                    0 <= xx < w && 0 <= yy < y ==> #[trigger] self.at(xx, yy) == val,
            decreases h - y,
        {
            let mut x: usize = 0;
            while x < w
                invariant
                    x <= w,
                    y < h,
                    self.wf(),
                    self.spec_width() == w,
                    self.spec_height() == h,
                    forall|xx: int, yy: int|
                        0 <= xx < w && 0 <= yy < y ==> #[trigger] self.at(xx, yy) == val,
                    forall|xx: int| 0 <= xx < x ==> #[trigger] self.at(xx, y as int) == val,
                decreases w - x,
            {
                self.set_at_index((x, y), val);
                x = x + 1;
            }
            y = y + 1;
        }
    }
}

/// Whether the ring fill over a `w x w` square with band `lo..=hi` (distance
/// from the nearest edge, per axis) writes the cell `(x, y)`.
pub open spec fn donut_sets(w: int, lo: int, hi: int, x: int, y: int) -> bool {
    let half = w / 2;
    let dx = if x > half {
        w - x - 1
    } else {
        x
    };
    let dy = if y > half {
        w - y - 1
    } else {
        y
    };
    (lo <= dx <= hi || lo <= dy <= hi) && dx >= lo && dy >= lo
}

/// Whether `set_at_index_sym` with symmetry `sym` at `(ixx, ixy)` writes the
/// cell `(x, y)` of a `width x height` matrix.
pub open spec fn sym_sets(
    sym: Symmetry,
    width: int,
    height: int,
    ixx: int,
    ixy: int,
    x: int,
    y: int,
) -> bool {
    let w = width - 1;
    let h = height - 1;
    let wh = w / 2;
    let hh = h / 2;
    match sym {
        Symmetry::X => y == ixy && (x == ixx || x == w - ixx),
        Symmetry::Y => x == ixx && (y == ixy || y == h - ixy),
        Symmetry::XY => (x == ixx || x == w - ixx) && (y == ixy || y == h - ixy),
        Symmetry::ROT90 => (x == ixx && y == ixy) || (ixx <= h && ixy <= w && (
            (0 <= wh + hh - ixy <= w && x == wh + hh - ixy && y == ixx)
            || (x == w - ixx && y == h - ixy)
            || (0 <= hh + wh - ixx <= h && x == ixy && y == hh + wh - ixx)
        )),
        Symmetry::ROT180 => (x == ixx && y == ixy) || (x == w - ixx && y == h - ixy),
        Symmetry::DONUT => donut_sets(width, ixx, ixy, x, y),
    }
}

impl<T: Copy> VecMatrix<T> {
    /// Fill the ring whose distance from the nearest edge lies in
    /// `lo..=hi`; every cell outside the ring is untouched.  The matrix must
    /// be square.
    #[verifier::loop_isolation(false)]
    pub fn donut(&mut self, lo: usize, hi: usize, val: T)
        requires
            old(self).wf(),
            old(self).spec_width() == old(self).spec_height(),
        ensures
            final(self).wf(),
            final(self).spec_width() == old(self).spec_width(),
            final(self).spec_height() == old(self).spec_height(),
            forall|x: int, y: int|
                old(self).in_bounds(x, y) ==> #[trigger] final(self).at(x, y) == (
                if donut_sets(old(self).spec_width(), lo as int, hi as int, x, y) {
                    val
                } else {
                    old(self).at(x, y)
                }),
    {
        let wh = self.width;
        let whhalf = wh / 2;
        let ghost w = self.spec_width();
        let mut ixx: usize = 0;
        while ixx < wh
            invariant
                ixx <= wh,
                self.wf(),
                self.spec_width() == w,
                self.spec_height() == w,
                wh == w,
                whhalf == w / 2,
                forall|x: int, y: int|
                    old(self).in_bounds(x, y) ==> #[trigger] self.at(x, y) == (
                    if x < ixx && donut_sets(w, lo as int, hi as int, x, y) {
                        val
                    } else {
                        old(self).at(x, y)
                    }),
            decreases wh - ixx,
        {
            let x = if ixx > whhalf {
                wh - ixx - 1
            } else {
                ixx
            };
            let mut ixy: usize = 0;
            while ixy < wh
                invariant
                    ixy <= wh,
                    ixx < wh,
                    self.wf(),
                    self.spec_width() == w,
                    self.spec_height() == w,
                    wh == w,
                    whhalf == w / 2,
                    x == (if ixx > w / 2 {
                        w - ixx - 1
                    } else {
                        ixx as int
                    }),
                    forall|xx: int, yy: int|
                        old(self).in_bounds(xx, yy) ==> #[trigger] self.at(xx, yy) == (
                        if (xx < ixx || (xx == ixx && yy < ixy)) && donut_sets(
                            w,
                            lo as int,
                            hi as int,
                            xx,
                            yy,
                        ) {
                            val
                        } else {
                            old(self).at(xx, yy)
                        }),
                decreases wh - ixy,
            {
                let y = if ixy > whhalf {
                    wh - ixy - 1
                } else {
                    ixy
                };
                assert(donut_sets(w, lo as int, hi as int, ixx as int, ixy as int) == (((lo <= x
                    && x <= hi) || (lo <= y && y <= hi)) && x >= lo && y >= lo));
                if ((lo <= x && x <= hi) || (lo <= y && y <= hi)) && x >= lo && y >= lo {
                    self.set_at_index((ixx, ixy), val);
                }
                ixy = ixy + 1;
            }
            ixx = ixx + 1;
        }
    }

    /// Write `val` at `(ixx, ixy)` and at every image of it under `sym`,
    /// each clamped to the matrix bounds; all other cells are untouched.
    /// For [`Symmetry::DONUT`] the pair is read as the ring band `lo..=hi`
    /// and the matrix must be square.
    pub fn set_at_index_sym(&mut self, sym: Symmetry, ix: (usize, usize), val: T)
        requires
            old(self).wf(),
            old(self).spec_width() >= 1,
            old(self).spec_height() >= 1,
            sym != Symmetry::DONUT ==> old(self).in_bounds(ix.0 as int, ix.1 as int),
            sym == Symmetry::DONUT ==> old(self).spec_width() == old(self).spec_height(),
        ensures
            final(self).wf(),
            final(self).spec_width() == old(self).spec_width(),
            final(self).spec_height() == old(self).spec_height(),
            forall|x: int, y: int|
                old(self).in_bounds(x, y) ==> #[trigger] final(self).at(x, y) == (
                if sym_sets(
                    sym,
                    old(self).spec_width(),
                    old(self).spec_height(),
                    ix.0 as int,
                    ix.1 as int,
                    x,
                    y,
                ) {
                    val
                } else {
                    old(self).at(x, y)
                }),
    {
        let (ixx, ixy) = ix;
        let w = self.width - 1;
        let h = self.height - 1;
        let wh = w / 2;
        let hh = h / 2;
        match sym {
            Symmetry::X => {
                self.set_at_index((ixx, ixy), val);
                self.set_at_index((w - ixx, ixy), val);
            },
            Symmetry::Y => {
                self.set_at_index((ixx, ixy), val);
                self.set_at_index((ixx, h - ixy), val);
            },
            Symmetry::XY => {
                self.set_at_index((ixx, ixy), val);
                self.set_at_index((w - ixx, ixy), val);
                self.set_at_index((ixx, h - ixy), val);
                self.set_at_index((w - ixx, h - ixy), val);
            },
            Symmetry::ROT90 => {
                self.set_at_index((ixx, ixy), val);
                if ixx > h || ixy > w {
                    return ;
                }
                if wh + hh >= ixy && wh + hh - ixy <= w {
                    self.set_at_index((wh + hh - ixy, ixx), val);
                }
                self.set_at_index((w - ixx, h - ixy), val);
                if hh + wh >= ixx && hh + wh - ixx <= h {
                    self.set_at_index((ixy, hh + wh - ixx), val);
                }
            },
            Symmetry::ROT180 => {
                self.set_at_index((ixx, ixy), val);
                self.set_at_index((w - ixx, h - ixy), val);
            },
            Symmetry::DONUT => {
                self.donut(ixx, ixy, val);
            },
        }
    }
}

impl VecMatrix<FieldType> {
    /// Every weight's magnitude is at most `b`.
    pub open spec fn bounded(self, b: int) -> bool {
        forall|x: int, y: int| self.in_bounds(x, y) ==> -b <= #[trigger] self.at(x, y) <= b
    }

    /// The standard convolution kernel: all ones with the additive identity
    /// in the centre.
    pub fn new_std_conv_matrix(width: usize, height: usize) -> (r: Self)
        requires
            1 <= width,
            1 <= height,
            width * height <= usize::MAX,
        ensures
            r.wf(),
            r.spec_width() == width,
            r.spec_height() == height,
            forall|x: int, y: int|
                r.in_bounds(x, y) ==> #[trigger] r.at(x, y) == (
                if x == width / 2 && y == height / 2 {
                    0int
                } else {
                    1int
                }),
    {
        let mut r = Self::new(width, height, 1);
        r.set_at_index((width / 2, height / 2), 0);
        r
    }

    /// A matrix of uniform pseudo-random zero/one weights.
    pub fn new_random(width: usize, height: usize) -> (r: Self)
        requires
            width * height <= usize::MAX,
        ensures
            r.wf(),
            r.spec_width() == width,
            r.spec_height() == height,
            forall|x: int, y: int| r.in_bounds(x, y) ==> 0 <= #[trigger] r.at(x, y) <= 1,
    {
        Self::new_random_range(width, height, 0, 1)
    }

    /// A matrix of uniform pseudo-random weights drawn from `lo..=hi`.
    pub fn new_random_range(width: usize, height: usize, lo: i64, hi: i64) -> (r: Self)
        requires
            width * height <= usize::MAX,
            lo <= hi,
            -0x100000 <= lo,
            hi <= 0x100000,
        ensures
            r.wf(),
            r.spec_width() == width,
            r.spec_height() == height,
            forall|x: int, y: int| r.in_bounds(x, y) ==> lo <= #[trigger] r.at(x, y) <= hi,
    {
        let mut r = Self::new(width, height, lo);
        let mut y: usize = 0;
        while y < height
            invariant
                y <= height,
                r.wf(),
                r.spec_width() == width,
                r.spec_height() == height,
                lo <= hi,
                -0x100000 <= lo,
                hi <= 0x100000,
                forall|xx: int, yy: int|
                    r.in_bounds(xx, yy) ==> lo <= #[trigger] r.at(xx, yy) <= hi,
            decreases height - y,
        {
            let mut x: usize = 0;
            while x < width
                invariant
                    x <= width,
                    y < height,
                    r.wf(),
                    r.spec_width() == width,
                    r.spec_height() == height,
                    lo <= hi,
                    -0x100000 <= lo,
                    hi <= 0x100000,
                    forall|xx: int, yy: int|
                        r.in_bounds(xx, yy) ==> lo <= #[trigger] r.at(xx, yy) <= hi,
                decreases width - x,
            {
                let v = random_field(lo, hi);
                r.set_at_index((x, y), v);
                x = x + 1;
            }
            y = y + 1;
        }
        r
    }
}

impl VecMatrix<CellType> {
    /// A matrix of uniform pseudo-random cell types over the whole alphabet.
    pub fn new_random(width: usize, height: usize) -> (r: Self)
        requires
            width * height <= usize::MAX,
        ensures
            r.wf(),
            r.spec_width() == width,
            r.spec_height() == height,
    {
        Self::new_random_range(width, height, &CellType::NoCell, &CellType::H)
    }

    /// A matrix of uniform pseudo-random cell types whose indices lie in
    /// `lo..=hi`.
    pub fn new_random_range(width: usize, height: usize, lo: &CellType, hi: &CellType) -> (r: Self)
        requires
            width * height <= usize::MAX,
            lo.idx() <= hi.idx(),
        ensures
            r.wf(),
            r.spec_width() == width,
            r.spec_height() == height,
            forall|x: int, y: int|
                r.in_bounds(x, y) ==> lo.idx() <= (#[trigger] r.at(x, y)).idx() <= hi.idx(),
    {
        let mut r = Self::new(width, height, *lo);
        let mut y: usize = 0;
        while y < height
            invariant
                y <= height,
                r.wf(),
                r.spec_width() == width,
                r.spec_height() == height,
                lo.idx() <= hi.idx(),
                forall|xx: int, yy: int|
                    r.in_bounds(xx, yy) ==> lo.idx() <= (#[trigger] r.at(xx, yy)).idx()
                        <= hi.idx(),
            decreases height - y,
        {
            let mut x: usize = 0;
            while x < width
                invariant
                    x <= width,
                    y < height,
                    r.wf(),
                    r.spec_width() == width,
                    r.spec_height() == height,
                    lo.idx() <= hi.idx(),
                    forall|xx: int, yy: int|
                        r.in_bounds(xx, yy) ==> lo.idx() <= (#[trigger] r.at(xx, yy)).idx()
                            <= hi.idx(),
                decreases width - x,
            {
                let v = CellType::random_range(lo, hi);
                r.set_at_index((x, y), v);
                x = x + 1;
            }
            y = y + 1;
        }
        r
    }
}

} // verus!
