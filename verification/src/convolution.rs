//! The windowed convolution evaluator: for every active cell, the weighted
//! sum of its `kw x kw` neighbourhood, using the kernel selected by the
//! cell's type.  Neighbours outside the grid contribute nothing (boundary
//! truncation, no wrap-around).

use vstd::prelude::*;
use vstd::string::StringExecFns;

use crate::cell_type::{CellType, FieldType, FIELD_ABS_BOUND, MAX_KERNEL_WIDTH, NUM_CELL_TYPES};
use crate::index_set::IndexSet;
use crate::matrix::VecMatrix;

verus! {

/// The neighbourhood contribution of kernel offset `(dx, dy)` for the cell
/// `(x, y)`: field value times kernel weight, or zero when the neighbour
/// falls outside the grid.
pub open spec fn conv_contrib(
    field: VecMatrix<FieldType>,
    kernel: VecMatrix<FieldType>,
    kw: int,
    x: int,
    y: int,
    dx: int,
    dy: int,
) -> int {
    let wh = kw / 2;
    let fx = x + dx - wh;
    let fy = y + dy - wh;
    if field.in_bounds(fx, fy) {
        field.at(fx, fy) * kernel.at(dx, dy)
    } else {
        0
    }
}

/// The sum of the first `t` contributions, walking the kernel window in
/// row-major order.
pub open spec fn conv_sum_to(
    field: VecMatrix<FieldType>,
    kernel: VecMatrix<FieldType>,
    kw: int,
    x: int,
    y: int,
    t: int,
) -> int
    decreases t,
{
    if t <= 0 {
        0
    } else {
        conv_sum_to(field, kernel, kw, x, y, t - 1) + conv_contrib(
            field,
            kernel,
            kw,
            x,
            y,
            (t - 1) % kw,
            (t - 1) / kw,
        )
    }
}

/// The full boundary-truncated convolution of the cell `(x, y)`.
pub open spec fn conv_at(
    field: VecMatrix<FieldType>,
    kernel: VecMatrix<FieldType>,
    kw: int,
    x: int,
    y: int,
) -> int {
    conv_sum_to(field, kernel, kw, x, y, kw * kw)
}

/// A partial convolution sum of `t` bounded terms is bounded by
/// `t * FIELD_ABS_BOUND^2`.
pub proof fn lemma_conv_sum_bound(
    field: VecMatrix<FieldType>,
    kernel: VecMatrix<FieldType>,
    kw: int,
    x: int,
    y: int,
    t: int,
)
    requires
        field.bounded(FIELD_ABS_BOUND as int),
        kernel.bounded(FIELD_ABS_BOUND as int),
        1 <= kw,
        kernel.spec_width() == kw,
        kernel.spec_height() == kw,
        0 <= t <= kw * kw,
    ensures
        -t * FIELD_ABS_BOUND * FIELD_ABS_BOUND <= conv_sum_to(field, kernel, kw, x, y, t) <= t
            * FIELD_ABS_BOUND * FIELD_ABS_BOUND,
    decreases t,
{
    let b = FIELD_ABS_BOUND as int;
    if t > 0 {
        lemma_conv_sum_bound(field, kernel, kw, x, y, t - 1);
        let dx = (t - 1) % kw;
        let dy = (t - 1) / kw;
        assert(0 <= dx < kw);
        assert(0 <= dy < kw) by (nonlinear_arith)
            requires
                0 <= t - 1 < kw * kw,
                kw >= 1,
                dy == (t - 1) / kw,
        {
        }
        let wh = kw / 2;
        let fx = x + dx - wh;
        let fy = y + dy - wh;
        if field.in_bounds(fx, fy) {
            assert(-b <= field.at(fx, fy) <= b && -b <= kernel.at(dx, dy) <= b);
            assert(-(b * b) <= field.at(fx, fy) * kernel.at(dx, dy) <= b * b) by (nonlinear_arith)
                requires
                    -b <= field.at(fx, fy) <= b,
                    -b <= kernel.at(dx, dy) <= b,
                    b >= 0,
            {
            }
        }
        assert((t - 1) * b * b + b * b == t * b * b && -((t - 1) * b * b) + -(b * b) == -(t * b
            * b)) by (nonlinear_arith)
        {
        }
    }
}

/// Convolution sums agree on grids and kernels that agree pointwise.
pub proof fn lemma_conv_congruent(
    f1: VecMatrix<FieldType>,
    k1: VecMatrix<FieldType>,
    f2: VecMatrix<FieldType>,
    k2: VecMatrix<FieldType>,
    kw: int,
    x: int,
    y: int,
    t: int,
)
    requires
        f1.spec_width() == f2.spec_width(),
        f1.spec_height() == f2.spec_height(),
        forall|a: int, b: int| f1.in_bounds(a, b) ==> #[trigger] f1.at(a, b) == f2.at(a, b),
        forall|a: int, b: int|
            0 <= a < kw && 0 <= b < kw ==> #[trigger] k1.at(a, b) == k2.at(a, b),
        1 <= kw,
        t <= kw * kw,
    ensures
        conv_sum_to(f1, k1, kw, x, y, t) == conv_sum_to(f2, k2, kw, x, y, t),
    decreases t,
{
    if t > 0 {
        lemma_conv_congruent(f1, k1, f2, k2, kw, x, y, t - 1);
        let dx = (t - 1) % kw;
        let dy = (t - 1) / kw;
        assert(0 <= dx < kw);
        assert(0 <= dy < kw) by (nonlinear_arith)
            requires
                0 <= t - 1 < kw * kw,
                kw >= 1,
                dy == (t - 1) / kw,
        {
        }
        assert(conv_contrib(f1, k1, kw, x, y, dx, dy) == conv_contrib(f2, k2, kw, x, y, dx, dy));
    }
}

/// The field grid together with the kernel width it is convolved with.
/// The grid holds the per-cell field values; the accumulated sums are
/// written into a separate matrix of the same shape.
#[derive(Clone)]
pub struct Convolution {
    pub field: VecMatrix<FieldType>,
    pub kw: usize,
}

impl Convolution {
    /// An odd kernel width within the supported bound, over a well-formed
    /// grid.
    pub open spec fn wf(self) -> bool {
        &&& self.field.wf()
        &&& self.field.spec_width() <= 0x4000_0000
        &&& self.field.spec_height() <= 0x4000_0000
        &&& 1 <= self.kw <= MAX_KERNEL_WIDTH
        &&& self.kw % 2 == 1
    }

    /// A fresh field grid with every value `fill`.
    pub fn new(width: usize, height: usize, kw: usize, fill: FieldType) -> (r: Self)
        requires
            width <= 0x4000_0000,
            height <= 0x4000_0000,
            width * height <= usize::MAX,
            1 <= kw <= MAX_KERNEL_WIDTH,
            kw % 2 == 1,
        ensures
            r.wf(),
            r.kw == kw,
            r.field.spec_width() == width,
            r.field.spec_height() == height,
            forall|x: int, y: int|
                r.field.in_bounds(x, y) ==> #[trigger] r.field.at(x, y) == fill,
    {
        Convolution { field: VecMatrix::new(width, height, fill), kw }
    }

    /// The field value at `ix`.
    pub fn index(&self, ix: (usize, usize)) -> (r: FieldType)
        requires
            self.wf(),
            self.field.in_bounds(ix.0 as int, ix.1 as int),
        ensures
            r == self.field.at(ix.0 as int, ix.1 as int),
    {
        self.field.index(ix)
    }

    /// Overwrite the field value at `ix`.
    pub fn set_at_index(&mut self, ix: (usize, usize), value: FieldType)
        requires
            old(self).wf(),
            old(self).field.in_bounds(ix.0 as int, ix.1 as int),
        ensures
            final(self).wf(),
            final(self).kw == old(self).kw,
            final(self).field.spec_width() == old(self).field.spec_width(),
            final(self).field.spec_height() == old(self).field.spec_height(),
            final(self).field.at(ix.0 as int, ix.1 as int) == value,
            forall|x: int, y: int|
                old(self).field.in_bounds(x, y) && (x != ix.0 || y != ix.1)
                    ==> #[trigger] final(self).field.at(x, y) == old(self).field.at(x, y),
    {
        self.field.set_at_index(ix, value);
    }

    pub fn width(&self) -> (r: usize)
        ensures
            r == self.field.spec_width(),
    {
        self.field.width()
    }

    pub fn height(&self) -> (r: usize)
        ensures
            r == self.field.spec_height(),
    {
        self.field.height()
    }

    /// Overwrite every field value with `val`.
    pub fn clear(&mut self, val: FieldType)
        requires
            old(self).wf(),
        ensures
            final(self).wf(),
            final(self).kw == old(self).kw,
            final(self).field.spec_width() == old(self).field.spec_width(),
            final(self).field.spec_height() == old(self).field.spec_height(),
            forall|x: int, y: int|
                final(self).field.in_bounds(x, y) ==> #[trigger] final(self).field.at(x, y) == val,
    {
        self.field.clear(val);
    }

    /// The field value the `kw x kw` window of cell `(x, y)` shows at
    /// offset `(dx, dy)`: zero where the neighbour falls outside the grid.
    pub open spec fn window_val(self, x: int, y: int, dx: int, dy: int) -> FieldType {
        let wh = self.kw as int / 2;
        let fx = x + dx - wh;
        let fy = y + dy - wh;
        if self.field.in_bounds(fx, fy) {
            self.field.at(fx, fy)
        } else {
            0
        }
    }

    /// The display text of one window row from offset `dx` on: each value
    /// in decimal followed by a comma and a space.
    pub open spec fn row_str(self, x: int, y: int, dy: int, dx: int) -> Seq<char>
        decreases self.kw - dx,
    {
        if dx < 0 || dx >= self.kw {
            Seq::empty()
        } else {
            dec_str_of(self.window_val(x, y, dx, dy) as int) + (", ")@ + self.row_str(
                x,
                y,
                dy,
                dx + 1,
            )
        }
    }

    /// The display text of the window from row `dy` on, one line per row.
    pub open spec fn window_str(self, x: int, y: int, dy: int) -> Seq<char>
        decreases self.kw - dy,
    {
        if dy < 0 || dy >= self.kw {
            Seq::empty()
        } else {
            self.row_str(x, y, dy, 0) + ("\n")@ + self.window_str(x, y, dy + 1)
        }
    }

    /// The `kw x kw` neighbourhood window of cell `ix` as display text:
    /// one line per row, each value in decimal followed by a comma and a
    /// space, with zeros where the window leaves the grid.
    #[verifier::loop_isolation(false)]
    pub fn display_element(&self, ix: (usize, usize)) -> (r: String)
        requires
            self.wf(),
            self.field.in_bounds(ix.0 as int, ix.1 as int),
        ensures
            r@ == self.window_str(ix.0 as int, ix.1 as int, 0),
    {
        let (ixx, ixy) = ix;
        let kw = self.kw;
        let wh = kw / 2;
        let width = self.field.width();
        let height = self.field.height();
        let mut res = String::new();
        let mut dy: usize = 0;
        while dy < kw
            invariant
                dy <= kw,
                self.window_str(ixx as int, ixy as int, 0) == res@ + self.window_str(
                    ixx as int,
                    ixy as int,
                    dy as int,
                ),
            decreases kw - dy,
        {
            let mut dx: usize = 0;
            while dx < kw
                invariant
                    dx <= kw,
                    dy < kw,
                    self.window_str(ixx as int, ixy as int, 0) == res@ + self.row_str(
                        ixx as int,
                        ixy as int,
                        dy as int,
                        dx as int,
                    ) + ("\n")@ + self.window_str(ixx as int, ixy as int, dy + 1),
                decreases kw - dx,
            {
                let val: FieldType = if ixx + dx >= wh && ixy + dy >= wh {
                    let fx = ixx + dx - wh;
                    let fy = ixy + dy - wh;
                    if fx < width && fy < height {
                        self.field.index((fx, fy))
                    } else {
                        0
                    }
                } else {
                    0
                };
                let ghost pre = res@;
                let text = field_to_string(val);
                res.append(text.as_str());
                res.append(", ");
                proof {
                    assert(val == self.window_val(ixx as int, ixy as int, dx as int, dy as int));
                    assert(res@ == pre + dec_str_of(val as int) + (", ")@);
                    assert(pre + self.row_str(ixx as int, ixy as int, dy as int, dx as int) == res@
                        + self.row_str(ixx as int, ixy as int, dy as int, dx + 1)) by {
                        assert(pre + (dec_str_of(val as int) + (", ")@ + self.row_str(
                            ixx as int,
                            ixy as int,
                            dy as int,
                            dx + 1,
                        )) =~= (pre + dec_str_of(val as int) + (", ")@) + self.row_str(
                            ixx as int,
                            ixy as int,
                            dy as int,
                            dx + 1,
                        ));
                    }
                }
                dx = dx + 1;
            }
            let ghost pre_row = res@;
            res.append("\n");
            proof {
                assert(self.row_str(ixx as int, ixy as int, dy as int, kw as int)
                    =~= Seq::<char>::empty());
                assert(pre_row + Seq::<char>::empty() =~= pre_row);
                assert(res@ + self.window_str(ixx as int, ixy as int, dy + 1) =~= pre_row + (
                "\n")@ + self.window_str(ixx as int, ixy as int, dy + 1));
            }
            dy = dy + 1;
        }
        proof {
            assert(self.window_str(ixx as int, ixy as int, kw as int) =~= Seq::<char>::empty());
            assert(res@ + Seq::<char>::empty() =~= res@);
        }
        res
    }

    /// For every cell in `indices`, write into `acc_matrix` the
    /// boundary-truncated convolution of this field with the kernel
    /// selected by the cell's type (or the first kernel when
    /// `single_kernel` is set); every other accumulator cell is untouched.
    #[verifier::loop_isolation(false)]
    pub fn convolution(
        &self,
        kernels: &Vec<VecMatrix<FieldType>>,
        single_kernel: bool,
        cell_type_matrix: &VecMatrix<CellType>,
        acc_matrix: &mut VecMatrix<FieldType>,
        indices: &IndexSet,
    )
        requires
            self.wf(),
            self.field.bounded(FIELD_ABS_BOUND as int),
            kernels@.len() == NUM_CELL_TYPES,
            forall|k: int|
                0 <= k < kernels@.len() ==> (#[trigger] kernels@[k]).wf() && kernels@[k].spec_width()
                    == self.kw && kernels@[k].spec_height() == self.kw
                    && kernels@[k].bounded(FIELD_ABS_BOUND as int),
            cell_type_matrix.wf(),
            cell_type_matrix.spec_width() == self.field.spec_width(),
            cell_type_matrix.spec_height() == self.field.spec_height(),
            old(acc_matrix).wf(),
            old(acc_matrix).spec_width() == self.field.spec_width(),
            old(acc_matrix).spec_height() == self.field.spec_height(),
            indices.wf(),
            indices.matrix_width == self.field.spec_width(),
            indices.matrix_height == self.field.spec_height(),
        ensures
            final(acc_matrix).wf(),
            final(acc_matrix).spec_width() == old(acc_matrix).spec_width(),
            final(acc_matrix).spec_height() == old(acc_matrix).spec_height(),
            forall|x: int, y: int|
                old(acc_matrix).in_bounds(x, y) ==> #[trigger] final(acc_matrix).at(x, y) == (
                if indices.has(x, y) {
                    conv_at(
                        self.field,
                        kernels@[if single_kernel {
                            0int
                        } else {
                            cell_type_matrix.at(x, y).idx()
                        }],
                        self.kw as int,
                        x,
                        y,
                    )
                } else {
                    old(acc_matrix).at(x, y) as int
                }),
    {
        let active = indices.iter();
        let n = active.len();
        let mut i: usize = 0;
        while i < n
            invariant
                i <= n,
                acc_matrix.wf(),
                acc_matrix.spec_width() == old(acc_matrix).spec_width(),
                acc_matrix.spec_height() == old(acc_matrix).spec_height(),
                forall|x: int, y: int|
                    old(acc_matrix).in_bounds(x, y) ==> #[trigger] acc_matrix.at(x, y) == (
                    if exists|k: int| 0 <= k < i && active@[k] == (x as usize, y as usize) {
                        conv_at(
                            self.field,
                            kernels@[if single_kernel {
                                0int
                            } else {
                                cell_type_matrix.at(x, y).idx()
                            }],
                            self.kw as int,
                            x,
                            y,
                        )
                    } else {
                        old(acc_matrix).at(x, y) as int
                    }),
            decreases n - i,
        {
            let (ixx, ixy) = active[i];
            let acc = self.convolve_cell(
                kernels,
                single_kernel,
                cell_type_matrix,
                ixx,
                ixy,
            );
            acc_matrix.set_at_index((ixx, ixy), acc);
            proof {
                assert forall|x: int, y: int|
                    old(acc_matrix).in_bounds(x, y) implies #[trigger] acc_matrix.at(x, y) == (
                if exists|k: int| 0 <= k < i + 1 && active@[k] == (x as usize, y as usize) {
                    conv_at(
                        self.field,
                        kernels@[if single_kernel {
                            0int
                        } else {
                            cell_type_matrix.at(x, y).idx()
                        }],
                        self.kw as int,
                        x,
                        y,
                    )
                } else {
                    old(acc_matrix).at(x, y) as int
                }) by {
                    if x == ixx && y == ixy {
                        assert(active@[i as int] == (x as usize, y as usize));
                    } else {
                        if exists|k: int| 0 <= k < i + 1 && active@[k] == (x as usize, y as usize) {
                            let k = choose|k: int|
                                0 <= k < i + 1 && active@[k] == (x as usize, y as usize);
                            assert(k < i);
                            assert(exists|k2: int|
                                0 <= k2 < i && active@[k2] == (x as usize, y as usize));
                        }
                    }
                }
            }
            i = i + 1;
        }
        proof {
            assert forall|x: int, y: int|
                old(acc_matrix).in_bounds(x, y) implies ((exists|k: int|
                0 <= k < n && active@[k] == (x as usize, y as usize)) == indices.has(x, y)) by {
                if indices.has(x, y) {
                    let k = choose|k: int|
                        0 <= k < active@.len() && active@[k].0 == x && active@[k].1 == y;
                    assert(active@[k] == (x as usize, y as usize));
                }
                if exists|k: int| 0 <= k < n && active@[k] == (x as usize, y as usize) {
                    let k = choose|k: int| 0 <= k < n && active@[k] == (x as usize, y as usize);
                    assert(indices.has(active@[k].0 as int, active@[k].1 as int));
                }
            }
        }
    }

    /// The boundary-truncated convolution of one cell with the kernel
    /// selected by its type.
    #[verifier::loop_isolation(false)]
    fn convolve_cell(
        &self,
        kernels: &Vec<VecMatrix<FieldType>>,
        single_kernel: bool,
        cell_type_matrix: &VecMatrix<CellType>,
        ixx: usize,
        ixy: usize,
    ) -> (acc: FieldType)
        requires
            self.wf(),
            self.field.bounded(FIELD_ABS_BOUND as int),
            kernels@.len() == NUM_CELL_TYPES,
            forall|k: int|
                0 <= k < kernels@.len() ==> (#[trigger] kernels@[k]).wf() && kernels@[k].spec_width()
                    == self.kw && kernels@[k].spec_height() == self.kw && kernels@[k].bounded(
                    FIELD_ABS_BOUND as int,
                ),
            cell_type_matrix.wf(),
            cell_type_matrix.spec_width() == self.field.spec_width(),
            cell_type_matrix.spec_height() == self.field.spec_height(),
            self.field.in_bounds(ixx as int, ixy as int),
        ensures
            acc == conv_at(
                self.field,
                kernels@[if single_kernel {
                    0int
                } else {
                    cell_type_matrix.at(ixx as int, ixy as int).idx()
                }],
                self.kw as int,
                ixx as int,
                ixy as int,
            ),
    {
        let kw = self.kw;
        let wh = kw / 2;
        let kernel_ix: usize = if single_kernel {
            0
        } else {
            cell_type_matrix.index((ixx, ixy)).as_index()
        };
        let kernel = &kernels[kernel_ix];
        let ghost kv = kernels@[kernel_ix as int];
        let width = self.field.width();
        let height = self.field.height();
        let mut acc: i64 = 0;
        let ghost b = FIELD_ABS_BOUND as int;
        let mut dy: usize = 0;
        while dy < kw
            invariant
                dy <= kw,
                acc == conv_sum_to(self.field, kv, kw as int, ixx as int, ixy as int, dy * kw),
                -(dy * kw) * b * b <= acc <= (dy * kw) * b * b,
            decreases kw - dy,
        {
            let mut dx: usize = 0;
            while dx < kw
                invariant
                    dx <= kw,
                    dy < kw,
                    acc == conv_sum_to(
                        self.field,
                        kv,
                        kw as int,
                        ixx as int,
                        ixy as int,
                        dy * kw + dx,
                    ),
                    -(dy * kw + dx) * b * b <= acc <= (dy * kw + dx) * b * b,
                decreases kw - dx,
            {
                let ghost t = dy * kw + dx;
                proof {
                    assert(t < kw * kw) by (nonlinear_arith)
                        requires
                            dy < kw,
                            dx < kw,
                            t == dy * kw + dx,
                    {
                    }
                    assert(t % (kw as int) == dx && t / (kw as int) == dy) by (nonlinear_arith)
                        requires
                            0 <= dx < kw,
                            t == dy * kw + dx,
                            0 <= dy,
                            kw >= 1,
                    {
                    }
                    assert(t * b * b <= 3969 * b * b && (t + 1) * b * b == t * b * b + b * b)
                        by (nonlinear_arith)
                        requires
                            0 <= t < kw * kw,
                            kw <= 63,
                            b >= 0,
                    {
                    }
                }
                let fx_ok_low = ixx + dx >= wh;
                let fy_ok_low = ixy + dy >= wh;
                if fx_ok_low && fy_ok_low {
                    let fx = ixx + dx - wh;
                    let fy = ixy + dy - wh;
                    if fx < width && fy < height {
                        let f = self.field.index((fx, fy));
                        let k = kernel.index((dx, dy));
                        proof {
                            assert(-b <= f <= b && -b <= k <= b);
                            assert(-(b * b) <= f * k <= b * b) by (nonlinear_arith)
                                requires
                                    -b <= f <= b,
                                    -b <= k <= b,
                                    b >= 0,
                            {
                            }
                            assert(b * b == 0x10000000000);
                        }
                        acc = acc + f * k;
                    }
                }
                dx = dx + 1;
            }
            proof {
                assert((dy + 1) * kw == dy * kw + kw) by (nonlinear_arith)
                {
                }
            }
            dy = dy + 1;
        }
        proof {
            assert(kw * kw == (kw * kw) as int);
        }
        acc
    }
}

/// The decimal display text of a field value.
pub uninterp spec fn dec_str_of(v: int) -> Seq<char>;

/// Relies on `i64`'s decimal `Display` implementation: the digits are a
/// function of the value alone.
#[verifier::external_body]
fn field_to_string(v: FieldType) -> (r: String)
    ensures
        r@ == dec_str_of(v as int),
{
    v.to_string()
}

} // verus!
