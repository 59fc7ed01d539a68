//! The simulation engine: the grids, kernel bank, rule set and dirty
//! tracker, and the step that advances the automaton one tick.

use vstd::prelude::*;

use crate::cell_type::{CellType, CellTypeMap, FieldType, FIELD_ABS_BOUND, MAX_KERNEL_WIDTH,
    NUM_CELL_TYPES};
use crate::convolution::{conv_at, Convolution};
use crate::index_set::IndexSet;
use crate::matrix::{Symmetry, VecMatrix};
use crate::quad_tree::{rect_seq_covers, QuadTree, Rect};
use crate::rules::{first_match, Rule, RuleSet};

verus! {

/// The number of quad-tree levels the engine builds its trackers with.
pub const TRACKER_LEVELS: usize = 5;

/// The engine under its short, historical name.
pub type RState = RugolState;

/// The full state of one simulation: a bank of kernels (one per cell
/// type), the colour/value table, the transition rules, the per-resolution
/// field, cell-type and accumulator grids, and the dirty tracker for the
/// selected resolution.
pub struct RugolState {
    pub conv_kernels: Vec<VecMatrix<FieldType>>,
    pub cell_type_map: CellTypeMap,
    pub rules: RuleSet,
    pub fields_vec: Vec<Convolution>,
    pub cell_type_vec: Vec<VecMatrix<CellType>>,
    pub acc_vec: Vec<VecMatrix<FieldType>>,
    pub vec_ix: usize,
    pub quad_tree: QuadTree,
}

impl RugolState {
    /// The kernel width shared by the bank and every field grid.
    pub open spec fn kw(self) -> int {
        self.fields_vec@[0].kw as int
    }

    /// The field grid of the selected resolution.
    pub open spec fn cur_fields(self) -> Convolution {
        self.fields_vec@[self.vec_ix as int]
    }

    /// The cell-type grid of the selected resolution.
    pub open spec fn cur_cells(self) -> VecMatrix<CellType> {
        self.cell_type_vec@[self.vec_ix as int]
    }

    /// The accumulator grid of the selected resolution.
    pub open spec fn cur_acc(self) -> VecMatrix<FieldType> {
        self.acc_vec@[self.vec_ix as int]
    }

    /// Grid width of the selected resolution.
    pub open spec fn gw(self) -> int {
        self.cur_fields().field.spec_width()
    }

    /// Grid height of the selected resolution.
    pub open spec fn gh(self) -> int {
        self.cur_fields().field.spec_height()
    }

    pub open spec fn in_grid(self, x: int, y: int) -> bool {
        0 <= x < self.gw() && 0 <= y < self.gh()
    }

    /// The engine invariant: nine bounded square kernels of the shared
    /// width, aligned grids per resolution, and a well-formed tracker over
    /// the selected resolution.
    pub open spec fn wf(self) -> bool {
        &&& self.conv_kernels@.len() == NUM_CELL_TYPES
        &&& forall|k: int|
            0 <= k < self.conv_kernels@.len() ==> (#[trigger] self.conv_kernels@[k]).wf()
                && self.conv_kernels@[k].spec_width() == self.kw()
                && self.conv_kernels@[k].spec_height() == self.kw()
                && self.conv_kernels@[k].bounded(FIELD_ABS_BOUND as int)
        &&& self.cell_type_map.wf()
        &&& self.fields_vec@.len() >= 1
        &&& self.cell_type_vec@.len() == self.fields_vec@.len()
        &&& self.acc_vec@.len() == self.fields_vec@.len()
        &&& self.vec_ix < self.fields_vec@.len()
        &&& forall|i: int|
            0 <= i < self.fields_vec@.len() ==> (#[trigger] self.fields_vec@[i]).wf()
                && self.fields_vec@[i].kw == self.kw() && self.fields_vec@[i].field.bounded(
                FIELD_ABS_BOUND as int,
            )
        &&& forall|i: int|
            0 <= i < self.fields_vec@.len() ==> (#[trigger] self.cell_type_vec@[i]).wf()
                && self.cell_type_vec@[i].spec_width() == self.fields_vec@[i].field.spec_width()
                && self.cell_type_vec@[i].spec_height() == self.fields_vec@[i].field.spec_height()
        &&& forall|i: int|
            0 <= i < self.fields_vec@.len() ==> (#[trigger] self.acc_vec@[i]).wf()
                && self.acc_vec@[i].spec_width() == self.fields_vec@[i].field.spec_width()
                && self.acc_vec@[i].spec_height() == self.fields_vec@[i].field.spec_height()
        &&& self.quad_tree.wf()
        &&& self.quad_tree.width == self.gw()
        &&& self.quad_tree.height == self.gh()
        &&& 1 <= self.gw()
        &&& 1 <= self.gh()
    }

    /// Build one resolution: a zeroed field grid, uniformly random cell
    /// types, the matching field values, and a zeroed accumulator.
    #[verifier::loop_isolation(false)]
    fn make_resolution(
        width: usize,
        height: usize,
        kw: usize,
        map: &CellTypeMap,
    ) -> (r: (Convolution, VecMatrix<CellType>, VecMatrix<FieldType>))
        requires
            map.wf(),
            1 <= width <= 0x4000_0000,
            1 <= height <= 0x4000_0000,
            width * height <= usize::MAX,
            1 <= kw <= MAX_KERNEL_WIDTH,
            kw % 2 == 1,
        ensures
            r.0.wf(),
            r.0.kw == kw,
            r.0.field.spec_width() == width,
            r.0.field.spec_height() == height,
            r.0.field.bounded(FIELD_ABS_BOUND as int),
            r.1.wf(),
            r.1.spec_width() == width,
            r.1.spec_height() == height,
            r.2.wf(),
            r.2.spec_width() == width,
            r.2.spec_height() == height,
            forall|x: int, y: int| r.2.in_bounds(x, y) ==> #[trigger] r.2.at(x, y) == 0,
            forall|x: int, y: int|
                r.1.in_bounds(x, y) ==> #[trigger] r.0.field.at(x, y) == map.spec_value(
                    r.1.at(x, y),
                ),
    {
        let cells = VecMatrix::<CellType>::new_random(width, height);
        let mut fields = Convolution::new(width, height, kw, 0);
        let mut y: usize = 0;
        while y < height
            invariant
                y <= height,
                fields.wf(),
                fields.kw == kw,
                fields.field.spec_width() == width,
                fields.field.spec_height() == height,
                forall|a: int, b: int|
                    0 <= a < width && 0 <= b < y ==> #[trigger] fields.field.at(a, b)
                        == map.spec_value(cells.at(a, b)),
                forall|a: int, b: int|
                    fields.field.in_bounds(a, b) ==> -FIELD_ABS_BOUND
                        <= #[trigger] fields.field.at(a, b) <= FIELD_ABS_BOUND,
            decreases height - y,
        {
            let mut x: usize = 0;
            while x < width
                invariant
                    x <= width,
                    y < height,
                    fields.wf(),
                    fields.kw == kw,
                    fields.field.spec_width() == width,
                    fields.field.spec_height() == height,
                    forall|a: int, b: int|
                        0 <= a < width && 0 <= b < y ==> #[trigger] fields.field.at(a, b)
                            == map.spec_value(cells.at(a, b)),
                    forall|a: int|
                        0 <= a < x ==> #[trigger] fields.field.at(a, y as int) == map.spec_value(
                            cells.at(a, y as int),
                        ),
                    forall|a: int, b: int|
                        fields.field.in_bounds(a, b) ==> -FIELD_ABS_BOUND
                            <= #[trigger] fields.field.at(a, b) <= FIELD_ABS_BOUND,
                decreases width - x,
            {
                let c = cells.index((x, y));
                let entry = map.index(c);
                fields.set_at_index((x, y), entry.value);
                x = x + 1;
            }
            y = y + 1;
        }
        let acc = VecMatrix::<FieldType>::new(width, height, 0);
        (fields, cells, acc)
    }

    /// A fresh simulation: the standard ring kernel in all nine slots, the
    /// classic rule set, the default colour/value table, five resolutions
    /// of randomized cells, and a tracker that marks everything changed.
    #[verifier::loop_isolation(false)]
    pub fn new(kw: usize) -> (r: Self)
        requires
            1 <= kw <= MAX_KERNEL_WIDTH,
            kw % 2 == 1,
        ensures
            r.wf(),
            r.kw() == kw,
            r.vec_ix == 0,
            r.gw() == 10,
            r.gh() == 5,
            r.rules.rules@ == crate::rules::spec_classic_rules(),
            forall|c: CellType| #[trigger] r.cell_type_map.spec_value(c) == c.idx(),
            forall|c: CellType|
                #[trigger] r.cell_type_map.spec_color(c) == crate::cell_type::default_color(
                    c.idx(),
                ),
            forall|k: int, x: int, y: int|
                #![trigger r.conv_kernels@[k].at(x, y)]
                0 <= k < NUM_CELL_TYPES && 0 <= x < kw && 0 <= y < kw ==> r.conv_kernels@[k].at(
                    x,
                    y,
                ) == (if x == kw / 2 && y == kw / 2 {
                    0int
                } else {
                    1int
                }),
            forall|i: int, x: int, y: int|
                #![trigger r.fields_vec@[i].field.at(x, y)]
                0 <= i < r.fields_vec@.len() && r.cell_type_vec@[i].in_bounds(x, y)
                    ==> r.fields_vec@[i].field.at(x, y) == r.cell_type_map.spec_value(
                    r.cell_type_vec@[i].at(x, y),
                ),
            forall|i: int, x: int, y: int|
                #![trigger r.acc_vec@[i].at(x, y)]
                0 <= i < r.acc_vec@.len() && r.acc_vec@[i].in_bounds(x, y) ==> r.acc_vec@[i].at(
                    x,
                    y,
                ) == 0,
            forall|x: int, y: int|
                #![trigger r.quad_tree.covered(x, y)]
                r.quad_tree.covered(x, y) <==> r.in_grid(x, y),
    {
        let cell_type_map = CellTypeMap::new();
        let mut conv_kernels: Vec<VecMatrix<FieldType>> = Vec::new();
        let mut k: usize = 0;
        while k < 9
            invariant
                k <= 9,
                conv_kernels@.len() == k,
                forall|i: int|
                    0 <= i < k ==> (#[trigger] conv_kernels@[i]).wf() && conv_kernels@[i].spec_width()
                        == kw && conv_kernels@[i].spec_height() == kw && conv_kernels@[i].bounded(
                        FIELD_ABS_BOUND as int,
                    ),
                forall|i: int, x: int, y: int|
                    #![trigger conv_kernels@[i].at(x, y)]
                    0 <= i < k && 0 <= x < kw && 0 <= y < kw ==> conv_kernels@[i].at(x, y) == (
                    if x == kw / 2 && y == kw / 2 {
                        0int
                    } else {
                        1int
                    }),
            decreases 9 - k,
        {
            proof {
                assert(kw * kw <= 63 * 63) by (nonlinear_arith)
                    requires
                        kw <= 63,
                {
                }
            }
            conv_kernels.push(VecMatrix::new_std_conv_matrix(kw, kw));
            k = k + 1;
        }
        let mut fields_vec: Vec<Convolution> = Vec::new();
        let mut cell_type_vec: Vec<VecMatrix<CellType>> = Vec::new();
        let mut acc_vec: Vec<VecMatrix<FieldType>> = Vec::new();
        let r0 = Self::make_resolution(10, 5, kw, &cell_type_map);
        fields_vec.push(r0.0);
        cell_type_vec.push(r0.1);
        acc_vec.push(r0.2);
        let r1 = Self::make_resolution(100, 50, kw, &cell_type_map);
        fields_vec.push(r1.0);
        cell_type_vec.push(r1.1);
        acc_vec.push(r1.2);
        let r2 = Self::make_resolution(200, 100, kw, &cell_type_map);
        fields_vec.push(r2.0);
        cell_type_vec.push(r2.1);
        acc_vec.push(r2.2);
        let r3 = Self::make_resolution(400, 200, kw, &cell_type_map);
        fields_vec.push(r3.0);
        cell_type_vec.push(r3.1);
        acc_vec.push(r3.2);
        let r4 = Self::make_resolution(800, 400, kw, &cell_type_map);
        fields_vec.push(r4.0);
        cell_type_vec.push(r4.1);
        acc_vec.push(r4.2);
        let quad_tree = QuadTree::new(10, 5, TRACKER_LEVELS);
        RugolState {
            conv_kernels,
            cell_type_map,
            rules: crate::rules::classic_rules(),
            fields_vec,
            cell_type_vec,
            acc_vec,
            vec_ix: 0,
            quad_tree,
        }
    }

    /// Whether `(ixx, ixy)` addresses a cell of the selected resolution.
    pub fn is_valid_index(&self, ixx: usize, ixy: usize) -> (r: bool)
        requires
            self.wf(),
        ensures
            r == self.in_grid(ixx as int, ixy as int),
    {
        ixx < self.fields_vec[self.vec_ix].width() && ixy < self.fields_vec[self.vec_ix].height()
    }

    /// The field grid of the selected resolution, for rendering.
    pub fn get_fields(&self) -> (r: &Convolution)
        requires
            self.wf(),
        ensures
            r == self.cur_fields(),
    {
        &self.fields_vec[self.vec_ix]
    }

    /// The cell-type grid of the selected resolution, for rendering.
    pub fn get_cells(&self) -> (r: &VecMatrix<CellType>)
        requires
            self.wf(),
        ensures
            r == self.cur_cells(),
    {
        &self.cell_type_vec[self.vec_ix]
    }

    /// Whether the tracker requires `(x, y)` to be recomputed this step:
    /// an in-grid cell within half a kernel width of a recorded change.
    pub open spec fn active(self, x: int, y: int) -> bool {
        self.in_grid(x, y) && self.quad_tree.dilated_covered_from(0, 0, self.kw() / 2, x, y)
    }

    /// The kernel the convolution uses for the cell `(x, y)`.
    pub open spec fn sel_kernel(self, single_kernel: bool, x: int, y: int) -> VecMatrix<
        FieldType,
    > {
        self.conv_kernels@[if single_kernel {
            0int
        } else {
            self.cur_cells().at(x, y).idx()
        }]
    }

    /// The accumulator value of `(x, y)` after a step: the convolution for
    /// active cells, the previous value elsewhere.
    pub open spec fn step_acc(self, single_kernel: bool, x: int, y: int) -> int {
        if self.active(x, y) {
            conv_at(
                self.cur_fields().field,
                self.sel_kernel(single_kernel, x, y),
                self.kw(),
                x,
                y,
            )
        } else {
            self.cur_acc().at(x, y) as int
        }
    }

    /// The cell type of `(x, y)` after a step: the first matching rule's
    /// transition for active cells, the previous type elsewhere.
    pub open spec fn step_cell(self, single_kernel: bool, x: int, y: int) -> CellType {
        if self.active(x, y) {
            first_match(
                self.rules.rules@,
                self.cur_cells().at(x, y),
                self.step_acc(single_kernel, x, y) as FieldType,
            )
        } else {
            self.cur_cells().at(x, y)
        }
    }

    /// Whether a step changes the cell type of `(x, y)`.
    pub open spec fn step_changed(self, single_kernel: bool, x: int, y: int) -> bool {
        self.active(x, y) && self.step_cell(single_kernel, x, y) != self.cur_cells().at(x, y)
    }

    /// The field value of `(x, y)` after a step: refreshed from the table
    /// for cells that changed type, the previous value elsewhere.
    pub open spec fn step_field(self, single_kernel: bool, x: int, y: int) -> FieldType {
        if self.step_changed(single_kernel, x, y) {
            self.cell_type_map.spec_value(self.step_cell(single_kernel, x, y))
        } else {
            self.cur_fields().field.at(x, y)
        }
    }

    /// Advance the simulation one tick: convolve every active cell, apply
    /// the rules to the results, refresh the field values of cells whose
    /// type changed, and re-record exactly those cells in the tracker.
    /// Every grid value after the call is a function of the state before
    /// it, so two runs from equal states produce equal grids.
    #[verifier::loop_isolation(false)]
    #[verifier::rlimit(100)]
    pub fn step(&mut self, single_kernel: bool)
        requires
            old(self).wf(),
        ensures
            final(self).wf(),
            final(self).conv_kernels == old(self).conv_kernels,
            final(self).cell_type_map == old(self).cell_type_map,
            final(self).rules == old(self).rules,
            final(self).vec_ix == old(self).vec_ix,
            final(self).fields_vec@.len() == old(self).fields_vec@.len(),
            forall|i: int|
                0 <= i < old(self).fields_vec@.len() && i != old(self).vec_ix
                    ==> #[trigger] final(self).fields_vec@[i] == old(self).fields_vec@[i]
                    && final(self).cell_type_vec@[i] == old(self).cell_type_vec@[i]
                    && final(self).acc_vec@[i] == old(self).acc_vec@[i],
            final(self).kw() == old(self).kw(),
            final(self).gw() == old(self).gw(),
            final(self).gh() == old(self).gh(),
            forall|x: int, y: int|
                old(self).in_grid(x, y) ==> #[trigger] final(self).cur_acc().at(x, y)
                    == old(self).step_acc(single_kernel, x, y),
            forall|x: int, y: int|
                old(self).in_grid(x, y) ==> #[trigger] final(self).cur_cells().at(x, y)
                    == old(self).step_cell(single_kernel, x, y),
            forall|x: int, y: int|
                old(self).in_grid(x, y) ==> #[trigger] final(self).cur_fields().field.at(x, y)
                    == old(self).step_field(single_kernel, x, y),
            forall|x: int, y: int|
                old(self).step_changed(single_kernel, x, y)
                    ==> #[trigger] final(self).quad_tree.covered(x, y),
            forall|qx: int, qy: int|
                #[trigger] final(self).quad_tree.covered(qx, qy) ==> exists|px: int, py: int|
                    old(self).step_changed(single_kernel, px, py)
                        && crate::quad_tree::shares_leaf(old(self).quad_tree, px, py, qx, qy),
    {
        let ix = self.vec_ix;
        let w = self.fields_vec[ix].width();
        let h = self.fields_vec[ix].height();
        let kwv = self.fields_vec[ix].kw;
        let ghost wh = (kwv / 2) as int;
        // Collect the dilated changed regions.
        let mut rects: Vec<Rect> = Vec::new();
        self.quad_tree.get_changed_ranges(kwv, 0, 0, &mut rects);
        // Turn them into the active-index set.
        let mut indices = IndexSet::new(w, h);
        let nr = rects.len();
        let mut ri: usize = 0;
        while ri < nr
            invariant
                ri <= nr,
                indices.wf(),
                indices.matrix_width == w,
                indices.matrix_height == h,
                forall|x: int, y: int|
                    old(self).in_grid(x, y) ==> (#[trigger] indices.has(x, y) == exists|j: int|
                        0 <= j < ri && (#[trigger] rects@[j]).contains(x, y)),
            decreases nr - ri,
        {
            let rect = rects[ri];
            let ghost pre_indices = indices;
            indices.insert_rect(&rect);
            proof {
                assert forall|x: int, y: int| old(self).in_grid(x, y) implies (
                #[trigger] indices.has(x, y) == exists|j: int|
                    0 <= j < ri + 1 && (#[trigger] rects@[j]).contains(x, y)) by {
                    if indices.has(x, y) {
                        if pre_indices.has(x, y) {
                            let j = choose|j: int| 0 <= j < ri && (#[trigger] rects@[j]).contains(x, y);
                            assert(0 <= j < ri + 1 && rects@[j].contains(x, y));
                        } else {
                            assert(rects@[ri as int].contains(x, y));
                        }
                    }
                    if exists|j: int| 0 <= j < ri + 1 && (#[trigger] rects@[j]).contains(x, y) {
                        let j = choose|j: int|
                            0 <= j < ri + 1 && (#[trigger] rects@[j]).contains(x, y);
                        if j < ri {
                            assert(pre_indices.has(x, y));
                        }
                    }
                }
            }
            ri = ri + 1;
        }
        proof {
            assert forall|x: int, y: int|
                old(self).in_grid(x, y) implies (#[trigger] indices.has(x, y) == old(self).active(
                x,
                y,
            )) by {
                assert((exists|j: int| 0 <= j < nr && (#[trigger] rects@[j]).contains(x, y))
                    == rect_seq_covers(rects@, x, y));
            }
        }
        // Convolve the active cells.
        let acc = &mut self.acc_vec[ix];
        self.fields_vec[ix].convolution(
            &self.conv_kernels,
            single_kernel,
            &self.cell_type_vec[ix],
            acc,
            &indices,
        );
        // Commit is complete for this pass; forget the old changes.
        self.quad_tree.clear();
        // Apply the rules to every active cell and re-record real changes.
        let active_list = indices.iter();
        let m = active_list.len();
        let ghost smid = *self;
        let mut j: usize = 0;
        while j < m
            invariant
                j <= m,
                self.wf(),
                self.conv_kernels == smid.conv_kernels,
                self.cell_type_map == smid.cell_type_map,
                self.rules == smid.rules,
                self.vec_ix == smid.vec_ix,
                self.acc_vec == smid.acc_vec,
                self.fields_vec@.len() == smid.fields_vec@.len(),
                forall|i: int|
                    0 <= i < smid.fields_vec@.len() && i != smid.vec_ix
                        ==> #[trigger] self.fields_vec@[i] == smid.fields_vec@[i]
                        && self.cell_type_vec@[i] == smid.cell_type_vec@[i],
                self.cur_fields().kw == smid.cur_fields().kw,
                self.cur_fields().field.spec_width() == smid.cur_fields().field.spec_width(),
                self.cur_fields().field.spec_height() == smid.cur_fields().field.spec_height(),
                forall|x: int, y: int|
                    old(self).in_grid(x, y) ==> #[trigger] self.cur_cells().at(x, y) == (
                    if exists|k: int|
                        0 <= k < j && active_list@[k] == (x as usize, y as usize)
                        && old(self).step_changed(single_kernel, x, y) {
                        old(self).step_cell(single_kernel, x, y)
                    } else {
                        old(self).cur_cells().at(x, y)
                    }),
                forall|x: int, y: int|
                    old(self).in_grid(x, y) ==> #[trigger] self.cur_fields().field.at(x, y) == (
                    if exists|k: int|
                        0 <= k < j && active_list@[k] == (x as usize, y as usize)
                        && old(self).step_changed(single_kernel, x, y) {
                        old(self).cell_type_map.spec_value(
                            old(self).step_cell(single_kernel, x, y),
                        )
                    } else {
                        old(self).cur_fields().field.at(x, y)
                    }),
                forall|x: int, y: int|
                    (exists|k: int|
                        0 <= k < j && active_list@[k] == (x as usize, y as usize)
                        && old(self).step_changed(single_kernel, x, y)) ==> #[trigger] self.quad_tree.covered(
                        x,
                        y,
                    ),
                forall|x: int, y: int|
                    #[trigger] self.quad_tree.covered(x, y) ==> old(self).in_grid(x, y),
                self.quad_tree.levels() == old(self).quad_tree.levels(),
                forall|l2: int, ix2: int|
                    old(self).quad_tree.valid_node(l2, ix2) ==> (#[trigger] self.quad_tree.node(
                        l2,
                        ix2,
                    )).same_range(old(self).quad_tree.node(l2, ix2)),
                forall|qx: int, qy: int|
                    #[trigger] self.quad_tree.covered(qx, qy) ==> exists|px: int, py: int|
                        old(self).step_changed(single_kernel, px, py)
                            && crate::quad_tree::shares_leaf(old(self).quad_tree, px, py, qx, qy),
            decreases m - j,
        {
            let ghost iter_pre = *self;
            let (xx, yy) = active_list[j];
            proof {
                assert forall|k: int| 0 <= k < j implies active_list@[k] != active_list@[j as int]
                    by {
                    assert(crate::matrix::rm_pos(
                        indices.matrix_width as int,
                        active_list@[k].0 as int,
                        active_list@[k].1 as int,
                    ) < crate::matrix::rm_pos(
                        indices.matrix_width as int,
                        active_list@[j as int].0 as int,
                        active_list@[j as int].1 as int,
                    ));
                }
            }
            let accv = self.acc_vec[ix].index((xx, yy));
            let initial = self.cell_type_vec[ix].index((xx, yy));
            let cell = self.rules.apply(initial, accv);
            proof {
                crate::convolution::lemma_conv_sum_bound(
                    old(self).cur_fields().field,
                    old(self).sel_kernel(single_kernel, xx as int, yy as int),
                    old(self).kw(),
                    xx as int,
                    yy as int,
                    old(self).kw() * old(self).kw(),
                );
                let ghost kwi = old(self).kw();
                assert(kwi * kwi <= 3969) by (nonlinear_arith)
                    requires
                        1 <= kwi <= 63,
                {
                }
                assert(accv == old(self).step_acc(single_kernel, xx as int, yy as int));
                assert(cell == old(self).step_cell(single_kernel, xx as int, yy as int));
            }
            if cell != initial {
                let entry = self.cell_type_map.index(cell);
                let cm = &mut self.cell_type_vec[ix];
                cm.set_at_index((xx, yy), cell);
                let fm = &mut self.fields_vec[ix];
                fm.set_at_index((xx, yy), entry.value);
                let ghost tpre = self.quad_tree;
                self.quad_tree.insert(xx, yy, 0, 0);
                proof {
                    crate::quad_tree::lemma_insert_covered(
                        tpre,
                        self.quad_tree,
                        0,
                        0,
                        xx as int,
                        yy as int,
                    );
                    assert forall|x: int, y: int|
                        #[trigger] self.quad_tree.covered(x, y) implies old(self).in_grid(x, y)
                        by {
                        crate::quad_tree::lemma_covered_within(self.quad_tree, 0, 0, x, y);
                    }
                    assert(old(self).step_changed(single_kernel, xx as int, yy as int));
                    assert forall|qx: int, qy: int|
                        #[trigger] self.quad_tree.covered(qx, qy) implies exists|px: int, py: int|
                        old(self).step_changed(single_kernel, px, py)
                            && crate::quad_tree::shares_leaf(
                            old(self).quad_tree,
                            px,
                            py,
                            qx,
                            qy,
                        ) by {
                        if !tpre.covered(qx, qy) {
                            let (ll, li) = choose|ll: int, li: int|
                                tpre.valid_node(ll, li) && ll == tpre.levels() - 1
                                    && #[trigger] crate::quad_tree::desc(0, 0, ll, li)
                                    && tpre.node(ll, li).contains(xx as int, yy as int)
                                    && tpre.node(ll, li).contains(qx, qy);
                            assert(tpre.node(ll, li).same_range(
                                old(self).quad_tree.node(ll, li),
                            ));
                            assert(old(self).quad_tree.node(ll, li).contains(xx as int, yy as int)
                                && old(self).quad_tree.node(ll, li).contains(qx, qy));
                            assert(crate::quad_tree::shares_leaf(
                                old(self).quad_tree,
                                xx as int,
                                yy as int,
                                qx,
                                qy,
                            ));
                        }
                    }
                }
            }
            proof {
                assert forall|x: int, y: int|
                    old(self).in_grid(x, y) implies #[trigger] self.cur_cells().at(x, y) == (
                if exists|k: int|
                    0 <= k < j + 1 && active_list@[k] == (x as usize, y as usize)
                    && old(self).step_changed(single_kernel, x, y) {
                    old(self).step_cell(single_kernel, x, y)
                } else {
                    old(self).cur_cells().at(x, y)
                }) by {
                    if x == xx && y == yy {
                        assert(active_list@[j as int] == (x as usize, y as usize));
                    } else {
                        if exists|k: int|
                            0 <= k < j + 1 && active_list@[k] == (x as usize, y as usize)
                            && old(self).step_changed(single_kernel, x, y) {
                            let k = choose|k: int|
                                0 <= k < j + 1 && active_list@[k] == (x as usize, y as usize)
                                    && old(self).step_changed(single_kernel, x, y);
                            assert(k < j);
                            assert(exists|k2: int|
                                0 <= k2 < j && active_list@[k2] == (x as usize, y as usize)
                                    && old(self).step_changed(single_kernel, x, y));
                        }
                    }
                }
                assert forall|x: int, y: int|
                    old(self).in_grid(x, y) implies #[trigger] self.cur_fields().field.at(x, y)
                    == (if exists|k: int|
                    0 <= k < j + 1 && active_list@[k] == (x as usize, y as usize)
                    && old(self).step_changed(single_kernel, x, y) {
                    old(self).cell_type_map.spec_value(old(self).step_cell(single_kernel, x, y))
                } else {
                    old(self).cur_fields().field.at(x, y)
                }) by {
                    if x == xx && y == yy {
                        assert(active_list@[j as int] == (x as usize, y as usize));
                    } else {
                        if exists|k: int|
                            0 <= k < j + 1 && active_list@[k] == (x as usize, y as usize)
                            && old(self).step_changed(single_kernel, x, y) {
                            let k = choose|k: int|
                                0 <= k < j + 1 && active_list@[k] == (x as usize, y as usize)
                                    && old(self).step_changed(single_kernel, x, y);
                            assert(k < j);
                            assert(exists|k2: int|
                                0 <= k2 < j && active_list@[k2] == (x as usize, y as usize)
                                    && old(self).step_changed(single_kernel, x, y));
                        }
                    }
                }
                assert forall|x: int, y: int|
                    (exists|k: int|
                        0 <= k < j + 1 && active_list@[k] == (x as usize, y as usize)
                        && old(self).step_changed(single_kernel, x, y))
                    implies #[trigger] self.quad_tree.covered(x, y) by {
                    let k = choose|k: int|
                        0 <= k < j + 1 && active_list@[k] == (x as usize, y as usize)
                            && old(self).step_changed(single_kernel, x, y);
                    if k < j {
                        assert(exists|k2: int|
                            0 <= k2 < j && active_list@[k2] == (x as usize, y as usize)
                                && old(self).step_changed(single_kernel, x, y));
                        assert(iter_pre.quad_tree.covered(x, y));
                    } else {
                        assert(x == xx && y == yy);
                        assert(old(self).step_changed(single_kernel, xx as int, yy as int));
                    }
                }
            }
            j = j + 1;
        }
        proof {
            assert forall|x: int, y: int|
                old(self).in_grid(x, y) implies ((exists|k: int|
                0 <= k < m && active_list@[k] == (x as usize, y as usize)) == old(self).active(
                x,
                y,
            )) by {
                if indices.has(x, y) {
                    let k = choose|k: int|
                        0 <= k < active_list@.len() && active_list@[k].0 == x && active_list@[k].1
                            == y;
                    assert(active_list@[k] == (x as usize, y as usize));
                }
                if exists|k: int| 0 <= k < m && active_list@[k] == (x as usize, y as usize) {
                    let k = choose|k: int|
                        0 <= k < m && active_list@[k] == (x as usize, y as usize);
                    assert(indices.has(active_list@[k].0 as int, active_list@[k].1 as int));
                }
            }
            assert forall|x: int, y: int|
                old(self).step_changed(single_kernel, x, y) implies #[trigger] self.quad_tree.covered(
                x,
                y,
            ) by {
                assert(old(self).active(x, y));
                assert(old(self).in_grid(x, y));
            }
        }
    }

    /// Overwrite one cell with `cell` and its matching field value, and
    /// record the edit in the tracker.
    pub fn set_at_index(&mut self, ixx: usize, ixy: usize, cell: &CellType)
        requires
            old(self).wf(),
            old(self).in_grid(ixx as int, ixy as int),
        ensures
            final(self).wf(),
            final(self).conv_kernels == old(self).conv_kernels,
            final(self).cell_type_map == old(self).cell_type_map,
            final(self).rules == old(self).rules,
            final(self).vec_ix == old(self).vec_ix,
            final(self).acc_vec == old(self).acc_vec,
            final(self).gw() == old(self).gw(),
            final(self).gh() == old(self).gh(),
            final(self).kw() == old(self).kw(),
            final(self).cur_cells().at(ixx as int, ixy as int) == *cell,
            final(self).cur_fields().field.at(ixx as int, ixy as int) == old(self).cell_type_map.spec_value(*cell),
            forall|x: int, y: int|
                old(self).in_grid(x, y) && (x != ixx || y != ixy) ==> #[trigger] final(self).cur_cells().at(x, y) == old(self).cur_cells().at(x, y) && final(self).cur_fields().field.at(x, y) == old(self).cur_fields().field.at(x, y),
            final(self).quad_tree.covered(ixx as int, ixy as int),
            forall|x: int, y: int|
                old(self).quad_tree.covered(x, y) ==> #[trigger] final(self).quad_tree.covered(
                    x,
                    y,
                ),
    {
        let ix = self.vec_ix;
        let entry = self.cell_type_map.index(*cell);
        let fm = &mut self.fields_vec[ix];
        fm.set_at_index((ixx, ixy), entry.value);
        let cm = &mut self.cell_type_vec[ix];
        cm.set_at_index((ixx, ixy), *cell);
        let ghost tpre = self.quad_tree;
        self.quad_tree.insert(ixx, ixy, 0, 0);
        proof {
            crate::quad_tree::lemma_insert_covered(
                tpre,
                self.quad_tree,
                0,
                0,
                ixx as int,
                ixy as int,
            );
            assert(tpre.node(0, 0).contains(ixx as int, ixy as int));
            assert(self.quad_tree.covered(ixx as int, ixy as int));
            assert forall|x: int, y: int| tpre.covered(x, y)
                implies #[trigger] self.quad_tree.covered(x, y) by {}
        }
    }

    /// Overwrite one cell with the currently selected cell type and its
    /// field value, and record the edit in the tracker.
    pub fn set_selected_at_index(&mut self, ixx: usize, ixy: usize)
        requires
            old(self).wf(),
            old(self).in_grid(ixx as int, ixy as int),
        ensures
            final(self).wf(),
            final(self).conv_kernels == old(self).conv_kernels,
            final(self).cell_type_map == old(self).cell_type_map,
            final(self).rules == old(self).rules,
            final(self).vec_ix == old(self).vec_ix,
            final(self).acc_vec == old(self).acc_vec,
            final(self).gw() == old(self).gw(),
            final(self).gh() == old(self).gh(),
            final(self).kw() == old(self).kw(),
            final(self).cur_cells().at(ixx as int, ixy as int) == CellType::of_idx(
                old(self).cell_type_map.selected_idx as int,
            ),
            final(self).cur_fields().field.at(ixx as int, ixy as int) == old(
                self,
            ).cell_type_map.spec_value(
                CellType::of_idx(old(self).cell_type_map.selected_idx as int),
            ),
            forall|x: int, y: int|
                old(self).in_grid(x, y) && (x != ixx || y != ixy)
                    ==> #[trigger] final(self).cur_cells().at(x, y) == old(self).cur_cells().at(
                    x,
                    y,
                ) && final(self).cur_fields().field.at(x, y) == old(self).cur_fields().field.at(
                    x,
                    y,
                ),
            final(self).quad_tree.covered(ixx as int, ixy as int),
            forall|x: int, y: int|
                old(self).quad_tree.covered(x, y) ==> #[trigger] final(self).quad_tree.covered(
                    x,
                    y,
                ),
    {
        let cell = self.cell_type_map.get_selected_rules_cell();
        proof {
            crate::cell_type::lemma_cell_index_round_trip(cell);
        }
        self.set_at_index(ixx, ixy, &cell);
    }

    /// Overwrite every cell of the selected resolution with `value` and
    /// its field value, and mark everything changed.
    pub fn clear(&mut self, value: CellType)
        requires
            old(self).wf(),
        ensures
            final(self).wf(),
            final(self).gw() == old(self).gw(),
            final(self).gh() == old(self).gh(),
            final(self).kw() == old(self).kw(),
            final(self).cell_type_map == old(self).cell_type_map,
            final(self).rules == old(self).rules,
            final(self).conv_kernels == old(self).conv_kernels,
            final(self).vec_ix == old(self).vec_ix,
            forall|x: int, y: int|
                final(self).in_grid(x, y) ==> #[trigger] final(self).cur_cells().at(x, y) == value,
            forall|x: int, y: int|
                final(self).in_grid(x, y) ==> #[trigger] final(self).cur_fields().field.at(x, y)
                    == old(self).cell_type_map.spec_value(value),
            forall|x: int, y: int|
                #![trigger final(self).quad_tree.covered(x, y)]
                final(self).quad_tree.covered(x, y) <==> old(self).in_grid(x, y),
    {
        let ix = self.vec_ix;
        let entry = self.cell_type_map.index(value);
        let cm = &mut self.cell_type_vec[ix];
        cm.clear(value);
        let fm = &mut self.fields_vec[ix];
        fm.clear(entry.value);
        self.quad_tree.everything_changed();
    }

    /// Replace every cell of the selected resolution with a uniform
    /// pseudo-random type drawn from `lo..=hi`, refresh the field values,
    /// and mark everything changed.
    #[verifier::loop_isolation(false)]
    pub fn randomize(&mut self, lo: &CellType, hi: &CellType)
        requires
            old(self).wf(),
            lo.idx() <= hi.idx(),
        ensures
            final(self).wf(),
            final(self).gw() == old(self).gw(),
            final(self).gh() == old(self).gh(),
            final(self).kw() == old(self).kw(),
            final(self).cell_type_map == old(self).cell_type_map,
            final(self).rules == old(self).rules,
            final(self).conv_kernels == old(self).conv_kernels,
            final(self).vec_ix == old(self).vec_ix,
            forall|x: int, y: int|
                final(self).in_grid(x, y) ==> lo.idx() <= (#[trigger] final(self).cur_cells().at(
                    x,
                    y,
                )).idx() <= hi.idx(),
            forall|x: int, y: int|
                final(self).in_grid(x, y) ==> #[trigger] final(self).cur_fields().field.at(x, y)
                    == old(self).cell_type_map.spec_value(final(self).cur_cells().at(x, y)),
            final(self).fields_vec@.len() == old(self).fields_vec@.len(),
            final(self).acc_vec == old(self).acc_vec,
            forall|i: int|
                0 <= i < old(self).fields_vec@.len() && i != old(self).vec_ix
                    ==> #[trigger] final(self).fields_vec@[i] == old(self).fields_vec@[i]
                    && final(self).cell_type_vec@[i] == old(self).cell_type_vec@[i],
            forall|x: int, y: int|
                #![trigger final(self).quad_tree.covered(x, y)]
                final(self).quad_tree.covered(x, y) <==> old(self).in_grid(x, y),
    {
        let ix = self.vec_ix;
        let w = self.fields_vec[ix].width();
        let h = self.fields_vec[ix].height();
        let cells = VecMatrix::<CellType>::new_random_range(w, h, lo, hi);
        let cm = &mut self.cell_type_vec[ix];
        *cm = cells;
        self.quad_tree.everything_changed();
        let mut y: usize = 0;
        while y < h
            invariant
                y <= h,
                self.wf(),
                self.gw() == old(self).gw(),
                self.gh() == old(self).gh(),
                self.kw() == old(self).kw(),
                self.cell_type_map == old(self).cell_type_map,
                self.rules == old(self).rules,
                self.conv_kernels == old(self).conv_kernels,
                self.vec_ix == old(self).vec_ix,
                self.cell_type_vec@ == old(self).cell_type_vec@.update(ix as int, cells),
                self.acc_vec == old(self).acc_vec,
                self.fields_vec@.len() == old(self).fields_vec@.len(),
                forall|i: int|
                    0 <= i < old(self).fields_vec@.len() && i != ix
                        ==> #[trigger] self.fields_vec@[i] == old(self).fields_vec@[i],
                forall|a: int, b: int|
                    0 <= a < w && 0 <= b < y ==> #[trigger] self.cur_fields().field.at(a, b)
                        == old(self).cell_type_map.spec_value(self.cur_cells().at(a, b)),
                forall|x2: int, y2: int|
                    #![trigger self.quad_tree.covered(x2, y2)]
                    self.quad_tree.covered(x2, y2) <==> old(self).in_grid(x2, y2),
            decreases h - y,
        {
            let mut x: usize = 0;
            while x < w
                invariant
                    x <= w,
                    y < h,
                    self.wf(),
                    self.gw() == old(self).gw(),
                    self.gh() == old(self).gh(),
                    self.kw() == old(self).kw(),
                    self.cell_type_map == old(self).cell_type_map,
                    self.rules == old(self).rules,
                    self.conv_kernels == old(self).conv_kernels,
                    self.vec_ix == old(self).vec_ix,
                    self.cell_type_vec@ == old(self).cell_type_vec@.update(ix as int, cells),
                    self.acc_vec == old(self).acc_vec,
                    self.fields_vec@.len() == old(self).fields_vec@.len(),
                    forall|i: int|
                        0 <= i < old(self).fields_vec@.len() && i != ix
                            ==> #[trigger] self.fields_vec@[i] == old(self).fields_vec@[i],
                    forall|a: int, b: int|
                        0 <= a < w && 0 <= b < y ==> #[trigger] self.cur_fields().field.at(a, b)
                            == old(self).cell_type_map.spec_value(self.cur_cells().at(a, b)),
                    forall|a: int|
                        0 <= a < x ==> #[trigger] self.cur_fields().field.at(a, y as int) == old(self).cell_type_map.spec_value(self.cur_cells().at(a, y as int)),
                    forall|x2: int, y2: int|
                        #![trigger self.quad_tree.covered(x2, y2)]
                        self.quad_tree.covered(x2, y2) <==> old(self).in_grid(x2, y2),
                decreases w - x,
            {
                let c = self.cell_type_vec[ix].index((x, y));
                let entry = self.cell_type_map.index(c);
                let fm = &mut self.fields_vec[ix];
                fm.set_at_index((x, y), entry.value);
                x = x + 1;
            }
            y = y + 1;
        }
    }

    /// Apply the ring fill to all nine kernels, and mark everything
    /// changed, since the new weights affect every cell.
    #[verifier::loop_isolation(false)]
    pub fn donut_all_kernels(&mut self, lo: usize, hi: usize, val: FieldType)
        requires
            old(self).wf(),
            -FIELD_ABS_BOUND <= val <= FIELD_ABS_BOUND,
        ensures
            final(self).wf(),
            final(self).gw() == old(self).gw(),
            final(self).gh() == old(self).gh(),
            final(self).kw() == old(self).kw(),
            final(self).cell_type_map == old(self).cell_type_map,
            final(self).rules == old(self).rules,
            final(self).fields_vec == old(self).fields_vec,
            final(self).cell_type_vec == old(self).cell_type_vec,
            final(self).acc_vec == old(self).acc_vec,
            final(self).vec_ix == old(self).vec_ix,
            forall|k: int, x: int, y: int|
                #![trigger final(self).conv_kernels@[k].at(x, y)]
                0 <= k < NUM_CELL_TYPES && old(self).conv_kernels@[k].in_bounds(x, y)
                    ==> final(self).conv_kernels@[k].at(x, y) == (
                if crate::matrix::donut_sets(old(self).kw(), lo as int, hi as int, x, y) {
                    val
                } else {
                    old(self).conv_kernels@[k].at(x, y)
                }),
            forall|x: int, y: int|
                #![trigger final(self).quad_tree.covered(x, y)]
                final(self).quad_tree.covered(x, y) <==> old(self).in_grid(x, y),
    {
        let n = self.conv_kernels.len();
        let mut k: usize = 0;
        while k < n
            invariant
                k <= n,
                n == NUM_CELL_TYPES,
                self.wf(),
                self.gw() == old(self).gw(),
                self.gh() == old(self).gh(),
                self.kw() == old(self).kw(),
                self.cell_type_map == old(self).cell_type_map,
                self.rules == old(self).rules,
                self.fields_vec == old(self).fields_vec,
                self.cell_type_vec == old(self).cell_type_vec,
                self.acc_vec == old(self).acc_vec,
                self.vec_ix == old(self).vec_ix,
                self.quad_tree == old(self).quad_tree,
                self.conv_kernels@.len() == n,
                forall|i: int, x: int, y: int|
                    #![trigger self.conv_kernels@[i].at(x, y)]
                    0 <= i < k && old(self).conv_kernels@[i].in_bounds(x, y)
                        ==> self.conv_kernels@[i].at(x, y) == (
                    if crate::matrix::donut_sets(old(self).kw(), lo as int, hi as int, x, y) {
                        val
                    } else {
                        old(self).conv_kernels@[i].at(x, y)
                    }),
                forall|i: int|
                    k <= i < n ==> #[trigger] self.conv_kernels@[i] == old(self).conv_kernels@[i],
            decreases n - k,
        {
            let km = &mut self.conv_kernels[k];
            km.donut(lo, hi, val);
            k = k + 1;
        }
        self.quad_tree.everything_changed();
    }

    /// Write `val` at `ix` of kernel `kernel_ix` and at every image of it
    /// under `sym`, and mark everything changed.
    pub fn set_kernel_sym(
        &mut self,
        kernel_ix: usize,
        sym: Symmetry,
        ix: (usize, usize),
        val: FieldType,
    )
        requires
            old(self).wf(),
            kernel_ix < NUM_CELL_TYPES,
            -FIELD_ABS_BOUND <= val <= FIELD_ABS_BOUND,
            sym != Symmetry::DONUT ==> 0 <= ix.0 < old(self).kw() && 0 <= ix.1 < old(self).kw(),
        ensures
            final(self).wf(),
            final(self).gw() == old(self).gw(),
            final(self).gh() == old(self).gh(),
            final(self).kw() == old(self).kw(),
            final(self).cell_type_map == old(self).cell_type_map,
            final(self).rules == old(self).rules,
            final(self).fields_vec == old(self).fields_vec,
            final(self).cell_type_vec == old(self).cell_type_vec,
            final(self).acc_vec == old(self).acc_vec,
            final(self).vec_ix == old(self).vec_ix,
            forall|x: int, y: int|
                old(self).conv_kernels@[kernel_ix as int].in_bounds(x, y) ==> #[trigger] final(self).conv_kernels@[kernel_ix as int].at(x, y) == (
                if crate::matrix::sym_sets(
                    sym,
                    old(self).kw(),
                    old(self).kw(),
                    ix.0 as int,
                    ix.1 as int,
                    x,
                    y,
                ) {
                    val
                } else {
                    old(self).conv_kernels@[kernel_ix as int].at(x, y)
                }),
            forall|k: int|
                0 <= k < NUM_CELL_TYPES && k != kernel_ix ==> #[trigger] final(self).conv_kernels@[k] == old(self).conv_kernels@[k],
            forall|x: int, y: int|
                #![trigger final(self).quad_tree.covered(x, y)]
                final(self).quad_tree.covered(x, y) <==> old(self).in_grid(x, y),
    {
        let km = &mut self.conv_kernels[kernel_ix];
        km.set_at_index_sym(sym, ix, val);
        self.quad_tree.everything_changed();
    }

    /// Copy kernel `from` over kernel `to`, and mark everything changed.
    pub fn copy_kernel(&mut self, from: usize, to: usize)
        requires
            old(self).wf(),
            from < NUM_CELL_TYPES,
            to < NUM_CELL_TYPES,
        ensures
            final(self).wf(),
            final(self).kw() == old(self).kw(),
            final(self).gw() == old(self).gw(),
            final(self).gh() == old(self).gh(),
            final(self).cell_type_map == old(self).cell_type_map,
            final(self).rules == old(self).rules,
            final(self).fields_vec == old(self).fields_vec,
            final(self).cell_type_vec == old(self).cell_type_vec,
            final(self).acc_vec == old(self).acc_vec,
            final(self).vec_ix == old(self).vec_ix,
            forall|x: int, y: int|
                old(self).conv_kernels@[from as int].in_bounds(x, y) ==> #[trigger] final(self).conv_kernels@[to as int].at(x, y) == old(self).conv_kernels@[from as int].at(
                    x,
                    y,
                ),
            forall|k: int|
                0 <= k < NUM_CELL_TYPES && k != to ==> #[trigger] final(self).conv_kernels@[k]
                    == old(self).conv_kernels@[k],
            forall|x: int, y: int|
                #![trigger final(self).quad_tree.covered(x, y)]
                final(self).quad_tree.covered(x, y) <==> old(self).in_grid(x, y),
    {
        let kernel = self.conv_kernels[from].duplicate();
        self.conv_kernels.set(to, kernel);
        self.quad_tree.everything_changed();
    }

    /// Copy kernel `from` over every kernel, and mark everything changed.
    #[verifier::loop_isolation(false)]
    pub fn copy_kernel_to_all(&mut self, from: usize)
        requires
            old(self).wf(),
            from < NUM_CELL_TYPES,
        ensures
            final(self).wf(),
            final(self).kw() == old(self).kw(),
            final(self).gw() == old(self).gw(),
            final(self).gh() == old(self).gh(),
            final(self).cell_type_map == old(self).cell_type_map,
            final(self).rules == old(self).rules,
            final(self).fields_vec == old(self).fields_vec,
            final(self).cell_type_vec == old(self).cell_type_vec,
            final(self).acc_vec == old(self).acc_vec,
            final(self).vec_ix == old(self).vec_ix,
            forall|k: int, x: int, y: int|
                #![trigger final(self).conv_kernels@[k].at(x, y)]
                0 <= k < NUM_CELL_TYPES && old(self).conv_kernels@[from as int].in_bounds(x, y)
                    ==> final(self).conv_kernels@[k].at(x, y) == old(self).conv_kernels@[
                    from as int].at(x, y),
            forall|x: int, y: int|
                #![trigger final(self).quad_tree.covered(x, y)]
                final(self).quad_tree.covered(x, y) <==> old(self).in_grid(x, y),
    {
        let n = self.conv_kernels.len();
        let mut k: usize = 0;
        while k < n
            invariant
                k <= n,
                n == NUM_CELL_TYPES,
                self.wf(),
                self.kw() == old(self).kw(),
                self.gw() == old(self).gw(),
                self.gh() == old(self).gh(),
                self.cell_type_map == old(self).cell_type_map,
                self.rules == old(self).rules,
                self.fields_vec == old(self).fields_vec,
                self.cell_type_vec == old(self).cell_type_vec,
                self.acc_vec == old(self).acc_vec,
                self.vec_ix == old(self).vec_ix,
                self.quad_tree == old(self).quad_tree,
                self.conv_kernels@.len() == n,
                forall|i: int, x: int, y: int|
                    #![trigger self.conv_kernels@[i].at(x, y)]
                    0 <= i < k && old(self).conv_kernels@[from as int].in_bounds(x, y)
                        ==> self.conv_kernels@[i].at(x, y) == old(self).conv_kernels@[
                        from as int].at(x, y),
                forall|i: int|
                    0 <= i < k ==> (#[trigger] self.conv_kernels@[i]).spec_width() == old(self).kw() && self.conv_kernels@[i].spec_height() == old(self).kw()
                        && self.conv_kernels@[i].wf() && self.conv_kernels@[i].bounded(
                        FIELD_ABS_BOUND as int,
                    ),
                forall|i: int|
                    k <= i < n ==> #[trigger] self.conv_kernels@[i] == old(self).conv_kernels@[i],
            decreases n - k,
        {
            let kernel = self.conv_kernels[from].duplicate();
            self.conv_kernels.set(k, kernel);
            k = k + 1;
        }
        self.quad_tree.everything_changed();
    }

    /// Record one cell as changed; only its leaf rectangle becomes newly
    /// covered.
    fn track_cell(&mut self, ixx: usize, ixy: usize)
        requires
            old(self).wf(),
            old(self).in_grid(ixx as int, ixy as int),
        ensures
            final(self).wf(),
            final(self).conv_kernels == old(self).conv_kernels,
            final(self).cell_type_map == old(self).cell_type_map,
            final(self).rules == old(self).rules,
            final(self).fields_vec == old(self).fields_vec,
            final(self).cell_type_vec == old(self).cell_type_vec,
            final(self).acc_vec == old(self).acc_vec,
            final(self).vec_ix == old(self).vec_ix,
            final(self).quad_tree.levels() == old(self).quad_tree.levels(),
            forall|l2: int, ix2: int|
                old(self).quad_tree.valid_node(l2, ix2) ==> (#[trigger] final(self).quad_tree.node(
                    l2,
                    ix2,
                )).same_range(old(self).quad_tree.node(l2, ix2)),
            final(self).quad_tree.covered(ixx as int, ixy as int),
            forall|x: int, y: int|
                old(self).quad_tree.covered(x, y) ==> #[trigger] final(self).quad_tree.covered(
                    x,
                    y,
                ),
            forall|qx: int, qy: int|
                #[trigger] final(self).quad_tree.covered(qx, qy) ==> old(self).quad_tree.covered(
                    qx,
                    qy,
                ) || crate::quad_tree::shares_leaf(
                    old(self).quad_tree,
                    ixx as int,
                    ixy as int,
                    qx,
                    qy,
                ),
    {
        let ghost tpre = self.quad_tree;
        self.quad_tree.insert(ixx, ixy, 0, 0);
        proof {
            crate::quad_tree::lemma_insert_covered(
                tpre,
                self.quad_tree,
                0,
                0,
                ixx as int,
                ixy as int,
            );
            assert(tpre.node(0, 0).contains(ixx as int, ixy as int));
            assert(self.quad_tree.covered(ixx as int, ixy as int));
            assert forall|x: int, y: int| tpre.covered(x, y)
                implies #[trigger] self.quad_tree.covered(x, y) by {}
            assert forall|qx: int, qy: int|
                #[trigger] self.quad_tree.covered(qx, qy) implies tpre.covered(qx, qy)
                || crate::quad_tree::shares_leaf(tpre, ixx as int, ixy as int, qx, qy) by {
                if !tpre.covered(qx, qy) {
                    assert(crate::quad_tree::shares_leaf(tpre, ixx as int, ixy as int, qx, qy));
                }
            }
        }
    }

    /// Record every cell currently holding `cell_type` as changed, so that
    /// a new field value for that type takes effect around them.  Nothing
    /// else becomes covered, up to the tracker's leaf granularity.
    #[verifier::loop_isolation(false)]
    pub fn value_changed_for(&mut self, cell_type: CellType)
        requires
            old(self).wf(),
        ensures
            final(self).wf(),
            final(self).conv_kernels == old(self).conv_kernels,
            final(self).cell_type_map == old(self).cell_type_map,
            final(self).rules == old(self).rules,
            final(self).fields_vec == old(self).fields_vec,
            final(self).cell_type_vec == old(self).cell_type_vec,
            final(self).acc_vec == old(self).acc_vec,
            final(self).vec_ix == old(self).vec_ix,
            forall|x: int, y: int|
                old(self).in_grid(x, y) && old(self).cur_cells().at(x, y) == cell_type
                    ==> #[trigger] final(self).quad_tree.covered(x, y),
            forall|x: int, y: int|
                old(self).quad_tree.covered(x, y) ==> #[trigger] final(self).quad_tree.covered(
                    x,
                    y,
                ),
            forall|qx: int, qy: int|
                #[trigger] final(self).quad_tree.covered(qx, qy) ==> old(self).quad_tree.covered(
                    qx,
                    qy,
                ) || exists|px: int, py: int|
                    old(self).in_grid(px, py) && old(self).cur_cells().at(px, py) == cell_type
                        && crate::quad_tree::shares_leaf(old(self).quad_tree, px, py, qx, qy),
    {
        let ix = self.vec_ix;
        let w = self.fields_vec[ix].width();
        let h = self.fields_vec[ix].height();
        let mut ixy: usize = 0;
        while ixy < h
            invariant
                ixy <= h,
                self.wf(),
                self.conv_kernels == old(self).conv_kernels,
                self.cell_type_map == old(self).cell_type_map,
                self.rules == old(self).rules,
                self.fields_vec == old(self).fields_vec,
                self.cell_type_vec == old(self).cell_type_vec,
                self.acc_vec == old(self).acc_vec,
                self.vec_ix == old(self).vec_ix,
                forall|x: int, y: int|
                    old(self).in_grid(x, y) && 0 <= y < ixy && old(self).cur_cells().at(x, y)
                        == cell_type ==> #[trigger] self.quad_tree.covered(x, y),
                forall|x: int, y: int|
                    old(self).quad_tree.covered(x, y) ==> #[trigger] self.quad_tree.covered(x, y),
                self.quad_tree.levels() == old(self).quad_tree.levels(),
                forall|l2: int, ix2: int|
                    old(self).quad_tree.valid_node(l2, ix2) ==> (#[trigger] self.quad_tree.node(
                        l2,
                        ix2,
                    )).same_range(old(self).quad_tree.node(l2, ix2)),
                forall|qx: int, qy: int|
                    #[trigger] self.quad_tree.covered(qx, qy) ==> old(self).quad_tree.covered(
                        qx,
                        qy,
                    ) || exists|px: int, py: int|
                        old(self).in_grid(px, py) && old(self).cur_cells().at(px, py) == cell_type
                            && crate::quad_tree::shares_leaf(old(self).quad_tree, px, py, qx, qy),
            decreases h - ixy,
        {
            let mut ixx: usize = 0;
            while ixx < w
                invariant
                    ixx <= w,
                    ixy < h,
                    self.wf(),
                    self.conv_kernels == old(self).conv_kernels,
                    self.cell_type_map == old(self).cell_type_map,
                    self.rules == old(self).rules,
                    self.fields_vec == old(self).fields_vec,
                    self.cell_type_vec == old(self).cell_type_vec,
                    self.acc_vec == old(self).acc_vec,
                    self.vec_ix == old(self).vec_ix,
                    forall|x: int, y: int|
                        old(self).in_grid(x, y) && 0 <= y < ixy && old(self).cur_cells().at(x, y)
                            == cell_type ==> #[trigger] self.quad_tree.covered(x, y),
                    forall|x: int|
                        0 <= x < ixx && old(self).cur_cells().at(x, ixy as int) == cell_type
                            ==> #[trigger] self.quad_tree.covered(x, ixy as int),
                    forall|x: int, y: int|
                        old(self).quad_tree.covered(x, y) ==> #[trigger] self.quad_tree.covered(
                            x,
                            y,
                        ),
                    self.quad_tree.levels() == old(self).quad_tree.levels(),
                    forall|l2: int, ix2: int|
                        old(self).quad_tree.valid_node(l2, ix2) ==> (
                        #[trigger] self.quad_tree.node(l2, ix2)).same_range(
                            old(self).quad_tree.node(l2, ix2),
                        ),
                    forall|qx: int, qy: int|
                        #[trigger] self.quad_tree.covered(qx, qy) ==> old(
                            self,
                        ).quad_tree.covered(qx, qy) || exists|px: int, py: int|
                            old(self).in_grid(px, py) && old(self).cur_cells().at(px, py)
                                == cell_type && crate::quad_tree::shares_leaf(
                                old(self).quad_tree,
                                px,
                                py,
                                qx,
                                qy,
                            ),
                decreases w - ixx,
            {
                let c = self.cell_type_vec[ix].index((ixx, ixy));
                if c == cell_type {
                    let ghost pre = *self;
                    self.track_cell(ixx, ixy);
                    proof {
                        assert(old(self).in_grid(ixx as int, ixy as int));
                        assert(old(self).cur_cells().at(ixx as int, ixy as int) == cell_type);
                        assert forall|qx: int, qy: int|
                            #[trigger] self.quad_tree.covered(qx, qy) implies old(
                            self,
                        ).quad_tree.covered(qx, qy) || exists|px: int, py: int|
                            old(self).in_grid(px, py) && old(self).cur_cells().at(px, py)
                                == cell_type && crate::quad_tree::shares_leaf(
                                old(self).quad_tree,
                                px,
                                py,
                                qx,
                                qy,
                            ) by {
                            if !pre.quad_tree.covered(qx, qy) {
                                crate::quad_tree::lemma_shares_leaf_transfer(
                                    pre.quad_tree,
                                    old(self).quad_tree,
                                    ixx as int,
                                    ixy as int,
                                    qx,
                                    qy,
                                );
                            }
                        }
                    }
                }
                ixx = ixx + 1;
            }
            ixy = ixy + 1;
        }
    }

    /// Append a rule to the table, and mark everything changed, since the
    /// rule semantics changed for every cell.
    pub fn add_rule(&mut self, rule: Rule)
        requires
            old(self).wf(),
        ensures
            final(self).wf(),
            final(self).rules.rules@ == old(self).rules.rules@.push(rule),
            forall|x: int, y: int|
                #![trigger final(self).quad_tree.covered(x, y)]
                final(self).quad_tree.covered(x, y) <==> old(self).in_grid(x, y),
    {
        self.rules.rules.push(rule);
        self.quad_tree.everything_changed();
    }

    /// Remove the rule at `index`, and mark everything changed.
    pub fn delete_rule(&mut self, index: usize)
        requires
            old(self).wf(),
            index < old(self).rules.rules@.len(),
        ensures
            final(self).wf(),
            final(self).rules.rules@ == old(self).rules.rules@.remove(index as int),
            forall|x: int, y: int|
                #![trigger final(self).quad_tree.covered(x, y)]
                final(self).quad_tree.covered(x, y) <==> old(self).in_grid(x, y),
    {
        self.rules.rules.remove(index);
        self.quad_tree.everything_changed();
    }

    /// Replace the whole rule table, and mark everything changed.
    pub fn set_rules(&mut self, rules: RuleSet)
        requires
            old(self).wf(),
        ensures
            final(self).wf(),
            final(self).rules == rules,
            forall|x: int, y: int|
                #![trigger final(self).quad_tree.covered(x, y)]
                final(self).quad_tree.covered(x, y) <==> old(self).in_grid(x, y),
    {
        self.rules = rules;
        self.quad_tree.everything_changed();
    }

    /// Determinism of the step: the outcome for every cell is a function
    /// of the observable state alone.  Two states that agree on the
    /// selected grids, the kernels, the rules, the field-value table and
    /// the tracker's recorded changes produce exactly the same accumulator
    /// values, cell types and field values, with no hidden randomness.
    pub proof fn lemma_step_deterministic(a: RugolState, b: RugolState, single_kernel: bool)
        requires
            a.wf(),
            b.wf(),
            a.kw() == b.kw(),
            a.gw() == b.gw(),
            a.gh() == b.gh(),
            forall|x: int, y: int|
                a.in_grid(x, y) ==> #[trigger] a.cur_cells().at(x, y) == b.cur_cells().at(x, y),
            forall|x: int, y: int|
                a.in_grid(x, y) ==> #[trigger] a.cur_fields().field.at(x, y)
                    == b.cur_fields().field.at(x, y),
            forall|x: int, y: int|
                a.in_grid(x, y) ==> #[trigger] a.cur_acc().at(x, y) == b.cur_acc().at(x, y),
            forall|k: int, x: int, y: int|
                #![trigger a.conv_kernels@[k].at(x, y)]
                0 <= k < NUM_CELL_TYPES && 0 <= x < a.kw() && 0 <= y < a.kw()
                    ==> a.conv_kernels@[k].at(x, y) == b.conv_kernels@[k].at(x, y),
            a.rules.rules@ == b.rules.rules@,
            forall|c: CellType|
                #![trigger a.cell_type_map.spec_value(c)]
                a.cell_type_map.spec_value(c) == b.cell_type_map.spec_value(c),
            forall|x: int, y: int|
                #![trigger a.quad_tree.covered(x, y)]
                a.quad_tree.covered(x, y) <==> b.quad_tree.covered(x, y),
        ensures
            forall|x: int, y: int|
                a.in_grid(x, y) ==> #[trigger] a.step_acc(single_kernel, x, y) == b.step_acc(
                    single_kernel,
                    x,
                    y,
                ),
            forall|x: int, y: int|
                a.in_grid(x, y) ==> #[trigger] a.step_cell(single_kernel, x, y) == b.step_cell(
                    single_kernel,
                    x,
                    y,
                ),
            forall|x: int, y: int|
                a.in_grid(x, y) ==> #[trigger] a.step_field(single_kernel, x, y) == b.step_field(
                    single_kernel,
                    x,
                    y,
                ),
    {
        assert forall|x: int, y: int|
            a.in_grid(x, y) implies #[trigger] a.active(x, y) == b.active(x, y) by {
            if a.quad_tree.dilated_covered_from(0, 0, a.kw() / 2, x, y) {
                let (px, py) = choose|px: int, py: int|
                    #[trigger] a.quad_tree.covered_from(0, 0, px, py) && px - a.kw() / 2 <= x <= px
                        + a.kw() / 2 && py - a.kw() / 2 <= y <= py + a.kw() / 2;
                assert(a.quad_tree.covered(px, py));
                assert(b.quad_tree.covered_from(0, 0, px, py));
                assert(b.quad_tree.dilated_covered_from(0, 0, b.kw() / 2, x, y));
            }
            if b.quad_tree.dilated_covered_from(0, 0, b.kw() / 2, x, y) {
                let (px, py) = choose|px: int, py: int|
                    #[trigger] b.quad_tree.covered_from(0, 0, px, py) && px - b.kw() / 2 <= x <= px
                        + b.kw() / 2 && py - b.kw() / 2 <= y <= py + b.kw() / 2;
                assert(b.quad_tree.covered(px, py));
                assert(a.quad_tree.covered(px, py));
                assert(a.quad_tree.covered_from(0, 0, px, py));
                assert(a.quad_tree.dilated_covered_from(0, 0, a.kw() / 2, x, y));
            }
        }
        assert forall|x: int, y: int|
            a.in_grid(x, y) implies #[trigger] a.step_acc(single_kernel, x, y) == b.step_acc(
            single_kernel,
            x,
            y,
        ) by {
            if a.active(x, y) {
                let ghost kwi = a.kw();
                assert(kwi * kwi >= 0) by (nonlinear_arith)
                    requires
                        kwi >= 1,
                {
                }
                crate::convolution::lemma_conv_congruent(
                    a.cur_fields().field,
                    a.sel_kernel(single_kernel, x, y),
                    b.cur_fields().field,
                    b.sel_kernel(single_kernel, x, y),
                    a.kw(),
                    x,
                    y,
                    a.kw() * a.kw(),
                );
            }
        }
    }

    /// Mark the whole grid as changed.
    pub fn everything_changed(&mut self)
        requires
            old(self).wf(),
        ensures
            final(self).wf(),
            final(self).conv_kernels == old(self).conv_kernels,
            final(self).cell_type_map == old(self).cell_type_map,
            final(self).rules == old(self).rules,
            final(self).fields_vec == old(self).fields_vec,
            final(self).cell_type_vec == old(self).cell_type_vec,
            final(self).acc_vec == old(self).acc_vec,
            final(self).vec_ix == old(self).vec_ix,
            forall|x: int, y: int|
                #![trigger final(self).quad_tree.covered(x, y)]
                final(self).quad_tree.covered(x, y) <==> old(self).in_grid(x, y),
    {
        self.quad_tree.everything_changed();
    }
}

} // verus!
