//! Snapshots of the simulation state: which components a snapshot carries,
//! how one is taken, and how one is applied.  Producing wire bytes from a
//! snapshot is the persistence collaborator's job; applying a snapshot
//! reproduces the captured grids, rules and table exactly, so a
//! round-tripped state steps identically.

use vstd::prelude::*;

use crate::cell_type::{CellType, CellTypeMap, FieldType, MapEntry, NUM_CELL_TYPES};
use crate::convolution::Convolution;
use crate::matrix::VecMatrix;
use crate::rugol::RugolState;
use crate::rules::{Rule, RuleSet};

verus! {

/// A snapshot's kernel component: one shared kernel, or the full bank.
pub enum ConvMatrixE {
    Single(VecMatrix<FieldType>),
    Multiple(Vec<VecMatrix<FieldType>>),
}

/// A saved selection of simulation state; each component is present and
/// applied only when wanted.
pub struct SaveFile {
    pub convolution: Option<ConvMatrixE>,
    pub rules: Option<RuleSet>,
    pub cell_type_map: Option<CellTypeMap>,
    pub cells: Option<Vec<VecMatrix<CellType>>>,
    pub include_convolution: bool,
    pub include_rules: bool,
    pub include_cell_type_map: bool,
    pub include_cells: bool,
}

/// An element-wise copy of a vector of copyable elements.
#[verifier::loop_isolation(false)]
fn dup_vec<T: Copy>(v: &Vec<T>) -> (r: Vec<T>)
    ensures
        r@ == v@,
{
    let n = v.len();
    let mut r: Vec<T> = Vec::new();
    let mut i: usize = 0;
    while i < n
        invariant
            i <= n,
            r@.len() == i,
            forall|k: int| 0 <= k < i ==> r@[k] == v@[k],
        decreases n - i,
    {
        r.push(v[i]);
        i = i + 1;
    }
    proof {
        assert(r@ =~= v@);
    }
    r
}

/// An element-wise copy of a vector of matrices.
#[verifier::loop_isolation(false)]
fn dup_grids<T: Copy>(v: &Vec<VecMatrix<T>>) -> (r: Vec<VecMatrix<T>>)
    requires
        forall|i: int| 0 <= i < v@.len() ==> (#[trigger] v@[i]).wf(),
    ensures
        r@.len() == v@.len(),
        forall|i: int|
            0 <= i < v@.len() ==> (#[trigger] r@[i]).wf() && r@[i].spec_width()
                == v@[i].spec_width() && r@[i].spec_height() == v@[i].spec_height(),
        forall|i: int, x: int, y: int|
            #![trigger r@[i].at(x, y)]
            0 <= i < v@.len() && v@[i].in_bounds(x, y) ==> r@[i].at(x, y) == v@[i].at(x, y),
{
    let n = v.len();
    let mut r: Vec<VecMatrix<T>> = Vec::new();
    let mut i: usize = 0;
    while i < n
        invariant
            i <= n,
            r@.len() == i,
            forall|k: int|
                0 <= k < i ==> (#[trigger] r@[k]).wf() && r@[k].spec_width()
                    == v@[k].spec_width() && r@[k].spec_height() == v@[k].spec_height(),
            forall|k: int, x: int, y: int|
                #![trigger r@[k].at(x, y)]
                0 <= k < i && v@[k].in_bounds(x, y) ==> r@[k].at(x, y) == v@[k].at(x, y),
        decreases n - i,
    {
        r.push(v[i].duplicate());
        i = i + 1;
    }
    r
}

impl RugolState {
    /// Take a snapshot carrying the selected components: the kernel bank,
    /// the rules, the colour/value table, and the cell grids of every
    /// resolution, each copied value for value.
    pub fn make_snapshot(
        &self,
        include_convolution: bool,
        include_rules: bool,
        include_cell_type_map: bool,
        include_cells: bool,
    ) -> (r: SaveFile)
        requires
            self.wf(),
        ensures
            r.include_convolution == include_convolution,
            r.include_rules == include_rules,
            r.include_cell_type_map == include_cell_type_map,
            r.include_cells == include_cells,
            include_convolution ==> r.convolution is Some && (r.convolution.unwrap() matches
                ConvMatrixE::Multiple(ks) && ks@.len() == NUM_CELL_TYPES && (forall|k: int,
            x: int,
            y: int,
            |
                #![trigger ks@[k].at(x, y)]
                0 <= k < NUM_CELL_TYPES && self.conv_kernels@[k].in_bounds(x, y) ==> ks@[k].at(
                    x,
                    y,
                ) == self.conv_kernels@[k].at(x, y)) && (forall|k: int|
                0 <= k < NUM_CELL_TYPES ==> (#[trigger] ks@[k]).wf() && ks@[k].spec_width()
                    == self.kw() && ks@[k].spec_height() == self.kw())),
            include_rules ==> r.rules is Some && r.rules.unwrap().rules@ == self.rules.rules@,
            include_cell_type_map ==> r.cell_type_map is Some && r.cell_type_map.unwrap().map@
                == self.cell_type_map.map@ && r.cell_type_map.unwrap().wf(),
            include_cells ==> r.cells is Some && {
                let cs = r.cells.unwrap();
                &&& cs@.len() == self.cell_type_vec@.len()
                &&& forall|i: int|
                    0 <= i < cs@.len() ==> (#[trigger] cs@[i]).wf() && cs@[i].spec_width()
                        == self.cell_type_vec@[i].spec_width() && cs@[i].spec_height()
                        == self.cell_type_vec@[i].spec_height()
                &&& forall|i: int, x: int, y: int|
                    #![trigger cs@[i].at(x, y)]
                    0 <= i < cs@.len() && self.cell_type_vec@[i].in_bounds(x, y) ==> cs@[i].at(
                        x,
                        y,
                    ) == self.cell_type_vec@[i].at(x, y)
            },
    {
        let convolution = if include_convolution {
            Some(ConvMatrixE::Multiple(dup_grids(&self.conv_kernels)))
        } else {
            None
        };
        let rules = if include_rules {
            let rs = dup_vec(&self.rules.rules);
            Some(RuleSet { rules: rs })
        } else {
            None
        };
        let cell_type_map = if include_cell_type_map {
            let entries = dup_vec(&self.cell_type_map.map);
            proof {
                assert(entries@ =~= self.cell_type_map.map@);
            }
            Some(
                CellTypeMap {
                    map: entries,
                    selected_idx: self.cell_type_map.selected_idx,
                    default: self.cell_type_map.default,
                },
            )
        } else {
            None
        };
        let cells = if include_cells {
            Some(dup_grids(&self.cell_type_vec))
        } else {
            None
        };
        SaveFile {
            convolution,
            rules,
            cell_type_map,
            cells,
            include_convolution,
            include_rules,
            include_cell_type_map,
            include_cells,
        }
    }
}

/// Whether every weight of `m` lies within the magnitude bound.
#[verifier::loop_isolation(false)]
fn grid_bounded(m: &VecMatrix<FieldType>) -> (r: bool)
    requires
        m.wf(),
    ensures
        r == m.bounded(crate::cell_type::FIELD_ABS_BOUND as int),
{
    let w = m.width;
    let h = m.height;
    let mut y: usize = 0;
    while y < h
        invariant
            y <= h,
            forall|a: int, b: int|
                0 <= a < w && 0 <= b < y ==> -crate::cell_type::FIELD_ABS_BOUND <= #[trigger] m.at(
                    a,
                    b,
                ) <= crate::cell_type::FIELD_ABS_BOUND,
        decreases h - y,
    {
        let mut x: usize = 0;
        while x < w
            invariant
                x <= w,
                y < h,
                forall|a: int, b: int|
                    0 <= a < w && 0 <= b < y ==> -crate::cell_type::FIELD_ABS_BOUND
                        <= #[trigger] m.at(a, b) <= crate::cell_type::FIELD_ABS_BOUND,
                forall|a: int|
                    0 <= a < x ==> -crate::cell_type::FIELD_ABS_BOUND <= #[trigger] m.at(
                        a,
                        y as int,
                    ) <= crate::cell_type::FIELD_ABS_BOUND,
            decreases w - x,
        {
            let v = m.index((x, y));
            if v < -crate::cell_type::FIELD_ABS_BOUND || v > crate::cell_type::FIELD_ABS_BOUND {
                return false;
            }
            x = x + 1;
        }
        y = y + 1;
    }
    true
}

impl RugolState {
    /// Whether a snapshot's included components fit this engine: kernels
    /// of the engine's kernel width with bounded weights (one kernel, or a
    /// full bank of nine), a full colour/value table with bounded values,
    /// and one cell grid per resolution with matching dimensions.  An
    /// included component that is absent is ignored.
    pub open spec fn snapshot_fits(self, sf: SaveFile) -> bool {
        &&& (sf.include_convolution ==> match sf.convolution {
            Option::Some(ConvMatrixE::Single(k)) => k.wf() && k.spec_width() == self.kw()
                && k.spec_height() == self.kw() && k.bounded(
                crate::cell_type::FIELD_ABS_BOUND as int,
            ),
            Option::Some(ConvMatrixE::Multiple(ks)) => ks@.len() == NUM_CELL_TYPES && forall|
                j: int,
            |
                0 <= j < ks@.len() ==> (#[trigger] ks@[j]).wf() && ks@[j].spec_width()
                    == self.kw() && ks@[j].spec_height() == self.kw() && ks@[j].bounded(
                    crate::cell_type::FIELD_ABS_BOUND as int,
                ),
            Option::None => true,
        })
        &&& (sf.include_cell_type_map ==> match sf.cell_type_map {
            Option::Some(m) => m.wf(),
            Option::None => true,
        })
        &&& (sf.include_cells ==> match sf.cells {
            Option::Some(cs) => cs@.len() == self.cell_type_vec@.len() && forall|j: int|
                0 <= j < cs@.len() ==> (#[trigger] cs@[j]).wf() && cs@[j].spec_width()
                    == self.cell_type_vec@[j].spec_width() && cs@[j].spec_height()
                    == self.cell_type_vec@[j].spec_height(),
            Option::None => true,
        })
    }

    /// Apply a snapshot: each included, present component replaces the
    /// corresponding state (one kernel overwrites the first slot only, a
    /// bank overwrites all nine), every component not replaced is
    /// retained, the field grids of every resolution are refreshed from
    /// the (possibly new) table and cells, and everything is marked
    /// changed.  A snapshot succeeds exactly when it fits; one whose
    /// grids do not match the engine's shapes, or whose weights or values
    /// exceed the magnitude bound, is rejected with the state untouched.
    #[verifier::loop_isolation(false)]
    #[verifier::rlimit(100)]
    pub fn load_save_file(&mut self, save_file: &SaveFile) -> (ok: bool)
        requires
            old(self).wf(),
        ensures
            final(self).wf(),
            ok == old(self).snapshot_fits(*save_file),
            !ok ==> *final(self) == *old(self),
            ok ==> final(self).gw() == old(self).gw() && final(self).gh() == old(self).gh()
                && final(self).kw() == old(self).kw() && final(self).vec_ix == old(self).vec_ix,
            ok ==> final(self).acc_vec == old(self).acc_vec,
            ok ==> final(self).cell_type_vec@.len() == old(self).cell_type_vec@.len() && (forall|
                i: int,
            |
                0 <= i < old(self).cell_type_vec@.len() ==> (
                #[trigger] final(self).cell_type_vec@[i]).spec_width()
                    == old(self).cell_type_vec@[i].spec_width()
                    && final(self).cell_type_vec@[i].spec_height()
                    == old(self).cell_type_vec@[i].spec_height()),
            ok && save_file.include_rules && save_file.rules is Some ==> final(self).rules.rules@
                == save_file.rules.unwrap().rules@,
            ok && !(save_file.include_rules && save_file.rules is Some) ==> final(self).rules.rules@ == old(self).rules.rules@,
            ok && save_file.include_convolution && save_file.convolution is Some ==> (match save_file.convolution.unwrap() {
                ConvMatrixE::Single(k) => (forall|x: int, y: int|
                    #![trigger final(self).conv_kernels@[0].at(x, y)]
                    k.in_bounds(x, y) ==> final(self).conv_kernels@[0].at(x, y) == k.at(x, y))
                    && (forall|j: int|
                    1 <= j < NUM_CELL_TYPES ==> #[trigger] final(self).conv_kernels@[j] == old(self).conv_kernels@[j]),
                ConvMatrixE::Multiple(ks) => forall|j: int, x: int, y: int|
                    #![trigger final(self).conv_kernels@[j].at(x, y)]
                    0 <= j < NUM_CELL_TYPES && ks@[j].in_bounds(x, y)
                        ==> final(self).conv_kernels@[j].at(x, y) == ks@[j].at(x, y),
            }),
            ok && !(save_file.include_convolution && save_file.convolution is Some) ==> final(self).conv_kernels == old(self).conv_kernels,
            ok && save_file.include_cell_type_map && save_file.cell_type_map is Some ==> final(self).cell_type_map.map@ == save_file.cell_type_map.unwrap().map@
                && final(self).cell_type_map.selected_idx
                == save_file.cell_type_map.unwrap().selected_idx,
            ok && !(save_file.include_cell_type_map && save_file.cell_type_map is Some) ==> final(self).cell_type_map == old(self).cell_type_map,
            ok && save_file.include_cells && save_file.cells is Some ==> (forall|
                i: int,
                x: int,
                y: int,
            |
                #![trigger final(self).cell_type_vec@[i].at(x, y)]
                0 <= i < final(self).cell_type_vec@.len()
                    && final(self).cell_type_vec@[i].in_bounds(x, y) ==> final(self).cell_type_vec@[i].at(x, y) == save_file.cells.unwrap()@[i].at(x, y)),
            ok && !(save_file.include_cells && save_file.cells is Some) ==> final(self).cell_type_vec == old(self).cell_type_vec,
            ok ==> forall|i: int, x: int, y: int|
                #![trigger final(self).fields_vec@[i].field.at(x, y)]
                0 <= i < final(self).fields_vec@.len()
                    && final(self).cell_type_vec@[i].in_bounds(x, y) ==> final(self).fields_vec@[i].field.at(x, y) == final(self).cell_type_map.spec_value(
                    final(self).cell_type_vec@[i].at(x, y),
                ),
            ok ==> forall|x: int, y: int|
                #![trigger final(self).quad_tree.covered(x, y)]
                final(self).quad_tree.covered(x, y) <==> old(self).in_grid(x, y),
    {
        // Validate every included component against the engine's shapes
        // and bounds before touching anything.
        let kw = self.fields_vec[0].kw;
        proof {
            assert(self.fields_vec@[0].wf());
            assert(1 <= kw <= 63);
            assert(kw * kw <= 3969) by (nonlinear_arith)
                requires
                    kw <= 63,
            {
            }
        }
        if save_file.include_convolution {
            match &save_file.convolution {
                Option::Some(ConvMatrixE::Single(k)) => {
                    if k.width != kw || k.height != kw || k.data.len() != kw * kw
                        || !grid_bounded(k) {
                        return false;
                    }
                },
                Option::Some(ConvMatrixE::Multiple(ks)) => {
                    let n = ks.len();
                    if n != 9 {
                        return false;
                    }
                    let mut i: usize = 0;
                    while i < n
                        invariant
                            i <= n,
                            forall|j: int|
                                0 <= j < i ==> (#[trigger] ks@[j]).wf() && ks@[j].spec_width()
                                    == kw && ks@[j].spec_height() == kw && ks@[j].bounded(
                                    crate::cell_type::FIELD_ABS_BOUND as int,
                                ),
                        decreases n - i,
                    {
                        let k = &ks[i];
                        if k.width != kw || k.height != kw || k.data.len() != kw * kw
                            || !grid_bounded(k) {
                            return false;
                        }
                        i = i + 1;
                    }
                },
                Option::None => {},
            }
        }
        if save_file.include_cell_type_map {
            match &save_file.cell_type_map {
                Option::Some(m) => {
                    if m.map.len() != 9 || m.selected_idx >= 9 {
                        return false;
                    }
                    let mut i: usize = 0;
                    while i < 9
                        invariant
                            i <= 9,
                            m.map@.len() == 9,
                            forall|j: int|
                                0 <= j < i ==> -crate::cell_type::FIELD_ABS_BOUND <= (
                                #[trigger] m.map@[j]).value <= crate::cell_type::FIELD_ABS_BOUND,
                        decreases 9 - i,
                    {
                        let e = m.map[i];
                        if e.value < -crate::cell_type::FIELD_ABS_BOUND || e.value
                            > crate::cell_type::FIELD_ABS_BOUND {
                            return false;
                        }
                        i = i + 1;
                    }
                },
                Option::None => {},
            }
        }
        if save_file.include_cells {
            match &save_file.cells {
                Option::Some(cs) => {
                    let n = cs.len();
                    if n != self.cell_type_vec.len() {
                        return false;
                    }
                    let mut i: usize = 0;
                    while i < n
                        invariant
                            i <= n,
                            n == self.cell_type_vec@.len(),
                            forall|j: int|
                                0 <= j < i ==> (#[trigger] cs@[j]).wf() && cs@[j].spec_width()
                                    == self.cell_type_vec@[j].spec_width() && cs@[j].spec_height()
                                    == self.cell_type_vec@[j].spec_height(),
                        decreases n - i,
                    {
                        let c = &cs[i];
                        let have = &self.cell_type_vec[i];
                        if c.width != have.width || c.height != have.height || c.data.len()
                            != c.width * c.height {
                            return false;
                        }
                        i = i + 1;
                    }
                },
                Option::None => {},
            }
        }
        proof {
            assert(old(self).snapshot_fits(*save_file));
        }
        // Apply the validated components.
        if save_file.include_convolution {
            match &save_file.convolution {
                Option::Some(ConvMatrixE::Single(k)) => {
                    let kernel = k.duplicate();
                    self.conv_kernels.set(0, kernel);
                },
                Option::Some(ConvMatrixE::Multiple(ks)) => {
                    let dup = dup_grids(ks);
                    self.conv_kernels = dup;
                },
                Option::None => {},
            }
        }
        if save_file.include_rules {
            match &save_file.rules {
                Option::Some(rs) => {
                    let rules = dup_vec(&rs.rules);
                    proof {
                        assert(rules@ =~= rs.rules@);
                    }
                    self.rules = RuleSet { rules };
                },
                Option::None => {},
            }
        }
        if save_file.include_cell_type_map {
            match &save_file.cell_type_map {
                Option::Some(m) => {
                    let entries = dup_vec(&m.map);
                    proof {
                        assert(entries@ =~= m.map@);
                    }
                    self.cell_type_map = CellTypeMap {
                        map: entries,
                        selected_idx: m.selected_idx,
                        default: m.default,
                    };
                },
                Option::None => {},
            }
        }
        if save_file.include_cells {
            match &save_file.cells {
                Option::Some(cs) => {
                    let dup = dup_grids(cs);
                    self.cell_type_vec = dup;
                },
                Option::None => {},
            }
        }
        let ghost sap = *self;
        // Refresh every resolution's field grid from the table and cells.
        let nres = self.fields_vec.len();
        let mut i: usize = 0;
        while i < nres
            invariant
                i <= nres,
                self.wf(),
                nres == self.fields_vec@.len(),
                self.gw() == old(self).gw(),
                self.gh() == old(self).gh(),
                self.kw() == old(self).kw(),
                self.vec_ix == old(self).vec_ix,
                self.quad_tree == old(self).quad_tree,
                self.conv_kernels == sap.conv_kernels,
                self.cell_type_map == sap.cell_type_map,
                self.cell_type_vec == sap.cell_type_vec,
                self.rules == sap.rules,
                self.acc_vec == sap.acc_vec,
                forall|j: int, x: int, y: int|
                    #![trigger self.fields_vec@[j].field.at(x, y)]
                    0 <= j < i && self.cell_type_vec@[j].in_bounds(x, y)
                        ==> self.fields_vec@[j].field.at(x, y) == self.cell_type_map.spec_value(
                        self.cell_type_vec@[j].at(x, y),
                    ),
            decreases nres - i,
        {
            let w = self.fields_vec[i].width();
            let h = self.fields_vec[i].height();
            let mut y: usize = 0;
            while y < h
                invariant
                    y <= h,
                    i < nres,
                    self.wf(),
                    nres == self.fields_vec@.len(),
                    w == self.fields_vec@[i as int].field.spec_width(),
                    h == self.fields_vec@[i as int].field.spec_height(),
                    self.gw() == old(self).gw(),
                    self.gh() == old(self).gh(),
                    self.kw() == old(self).kw(),
                    self.vec_ix == old(self).vec_ix,
                    self.quad_tree == old(self).quad_tree,
                    self.conv_kernels == sap.conv_kernels,
                    self.cell_type_map == sap.cell_type_map,
                    self.cell_type_vec == sap.cell_type_vec,
                    self.rules == sap.rules,
                    self.acc_vec == sap.acc_vec,
                    forall|j: int, x2: int, y2: int|
                        #![trigger self.fields_vec@[j].field.at(x2, y2)]
                        0 <= j < i && self.cell_type_vec@[j].in_bounds(x2, y2)
                            ==> self.fields_vec@[j].field.at(x2, y2)
                            == self.cell_type_map.spec_value(self.cell_type_vec@[j].at(x2, y2)),
                    forall|x2: int, y2: int|
                        #![trigger self.fields_vec@[i as int].field.at(x2, y2)]
                        0 <= x2 < w && 0 <= y2 < y ==> self.fields_vec@[i as int].field.at(x2, y2)
                            == self.cell_type_map.spec_value(
                            self.cell_type_vec@[i as int].at(x2, y2),
                        ),
                decreases h - y,
            {
                let mut x: usize = 0;
                while x < w
                    invariant
                        x <= w,
                        y < h,
                        i < nres,
                        self.wf(),
                        nres == self.fields_vec@.len(),
                        w == self.fields_vec@[i as int].field.spec_width(),
                        h == self.fields_vec@[i as int].field.spec_height(),
                        self.gw() == old(self).gw(),
                        self.gh() == old(self).gh(),
                        self.kw() == old(self).kw(),
                        self.vec_ix == old(self).vec_ix,
                        self.quad_tree == old(self).quad_tree,
                        self.conv_kernels == sap.conv_kernels,
                        self.cell_type_map == sap.cell_type_map,
                        self.cell_type_vec == sap.cell_type_vec,
                        self.rules == sap.rules,
                        self.acc_vec == sap.acc_vec,
                        forall|j: int, x2: int, y2: int|
                            #![trigger self.fields_vec@[j].field.at(x2, y2)]
                            0 <= j < i && self.cell_type_vec@[j].in_bounds(x2, y2)
                                ==> self.fields_vec@[j].field.at(x2, y2)
                                == self.cell_type_map.spec_value(
                                self.cell_type_vec@[j].at(x2, y2),
                            ),
                        forall|x2: int, y2: int|
                            #![trigger self.fields_vec@[i as int].field.at(x2, y2)]
                            0 <= x2 < w && 0 <= y2 < y ==> self.fields_vec@[i as int].field.at(
                                x2,
                                y2,
                            ) == self.cell_type_map.spec_value(
                                self.cell_type_vec@[i as int].at(x2, y2),
                            ),
                        forall|x2: int|
                            #![trigger self.fields_vec@[i as int].field.at(x2, y as int)]
                            0 <= x2 < x ==> self.fields_vec@[i as int].field.at(x2, y as int)
                                == self.cell_type_map.spec_value(
                                self.cell_type_vec@[i as int].at(x2, y as int),
                            ),
                    decreases w - x,
                {
                    let c = self.cell_type_vec[i].index((x, y));
                    let entry = self.cell_type_map.index(c);
                    let fm = &mut self.fields_vec[i];
                    fm.set_at_index((x, y), entry.value);
                    x = x + 1;
                }
                y = y + 1;
            }
            i = i + 1;
        }
        self.quad_tree.everything_changed();
        true
    }
}

} // verus!
