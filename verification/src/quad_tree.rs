//! The dirty-region tracker: a quad tree over the grid's index space.
//!
//! Each node covers a rectangle of cell coordinates and carries a tri-state
//! status: `Yes` (the whole rectangle changed), `No` (none of it), or
//! `Partial` (a mix, only on inner nodes).  The four children of a node
//! partition its rectangle into near-equal quadrants, ties broken toward the
//! lower-index half.  `insert` marks the leaf holding a coordinate and
//! re-aggregates the path to the root; `get_changed_ranges` emits, for every
//! changed region, its rectangle dilated by half a kernel width and clamped
//! to the grid.

use vstd::prelude::*;

verus! {

/// The tri-state change status of a quad-tree node.
#[derive(Copy, Clone, Debug, PartialEq, Eq, Structural)]
pub enum Changed {
    Yes,
    No,
    Partial,
}

/// One quad-tree node: a status and the inclusive coordinate rectangle
/// `x_start..=x_end` x `y_start..=y_end` it covers.  An empty rectangle is
/// stored canonically as `1..=0` x `1..=0`.
#[derive(Copy, Clone, Debug, PartialEq, Eq, Structural)]
pub struct Node {
    pub changed: Changed,
    pub x_start: usize,
    pub x_end: usize,
    pub y_start: usize,
    pub y_end: usize,
}

/// An inclusive rectangle of cell coordinates, as emitted by
/// [`QuadTree::get_changed_ranges`].
#[derive(Copy, Clone, Debug, PartialEq, Eq, Structural)]
pub struct Rect {
    pub x_start: usize,
    pub x_end: usize,
    pub y_start: usize,
    pub y_end: usize,
}

impl Rect {
    /// Whether the rectangle holds the coordinate `(x, y)`.
    pub open spec fn contains(self, x: int, y: int) -> bool {
        self.x_start <= x <= self.x_end && self.y_start <= y <= self.y_end
    }
}

/// The rectangle a changed node emits: the node's rectangle dilated by
/// `wh` on every side and clamped to the `width x height` grid.
pub open spec fn dilated_rect(n: Node, wh: int, width: int, height: int) -> Rect {
    Rect {
        x_start: (if n.x_start >= wh {
            n.x_start - wh
        } else {
            0
        }) as usize,
        x_end: (if n.x_end + wh < width - 1 {
            n.x_end + wh
        } else {
            width - 1
        }) as usize,
        y_start: (if n.y_start >= wh {
            n.y_start - wh
        } else {
            0
        }) as usize,
        y_end: (if n.y_end + wh < height - 1 {
            n.y_end + wh
        } else {
            height - 1
        }) as usize,
    }
}

/// Whether some rectangle of `rs` holds the coordinate `(x, y)`.
pub open spec fn rect_seq_covers(rs: Seq<Rect>, x: int, y: int) -> bool {
    exists|i: int| 0 <= i < rs.len() && (#[trigger] rs[i]).contains(x, y)
}

impl Node {
    /// Whether the node's rectangle holds the coordinate `(x, y)`.
    pub open spec fn contains(self, x: int, y: int) -> bool {
        self.x_start <= x <= self.x_end && self.y_start <= y <= self.y_end
    }

    /// Whether the node's rectangle holds no coordinate at all.
    pub open spec fn empty(self) -> bool {
        self.x_start > self.x_end || self.y_start > self.y_end
    }

    /// Whether the node's rectangle and status equal another node's; the
    /// status may differ.
    pub open spec fn same_range(self, other: Node) -> bool {
        &&& self.x_start == other.x_start
        &&& self.x_end == other.x_end
        &&& self.y_start == other.y_start
        &&& self.y_end == other.y_end
    }
}

/// `4^l`: the number of nodes on level `l`.
pub open spec fn pow4(l: nat) -> nat
    decreases l,
{
    if l == 0 {
        1
    } else {
        4 * pow4((l - 1) as nat)
    }
}

/// The index of child `k` of the node at index `ix`, one level down.
pub open spec fn child_ix(ix: int, k: int) -> int {
    4 * ix + k
}

/// Whether the node `(l, ix)` lies in the subtree rooted at `(l0, ix0)`:
/// walking `l - l0` levels down multiplies the index range by `4` each
/// step.
pub open spec fn desc(l0: int, ix0: int, l: int, ix: int) -> bool {
    l0 <= l && pow4((l - l0) as nat) * ix0 <= ix < pow4((l - l0) as nat) * (ix0 + 1)
}

pub proof fn lemma_pow4_pos(l: nat)
    ensures
        pow4(l) >= 1,
    decreases l,
{
    if l > 0 {
        lemma_pow4_pos((l - 1) as nat);
    }
}

pub proof fn lemma_pow4_mono(a: nat, b: nat)
    requires
        a <= b,
    ensures
        pow4(a) <= pow4(b),
    decreases b,
{
    if a < b {
        lemma_pow4_mono(a, (b - 1) as nat);
        lemma_pow4_pos((b - 1) as nat);
    }
}

/// On at most 16 levels no index exceeds `4^15`.
pub proof fn lemma_pow4_bound_16(l: nat)
    requires
        l <= 15,
    ensures
        pow4(l) <= 0x40000000,
{
    lemma_pow4_mono(l, 15);
    assert(pow4(15) == 0x40000000) by {
        reveal_with_fuel(pow4, 16);
    }
}

/// Every node is a descendant of itself.
pub proof fn lemma_desc_refl(l: int, ix: int)
    ensures
        desc(l, ix, l, ix),
{
    assert(pow4(0) == 1);
    assert(1 * ix == ix && 1 * (ix + 1) == ix + 1) by (nonlinear_arith);
}

/// A direct child belongs to the parent's subtree.
pub proof fn lemma_desc_child(l: int, ix: int, k: int)
    requires
        0 <= k < 4,
    ensures
        desc(l, ix, l + 1, child_ix(ix, k)),
{
    assert(pow4(1) == 4) by {
        reveal_with_fuel(pow4, 2);
    }
    assert(4 * ix <= 4 * ix + k < 4 * (ix + 1));
}

/// A descendant of a direct child is a descendant of the parent.
pub proof fn lemma_desc_child_trans(l: int, ix: int, k: int, l2: int, ix2: int)
    requires
        0 <= k < 4,
        desc(l + 1, child_ix(ix, k), l2, ix2),
    ensures
        desc(l, ix, l2, ix2),
{
    let p = pow4((l2 - l - 1) as nat);
    lemma_pow4_pos((l2 - l - 1) as nat);
    assert(pow4((l2 - l) as nat) == 4 * p);
    assert(p * (4 * ix + k) <= ix2 < p * (4 * ix + k + 1));
    assert((4 * p) * ix <= p * (4 * ix + k) && p * (4 * ix + k + 1) <= (4 * p) * (ix + 1))
        by (nonlinear_arith)
        requires
            0 <= k < 4,
            p >= 1,
    {
    }
}

/// The subtrees of two distinct children are disjoint.
pub proof fn lemma_desc_siblings(l: int, ix: int, j: int, k: int, l2: int, ix2: int)
    requires
        0 <= j < 4,
        0 <= k < 4,
        j != k,
        desc(l + 1, child_ix(ix, j), l2, ix2),
    ensures
        !desc(l + 1, child_ix(ix, k), l2, ix2),
{
    let p = pow4((l2 - l - 1) as nat);
    lemma_pow4_pos((l2 - l - 1) as nat);
    assert(p * (4 * ix + j) <= ix2 < p * (4 * ix + j + 1));
    if j < k {
        assert(p * (4 * ix + j + 1) <= p * (4 * ix + k)) by (nonlinear_arith)
            requires
                p >= 1,
                j + 1 <= k,
        {
        }
    } else {
        assert(p * (4 * ix + k + 1) <= p * (4 * ix + j)) by (nonlinear_arith)
            requires
                p >= 1,
                k + 1 <= j,
        {
        }
    }
}

/// Subtree membership is transitive.
pub proof fn lemma_desc_trans(l0: int, ix0: int, l1: int, ix1: int, l2: int, ix2: int)
    requires
        desc(l0, ix0, l1, ix1),
        desc(l1, ix1, l2, ix2),
    ensures
        desc(l0, ix0, l2, ix2),
{
    let p01 = pow4((l1 - l0) as nat);
    let p12 = pow4((l2 - l1) as nat);
    let p02 = pow4((l2 - l0) as nat);
    lemma_pow4_mul((l2 - l1) as nat, (l1 - l0) as nat);
    assert(p02 == p12 * p01);
    lemma_pow4_pos((l1 - l0) as nat);
    lemma_pow4_pos((l2 - l1) as nat);
    assert((p12 * p01) * ix0 <= p12 * (p01 * ix0) <= p12 * ix1) by (nonlinear_arith)
        requires
            p12 >= 1,
            p01 * ix0 <= ix1,
    {
    }
    assert(p12 * (ix1 + 1) <= p12 * (p01 * (ix0 + 1)) && p12 * (p01 * (ix0 + 1)) == (p12 * p01) * (
    ix0 + 1)) by (nonlinear_arith)
        requires
            p12 >= 1,
            ix1 + 1 <= p01 * (ix0 + 1),
    {
    }
}

/// A proper descendant of a node lies in the subtree of exactly one of its
/// children.
pub proof fn lemma_desc_split(l: int, ix: int, l2: int, ix2: int)
    requires
        desc(l, ix, l2, ix2),
        !(l2 == l && ix2 == ix),
    ensures
        l2 > l,
        exists|k: int| 0 <= k < 4 && desc(l + 1, child_ix(ix, k), l2, ix2),
{
    if l2 == l {
        assert(pow4(0) == 1);
        assert(1 * ix == ix && 1 * (ix + 1) == ix + 1) by (nonlinear_arith);
        assert(false);
    }
    let q = pow4((l2 - l - 1) as nat);
    lemma_pow4_pos((l2 - l - 1) as nat);
    assert(pow4((l2 - l) as nat) == 4 * q);
    assert((4 * q) * ix <= ix2 < (4 * q) * (ix + 1));
    assert((4 * q) * ix == q * (4 * ix) && (4 * q) * (ix + 1) == q * (4 * ix + 4))
        by (nonlinear_arith)
    {
    }
    assert(q * (4 * ix) < q * (4 * ix + 1) <= q * (4 * ix + 2) <= q * (4 * ix + 3) <= q * (4 * ix
        + 4)) by (nonlinear_arith)
        requires
            q >= 1,
    {
    }
    if ix2 < q * (4 * ix + 1) {
        assert(desc(l + 1, child_ix(ix, 0), l2, ix2));
    } else if ix2 < q * (4 * ix + 2) {
        assert(desc(l + 1, child_ix(ix, 1), l2, ix2));
    } else if ix2 < q * (4 * ix + 3) {
        assert(desc(l + 1, child_ix(ix, 2), l2, ix2));
    } else {
        assert(desc(l + 1, child_ix(ix, 3), l2, ix2));
    }
}

/// A descendant of a valid node has a valid index on its own level.
pub proof fn lemma_desc_valid(l: int, ix: int, l2: int, ix2: int)
    requires
        desc(l, ix, l2, ix2),
        0 <= l,
        0 <= ix < pow4(l as nat),
    ensures
        0 <= ix2 < pow4(l2 as nat),
{
    let p = pow4((l2 - l) as nat);
    lemma_pow4_pos((l2 - l) as nat);
    lemma_pow4_mul(( l2 - l) as nat, l as nat);
    assert(p * ix >= 0 && p * (ix + 1) <= p * pow4(l as nat)) by (nonlinear_arith)
        requires
            p >= 1,
            0 <= ix,
            ix + 1 <= pow4(l as nat),
    {
    }
}

/// How insert normalises a rectangle: an empty one is stored canonically.
pub open spec fn node_has_range(c: Node, xs: int, xe: int, ys: int, ye: int) -> bool {
    if xs <= xe && ys <= ye {
        c.x_start == xs && c.x_end == xe && c.y_start == ys && c.y_end == ye
    } else {
        c.x_start == 1 && c.x_end == 0 && c.y_start == 1 && c.y_end == 0
    }
}

/// The rectangle handed to child `k` when a node covering
/// `xs..=xe` x `ys..=ye` is split at the midpoints, ties toward the lower
/// half; an empty rectangle has empty children.
pub open spec fn child_given(xs: int, xe: int, ys: int, ye: int, k: int) -> (int, int, int, int) {
    if xs > xe || ys > ye {
        (1, 0, 1, 0)
    } else {
        let xh = xs + (xe - xs) / 2;
        let yh = ys + (ye - ys) / 2;
        if k == 0 {
            (xs, xh, ys, yh)
        } else if k == 1 {
            (xh + 1, xe, ys, yh)
        } else if k == 2 {
            (xs, xh, yh + 1, ye)
        } else {
            (xh + 1, xe, yh + 1, ye)
        }
    }
}

/// The stored rectangle of child `k` matches the parent's split.
pub open spec fn child_range_ok(p: Node, c: Node, k: int) -> bool {
    let g = child_given(p.x_start as int, p.x_end as int, p.y_start as int, p.y_end as int, k);
    node_has_range(c, g.0, g.1, g.2, g.3)
}

/// The status a parent must carry given its four children's statuses.
pub open spec fn combine(c0: Changed, c1: Changed, c2: Changed, c3: Changed) -> Changed {
    if c0 == Changed::Yes && c1 == Changed::Yes && c2 == Changed::Yes && c3 == Changed::Yes {
        Changed::Yes
    } else if c0 == Changed::No && c1 == Changed::No && c2 == Changed::No && c3 == Changed::No {
        Changed::No
    } else {
        Changed::Partial
    }
}

/// The quad tree itself: one `Vec` of nodes per level, level `l` holding
/// `4^l` nodes, over a `width x height` grid.
#[derive(Clone)]
pub struct QuadTree {
    pub tree: Vec<Vec<Node>>,
    pub width: usize,
    pub height: usize,
}

impl QuadTree {
    /// The number of levels.
    pub open spec fn levels(self) -> int {
        self.tree@.len() as int
    }

    pub open spec fn valid_node(self, l: int, ix: int) -> bool {
        0 <= l < self.levels() && 0 <= ix < self.tree@[l]@.len()
    }

    /// The node at level `l`, index `ix`.
    pub open spec fn node(self, l: int, ix: int) -> Node {
        self.tree@[l]@[ix]
    }

    /// Between 1 and 16 levels, level `l` holding `4^l` nodes.
    pub open spec fn shape_wf(self) -> bool {
        &&& 1 <= self.levels() <= 16
        &&& forall|l: int| 0 <= l < self.levels() ==> (#[trigger] self.tree@[l])@.len() == pow4(
            l as nat,
        )
    }

    /// The aggregation condition at one node: an inner node's status is the
    /// combination of its children's, and a leaf is never `Partial`.
    pub open spec fn local_status_ok(self, l: int, ix: int) -> bool {
        if l == self.levels() - 1 {
            self.node(l, ix).changed != Changed::Partial
        } else {
            self.node(l, ix).changed == combine(
                self.node(l + 1, child_ix(ix, 0)).changed,
                self.node(l + 1, child_ix(ix, 1)).changed,
                self.node(l + 1, child_ix(ix, 2)).changed,
                self.node(l + 1, child_ix(ix, 3)).changed,
            )
        }
    }

    /// The aggregation condition on every node of the subtree at `(l, ix)`.
    pub open spec fn status_ok_sub(self, l: int, ix: int) -> bool {
        forall|l2: int, ix2: int|
            self.valid_node(l2, ix2) && #[trigger] desc(l, ix, l2, ix2) ==> self.local_status_ok(
                l2,
                ix2,
            )
    }

    /// The rectangle-splitting condition at one node.
    pub open spec fn local_ranges_ok(self, l: int, ix: int) -> bool {
        l < self.levels() - 1 ==> {
            &&& child_range_ok(self.node(l, ix), self.node(l + 1, child_ix(ix, 0)), 0)
            &&& child_range_ok(self.node(l, ix), self.node(l + 1, child_ix(ix, 1)), 1)
            &&& child_range_ok(self.node(l, ix), self.node(l + 1, child_ix(ix, 2)), 2)
            &&& child_range_ok(self.node(l, ix), self.node(l + 1, child_ix(ix, 3)), 3)
        }
    }

    /// The rectangle-splitting condition on every node of the subtree at
    /// `(l, ix)`.
    pub open spec fn sub_ranges_ok(self, l: int, ix: int) -> bool {
        forall|l2: int, ix2: int|
            self.valid_node(l2, ix2) && #[trigger] desc(l, ix, l2, ix2) ==> self.local_ranges_ok(
                l2,
                ix2,
            )
    }

    /// Every non-empty rectangle in the subtree at `(l, ix)` lies inside
    /// the grid.
    pub open spec fn sub_in_grid(self, l: int, ix: int) -> bool {
        forall|l2: int, ix2: int|
            self.valid_node(l2, ix2) && #[trigger] desc(l, ix, l2, ix2) && !self.node(
                l2,
                ix2,
            ).empty() ==> self.node(l2, ix2).x_end < self.width && self.node(l2, ix2).y_end
                < self.height
    }

    /// The tracker's full invariant: proper shape, the root covering the
    /// whole grid, correctly split rectangles, and aggregated statuses.
    pub open spec fn wf(self) -> bool {
        &&& self.shape_wf()
        &&& 1 <= self.width
        &&& 1 <= self.height
        &&& node_has_range(self.node(0, 0), 0, self.width - 1, 0, self.height - 1)
        &&& self.sub_ranges_ok(0, 0)
        &&& self.sub_in_grid(0, 0)
        &&& self.status_ok_sub(0, 0)
    }

    /// Whether some `Yes` node in the subtree at `(l, ix)` covers `(x, y)`.
    pub open spec fn covered_from(self, l: int, ix: int, x: int, y: int) -> bool
        decreases self.levels() - l,
    {
        if !self.valid_node(l, ix) {
            false
        } else if self.node(l, ix).changed == Changed::Yes && self.node(l, ix).contains(x, y) {
            true
        } else if l < self.levels() - 1 {
            self.covered_from(l + 1, child_ix(ix, 0), x, y) || self.covered_from(
                l + 1,
                child_ix(ix, 1),
                x,
                y,
            ) || self.covered_from(l + 1, child_ix(ix, 2), x, y) || self.covered_from(
                l + 1,
                child_ix(ix, 3),
                x,
                y,
            )
        } else {
            false
        }
    }

    /// Whether the tracker records `(x, y)` as changed.
    pub open spec fn covered(self, x: int, y: int) -> bool {
        self.covered_from(0, 0, x, y)
    }

    /// The status each node of the subtree at `(l, ix)` carries after
    /// `(x, y)` is inserted: nodes not holding the coordinate and `Yes`
    /// nodes keep their status, the leaf holding it becomes `Yes`, and
    /// inner nodes re-aggregate.
    pub open spec fn inserted_status(self, l: int, ix: int, x: int, y: int) -> Changed
        decreases self.levels() - l,
    {
        let n = self.node(l, ix);
        if !n.contains(x, y) || n.changed == Changed::Yes {
            n.changed
        } else if l >= self.levels() - 1 {
            Changed::Yes
        } else {
            combine(
                self.inserted_status(l + 1, child_ix(ix, 0), x, y),
                self.inserted_status(l + 1, child_ix(ix, 1), x, y),
                self.inserted_status(l + 1, child_ix(ix, 2), x, y),
                self.inserted_status(l + 1, child_ix(ix, 3), x, y),
            )
        }
    }

    /// Whether `(qx, qy)` lies within Chebyshev distance `wh` of some
    /// coordinate the subtree at `(l, ix)` records as changed.
    pub open spec fn dilated_covered_from(self, l: int, ix: int, wh: int, qx: int, qy: int) -> bool {
        exists|px: int, py: int|
            #[trigger] self.covered_from(l, ix, px, py) && px - wh <= qx <= px + wh && py - wh <= qy
                <= py + wh
    }

    /// Every leaf rectangle holds at most one cell.
    pub open spec fn unit_leaves(self) -> bool {
        forall|ix2: int|
            0 <= ix2 < self.tree@[self.levels() - 1]@.len() ==> ((#[trigger] self.node(
                self.levels() - 1,
                ix2,
            )).empty() || (self.node(self.levels() - 1, ix2).x_start == self.node(
                self.levels() - 1,
                ix2,
            ).x_end && self.node(self.levels() - 1, ix2).y_start == self.node(
                self.levels() - 1,
                ix2,
            ).y_end))
    }

    /// The node at `(l, ix)`.
    fn get_node(&self, l: usize, ix: usize) -> (n: Node)
        requires
            self.valid_node(l as int, ix as int),
        ensures
            n == self.node(l as int, ix as int),
    {
        self.tree[l][ix]
    }

    /// Overwrite the status of the node at `(l, ix)`.
    fn set_status(&mut self, l: usize, ix: usize, c: Changed)
        requires
            old(self).valid_node(l as int, ix as int),
        ensures
            final(self).levels() == old(self).levels(),
            final(self).width == old(self).width,
            final(self).height == old(self).height,
            forall|l2: int| 0 <= l2 < old(self).levels() ==> (#[trigger] final(self).tree@[l2])@.len()
                == old(self).tree@[l2]@.len(),
            forall|l2: int, ix2: int|
                old(self).valid_node(l2, ix2) && !(l2 == l && ix2 == ix)
                    ==> #[trigger] final(self).node(l2, ix2) == old(self).node(l2, ix2),
            final(self).node(l as int, ix as int).changed == c,
            final(self).node(l as int, ix as int).same_range(old(self).node(l as int, ix as int)),
    {
        let row = &mut self.tree[l];
        let node = &mut row[ix];
        node.changed = c;
    }

    /// Overwrite the rectangle of the node at `(l, ix)`, keeping its
    /// status.
    fn set_range(&mut self, l: usize, ix: usize, xs: usize, xe: usize, ys: usize, ye: usize)
        requires
            old(self).valid_node(l as int, ix as int),
        ensures
            final(self).levels() == old(self).levels(),
            final(self).width == old(self).width,
            final(self).height == old(self).height,
            forall|l2: int| 0 <= l2 < old(self).levels() ==> (#[trigger] final(self).tree@[l2])@.len()
                == old(self).tree@[l2]@.len(),
            forall|l2: int, ix2: int|
                old(self).valid_node(l2, ix2) && !(l2 == l && ix2 == ix)
                    ==> #[trigger] final(self).node(l2, ix2) == old(self).node(l2, ix2),
            final(self).node(l as int, ix as int).changed == old(self).node(
                l as int,
                ix as int,
            ).changed,
            final(self).node(l as int, ix as int).x_start == xs,
            final(self).node(l as int, ix as int).x_end == xe,
            final(self).node(l as int, ix as int).y_start == ys,
            final(self).node(l as int, ix as int).y_end == ye,
    {
        let row = &mut self.tree[l];
        let node = &mut row[ix];
        node.x_start = xs;
        node.x_end = xe;
        node.y_start = ys;
        node.y_end = ye;
    }

    /// Rebuild the rectangles of the subtree at `(level, node_ix)` so that
    /// they partition `x_start..=x_end` x `y_start..=y_end` by the
    /// quadrant-splitting rule; every status is left untouched.
    #[verifier::rlimit(100)]
    pub fn insert_ranges(
        &mut self,
        level: usize,
        node_ix: usize,
        x_start: usize,
        x_end: usize,
        y_start: usize,
        y_end: usize,
    )
        requires
            old(self).shape_wf(),
            old(self).valid_node(level as int, node_ix as int),
            x_end < usize::MAX,
            y_end < usize::MAX,
        ensures
            ranges_rebuilt(
                *old(self),
                *final(self),
                level as int,
                node_ix as int,
                x_start as int,
                x_end as int,
                y_start as int,
                y_end as int,
            ),
        decreases self.tree@.len() - level,
    {
        let ghost llevel = level as int;
        let ghost iix = node_ix as int;
        let ghost gxs = x_start as int;
        let ghost gxe = x_end as int;
        let ghost gys = y_start as int;
        let ghost gye = y_end as int;
        let levels = self.tree.len();
        let empty = x_start > x_end || y_start > y_end;
        let xs: usize = if empty { 1 } else { x_start };
        let xe: usize = if empty { 0 } else { x_end };
        let ys: usize = if empty { 1 } else { y_start };
        let ye: usize = if empty { 0 } else { y_end };
        self.set_range(level, node_ix, xs, xe, ys, ye);
        let ghost t1 = *self;
        proof {
            lemma_desc_refl(llevel, iix);
            assert(rebuild_mid(*old(self), t1, llevel, iix, gxs, gxe, gys, gye));
        }
        if level + 1 < levels {
            proof {
                lemma_pow4_bound_16(level as nat);
                assert(self.tree@[llevel + 1]@.len() == pow4((llevel + 1) as nat));
                assert(pow4((llevel + 1) as nat) == 4 * pow4(llevel as nat));
            }
            let base = node_ix * 4;
            let xh: usize = if empty { 0 } else { xs + (xe - xs) / 2 };
            let yh: usize = if empty { 0 } else { ys + (ye - ys) / 2 };
            let (c0xs, c0xe, c0ys, c0ye): (usize, usize, usize, usize) = if empty {
                (1, 0, 1, 0)
            } else {
                (xs, xh, ys, yh)
            };
            let (c1xs, c1xe, c1ys, c1ye): (usize, usize, usize, usize) = if empty {
                (1, 0, 1, 0)
            } else {
                (xh + 1, xe, ys, yh)
            };
            let (c2xs, c2xe, c2ys, c2ye): (usize, usize, usize, usize) = if empty {
                (1, 0, 1, 0)
            } else {
                (xs, xh, yh + 1, ye)
            };
            let (c3xs, c3xe, c3ys, c3ye): (usize, usize, usize, usize) = if empty {
                (1, 0, 1, 0)
            } else {
                (xh + 1, xe, yh + 1, ye)
            };
            proof {
                lemma_desc_child(llevel, iix, 0);
                lemma_desc_child(llevel, iix, 1);
                lemma_desc_child(llevel, iix, 2);
                lemma_desc_child(llevel, iix, 3);
                assert((c0xs as int, c0xe as int, c0ys as int, c0ye as int) == child_given(
                    gxs,
                    gxe,
                    gys,
                    gye,
                    0,
                ));
                assert((c1xs as int, c1xe as int, c1ys as int, c1ye as int) == child_given(
                    gxs,
                    gxe,
                    gys,
                    gye,
                    1,
                ));
                assert((c2xs as int, c2xe as int, c2ys as int, c2ye as int) == child_given(
                    gxs,
                    gxe,
                    gys,
                    gye,
                    2,
                ));
                assert((c3xs as int, c3xe as int, c3ys as int, c3ye as int) == child_given(
                    gxs,
                    gxe,
                    gys,
                    gye,
                    3,
                ));
            }
            self.insert_ranges(level + 1, base, c0xs, c0xe, c0ys, c0ye);
            let ghost t2 = *self;
            self.insert_ranges(level + 1, base + 1, c1xs, c1xe, c1ys, c1ye);
            let ghost t3 = *self;
            self.insert_ranges(level + 1, base + 2, c2xs, c2xe, c2ys, c2ye);
            let ghost t4 = *self;
            self.insert_ranges(level + 1, base + 3, c3xs, c3xe, c3ys, c3ye);
            proof {
                lemma_rebuild_compose(
                    *old(self),
                    t1,
                    t2,
                    t3,
                    t4,
                    *self,
                    llevel,
                    iix,
                    gxs,
                    gxe,
                    gys,
                    gye,
                );
            }
        } else {
            proof {
                assert forall|l2: int, ix2: int|
                    self.valid_node(l2, ix2) && #[trigger] desc(llevel, iix, l2, ix2)
                        implies l2 == llevel && ix2 == iix by {
                    if !(l2 == llevel && ix2 == iix) {
                        lemma_desc_split(llevel, iix, l2, ix2);
                    }
                }
                assert(ranges_rebuilt(*old(self), *self, llevel, iix, gxs, gxe, gys, gye));
            }
        }
    }

    /// A tracker for a `width x height` grid with `levels` levels of
    /// nodes; every status starts as `Yes`, so the whole grid counts as
    /// changed.
    #[verifier::loop_isolation(false)]
    pub fn new(width: usize, height: usize, levels: usize) -> (r: Self)
        requires
            1 <= width < usize::MAX,
            1 <= height < usize::MAX,
            1 <= levels <= 16,
        ensures
            r.wf(),
            r.levels() == levels,
            r.width == width,
            r.height == height,
            forall|l: int, ix: int|
                r.valid_node(l, ix) ==> (#[trigger] r.node(l, ix)).changed == Changed::Yes,
            forall|x: int, y: int|
                #![trigger r.covered(x, y)]
                r.covered(x, y) <==> (0 <= x < width && 0 <= y < height),
    {
        let mut tree: Vec<Vec<Node>> = Vec::new();
        let mut count: usize = 1;
        let mut level: usize = 0;
        proof {
            assert(pow4(0) == 1);
        }
        while level < levels
            invariant
                level <= levels,
                tree@.len() == level,
                level < levels ==> count == pow4(level as nat),
                count <= 0x40000000,
                forall|l: int| 0 <= l < level ==> (#[trigger] tree@[l])@.len() == pow4(l as nat),
                forall|l: int, ix: int|
                    0 <= l < level && 0 <= ix < tree@[l]@.len() ==> (#[trigger] tree@[l]@[ix])
                        == (Node {
                        changed: Changed::Yes,
                        x_start: 0,
                        x_end: 0,
                        y_start: 0,
                        y_end: 0,
                    }),
            decreases levels - level,
        {
            let mut row: Vec<Node> = Vec::new();
            let mut i: usize = 0;
            while i < count
                invariant
                    i <= count,
                    row@.len() == i,
                    forall|j: int|
                        0 <= j < i ==> (#[trigger] row@[j]) == (Node {
                            changed: Changed::Yes,
                            x_start: 0,
                            x_end: 0,
                            y_start: 0,
                            y_end: 0,
                        }),
                decreases count - i,
            {
                row.push(
                    Node { changed: Changed::Yes, x_start: 0, x_end: 0, y_start: 0, y_end: 0 },
                );
                i = i + 1;
            }
            tree.push(row);
            level = level + 1;
            if level < levels {
                proof {
                    lemma_pow4_bound_16(level as nat);
                }
                count = count * 4;
            }
        }
        let mut r = QuadTree { tree, width, height };
        proof {
            lemma_pow4_pos(0);
        }
        r.insert_ranges(0, 0, 0, width - 1, 0, height - 1);
        proof {
            assert forall|l: int, ix: int| r.valid_node(l, ix) implies #[trigger] desc(
                0,
                0,
                l,
                ix,
            ) by {
                let p = pow4(l as nat);
                assert(p * 0 == 0 && p * 1 == p) by (nonlinear_arith);
            }
            assert forall|l: int, ix: int| r.valid_node(l, ix) implies (#[trigger] r.node(
                l,
                ix,
            )).changed == Changed::Yes by {}
            assert forall|l: int, ix: int|
                r.valid_node(l, ix) && #[trigger] desc(0, 0, l, ix) implies r.local_status_ok(
                l,
                ix,
            ) by {
                if l < r.levels() - 1 {
                    lemma_desc_child(l, ix, 0);
                    lemma_desc_child(l, ix, 1);
                    lemma_desc_child(l, ix, 2);
                    lemma_desc_child(l, ix, 3);
                    assert(r.tree@[l + 1]@.len() == pow4((l + 1) as nat));
                    assert(pow4((l + 1) as nat) == 4 * pow4(l as nat));
                    lemma_desc_valid(0, 0, l, ix);
                }
            }
            assert(r.wf());
            assert forall|x: int, y: int|
                #![trigger r.covered(x, y)]
                r.covered(x, y) <==> (0 <= x < width && 0 <= y < height) by {
                if 0 <= x < width && 0 <= y < height {
                    assert(r.node(0, 0).contains(x, y));
                    assert(r.covered_from(0, 0, x, y));
                }
                if r.covered(x, y) {
                    lemma_covered_within(r, 0, 0, x, y);
                }
            }
        }
        r
    }

    /// Reset every status to `No`: nothing is recorded as changed.  The
    /// rectangles are untouched.
    #[verifier::loop_isolation(false)]
    pub fn clear(&mut self)
        requires
            old(self).wf(),
        ensures
            final(self).wf(),
            final(self).levels() == old(self).levels(),
            final(self).width == old(self).width,
            final(self).height == old(self).height,
            forall|l: int, ix: int|
                old(self).valid_node(l, ix) ==> (#[trigger] final(self).node(l, ix)).same_range(
                    old(self).node(l, ix),
                ) && final(self).node(l, ix).changed == Changed::No,
            forall|x: int, y: int| !final(self).covered(x, y),
    {
        self.fill_status(Changed::No);
        proof {
            assert forall|x: int, y: int| !self.covered(x, y) by {
                lemma_all_no_uncovered(*self, 0, 0, x, y);
            }
        }
    }

    /// Force every status to `Yes`: the whole grid counts as changed.  The
    /// rectangles are untouched.
    pub fn everything_changed(&mut self)
        requires
            old(self).wf(),
        ensures
            final(self).wf(),
            final(self).levels() == old(self).levels(),
            final(self).width == old(self).width,
            final(self).height == old(self).height,
            forall|l: int, ix: int|
                old(self).valid_node(l, ix) ==> (#[trigger] final(self).node(l, ix)).same_range(
                    old(self).node(l, ix),
                ) && final(self).node(l, ix).changed == Changed::Yes,
            forall|x: int, y: int|
                #![trigger final(self).covered(x, y)]
                final(self).covered(x, y) <==> (0 <= x < old(self).width && 0 <= y < old(
                    self,
                ).height),
    {
        self.fill_status(Changed::Yes);
        proof {
            assert forall|x: int, y: int|
                #![trigger self.covered(x, y)]
                self.covered(x, y) <==> (0 <= x < self.width && 0 <= y < self.height) by {
                if 0 <= x < self.width && 0 <= y < self.height {
                    assert(self.node(0, 0).contains(x, y));
                    assert(self.covered_from(0, 0, x, y));
                }
                if self.covered(x, y) {
                    lemma_covered_within(*self, 0, 0, x, y);
                }
            }
        }
    }

    /// Overwrite every status in the tree with `c`, keeping rectangles.
    #[verifier::loop_isolation(false)]
    fn fill_status(&mut self, c: Changed)
        requires
            old(self).wf(),
            c != Changed::Partial,
        ensures
            final(self).levels() == old(self).levels(),
            final(self).width == old(self).width,
            final(self).height == old(self).height,
            forall|l: int, ix: int|
                old(self).valid_node(l, ix) ==> (#[trigger] final(self).node(l, ix)).same_range(
                    old(self).node(l, ix),
                ) && final(self).node(l, ix).changed == c,
            final(self).wf(),
    {
        let rows = self.tree.len();
        let mut l: usize = 0;
        while l < rows
            invariant
                l <= rows,
                self.levels() == old(self).levels(),
                self.width == old(self).width,
                self.height == old(self).height,
                forall|l2: int| 0 <= l2 < rows ==> (#[trigger] self.tree@[l2])@.len() == old(
                    self,
                ).tree@[l2]@.len(),
                forall|l2: int, ix2: int|
                    old(self).valid_node(l2, ix2) && l2 < l ==> (#[trigger] self.node(
                        l2,
                        ix2,
                    )).same_range(old(self).node(l2, ix2)) && self.node(l2, ix2).changed == c,
                forall|l2: int, ix2: int|
                    old(self).valid_node(l2, ix2) && l2 >= l ==> #[trigger] self.node(l2, ix2)
                        == old(self).node(l2, ix2),
            decreases rows - l,
        {
            let cols = self.tree[l].len();
            let mut i: usize = 0;
            while i < cols
                invariant
                    i <= cols,
                    l < rows,
                    cols == self.tree@[l as int]@.len(),
                    self.levels() == old(self).levels(),
                    self.width == old(self).width,
                    self.height == old(self).height,
                    forall|l2: int| 0 <= l2 < rows ==> (#[trigger] self.tree@[l2])@.len() == old(
                        self,
                    ).tree@[l2]@.len(),
                    forall|l2: int, ix2: int|
                        old(self).valid_node(l2, ix2) && (l2 < l || (l2 == l && ix2 < i)) ==> (
                        #[trigger] self.node(l2, ix2)).same_range(old(self).node(l2, ix2))
                            && self.node(l2, ix2).changed == c,
                    forall|l2: int, ix2: int|
                        old(self).valid_node(l2, ix2) && (l2 > l || (l2 == l && ix2 >= i))
                            ==> #[trigger] self.node(l2, ix2) == old(self).node(l2, ix2),
                decreases cols - i,
            {
                self.set_status(l, i, c);
                i = i + 1;
            }
            l = l + 1;
        }
        proof {
            assert forall|l2: int, ix2: int|
                self.valid_node(l2, ix2) && #[trigger] desc(0, 0, l2, ix2)
                implies self.local_status_ok(l2, ix2) by {
                if l2 < self.levels() - 1 {
                    assert(self.tree@[l2 + 1]@.len() == pow4((l2 + 1) as nat));
                    assert(pow4((l2 + 1) as nat) == 4 * pow4(l2 as nat));
                    lemma_desc_valid(0, 0, l2, ix2);
                }
            }
            assert(self.wf());
        }
    }

    /// Record the cell `(x, y)` as changed: walk down to the leaf holding
    /// it, mark that leaf `Yes`, and re-aggregate every node on the way
    /// back up.  A coordinate outside the subtree's rectangle changes
    /// nothing.
    #[verifier::rlimit(100)]
    pub fn insert(&mut self, x: usize, y: usize, level: usize, node_ix: usize)
        requires
            old(self).shape_wf(),
            old(self).valid_node(level as int, node_ix as int),
            old(self).sub_ranges_ok(level as int, node_ix as int),
            old(self).status_ok_sub(level as int, node_ix as int),
        ensures
            inserted_sub(
                *old(self),
                *final(self),
                level as int,
                node_ix as int,
                x as int,
                y as int,
            ),
            final(self).sub_ranges_ok(level as int, node_ix as int),
            old(self).wf() && level == 0 && node_ix == 0 ==> final(self).wf(),
        decreases self.tree@.len() - level,
    {
        let ghost llevel = level as int;
        let ghost iix = node_ix as int;
        let ghost gx = x as int;
        let ghost gy = y as int;
        let ghost t0 = *self;
        let n = self.get_node(level, node_ix);
        proof {
            lemma_desc_refl(llevel, iix);
        }
        if n.changed == Changed::Yes {
            proof {
                lemma_insert_noop_yes(t0, llevel, iix, gx, gy);
                lemma_insert_wf_root(t0, *self, llevel, iix, gx, gy);
            }
            return ;
        }
        if !(x >= n.x_start && x <= n.x_end && y >= n.y_start && y <= n.y_end) {
            proof {
                lemma_insert_noop_out(t0, llevel, iix, gx, gy);
                lemma_insert_wf_root(t0, *self, llevel, iix, gx, gy);
            }
            return ;
        }
        let levels = self.tree.len();
        if level + 1 < levels {
            proof {
                lemma_pow4_bound_16(level as nat);
                assert(t0.tree@[llevel]@.len() == pow4(llevel as nat));
                assert(t0.tree@[llevel + 1]@.len() == pow4((llevel + 1) as nat));
                assert(pow4((llevel + 1) as nat) == 4 * pow4(llevel as nat));
                assert forall|k: int| 0 <= k < 4 implies #[trigger] desc(
                    llevel,
                    iix,
                    llevel + 1,
                    child_ix(iix, k),
                ) && t0.valid_node(llevel + 1, child_ix(iix, k)) by {
                    lemma_desc_child(llevel, iix, k);
                    lemma_desc_valid(llevel, iix, llevel + 1, child_ix(iix, k));
                }
                assert forall|l2: int, ix2: int, j: int, k: int|
                    #![trigger desc(llevel + 1, child_ix(iix, j), l2, ix2), child_ix(iix, k)]
                    0 <= j < 4 && 0 <= k < 4 && j != k && desc(llevel + 1, child_ix(iix, j), l2, ix2)
                    implies !desc(llevel + 1, child_ix(iix, k), l2, ix2) by {
                    lemma_desc_siblings(llevel, iix, j, k, l2, ix2);
                }
                assert forall|k: int, l2: int, ix2: int|
                    0 <= k < 4 && t0.valid_node(l2, ix2) && #[trigger] desc(
                        llevel + 1,
                        child_ix(iix, k),
                        l2,
                        ix2,
                    ) implies desc(llevel, iix, l2, ix2) by {
                    lemma_desc_child_trans(llevel, iix, k, l2, ix2);
                }
                lemma_sub_preds_restrict(t0, llevel, iix, 0);
            }
            let base = node_ix * 4;
            self.insert(x, y, level + 1, base);
            let ghost t1 = *self;
            proof {
                lemma_child_call_pre1(t0, t1, llevel, iix, gx, gy);
            }
            self.insert(x, y, level + 1, base + 1);
            let ghost t2 = *self;
            proof {
                lemma_child_call_pre2(t0, t1, t2, llevel, iix, gx, gy);
            }
            self.insert(x, y, level + 1, base + 2);
            let ghost t3 = *self;
            proof {
                lemma_child_call_pre3(t0, t1, t2, t3, llevel, iix, gx, gy);
            }
            self.insert(x, y, level + 1, base + 3);
            let ghost t4 = *self;
            let c0 = self.get_node(level + 1, base).changed;
            let c1 = self.get_node(level + 1, base + 1).changed;
            let c2 = self.get_node(level + 1, base + 2).changed;
            let c3 = self.get_node(level + 1, base + 3).changed;
            let status = if c0 == Changed::Yes && c1 == Changed::Yes && c2 == Changed::Yes && c3
                == Changed::Yes {
                Changed::Yes
            } else if c0 == Changed::No && c1 == Changed::No && c2 == Changed::No && c3
                == Changed::No {
                Changed::No
            } else {
                Changed::Partial
            };
            self.set_status(level, node_ix, status);
            proof {
                assert(status == combine(c0, c1, c2, c3));
                assert(status_root_set(t4, *self, llevel, iix, status));
                lemma_insert_compose(t0, t1, t2, t3, t4, *self, llevel, iix, gx, gy);
                lemma_insert_wf_root(t0, *self, llevel, iix, gx, gy);
            }
        } else {
            self.set_status(level, node_ix, Changed::Yes);
            proof {
                lemma_insert_leaf(t0, *self, llevel, iix, gx, gy);
                lemma_insert_wf_root(t0, *self, llevel, iix, gx, gy);
            }
        }
    }

    /// Collect the changed regions of the subtree at `(level, node_ix)`:
    /// each `Yes` region's rectangle, dilated by half the kernel width and
    /// clamped to the grid, is appended to `res`.  Together the appended
    /// rectangles hold exactly the in-grid coordinates within half a
    /// kernel width of a changed coordinate.
    #[verifier::rlimit(100)]
    pub fn get_changed_ranges(
        &self,
        convolution_width: usize,
        level: usize,
        node_ix: usize,
        res: &mut Vec<Rect>,
    )
        requires
            self.shape_wf(),
            self.valid_node(level as int, node_ix as int),
            self.sub_ranges_ok(level as int, node_ix as int),
            self.status_ok_sub(level as int, node_ix as int),
            self.sub_in_grid(level as int, node_ix as int),
            1 <= self.width <= 0x4000_0000,
            1 <= self.height <= 0x4000_0000,
            convolution_width <= 63,
        ensures
            final(res)@.len() >= old(res)@.len(),
            forall|i: int| 0 <= i < old(res)@.len() ==> #[trigger] final(res)@[i] == old(res)@[i],
            forall|i: int|
                old(res)@.len() <= i < final(res)@.len() ==> (#[trigger] final(res)@[i]).x_start
                    <= final(res)@[i].x_end < self.width && final(res)@[i].y_start
                    <= final(res)@[i].y_end < self.height,
            forall|qx: int, qy: int|
                #![trigger rect_seq_covers(final(res)@, qx, qy)]
                rect_seq_covers(final(res)@, qx, qy) <==> rect_seq_covers(old(res)@, qx, qy) || (0
                    <= qx < self.width && 0 <= qy < self.height && self.dilated_covered_from(
                    level as int,
                    node_ix as int,
                    (convolution_width / 2) as int,
                    qx,
                    qy,
                )),
            self.node(level as int, node_ix as int).changed == Changed::Yes && !self.node(
                level as int,
                node_ix as int,
            ).empty() ==> final(res)@ == old(res)@.push(
                dilated_rect(
                    self.node(level as int, node_ix as int),
                    (convolution_width / 2) as int,
                    self.width as int,
                    self.height as int,
                ),
            ),
            self.node(level as int, node_ix as int).changed == Changed::No || (self.node(
                level as int,
                node_ix as int,
            ).changed == Changed::Yes && self.node(level as int, node_ix as int).empty())
                ==> final(res)@ == old(res)@,
        decreases self.tree@.len() - level,
    {
        let ghost llevel = level as int;
        let ghost iix = node_ix as int;
        let wh = convolution_width / 2;
        let node = self.get_node(level, node_ix);
        proof {
            lemma_desc_refl(llevel, iix);
        }
        match node.changed {
            Changed::Yes => {
                if node.x_start <= node.x_end && node.y_start <= node.y_end {
                    let x_start = clamp_start_index(node.x_start, wh);
                    let y_start = clamp_start_index(node.y_start, wh);
                    let x_end_raw = node.x_end + wh;
                    let w1 = self.width - 1;
                    let h1 = self.height - 1;
                    let x_end = if x_end_raw < w1 {
                        x_end_raw
                    } else {
                        w1
                    };
                    let y_end_raw = node.y_end + wh;
                    let y_end = if y_end_raw < h1 {
                        y_end_raw
                    } else {
                        h1
                    };
                    let rect = Rect { x_start, x_end, y_start, y_end };
                    res.push(rect);
                    proof {
                        lemma_yes_rect_exact(*self, llevel, iix, wh as int, rect);
                        assert forall|qx: int, qy: int|
                            #![trigger rect_seq_covers(final(res)@, qx, qy)]
                            rect_seq_covers(final(res)@, qx, qy) <==> rect_seq_covers(
                                old(res)@,
                                qx,
                                qy,
                            ) || rect.contains(qx, qy) by {
                            if rect_seq_covers(final(res)@, qx, qy) {
                                let i = choose|i: int|
                                    0 <= i < final(res)@.len()
                                        && (#[trigger] final(res)@[i]).contains(qx, qy);
                                if i < old(res)@.len() {
                                    assert(rect_seq_covers(old(res)@, qx, qy));
                                }
                            }
                            if rect_seq_covers(old(res)@, qx, qy) {
                                let i = choose|i: int|
                                    0 <= i < old(res)@.len()
                                        && (#[trigger] old(res)@[i]).contains(qx, qy);
                                assert(final(res)@[i].contains(qx, qy));
                            }
                            if rect.contains(qx, qy) {
                                assert(final(res)@[final(res)@.len() - 1].contains(qx, qy));
                            }
                        }
                    }
                } else {
                    proof {
                        assert forall|qx: int, qy: int| !self.covered_from(llevel, iix, qx, qy)
                            by {
                            if self.covered_from(llevel, iix, qx, qy) {
                                lemma_covered_within(*self, llevel, iix, qx, qy);
                            }
                        }
                    }
                }
            },
            Changed::No => {
                proof {
                    assert forall|qx: int, qy: int| !self.covered_from(llevel, iix, qx, qy) by {
                        lemma_no_uncovered(*self, llevel, iix, qx, qy);
                    }
                }
            },
            Changed::Partial => {
                let levels = self.tree.len();
                if level + 1 < levels {
                    proof {
                        lemma_pow4_bound_16(level as nat);
                        assert(self.tree@[llevel]@.len() == pow4(llevel as nat));
                        assert(self.tree@[llevel + 1]@.len() == pow4((llevel + 1) as nat));
                        assert(pow4((llevel + 1) as nat) == 4 * pow4(llevel as nat));
                        assert forall|k: int| 0 <= k < 4 implies #[trigger] desc(
                            llevel,
                            iix,
                            llevel + 1,
                            child_ix(iix, k),
                        ) && self.valid_node(llevel + 1, child_ix(iix, k)) by {
                            lemma_desc_child(llevel, iix, k);
                            lemma_desc_valid(llevel, iix, llevel + 1, child_ix(iix, k));
                        }
                        lemma_sub_preds_restrict(*self, llevel, iix, 0);
                        assert forall|k: int, l2: int, ix2: int|
                            0 <= k < 4 && self.valid_node(l2, ix2) && #[trigger] desc(
                                llevel + 1,
                                child_ix(iix, k),
                                l2,
                                ix2,
                            ) implies desc(llevel, iix, l2, ix2) by {
                            lemma_desc_child_trans(llevel, iix, k, l2, ix2);
                        }
                    }
                    let base = node_ix * 4;
                    let ghost r0 = res@;
                    self.get_changed_ranges(convolution_width, level + 1, base, res);
                    let ghost r1 = res@;
                    self.get_changed_ranges(convolution_width, level + 1, base + 1, res);
                    let ghost r2 = res@;
                    self.get_changed_ranges(convolution_width, level + 1, base + 2, res);
                    let ghost r3 = res@;
                    self.get_changed_ranges(convolution_width, level + 1, base + 3, res);
                    proof {
                        let r4 = res@;
                        let whi = wh as int;
                        assert forall|i: int| 0 <= i < r0.len() implies #[trigger] r4[i] == r0[i]
                            by {
                            assert(r1[i] == r0[i]);
                            assert(r2[i] == r1[i]);
                            assert(r3[i] == r2[i]);
                            assert(r4[i] == r3[i]);
                        }
                        assert forall|qx: int, qy: int|
                            #![trigger rect_seq_covers(r4, qx, qy)]
                            rect_seq_covers(r4, qx, qy) <==> rect_seq_covers(r0, qx, qy) || (0 <= qx
                                < self.width && 0 <= qy < self.height && self.dilated_covered_from(
                                llevel,
                                iix,
                                whi,
                                qx,
                                qy,
                            )) by {
                            if self.dilated_covered_from(llevel, iix, whi, qx, qy) {
                                let (px, py) = choose|px: int, py: int|
                                    #[trigger] self.covered_from(llevel, iix, px, py) && px - whi
                                        <= qx <= px + whi && py - whi <= qy <= py + whi;
                                assert(self.covered_from(llevel, iix, px, py));
                                if self.covered_from(llevel + 1, child_ix(iix, 0), px, py) {
                                    assert(self.dilated_covered_from(
                                        llevel + 1,
                                        child_ix(iix, 0),
                                        whi,
                                        qx,
                                        qy,
                                    ));
                                } else if self.covered_from(llevel + 1, child_ix(iix, 1), px, py) {
                                    assert(self.dilated_covered_from(
                                        llevel + 1,
                                        child_ix(iix, 1),
                                        whi,
                                        qx,
                                        qy,
                                    ));
                                } else if self.covered_from(llevel + 1, child_ix(iix, 2), px, py) {
                                    assert(self.dilated_covered_from(
                                        llevel + 1,
                                        child_ix(iix, 2),
                                        whi,
                                        qx,
                                        qy,
                                    ));
                                } else {
                                    assert(self.covered_from(llevel + 1, child_ix(iix, 3), px, py));
                                    assert(self.dilated_covered_from(
                                        llevel + 1,
                                        child_ix(iix, 3),
                                        whi,
                                        qx,
                                        qy,
                                    ));
                                }
                            }
                            if self.dilated_covered_from(llevel + 1, child_ix(iix, 0), whi, qx, qy) {
                                let (px, py) = choose|px: int, py: int|
                                    #[trigger] self.covered_from(llevel + 1, child_ix(iix, 0), px, py)
                                        && px - whi <= qx <= px + whi && py - whi <= qy <= py + whi;
                                assert(self.covered_from(llevel, iix, px, py));
                                assert(self.dilated_covered_from(llevel, iix, whi, qx, qy));
                            }
                            if self.dilated_covered_from(llevel + 1, child_ix(iix, 1), whi, qx, qy) {
                                let (px, py) = choose|px: int, py: int|
                                    #[trigger] self.covered_from(llevel + 1, child_ix(iix, 1), px, py)
                                        && px - whi <= qx <= px + whi && py - whi <= qy <= py + whi;
                                assert(self.covered_from(llevel, iix, px, py));
                                assert(self.dilated_covered_from(llevel, iix, whi, qx, qy));
                            }
                            if self.dilated_covered_from(llevel + 1, child_ix(iix, 2), whi, qx, qy) {
                                let (px, py) = choose|px: int, py: int|
                                    #[trigger] self.covered_from(llevel + 1, child_ix(iix, 2), px, py)
                                        && px - whi <= qx <= px + whi && py - whi <= qy <= py + whi;
                                assert(self.covered_from(llevel, iix, px, py));
                                assert(self.dilated_covered_from(llevel, iix, whi, qx, qy));
                            }
                            if self.dilated_covered_from(llevel + 1, child_ix(iix, 3), whi, qx, qy) {
                                let (px, py) = choose|px: int, py: int|
                                    #[trigger] self.covered_from(llevel + 1, child_ix(iix, 3), px, py)
                                        && px - whi <= qx <= px + whi && py - whi <= qy <= py + whi;
                                assert(self.covered_from(llevel, iix, px, py));
                                assert(self.dilated_covered_from(llevel, iix, whi, qx, qy));
                            }
                        }
                    }
                } else {
                    proof {
                        assert(self.local_status_ok(llevel, iix));
                        assert(false);
                    }
                }
            },
        }
    }

    /// The address of a node's parent: one level up, a quarter of the
    /// index.
    pub fn parent_ix(&self, level: usize, node_ix: usize) -> (r: (usize, usize))
        requires
            level >= 1,
        ensures
            r.0 == level - 1,
            r.1 == node_ix as int / 4,
    {
        (level - 1, node_ix / 4)
    }
}

/// `4^(a+b) == 4^a * 4^b`.
pub proof fn lemma_pow4_mul(a: nat, b: nat)
    ensures
        pow4(a + b) == pow4(a) * pow4(b),
    decreases a,
{
    if a == 0 {
        assert(pow4(0 + b) == 1 * pow4(b)) by (nonlinear_arith)
            requires
                pow4((0 + b) as nat) == pow4(b),
        {
        }
    } else {
        lemma_pow4_mul((a - 1) as nat, b);
        assert((a + b - 1) as nat == ((a - 1) + b) as nat);
        assert(pow4(a + b) == 4 * pow4(((a - 1) + b) as nat));
        assert(4 * (pow4((a - 1) as nat) * pow4(b)) == (4 * pow4((a - 1) as nat)) * pow4(b))
            by (nonlinear_arith)
        {
        }
    }
}

/// A covered coordinate lies inside the rectangle of the subtree's root.
pub proof fn lemma_covered_within(t: QuadTree, l: int, ix: int, x: int, y: int)
    requires
        t.sub_ranges_ok(l, ix),
        t.covered_from(l, ix, x, y),
    ensures
        t.node(l, ix).contains(x, y),
        !t.node(l, ix).empty(),
    decreases t.levels() - l,
{
    lemma_desc_refl(l, ix);
    let n = t.node(l, ix);
    if n.changed == Changed::Yes && n.contains(x, y) {
    } else {
        let k: int = if t.covered_from(l + 1, child_ix(ix, 0), x, y) {
            0
        } else if t.covered_from(l + 1, child_ix(ix, 1), x, y) {
            1
        } else if t.covered_from(l + 1, child_ix(ix, 2), x, y) {
            2
        } else {
            3
        };
        assert(t.covered_from(l + 1, child_ix(ix, k), x, y));
        lemma_desc_child(l, ix, k);
        assert forall|l2: int, ix2: int|
            t.valid_node(l2, ix2) && #[trigger] desc(l + 1, child_ix(ix, k), l2, ix2)
            implies t.local_ranges_ok(l2, ix2) by {
            lemma_desc_child_trans(l, ix, k, l2, ix2);
        }
        lemma_covered_within(t, l + 1, child_ix(ix, k), x, y);
        let c = t.node(l + 1, child_ix(ix, k));
        assert(child_range_ok(n, c, k));
        assert(!n.empty() && n.contains(x, y)) by {
            let d = (n.x_end - n.x_start) as int;
            let e = (n.y_end - n.y_start) as int;
            if !n.empty() {
                assert(0 <= d / 2 <= d && 0 <= e / 2 <= e);
            }
        }
    }
}

/// With every status `No` in the subtree nothing is covered.
pub proof fn lemma_all_no_uncovered(t: QuadTree, l: int, ix: int, x: int, y: int)
    requires
        forall|l2: int, ix2: int|
            t.valid_node(l2, ix2) ==> (#[trigger] t.node(l2, ix2)).changed == Changed::No,
    ensures
        !t.covered_from(l, ix, x, y),
    decreases t.levels() - l,
{
    if t.valid_node(l, ix) && l < t.levels() - 1 {
        lemma_all_no_uncovered(t, l + 1, child_ix(ix, 0), x, y);
        lemma_all_no_uncovered(t, l + 1, child_ix(ix, 1), x, y);
        lemma_all_no_uncovered(t, l + 1, child_ix(ix, 2), x, y);
        lemma_all_no_uncovered(t, l + 1, child_ix(ix, 3), x, y);
    }
}

/// The effect of setting the rectangle of the node at `(l, ix)` alone.
pub open spec fn rebuild_mid(
    t0: QuadTree,
    t1: QuadTree,
    l: int,
    ix: int,
    xs: int,
    xe: int,
    ys: int,
    ye: int,
) -> bool {
    &&& t1.levels() == t0.levels()
    &&& t1.width == t0.width
    &&& t1.height == t0.height
    &&& forall|l2: int|
        0 <= l2 < t0.levels() ==> (#[trigger] t1.tree@[l2])@.len() == t0.tree@[l2]@.len()
    &&& forall|l2: int, ix2: int|
        t0.valid_node(l2, ix2) && !(l2 == l && ix2 == ix) ==> #[trigger] t1.node(l2, ix2)
            == t0.node(l2, ix2)
    &&& node_has_range(t1.node(l, ix), xs, xe, ys, ye)
    &&& t1.node(l, ix).changed == t0.node(l, ix).changed
}

/// The contract of [`QuadTree::insert_ranges`]: the subtree at `(l, ix)`
/// now partitions `xs..=xe` x `ys..=ye`, statuses and all other nodes are
/// untouched, and the subtree stays inside the grid when the rectangle
/// does.
pub open spec fn ranges_rebuilt(
    pre: QuadTree,
    post: QuadTree,
    l: int,
    ix: int,
    xs: int,
    xe: int,
    ys: int,
    ye: int,
) -> bool {
    &&& post.shape_wf()
    &&& post.levels() == pre.levels()
    &&& post.width == pre.width
    &&& post.height == pre.height
    &&& forall|l2: int, ix2: int|
        pre.valid_node(l2, ix2) && !desc(l, ix, l2, ix2) ==> #[trigger] post.node(l2, ix2)
            == pre.node(l2, ix2)
    &&& forall|l2: int, ix2: int|
        pre.valid_node(l2, ix2) && #[trigger] desc(l, ix, l2, ix2) ==> post.node(l2, ix2).changed
            == pre.node(l2, ix2).changed
    &&& node_has_range(post.node(l, ix), xs, xe, ys, ye)
    &&& post.sub_ranges_ok(l, ix)
    &&& (xs <= xe && ys <= ye && xe < pre.width && ye < pre.height ==> post.sub_in_grid(l, ix))
    &&& (xs > xe || ys > ye ==> post.sub_in_grid(l, ix))
}

/// The combined hypotheses after the four child rebuilds of a split.
pub open spec fn rebuild_hyp(
    t0: QuadTree,
    t1: QuadTree,
    t2: QuadTree,
    t3: QuadTree,
    t4: QuadTree,
    tf: QuadTree,
    l: int,
    ix: int,
    xs: int,
    xe: int,
    ys: int,
    ye: int,
) -> bool {
    &&& t0.shape_wf()
    &&& t0.valid_node(l, ix)
    &&& l < t0.levels() - 1
    &&& rebuild_mid(t0, t1, l, ix, xs, xe, ys, ye)
    &&& ranges_rebuilt(
        t1,
        t2,
        l + 1,
        child_ix(ix, 0),
        child_given(xs, xe, ys, ye, 0).0,
        child_given(xs, xe, ys, ye, 0).1,
        child_given(xs, xe, ys, ye, 0).2,
        child_given(xs, xe, ys, ye, 0).3,
    )
    &&& ranges_rebuilt(
        t2,
        t3,
        l + 1,
        child_ix(ix, 1),
        child_given(xs, xe, ys, ye, 1).0,
        child_given(xs, xe, ys, ye, 1).1,
        child_given(xs, xe, ys, ye, 1).2,
        child_given(xs, xe, ys, ye, 1).3,
    )
    &&& ranges_rebuilt(
        t3,
        t4,
        l + 1,
        child_ix(ix, 2),
        child_given(xs, xe, ys, ye, 2).0,
        child_given(xs, xe, ys, ye, 2).1,
        child_given(xs, xe, ys, ye, 2).2,
        child_given(xs, xe, ys, ye, 2).3,
    )
    &&& ranges_rebuilt(
        t4,
        tf,
        l + 1,
        child_ix(ix, 3),
        child_given(xs, xe, ys, ye, 3).0,
        child_given(xs, xe, ys, ye, 3).1,
        child_given(xs, xe, ys, ye, 3).2,
        child_given(xs, xe, ys, ye, 3).3,
    )
}

/// Shared groundwork for the composition lemmas: every intermediate state
/// keeps the shape of the first, and subtree membership facts.
proof fn lemma_rebuild_shapes(
    t0: QuadTree,
    t1: QuadTree,
    t2: QuadTree,
    t3: QuadTree,
    t4: QuadTree,
    tf: QuadTree,
    l: int,
    ix: int,
    xs: int,
    xe: int,
    ys: int,
    ye: int,
)
    requires
        rebuild_hyp(t0, t1, t2, t3, t4, tf, l, ix, xs, xe, ys, ye),
    ensures
        t1.shape_wf(),
        t1.levels() == t0.levels() && t2.levels() == t0.levels() && t3.levels() == t0.levels()
            && t4.levels() == t0.levels() && tf.levels() == t0.levels(),
        tf.width == t0.width && tf.height == t0.height,
        t2.width == t0.width && t2.height == t0.height,
        t3.width == t0.width && t3.height == t0.height,
        t4.width == t0.width && t4.height == t0.height,
        forall|l2: int, ix2: int|
            #![trigger t1.valid_node(l2, ix2)]
            t0.valid_node(l2, ix2) == t1.valid_node(l2, ix2),
        forall|l2: int, ix2: int|
            #![trigger t2.valid_node(l2, ix2)]
            t0.valid_node(l2, ix2) == t2.valid_node(l2, ix2),
        forall|l2: int, ix2: int|
            #![trigger t3.valid_node(l2, ix2)]
            t0.valid_node(l2, ix2) == t3.valid_node(l2, ix2),
        forall|l2: int, ix2: int|
            #![trigger t4.valid_node(l2, ix2)]
            t0.valid_node(l2, ix2) == t4.valid_node(l2, ix2),
        forall|l2: int, ix2: int|
            #![trigger tf.valid_node(l2, ix2)]
            t0.valid_node(l2, ix2) == tf.valid_node(l2, ix2),
        desc(l, ix, l, ix),
        forall|k: int| 0 <= k < 4 ==> #[trigger] desc(l, ix, l + 1, child_ix(ix, k)),
        forall|k: int| 0 <= k < 4 ==> !(#[trigger] desc(l + 1, child_ix(ix, k), l, ix)),
{
    lemma_desc_refl(l, ix);
    assert forall|k: int| 0 <= k < 4 implies #[trigger] desc(l, ix, l + 1, child_ix(ix, k)) by {
        lemma_desc_child(l, ix, k);
    }
    assert forall|l2: int, ix2: int|
        t0.valid_node(l2, ix2) == t1.valid_node(l2, ix2) by {}
    assert(t1.shape_wf());
}

/// Composition, part 1: nodes outside the subtree keep their value.
proof fn lemma_rebuild_frame(
    t0: QuadTree,
    t1: QuadTree,
    t2: QuadTree,
    t3: QuadTree,
    t4: QuadTree,
    tf: QuadTree,
    l: int,
    ix: int,
    xs: int,
    xe: int,
    ys: int,
    ye: int,
)
    requires
        rebuild_hyp(t0, t1, t2, t3, t4, tf, l, ix, xs, xe, ys, ye),
    ensures
        forall|l2: int, ix2: int|
            t0.valid_node(l2, ix2) && !desc(l, ix, l2, ix2) ==> #[trigger] tf.node(l2, ix2)
                == t0.node(l2, ix2),
{
    lemma_rebuild_shapes(t0, t1, t2, t3, t4, tf, l, ix, xs, xe, ys, ye);
    assert forall|l2: int, ix2: int|
        t0.valid_node(l2, ix2) && !desc(l, ix, l2, ix2) implies #[trigger] tf.node(l2, ix2)
        == t0.node(l2, ix2) by {
        assert forall|k: int| 0 <= k < 4 implies !(#[trigger] desc(
            l + 1,
            child_ix(ix, k),
            l2,
            ix2,
        )) by {
            if desc(l + 1, child_ix(ix, k), l2, ix2) {
                lemma_desc_child_trans(l, ix, k, l2, ix2);
            }
        }
        assert(t1.node(l2, ix2) == t0.node(l2, ix2));
        assert(t2.node(l2, ix2) == t1.node(l2, ix2));
        assert(t3.node(l2, ix2) == t2.node(l2, ix2));
        assert(t4.node(l2, ix2) == t3.node(l2, ix2));
        assert(tf.node(l2, ix2) == t4.node(l2, ix2));
    }
}

/// Composition, part 2: every status in the subtree is preserved.
proof fn lemma_rebuild_status(
    t0: QuadTree,
    t1: QuadTree,
    t2: QuadTree,
    t3: QuadTree,
    t4: QuadTree,
    tf: QuadTree,
    l: int,
    ix: int,
    xs: int,
    xe: int,
    ys: int,
    ye: int,
)
    requires
        rebuild_hyp(t0, t1, t2, t3, t4, tf, l, ix, xs, xe, ys, ye),
    ensures
        forall|l2: int, ix2: int|
            t0.valid_node(l2, ix2) && #[trigger] desc(l, ix, l2, ix2) ==> tf.node(l2, ix2).changed
                == t0.node(l2, ix2).changed,
{
    lemma_rebuild_shapes(t0, t1, t2, t3, t4, tf, l, ix, xs, xe, ys, ye);
    assert forall|l2: int, ix2: int|
        t0.valid_node(l2, ix2) && #[trigger] desc(l, ix, l2, ix2) implies tf.node(l2, ix2).changed
        == t0.node(l2, ix2).changed by {
        if l2 == l && ix2 == ix {
            assert(t1.node(l2, ix2).changed == t0.node(l2, ix2).changed);
            assert(t2.node(l2, ix2) == t1.node(l2, ix2));
            assert(t3.node(l2, ix2) == t2.node(l2, ix2));
            assert(t4.node(l2, ix2) == t3.node(l2, ix2));
            assert(tf.node(l2, ix2) == t4.node(l2, ix2));
        } else {
            lemma_desc_split(l, ix, l2, ix2);
            let k = choose|k: int| 0 <= k < 4 && desc(l + 1, child_ix(ix, k), l2, ix2);
            assert forall|j: int| 0 <= j < 4 && j != k implies !(#[trigger] desc(
                l + 1,
                child_ix(ix, j),
                l2,
                ix2,
            )) by {
                lemma_desc_siblings(l, ix, k, j, l2, ix2);
            }
            assert(t1.node(l2, ix2) == t0.node(l2, ix2));
            if k == 0 {
                assert(t2.node(l2, ix2).changed == t1.node(l2, ix2).changed);
                assert(t3.node(l2, ix2) == t2.node(l2, ix2));
                assert(t4.node(l2, ix2) == t3.node(l2, ix2));
                assert(tf.node(l2, ix2) == t4.node(l2, ix2));
            } else if k == 1 {
                assert(t2.node(l2, ix2) == t1.node(l2, ix2));
                assert(t3.node(l2, ix2).changed == t2.node(l2, ix2).changed);
                assert(t4.node(l2, ix2) == t3.node(l2, ix2));
                assert(tf.node(l2, ix2) == t4.node(l2, ix2));
            } else if k == 2 {
                assert(t2.node(l2, ix2) == t1.node(l2, ix2));
                assert(t3.node(l2, ix2) == t2.node(l2, ix2));
                assert(t4.node(l2, ix2).changed == t3.node(l2, ix2).changed);
                assert(tf.node(l2, ix2) == t4.node(l2, ix2));
            } else {
                assert(t2.node(l2, ix2) == t1.node(l2, ix2));
                assert(t3.node(l2, ix2) == t2.node(l2, ix2));
                assert(t4.node(l2, ix2) == t3.node(l2, ix2));
                assert(tf.node(l2, ix2).changed == t4.node(l2, ix2).changed);
            }
        }
    }
}

/// Composition, part 3: the final ranges in the subtree follow the split
/// rule, and the root holds the given rectangle.
proof fn lemma_rebuild_ranges(
    t0: QuadTree,
    t1: QuadTree,
    t2: QuadTree,
    t3: QuadTree,
    t4: QuadTree,
    tf: QuadTree,
    l: int,
    ix: int,
    xs: int,
    xe: int,
    ys: int,
    ye: int,
)
    requires
        rebuild_hyp(t0, t1, t2, t3, t4, tf, l, ix, xs, xe, ys, ye),
    ensures
        node_has_range(tf.node(l, ix), xs, xe, ys, ye),
        tf.sub_ranges_ok(l, ix),
{
    lemma_rebuild_shapes(t0, t1, t2, t3, t4, tf, l, ix, xs, xe, ys, ye);
    assert(t2.node(l, ix) == t1.node(l, ix));
    assert(t3.node(l, ix) == t2.node(l, ix));
    assert(t4.node(l, ix) == t3.node(l, ix));
    assert(tf.node(l, ix) == t4.node(l, ix));
    assert forall|k: int, j: int|
        #![trigger desc(l + 1, child_ix(ix, k), l + 1, child_ix(ix, j))]
        0 <= k < 4 && 0 <= j < 4 implies (desc(l + 1, child_ix(ix, k), l + 1, child_ix(ix, j)) <==> k
        == j) by {
        lemma_desc_refl(l + 1, child_ix(ix, j));
        if k != j {
            lemma_desc_siblings(l, ix, j, k, l + 1, child_ix(ix, j));
        }
    }
    // The four children's stored rectangles in the final state.
    assert(t3.node(l + 1, child_ix(ix, 0)) == t2.node(l + 1, child_ix(ix, 0)));
    assert(t4.node(l + 1, child_ix(ix, 0)) == t3.node(l + 1, child_ix(ix, 0)));
    assert(tf.node(l + 1, child_ix(ix, 0)) == t4.node(l + 1, child_ix(ix, 0)));
    assert(t4.node(l + 1, child_ix(ix, 1)) == t3.node(l + 1, child_ix(ix, 1)));
    assert(tf.node(l + 1, child_ix(ix, 1)) == t4.node(l + 1, child_ix(ix, 1)));
    assert(tf.node(l + 1, child_ix(ix, 2)) == t4.node(l + 1, child_ix(ix, 2)));
    assert(tf.local_ranges_ok(l, ix));
    assert forall|l2: int, ix2: int|
        tf.valid_node(l2, ix2) && #[trigger] desc(l, ix, l2, ix2) implies tf.local_ranges_ok(
        l2,
        ix2,
    ) by {
        if l2 == l && ix2 == ix {
        } else {
            lemma_desc_split(l, ix, l2, ix2);
            let k = choose|k: int| 0 <= k < 4 && desc(l + 1, child_ix(ix, k), l2, ix2);
            assert forall|j: int| 0 <= j < 4 && j != k implies !(#[trigger] desc(
                l + 1,
                child_ix(ix, j),
                l2,
                ix2,
            )) by {
                lemma_desc_siblings(l, ix, k, j, l2, ix2);
            }
            assert forall|kk: int| 0 <= kk < 4 implies #[trigger] desc(
                l + 1,
                child_ix(ix, k),
                l2 + 1,
                child_ix(ix2, kk),
            ) by {
                lemma_desc_child(l2, ix2, kk);
                lemma_desc_trans(l + 1, child_ix(ix, k), l2, ix2, l2 + 1, child_ix(ix2, kk));
            }
            assert forall|j: int, kk: int|
                #![trigger desc(l + 1, child_ix(ix, j), l2 + 1, child_ix(ix2, kk))]
                0 <= j < 4 && j != k && 0 <= kk < 4 implies !desc(
                l + 1,
                child_ix(ix, j),
                l2 + 1,
                child_ix(ix2, kk),
            ) by {
                lemma_desc_siblings(l, ix, k, j, l2 + 1, child_ix(ix2, kk));
            }
            if k == 0 {
                assert(t2.local_ranges_ok(l2, ix2));
                if l2 < t0.levels() - 1 {
                    assert(t3.node(l2, ix2) == t2.node(l2, ix2));
                    assert(t4.node(l2, ix2) == t3.node(l2, ix2));
                    assert(tf.node(l2, ix2) == t4.node(l2, ix2));
                }
            } else if k == 1 {
                assert(t3.local_ranges_ok(l2, ix2));
            } else if k == 2 {
                assert(t4.local_ranges_ok(l2, ix2));
            } else {
                assert(tf.local_ranges_ok(l2, ix2));
            }
        }
    }
}

/// Composition, part 4: the subtree stays inside the grid when the given
/// rectangle does or is empty.
proof fn lemma_rebuild_in_grid(
    t0: QuadTree,
    t1: QuadTree,
    t2: QuadTree,
    t3: QuadTree,
    t4: QuadTree,
    tf: QuadTree,
    l: int,
    ix: int,
    xs: int,
    xe: int,
    ys: int,
    ye: int,
)
    requires
        rebuild_hyp(t0, t1, t2, t3, t4, tf, l, ix, xs, xe, ys, ye),
        (xs <= xe && ys <= ye && xe < t0.width && ye < t0.height) || xs > xe || ys > ye,
    ensures
        tf.sub_in_grid(l, ix),
{
    lemma_rebuild_shapes(t0, t1, t2, t3, t4, tf, l, ix, xs, xe, ys, ye);
    assert(t2.node(l, ix) == t1.node(l, ix));
    assert(t3.node(l, ix) == t2.node(l, ix));
    assert(t4.node(l, ix) == t3.node(l, ix));
    assert(tf.node(l, ix) == t4.node(l, ix));
    assert forall|l2: int, ix2: int|
        tf.valid_node(l2, ix2) && #[trigger] desc(l, ix, l2, ix2) && !tf.node(l2, ix2).empty()
        implies tf.node(l2, ix2).x_end < tf.width && tf.node(l2, ix2).y_end < tf.height by {
        if l2 == l && ix2 == ix {
        } else {
            lemma_desc_split(l, ix, l2, ix2);
            let k = choose|k: int| 0 <= k < 4 && desc(l + 1, child_ix(ix, k), l2, ix2);
            assert forall|j: int| 0 <= j < 4 && j != k implies !(#[trigger] desc(
                l + 1,
                child_ix(ix, j),
                l2,
                ix2,
            )) by {
                lemma_desc_siblings(l, ix, k, j, l2, ix2);
            }
            if k == 0 {
                assert(t2.sub_in_grid(l + 1, child_ix(ix, 0)));
                assert(t3.node(l2, ix2) == t2.node(l2, ix2));
                assert(t4.node(l2, ix2) == t3.node(l2, ix2));
                assert(tf.node(l2, ix2) == t4.node(l2, ix2));
            } else if k == 1 {
                assert(t3.sub_in_grid(l + 1, child_ix(ix, 1)));
                assert(t4.node(l2, ix2) == t3.node(l2, ix2));
                assert(tf.node(l2, ix2) == t4.node(l2, ix2));
            } else if k == 2 {
                assert(t4.sub_in_grid(l + 1, child_ix(ix, 2)));
                assert(tf.node(l2, ix2) == t4.node(l2, ix2));
            } else {
                assert(tf.sub_in_grid(l + 1, child_ix(ix, 3)));
            }
        }
    }
}

/// Composition of a rectangle write and four child rebuilds into the
/// contract of [`QuadTree::insert_ranges`].
proof fn lemma_rebuild_compose(
    t0: QuadTree,
    t1: QuadTree,
    t2: QuadTree,
    t3: QuadTree,
    t4: QuadTree,
    tf: QuadTree,
    l: int,
    ix: int,
    xs: int,
    xe: int,
    ys: int,
    ye: int,
)
    requires
        rebuild_hyp(t0, t1, t2, t3, t4, tf, l, ix, xs, xe, ys, ye),
    ensures
        ranges_rebuilt(t0, tf, l, ix, xs, xe, ys, ye),
{
    lemma_rebuild_shapes(t0, t1, t2, t3, t4, tf, l, ix, xs, xe, ys, ye);
    lemma_rebuild_frame(t0, t1, t2, t3, t4, tf, l, ix, xs, xe, ys, ye);
    lemma_rebuild_status(t0, t1, t2, t3, t4, tf, l, ix, xs, xe, ys, ye);
    lemma_rebuild_ranges(t0, t1, t2, t3, t4, tf, l, ix, xs, xe, ys, ye);
    if (xs <= xe && ys <= ye && xe < t0.width && ye < t0.height) || xs > xe || ys > ye {
        lemma_rebuild_in_grid(t0, t1, t2, t3, t4, tf, l, ix, xs, xe, ys, ye);
    }
}

/// The contract of [`QuadTree::insert`] on the subtree at `(l, ix)`:
/// rectangles and outside nodes are untouched, and every status in the
/// subtree becomes its re-aggregated insertion status.
pub open spec fn inserted_sub(pre: QuadTree, post: QuadTree, l: int, ix: int, x: int, y: int) -> bool {
    &&& post.shape_wf()
    &&& post.levels() == pre.levels()
    &&& post.width == pre.width
    &&& post.height == pre.height
    &&& forall|l2: int, ix2: int|
        pre.valid_node(l2, ix2) && !desc(l, ix, l2, ix2) ==> #[trigger] post.node(l2, ix2)
            == pre.node(l2, ix2)
    &&& forall|l2: int, ix2: int|
        pre.valid_node(l2, ix2) && #[trigger] desc(l, ix, l2, ix2) ==> post.node(
            l2,
            ix2,
        ).same_range(pre.node(l2, ix2)) && post.node(l2, ix2).changed == pre.inserted_status(
            l2,
            ix2,
            x,
            y,
        )
    &&& post.status_ok_sub(l, ix)
}

/// Under an aggregated subtree whose root is `Yes`, every node is `Yes`.
pub proof fn lemma_yes_desc(t: QuadTree, l: int, ix: int)
    requires
        t.shape_wf(),
        t.valid_node(l, ix),
        t.status_ok_sub(l, ix),
        t.node(l, ix).changed == Changed::Yes,
    ensures
        forall|l2: int, ix2: int|
            t.valid_node(l2, ix2) && #[trigger] desc(l, ix, l2, ix2) ==> t.node(l2, ix2).changed
                == Changed::Yes,
    decreases t.levels() - l,
{
    lemma_desc_refl(l, ix);
    if l < t.levels() - 1 {
        assert(t.local_status_ok(l, ix));
        assert forall|k: int| 0 <= k < 4 implies {
            &&& t.valid_node(l + 1, child_ix(ix, k))
            &&& t.node(l + 1, child_ix(ix, k)).changed == Changed::Yes
            &&& t.status_ok_sub(l + 1, child_ix(ix, k))
        } by {
            lemma_desc_child(l, ix, k);
            assert(t.tree@[l + 1]@.len() == pow4((l + 1) as nat));
            assert(pow4((l + 1) as nat) == 4 * pow4(l as nat));
            lemma_desc_valid(l, ix, l + 1, child_ix(ix, k));
            assert forall|l2: int, ix2: int|
                t.valid_node(l2, ix2) && #[trigger] desc(l + 1, child_ix(ix, k), l2, ix2)
                implies t.local_status_ok(l2, ix2) by {
                lemma_desc_child_trans(l, ix, k, l2, ix2);
            }
        }
        lemma_yes_desc(t, l + 1, child_ix(ix, 0));
        lemma_yes_desc(t, l + 1, child_ix(ix, 1));
        lemma_yes_desc(t, l + 1, child_ix(ix, 2));
        lemma_yes_desc(t, l + 1, child_ix(ix, 3));
        assert forall|l2: int, ix2: int|
            t.valid_node(l2, ix2) && #[trigger] desc(l, ix, l2, ix2) implies t.node(
            l2,
            ix2,
        ).changed == Changed::Yes by {
            if !(l2 == l && ix2 == ix) {
                lemma_desc_split(l, ix, l2, ix2);
            }
        }
    } else {
        assert forall|l2: int, ix2: int|
            t.valid_node(l2, ix2) && #[trigger] desc(l, ix, l2, ix2) implies t.node(
            l2,
            ix2,
        ).changed == Changed::Yes by {
            if !(l2 == l && ix2 == ix) {
                lemma_desc_split(l, ix, l2, ix2);
            }
        }
    }
}

/// Every non-empty rectangle in a correctly split subtree lies within the
/// rectangle of the subtree's root.
pub proof fn lemma_range_within(t: QuadTree, l: int, ix: int, l2: int, ix2: int)
    requires
        t.shape_wf(),
        t.valid_node(l, ix),
        t.sub_ranges_ok(l, ix),
        desc(l, ix, l2, ix2),
        t.valid_node(l2, ix2),
        !t.node(l2, ix2).empty(),
    ensures
        t.node(l, ix).x_start <= t.node(l2, ix2).x_start,
        t.node(l2, ix2).x_end <= t.node(l, ix).x_end,
        t.node(l, ix).y_start <= t.node(l2, ix2).y_start,
        t.node(l2, ix2).y_end <= t.node(l, ix).y_end,
        !t.node(l, ix).empty(),
    decreases l2 - l,
{
    lemma_desc_refl(l, ix);
    if l2 == l && ix2 == ix {
    } else {
        lemma_desc_split(l, ix, l2, ix2);
        let k = choose|k: int| 0 <= k < 4 && desc(l + 1, child_ix(ix, k), l2, ix2);
        assert(t.tree@[l as int]@.len() == pow4(l as nat));
        assert(t.tree@[l + 1]@.len() == pow4((l + 1) as nat));
        assert(pow4((l + 1) as nat) == 4 * pow4(l as nat));
        lemma_desc_child(l, ix, k);
        lemma_desc_valid(l, ix, l + 1, child_ix(ix, k));
        assert(t.valid_node(l + 1, child_ix(ix, k)));
        assert forall|la: int, ia: int|
            t.valid_node(la, ia) && #[trigger] desc(l + 1, child_ix(ix, k), la, ia)
            implies t.local_ranges_ok(la, ia) by {
            lemma_desc_child_trans(l, ix, k, la, ia);
        }
        lemma_range_within(t, l + 1, child_ix(ix, k), l2, ix2);
        let n = t.node(l, ix);
        let c = t.node(l + 1, child_ix(ix, k));
        assert(t.local_ranges_ok(l, ix));
        assert(child_range_ok(n, c, k));
        let d = (n.x_end - n.x_start) as int;
        let e = (n.y_end - n.y_start) as int;
        if !n.empty() {
            assert(0 <= d / 2 <= d && 0 <= e / 2 <= e);
        }
    }
}

/// The insertion status of a subtree depends only on its own nodes.
pub proof fn lemma_inserted_frame(ta: QuadTree, tb: QuadTree, l: int, ix: int, x: int, y: int)
    requires
        ta.shape_wf(),
        ta.valid_node(l, ix),
        ta.levels() == tb.levels(),
        forall|l2: int| 0 <= l2 < ta.levels() ==> (#[trigger] tb.tree@[l2])@.len()
            == ta.tree@[l2]@.len(),
        forall|l2: int, ix2: int|
            ta.valid_node(l2, ix2) && #[trigger] desc(l, ix, l2, ix2) ==> tb.node(l2, ix2)
                == ta.node(l2, ix2),
    ensures
        tb.inserted_status(l, ix, x, y) == ta.inserted_status(l, ix, x, y),
    decreases ta.levels() - l,
{
    lemma_desc_refl(l, ix);
    if l < ta.levels() - 1 {
        assert(ta.tree@[l + 1]@.len() == pow4((l + 1) as nat));
        assert(pow4((l + 1) as nat) == 4 * pow4(l as nat));
        assert forall|k: int| 0 <= k < 4 implies ta.valid_node(l + 1, child_ix(ix, k)) by {
            lemma_desc_child(l, ix, k);
            lemma_desc_valid(l, ix, l + 1, child_ix(ix, k));
        }
        assert forall|k: int, l2: int, ix2: int|
            0 <= k < 4 && ta.valid_node(l2, ix2) && #[trigger] desc(
                l + 1,
                child_ix(ix, k),
                l2,
                ix2,
            ) implies tb.node(l2, ix2) == ta.node(l2, ix2) by {
            lemma_desc_child_trans(l, ix, k, l2, ix2);
        }
        lemma_inserted_frame(ta, tb, l + 1, child_ix(ix, 0), x, y);
        lemma_inserted_frame(ta, tb, l + 1, child_ix(ix, 1), x, y);
        lemma_inserted_frame(ta, tb, l + 1, child_ix(ix, 2), x, y);
        lemma_inserted_frame(ta, tb, l + 1, child_ix(ix, 3), x, y);
    }
}

/// The split condition carries over to a tree whose subtree keeps the same
/// rectangles.
pub proof fn lemma_ranges_ok_transfer(ta: QuadTree, tb: QuadTree, l: int, ix: int)
    requires
        ta.shape_wf(),
        ta.levels() == tb.levels(),
        forall|l2: int| 0 <= l2 < ta.levels() ==> (#[trigger] tb.tree@[l2])@.len()
            == ta.tree@[l2]@.len(),
        forall|l2: int, ix2: int|
            ta.valid_node(l2, ix2) && #[trigger] desc(l, ix, l2, ix2) ==> tb.node(
                l2,
                ix2,
            ).same_range(ta.node(l2, ix2)),
        ta.sub_ranges_ok(l, ix),
    ensures
        tb.sub_ranges_ok(l, ix),
{
    assert forall|l2: int, ix2: int|
        tb.valid_node(l2, ix2) && #[trigger] desc(l, ix, l2, ix2) implies tb.local_ranges_ok(
        l2,
        ix2,
    ) by {
        assert(tb.tree@[l2]@.len() == ta.tree@[l2]@.len());
        assert(ta.valid_node(l2, ix2));
        assert(ta.local_ranges_ok(l2, ix2));
        assert(tb.node(l2, ix2).same_range(ta.node(l2, ix2)));
        if l2 < ta.levels() - 1 {
            assert(ta.tree@[l2]@.len() == pow4(l2 as nat));
            assert(ta.tree@[l2 + 1]@.len() == pow4((l2 + 1) as nat));
            assert(pow4((l2 + 1) as nat) == 4 * pow4(l2 as nat));
            assert forall|kk: int| 0 <= kk < 4 implies (#[trigger] tb.node(
                l2 + 1,
                child_ix(ix2, kk),
            )).same_range(ta.node(l2 + 1, child_ix(ix2, kk))) by {
                lemma_desc_child(l2, ix2, kk);
                lemma_desc_trans(l, ix, l2, ix2, l2 + 1, child_ix(ix2, kk));
                assert(ta.valid_node(l2 + 1, child_ix(ix2, kk)));
            }
        }
    }
}

/// The aggregation condition carries over to a tree whose subtree keeps
/// the same statuses.
pub proof fn lemma_status_ok_transfer(ta: QuadTree, tb: QuadTree, l: int, ix: int)
    requires
        ta.shape_wf(),
        ta.levels() == tb.levels(),
        forall|l2: int| 0 <= l2 < ta.levels() ==> (#[trigger] tb.tree@[l2])@.len()
            == ta.tree@[l2]@.len(),
        forall|l2: int, ix2: int|
            ta.valid_node(l2, ix2) && #[trigger] desc(l, ix, l2, ix2) ==> tb.node(l2, ix2).changed
                == ta.node(l2, ix2).changed,
        ta.status_ok_sub(l, ix),
    ensures
        tb.status_ok_sub(l, ix),
{
    assert forall|l2: int, ix2: int|
        tb.valid_node(l2, ix2) && #[trigger] desc(l, ix, l2, ix2) implies tb.local_status_ok(
        l2,
        ix2,
    ) by {
        assert(tb.tree@[l2]@.len() == ta.tree@[l2]@.len());
        assert(ta.valid_node(l2, ix2));
        assert(ta.local_status_ok(l2, ix2));
        assert(tb.node(l2, ix2).changed == ta.node(l2, ix2).changed);
        if l2 < ta.levels() - 1 {
            assert(ta.tree@[l2]@.len() == pow4(l2 as nat));
            assert(ta.tree@[l2 + 1]@.len() == pow4((l2 + 1) as nat));
            assert(pow4((l2 + 1) as nat) == 4 * pow4(l2 as nat));
            assert forall|kk: int| 0 <= kk < 4 implies (#[trigger] tb.node(
                l2 + 1,
                child_ix(ix2, kk),
            )).changed == ta.node(l2 + 1, child_ix(ix2, kk)).changed by {
                lemma_desc_child(l2, ix2, kk);
                lemma_desc_trans(l, ix, l2, ix2, l2 + 1, child_ix(ix2, kk));
                assert(ta.valid_node(l2 + 1, child_ix(ix2, kk)));
            }
        }
    }
}

/// The effect of overwriting one node's status alone.
pub open spec fn status_root_set(t4: QuadTree, tf: QuadTree, l: int, ix: int, c: Changed) -> bool {
    &&& tf.levels() == t4.levels()
    &&& tf.width == t4.width
    &&& tf.height == t4.height
    &&& forall|l2: int|
        0 <= l2 < t4.levels() ==> (#[trigger] tf.tree@[l2])@.len() == t4.tree@[l2]@.len()
    &&& forall|l2: int, ix2: int|
        t4.valid_node(l2, ix2) && !(l2 == l && ix2 == ix) ==> #[trigger] tf.node(l2, ix2)
            == t4.node(l2, ix2)
    &&& tf.node(l, ix).same_range(t4.node(l, ix))
    &&& tf.node(l, ix).changed == c
}

/// Composition of the four child insertions and the root re-aggregation
/// into the contract of [`QuadTree::insert`].
proof fn lemma_insert_compose(
    t0: QuadTree,
    t1: QuadTree,
    t2: QuadTree,
    t3: QuadTree,
    t4: QuadTree,
    tf: QuadTree,
    l: int,
    ix: int,
    x: int,
    y: int,
)
    requires
        t0.shape_wf(),
        t0.valid_node(l, ix),
        l < t0.levels() - 1,
        t0.node(l, ix).contains(x, y),
        t0.node(l, ix).changed != Changed::Yes,
        inserted_sub(t0, t1, l + 1, child_ix(ix, 0), x, y),
        inserted_sub(t1, t2, l + 1, child_ix(ix, 1), x, y),
        inserted_sub(t2, t3, l + 1, child_ix(ix, 2), x, y),
        inserted_sub(t3, t4, l + 1, child_ix(ix, 3), x, y),
        status_root_set(
            t4,
            tf,
            l,
            ix,
            combine(
                t4.node(l + 1, child_ix(ix, 0)).changed,
                t4.node(l + 1, child_ix(ix, 1)).changed,
                t4.node(l + 1, child_ix(ix, 2)).changed,
                t4.node(l + 1, child_ix(ix, 3)).changed,
            ),
        ),
    ensures
        inserted_sub(t0, tf, l, ix, x, y),
{
    lemma_desc_refl(l, ix);
    assert(t0.tree@[l as int]@.len() == pow4(l as nat));
    assert(t0.tree@[l + 1]@.len() == pow4((l + 1) as nat));
    assert(pow4((l + 1) as nat) == 4 * pow4(l as nat));
    assert forall|k: int| 0 <= k < 4 implies #[trigger] desc(l, ix, l + 1, child_ix(ix, k))
        && t0.valid_node(l + 1, child_ix(ix, k)) by {
        lemma_desc_child(l, ix, k);
        lemma_desc_valid(l, ix, l + 1, child_ix(ix, k));
    }
    assert forall|l2: int, ix2: int, j: int, k: int|
        #![trigger desc(l + 1, child_ix(ix, j), l2, ix2), child_ix(ix, k)]
        0 <= j < 4 && 0 <= k < 4 && j != k && desc(l + 1, child_ix(ix, j), l2, ix2)
        implies !desc(l + 1, child_ix(ix, k), l2, ix2) by {
        lemma_desc_siblings(l, ix, j, k, l2, ix2);
    }
    assert forall|k: int| 0 <= k < 4 implies !(#[trigger] desc(l + 1, child_ix(ix, k), l, ix))
        by {}
    // Frame: nodes outside the subtree are unchanged.
    assert forall|l2: int, ix2: int|
        t0.valid_node(l2, ix2) && !desc(l, ix, l2, ix2) implies #[trigger] tf.node(l2, ix2)
        == t0.node(l2, ix2) by {
        assert forall|k: int| 0 <= k < 4 implies !(#[trigger] desc(
            l + 1,
            child_ix(ix, k),
            l2,
            ix2,
        )) by {
            if desc(l + 1, child_ix(ix, k), l2, ix2) {
                lemma_desc_child_trans(l, ix, k, l2, ix2);
            }
        }
        assert(t1.node(l2, ix2) == t0.node(l2, ix2));
        assert(t2.node(l2, ix2) == t1.node(l2, ix2));
        assert(t3.node(l2, ix2) == t2.node(l2, ix2));
        assert(t4.node(l2, ix2) == t3.node(l2, ix2));
        assert(tf.node(l2, ix2) == t4.node(l2, ix2));
    }
    // The four children's post-call statuses, rebased to the entry state.
    assert forall|k: int| 0 <= k < 4 implies (#[trigger] t4.node(l + 1, child_ix(ix, k))).changed
        == t0.inserted_status(l + 1, child_ix(ix, k), x, y) && t4.node(
        l + 1,
        child_ix(ix, k),
    ).same_range(t0.node(l + 1, child_ix(ix, k))) by {
        lemma_desc_refl(l + 1, child_ix(ix, k));
        if k == 0 {
            assert(t1.node(l + 1, child_ix(ix, 0)).changed == t0.inserted_status(
                l + 1,
                child_ix(ix, 0),
                x,
                y,
            ));
            assert(t2.node(l + 1, child_ix(ix, 0)) == t1.node(l + 1, child_ix(ix, 0)));
            assert(t3.node(l + 1, child_ix(ix, 0)) == t2.node(l + 1, child_ix(ix, 0)));
            assert(t4.node(l + 1, child_ix(ix, 0)) == t3.node(l + 1, child_ix(ix, 0)));
        } else if k == 1 {
            assert(t1.node(l + 1, child_ix(ix, 1)) == t0.node(l + 1, child_ix(ix, 1)));
            lemma_inserted_frame(t0, t1, l + 1, child_ix(ix, 1), x, y);
            assert(t2.node(l + 1, child_ix(ix, 1)).changed == t1.inserted_status(
                l + 1,
                child_ix(ix, 1),
                x,
                y,
            ));
            assert(t3.node(l + 1, child_ix(ix, 1)) == t2.node(l + 1, child_ix(ix, 1)));
            assert(t4.node(l + 1, child_ix(ix, 1)) == t3.node(l + 1, child_ix(ix, 1)));
        } else if k == 2 {
            assert forall|l2: int, ix2: int|
                t0.valid_node(l2, ix2) && #[trigger] desc(l + 1, child_ix(ix, 2), l2, ix2)
                implies t2.node(l2, ix2) == t0.node(l2, ix2) by {
                assert(t1.node(l2, ix2) == t0.node(l2, ix2));
                assert(t2.node(l2, ix2) == t1.node(l2, ix2));
            }
            lemma_inserted_frame(t0, t2, l + 1, child_ix(ix, 2), x, y);
            assert(t3.node(l + 1, child_ix(ix, 2)).changed == t2.inserted_status(
                l + 1,
                child_ix(ix, 2),
                x,
                y,
            ));
            assert(t4.node(l + 1, child_ix(ix, 2)) == t3.node(l + 1, child_ix(ix, 2)));
        } else {
            assert forall|l2: int, ix2: int|
                t0.valid_node(l2, ix2) && #[trigger] desc(l + 1, child_ix(ix, 3), l2, ix2)
                implies t3.node(l2, ix2) == t0.node(l2, ix2) by {
                assert(t1.node(l2, ix2) == t0.node(l2, ix2));
                assert(t2.node(l2, ix2) == t1.node(l2, ix2));
                assert(t3.node(l2, ix2) == t2.node(l2, ix2));
            }
            lemma_inserted_frame(t0, t3, l + 1, child_ix(ix, 3), x, y);
            assert(t4.node(l + 1, child_ix(ix, 3)).changed == t3.inserted_status(
                l + 1,
                child_ix(ix, 3),
                x,
                y,
            ));
        }
        assert(tf.node(l + 1, child_ix(ix, k)) == t4.node(l + 1, child_ix(ix, k)));
    }
    // The root's new status is its re-aggregated insertion status.
    assert(tf.node(l, ix).changed == t0.inserted_status(l, ix, x, y));
    // Every deeper node carries its insertion status.
    assert forall|l2: int, ix2: int|
        t0.valid_node(l2, ix2) && #[trigger] desc(l, ix, l2, ix2) implies tf.node(
        l2,
        ix2,
    ).same_range(t0.node(l2, ix2)) && tf.node(l2, ix2).changed == t0.inserted_status(
        l2,
        ix2,
        x,
        y,
    ) by {
        if l2 == l && ix2 == ix {
        } else {
            lemma_desc_split(l, ix, l2, ix2);
            let k = choose|k: int| 0 <= k < 4 && desc(l + 1, child_ix(ix, k), l2, ix2);
            assert forall|j: int| 0 <= j < 4 && j != k implies !(#[trigger] desc(
                l + 1,
                child_ix(ix, j),
                l2,
                ix2,
            )) by {
                lemma_desc_siblings(l, ix, k, j, l2, ix2);
            }
            lemma_desc_valid(l, ix, l2, ix2);
            assert forall|la: int, ia: int|
                t0.valid_node(la, ia) && #[trigger] desc(l2, ix2, la, ia) ==> desc(
                    l + 1,
                    child_ix(ix, k),
                    la,
                    ia,
                ) by {
                if t0.valid_node(la, ia) && desc(l2, ix2, la, ia) {
                    lemma_desc_trans(l + 1, child_ix(ix, k), l2, ix2, la, ia);
                }
            }
            if k == 0 {
                assert(t1.node(l2, ix2).same_range(t0.node(l2, ix2)));
                assert(t1.node(l2, ix2).changed == t0.inserted_status(l2, ix2, x, y));
                assert(t2.node(l2, ix2) == t1.node(l2, ix2));
                assert(t3.node(l2, ix2) == t2.node(l2, ix2));
                assert(t4.node(l2, ix2) == t3.node(l2, ix2));
            } else if k == 1 {
                assert forall|la: int, ia: int|
                    t0.valid_node(la, ia) && #[trigger] desc(l2, ix2, la, ia)
                    implies t1.node(la, ia) == t0.node(la, ia) by {}
                lemma_inserted_frame(t0, t1, l2, ix2, x, y);
                assert(t1.node(l2, ix2) == t0.node(l2, ix2));
                assert(t2.node(l2, ix2).changed == t1.inserted_status(l2, ix2, x, y));
                assert(t2.node(l2, ix2).same_range(t1.node(l2, ix2)));
                assert(t3.node(l2, ix2) == t2.node(l2, ix2));
                assert(t4.node(l2, ix2) == t3.node(l2, ix2));
            } else if k == 2 {
                assert forall|la: int, ia: int|
                    t0.valid_node(la, ia) && #[trigger] desc(l2, ix2, la, ia)
                    implies t2.node(la, ia) == t0.node(la, ia) by {
                    assert(t1.node(la, ia) == t0.node(la, ia));
                    assert(t2.node(la, ia) == t1.node(la, ia));
                }
                lemma_inserted_frame(t0, t2, l2, ix2, x, y);
                assert(t2.node(l2, ix2) == t0.node(l2, ix2));
                assert(t3.node(l2, ix2).changed == t2.inserted_status(l2, ix2, x, y));
                assert(t3.node(l2, ix2).same_range(t2.node(l2, ix2)));
                assert(t4.node(l2, ix2) == t3.node(l2, ix2));
            } else {
                assert forall|la: int, ia: int|
                    t0.valid_node(la, ia) && #[trigger] desc(l2, ix2, la, ia)
                    implies t3.node(la, ia) == t0.node(la, ia) by {
                    assert(t1.node(la, ia) == t0.node(la, ia));
                    assert(t2.node(la, ia) == t1.node(la, ia));
                    assert(t3.node(la, ia) == t2.node(la, ia));
                }
                lemma_inserted_frame(t0, t3, l2, ix2, x, y);
                assert(t3.node(l2, ix2) == t0.node(l2, ix2));
                assert(t4.node(l2, ix2).changed == t3.inserted_status(l2, ix2, x, y));
                assert(t4.node(l2, ix2).same_range(t3.node(l2, ix2)));
            }
            assert(tf.node(l2, ix2) == t4.node(l2, ix2));
        }
    }
    // Aggregation holds in the final subtree.
    assert forall|l2: int, ix2: int|
        tf.valid_node(l2, ix2) && #[trigger] desc(l, ix, l2, ix2) implies tf.local_status_ok(
        l2,
        ix2,
    ) by {
        assert(t4.tree@[l2]@.len() == t0.tree@[l2]@.len());
        if l2 == l && ix2 == ix {
            assert(tf.local_status_ok(l2, ix2));
        } else {
            lemma_desc_split(l, ix, l2, ix2);
            let k = choose|k: int| 0 <= k < 4 && desc(l + 1, child_ix(ix, k), l2, ix2);
            assert forall|j: int| 0 <= j < 4 && j != k implies !(#[trigger] desc(
                l + 1,
                child_ix(ix, j),
                l2,
                ix2,
            )) by {
                lemma_desc_siblings(l, ix, k, j, l2, ix2);
            }
            if k == 0 {
                assert forall|la: int, ia: int|
                    t1.valid_node(la, ia) && #[trigger] desc(l + 1, child_ix(ix, 0), la, ia)
                    implies tf.node(la, ia).changed == t1.node(la, ia).changed by {
                    assert(t0.valid_node(la, ia));
                    assert(t2.node(la, ia) == t1.node(la, ia));
                    assert(t3.node(la, ia) == t2.node(la, ia));
                    assert(t4.node(la, ia) == t3.node(la, ia));
                    assert(tf.node(la, ia) == t4.node(la, ia));
                }
                lemma_status_ok_transfer(t1, tf, l + 1, child_ix(ix, 0));
            } else if k == 1 {
                assert forall|la: int, ia: int|
                    t2.valid_node(la, ia) && #[trigger] desc(l + 1, child_ix(ix, 1), la, ia)
                    implies tf.node(la, ia).changed == t2.node(la, ia).changed by {
                    assert(t0.valid_node(la, ia));
                    assert(t3.node(la, ia) == t2.node(la, ia));
                    assert(t4.node(la, ia) == t3.node(la, ia));
                    assert(tf.node(la, ia) == t4.node(la, ia));
                }
                lemma_status_ok_transfer(t2, tf, l + 1, child_ix(ix, 1));
            } else if k == 2 {
                assert forall|la: int, ia: int|
                    t3.valid_node(la, ia) && #[trigger] desc(l + 1, child_ix(ix, 2), la, ia)
                    implies tf.node(la, ia).changed == t3.node(la, ia).changed by {
                    assert(t0.valid_node(la, ia));
                    assert(t4.node(la, ia) == t3.node(la, ia));
                    assert(tf.node(la, ia) == t4.node(la, ia));
                }
                lemma_status_ok_transfer(t3, tf, l + 1, child_ix(ix, 2));
            } else {
                assert forall|la: int, ia: int|
                    t4.valid_node(la, ia) && #[trigger] desc(l + 1, child_ix(ix, 3), la, ia)
                    implies tf.node(la, ia).changed == t4.node(la, ia).changed by {
                    assert(t0.valid_node(la, ia));
                    assert(tf.node(la, ia) == t4.node(la, ia));
                }
                lemma_status_ok_transfer(t4, tf, l + 1, child_ix(ix, 3));
            }
        }
    }
}


/// Subtree split and aggregation conditions restrict from a node to each
/// of its children.
pub proof fn lemma_sub_preds_restrict(t: QuadTree, l: int, ix: int, k: int)
    requires
        t.shape_wf(),
        t.valid_node(l, ix),
        l < t.levels() - 1,
        t.sub_ranges_ok(l, ix),
        t.status_ok_sub(l, ix),
    ensures
        forall|k2: int|
            0 <= k2 < 4 ==> t.sub_ranges_ok(l + 1, child_ix(ix, k2)) && t.status_ok_sub(
                l + 1,
                #[trigger] child_ix(ix, k2),
            ),
{
    assert forall|k2: int|
        0 <= k2 < 4 implies t.sub_ranges_ok(l + 1, child_ix(ix, k2)) && t.status_ok_sub(
        l + 1,
        #[trigger] child_ix(ix, k2),
    ) by {
        assert forall|l2: int, ix2: int|
            t.valid_node(l2, ix2) && #[trigger] desc(l + 1, child_ix(ix, k2), l2, ix2)
            implies t.local_ranges_ok(l2, ix2) && t.local_status_ok(l2, ix2) by {
            lemma_desc_child_trans(l, ix, k2, l2, ix2);
        }
    }
}

/// After an insertion at the root the whole-tree invariant still holds.
pub proof fn lemma_insert_wf_root(t0: QuadTree, tf: QuadTree, l: int, ix: int, x: int, y: int)
    requires
        inserted_sub(t0, tf, l, ix, x, y),
        t0.shape_wf(),
        t0.valid_node(l, ix),
        t0.sub_ranges_ok(l, ix),
    ensures
        tf.sub_ranges_ok(l, ix),
        t0.wf() && l == 0 && ix == 0 ==> tf.wf(),
{
    assert forall|l2: int, ix2: int|
        t0.valid_node(l2, ix2) && #[trigger] desc(l, ix, l2, ix2) ==> tf.node(l2, ix2).same_range(
            t0.node(l2, ix2),
        ) by {}
    lemma_ranges_ok_transfer(t0, tf, l, ix);
    if t0.wf() && l == 0 && ix == 0 {
        lemma_desc_refl(0, 0);
        assert(tf.node(0, 0).same_range(t0.node(0, 0)));
        assert forall|l2: int, ix2: int|
            tf.valid_node(l2, ix2) && #[trigger] desc(0, 0, l2, ix2) && !tf.node(l2, ix2).empty()
            implies tf.node(l2, ix2).x_end < tf.width && tf.node(l2, ix2).y_end < tf.height by {
            assert(t0.tree@[l2]@.len() == tf.tree@[l2]@.len());
            assert(t0.valid_node(l2, ix2));
            assert(tf.node(l2, ix2).same_range(t0.node(l2, ix2)));
        }
        assert(tf.wf());
    }
}

/// Preconditions for the second child insertion.
proof fn lemma_child_call_pre1(t0: QuadTree, t1: QuadTree, l: int, ix: int, x: int, y: int)
    requires
        t0.shape_wf(),
        t0.valid_node(l, ix),
        l < t0.levels() - 1,
        t0.sub_ranges_ok(l, ix),
        t0.status_ok_sub(l, ix),
        inserted_sub(t0, t1, l + 1, child_ix(ix, 0), x, y),
    ensures
        t1.valid_node(l + 1, child_ix(ix, 1)),
        t1.sub_ranges_ok(l + 1, child_ix(ix, 1)),
        t1.status_ok_sub(l + 1, child_ix(ix, 1)),
{
    lemma_insert_pre_common(t0, t1, l, ix, 1);
}

/// Preconditions for the third child insertion.
proof fn lemma_child_call_pre2(
    t0: QuadTree,
    t1: QuadTree,
    t2: QuadTree,
    l: int,
    ix: int,
    x: int,
    y: int,
)
    requires
        t0.shape_wf(),
        t0.valid_node(l, ix),
        l < t0.levels() - 1,
        t0.sub_ranges_ok(l, ix),
        t0.status_ok_sub(l, ix),
        inserted_sub(t0, t1, l + 1, child_ix(ix, 0), x, y),
        inserted_sub(t1, t2, l + 1, child_ix(ix, 1), x, y),
    ensures
        t2.valid_node(l + 1, child_ix(ix, 2)),
        t2.sub_ranges_ok(l + 1, child_ix(ix, 2)),
        t2.status_ok_sub(l + 1, child_ix(ix, 2)),
{
    assert forall|l2: int, ix2: int|
        t0.valid_node(l2, ix2) && #[trigger] desc(l + 1, child_ix(ix, 2), l2, ix2)
        implies t2.node(l2, ix2) == t0.node(l2, ix2) by {
        lemma_desc_siblings(l, ix, 2, 0, l2, ix2);
        lemma_desc_siblings(l, ix, 2, 1, l2, ix2);
        assert(t1.node(l2, ix2) == t0.node(l2, ix2));
        assert(t2.node(l2, ix2) == t1.node(l2, ix2));
    }
    lemma_insert_pre_common(t0, t2, l, ix, 2);
}

/// Preconditions for the fourth child insertion.
proof fn lemma_child_call_pre3(
    t0: QuadTree,
    t1: QuadTree,
    t2: QuadTree,
    t3: QuadTree,
    l: int,
    ix: int,
    x: int,
    y: int,
)
    requires
        t0.shape_wf(),
        t0.valid_node(l, ix),
        l < t0.levels() - 1,
        t0.sub_ranges_ok(l, ix),
        t0.status_ok_sub(l, ix),
        inserted_sub(t0, t1, l + 1, child_ix(ix, 0), x, y),
        inserted_sub(t1, t2, l + 1, child_ix(ix, 1), x, y),
        inserted_sub(t2, t3, l + 1, child_ix(ix, 2), x, y),
    ensures
        t3.valid_node(l + 1, child_ix(ix, 3)),
        t3.sub_ranges_ok(l + 1, child_ix(ix, 3)),
        t3.status_ok_sub(l + 1, child_ix(ix, 3)),
{
    assert forall|l2: int, ix2: int|
        t0.valid_node(l2, ix2) && #[trigger] desc(l + 1, child_ix(ix, 3), l2, ix2)
        implies t3.node(l2, ix2) == t0.node(l2, ix2) by {
        lemma_desc_siblings(l, ix, 3, 0, l2, ix2);
        lemma_desc_siblings(l, ix, 3, 1, l2, ix2);
        lemma_desc_siblings(l, ix, 3, 2, l2, ix2);
        assert(t1.node(l2, ix2) == t0.node(l2, ix2));
        assert(t2.node(l2, ix2) == t1.node(l2, ix2));
        assert(t3.node(l2, ix2) == t2.node(l2, ix2));
    }
    lemma_insert_pre_common(t0, t3, l, ix, 3);
}

/// Shared tail: a state agreeing with the entry state on child `k`'s
/// subtree satisfies that child's call preconditions.
proof fn lemma_insert_pre_common(t0: QuadTree, tk: QuadTree, l: int, ix: int, k: int)
    requires
        t0.shape_wf(),
        t0.valid_node(l, ix),
        l < t0.levels() - 1,
        t0.sub_ranges_ok(l, ix),
        t0.status_ok_sub(l, ix),
        0 <= k < 4,
        tk.levels() == t0.levels(),
        forall|l2: int| 0 <= l2 < t0.levels() ==> (#[trigger] tk.tree@[l2])@.len()
            == t0.tree@[l2]@.len(),
        forall|l2: int, ix2: int|
            t0.valid_node(l2, ix2) && #[trigger] desc(l + 1, child_ix(ix, k), l2, ix2)
                ==> tk.node(l2, ix2) == t0.node(l2, ix2),
    ensures
        tk.valid_node(l + 1, child_ix(ix, k)),
        tk.sub_ranges_ok(l + 1, child_ix(ix, k)),
        tk.status_ok_sub(l + 1, child_ix(ix, k)),
{
    assert(t0.tree@[l as int]@.len() == pow4(l as nat));
    assert(t0.tree@[l + 1]@.len() == pow4((l + 1) as nat));
    assert(pow4((l + 1) as nat) == 4 * pow4(l as nat));
    lemma_desc_child(l, ix, k);
    lemma_desc_valid(l, ix, l + 1, child_ix(ix, k));
    assert(t0.valid_node(l + 1, child_ix(ix, k)));
    assert forall|l2: int, ix2: int|
        t0.valid_node(l2, ix2) && #[trigger] desc(l + 1, child_ix(ix, k), l2, ix2)
        implies t0.local_ranges_ok(l2, ix2) && t0.local_status_ok(l2, ix2) by {
        lemma_desc_child_trans(l, ix, k, l2, ix2);
    }
    lemma_ranges_ok_transfer(t0, tk, l + 1, child_ix(ix, k));
    lemma_status_ok_transfer(t0, tk, l + 1, child_ix(ix, k));
}

/// Under an aggregated subtree whose root is `No`, nothing is covered.
pub proof fn lemma_no_uncovered(t: QuadTree, l: int, ix: int, x: int, y: int)
    requires
        t.shape_wf(),
        t.valid_node(l, ix),
        t.status_ok_sub(l, ix),
        t.node(l, ix).changed == Changed::No,
    ensures
        !t.covered_from(l, ix, x, y),
    decreases t.levels() - l,
{
    lemma_desc_refl(l, ix);
    assert(t.local_status_ok(l, ix));
    if l < t.levels() - 1 {
        assert(t.tree@[l as int]@.len() == pow4(l as nat));
        assert(t.tree@[l + 1]@.len() == pow4((l + 1) as nat));
        assert(pow4((l + 1) as nat) == 4 * pow4(l as nat));
        assert forall|k: int| 0 <= k < 4 implies t.valid_node(l + 1, child_ix(ix, k))
            && t.node(l + 1, child_ix(ix, k)).changed == Changed::No && t.status_ok_sub(
            l + 1,
            #[trigger] child_ix(ix, k),
        ) by {
            lemma_desc_child(l, ix, k);
            lemma_desc_valid(l, ix, l + 1, child_ix(ix, k));
            assert forall|l2: int, ix2: int|
                t.valid_node(l2, ix2) && #[trigger] desc(l + 1, child_ix(ix, k), l2, ix2)
                implies t.local_status_ok(l2, ix2) by {
                lemma_desc_child_trans(l, ix, k, l2, ix2);
            }
        }
        lemma_no_uncovered(t, l + 1, child_ix(ix, 0), x, y);
        lemma_no_uncovered(t, l + 1, child_ix(ix, 1), x, y);
        lemma_no_uncovered(t, l + 1, child_ix(ix, 2), x, y);
        lemma_no_uncovered(t, l + 1, child_ix(ix, 3), x, y);
    }
}

/// Inserting into a subtree whose root is already `Yes` changes nothing.
proof fn lemma_insert_noop_yes(t: QuadTree, l: int, ix: int, x: int, y: int)
    requires
        t.shape_wf(),
        t.valid_node(l, ix),
        t.status_ok_sub(l, ix),
        t.node(l, ix).changed == Changed::Yes,
    ensures
        inserted_sub(t, t, l, ix, x, y),
{
    lemma_yes_desc(t, l, ix);
    assert forall|l2: int, ix2: int|
        t.valid_node(l2, ix2) && #[trigger] desc(l, ix, l2, ix2) implies t.node(l2, ix2).changed
        == t.inserted_status(l2, ix2, x, y) by {}
}

/// Inserting a coordinate outside the subtree's rectangle changes
/// nothing.
proof fn lemma_insert_noop_out(t: QuadTree, l: int, ix: int, x: int, y: int)
    requires
        t.shape_wf(),
        t.valid_node(l, ix),
        t.sub_ranges_ok(l, ix),
        t.status_ok_sub(l, ix),
        !t.node(l, ix).contains(x, y),
    ensures
        inserted_sub(t, t, l, ix, x, y),
{
    assert forall|l2: int, ix2: int|
        t.valid_node(l2, ix2) && #[trigger] desc(l, ix, l2, ix2) implies t.node(l2, ix2).changed
        == t.inserted_status(l2, ix2, x, y) by {
        if !t.node(l2, ix2).empty() {
            lemma_range_within(t, l, ix, l2, ix2);
        }
        assert(!t.node(l2, ix2).contains(x, y));
    }
}

/// Marking a leaf that holds the coordinate completes the insertion.
proof fn lemma_insert_leaf(t0: QuadTree, tf: QuadTree, l: int, ix: int, x: int, y: int)
    requires
        t0.shape_wf(),
        t0.valid_node(l, ix),
        t0.status_ok_sub(l, ix),
        l == t0.levels() - 1,
        t0.node(l, ix).contains(x, y),
        t0.node(l, ix).changed != Changed::Yes,
        status_root_set(t0, tf, l, ix, Changed::Yes),
    ensures
        inserted_sub(t0, tf, l, ix, x, y),
{
    lemma_desc_refl(l, ix);
    assert forall|l2: int, ix2: int|
        tf.valid_node(l2, ix2) && #[trigger] desc(l, ix, l2, ix2) implies l2 == l && ix2 == ix by {
        assert(tf.tree@[l2]@.len() == t0.tree@[l2]@.len());
        if !(l2 == l && ix2 == ix) {
            lemma_desc_split(l, ix, l2, ix2);
        }
    }
    assert forall|l2: int, ix2: int|
        t0.valid_node(l2, ix2) && #[trigger] desc(l, ix, l2, ix2) implies l2 == l && ix2 == ix by {
        if !(l2 == l && ix2 == ix) {
            lemma_desc_split(l, ix, l2, ix2);
        }
    }
}

/// The start of a dilated rectangle: `wh` below `ix`, clamped at zero.
pub fn clamp_start_index(ix: usize, wh: usize) -> (r: usize)
    ensures
        r == (if ix as int - wh as int >= 0 {
            ix as int - wh as int
        } else {
            0int
        }),
{
    if ix < wh {
        0
    } else {
        ix - wh
    }
}

/// The rectangle emitted for a non-empty `Yes` node holds exactly the
/// in-grid coordinates within Chebyshev distance `wh` of the subtree's
/// covered coordinates.
proof fn lemma_yes_rect_exact(t: QuadTree, l: int, ix: int, wh: int, rect: Rect)
    requires
        t.shape_wf(),
        t.valid_node(l, ix),
        t.sub_ranges_ok(l, ix),
        t.status_ok_sub(l, ix),
        t.sub_in_grid(l, ix),
        1 <= t.width,
        1 <= t.height,
        0 <= wh,
        t.node(l, ix).changed == Changed::Yes,
        !t.node(l, ix).empty(),
        rect.x_start == (if t.node(l, ix).x_start - wh >= 0 {
            t.node(l, ix).x_start - wh
        } else {
            0int
        }),
        rect.y_start == (if t.node(l, ix).y_start - wh >= 0 {
            t.node(l, ix).y_start - wh
        } else {
            0int
        }),
        rect.x_end == (if t.node(l, ix).x_end + wh < t.width - 1 {
            t.node(l, ix).x_end + wh
        } else {
            t.width - 1
        }),
        rect.y_end == (if t.node(l, ix).y_end + wh < t.height - 1 {
            t.node(l, ix).y_end + wh
        } else {
            t.height - 1
        }),
    ensures
        forall|qx: int, qy: int|
            #![trigger rect.contains(qx, qy)]
            rect.contains(qx, qy) <==> (0 <= qx < t.width && 0 <= qy < t.height
                && t.dilated_covered_from(l, ix, wh, qx, qy)),
{
    lemma_desc_refl(l, ix);
    let n = t.node(l, ix);
    assert forall|qx: int, qy: int|
        #![trigger rect.contains(qx, qy)]
        rect.contains(qx, qy) <==> (0 <= qx < t.width && 0 <= qy < t.height
            && t.dilated_covered_from(l, ix, wh, qx, qy)) by {
        if rect.contains(qx, qy) {
            let px: int = if qx < n.x_start {
                n.x_start as int
            } else if qx > n.x_end {
                n.x_end as int
            } else {
                qx
            };
            let py: int = if qy < n.y_start {
                n.y_start as int
            } else if qy > n.y_end {
                n.y_end as int
            } else {
                qy
            };
            assert(n.contains(px, py));
            assert(t.covered_from(l, ix, px, py));
            assert(px - wh <= qx <= px + wh && py - wh <= qy <= py + wh);
            assert(t.dilated_covered_from(l, ix, wh, qx, qy));
        }
        if 0 <= qx < t.width && 0 <= qy < t.height && t.dilated_covered_from(l, ix, wh, qx, qy) {
            let (px, py) = choose|px: int, py: int|
                #[trigger] t.covered_from(l, ix, px, py) && px - wh <= qx <= px + wh && py - wh
                    <= qy <= py + wh;
            lemma_covered_within(t, l, ix, px, py);
            assert(rect.contains(qx, qy));
        }
    }
}

/// A coordinate inside a split node lies inside one of its children.
proof fn lemma_children_cover(t: QuadTree, l: int, ix: int, qx: int, qy: int)
    requires
        t.shape_wf(),
        t.valid_node(l, ix),
        t.sub_ranges_ok(l, ix),
        l < t.levels() - 1,
        t.node(l, ix).contains(qx, qy),
    ensures
        exists|k: int|
            0 <= k < 4 && (#[trigger] t.node(l + 1, child_ix(ix, k))).contains(qx, qy),
{
    lemma_desc_refl(l, ix);
    assert(t.local_ranges_ok(l, ix));
    let n = t.node(l, ix);
    let xs = n.x_start as int;
    let xe = n.x_end as int;
    let ys = n.y_start as int;
    let ye = n.y_end as int;
    let xh = xs + (xe - xs) / 2;
    let yh = ys + (ye - ys) / 2;
    assert(0 <= (xe - xs) / 2 <= xe - xs && 0 <= (ye - ys) / 2 <= ye - ys);
    if qx <= xh && qy <= yh {
        assert(t.node(l + 1, child_ix(ix, 0)).contains(qx, qy));
    } else if qx > xh && qy <= yh {
        assert(t.node(l + 1, child_ix(ix, 1)).contains(qx, qy));
    } else if qx <= xh && qy > yh {
        assert(t.node(l + 1, child_ix(ix, 2)).contains(qx, qy));
    } else {
        assert(t.node(l + 1, child_ix(ix, 3)).contains(qx, qy));
    }
}

/// Coverage of a subtree depends only on its own nodes.
pub proof fn lemma_covered_frame(ta: QuadTree, tb: QuadTree, l: int, ix: int, x: int, y: int)
    requires
        ta.shape_wf(),
        ta.valid_node(l, ix),
        ta.levels() == tb.levels(),
        forall|l2: int| 0 <= l2 < ta.levels() ==> (#[trigger] tb.tree@[l2])@.len()
            == ta.tree@[l2]@.len(),
        forall|l2: int, ix2: int|
            ta.valid_node(l2, ix2) && #[trigger] desc(l, ix, l2, ix2) ==> tb.node(l2, ix2)
                == ta.node(l2, ix2),
    ensures
        tb.covered_from(l, ix, x, y) == ta.covered_from(l, ix, x, y),
    decreases ta.levels() - l,
{
    lemma_desc_refl(l, ix);
    if l < ta.levels() - 1 {
        assert(ta.tree@[l as int]@.len() == pow4(l as nat));
        assert(ta.tree@[l + 1]@.len() == pow4((l + 1) as nat));
        assert(pow4((l + 1) as nat) == 4 * pow4(l as nat));
        assert forall|k: int| 0 <= k < 4 implies ta.valid_node(l + 1, child_ix(ix, k)) by {
            lemma_desc_child(l, ix, k);
            lemma_desc_valid(l, ix, l + 1, child_ix(ix, k));
        }
        assert forall|k: int, l2: int, ix2: int|
            0 <= k < 4 && ta.valid_node(l2, ix2) && #[trigger] desc(
                l + 1,
                child_ix(ix, k),
                l2,
                ix2,
            ) implies tb.node(l2, ix2) == ta.node(l2, ix2) by {
            lemma_desc_child_trans(l, ix, k, l2, ix2);
        }
        lemma_covered_frame(ta, tb, l + 1, child_ix(ix, 0), x, y);
        lemma_covered_frame(ta, tb, l + 1, child_ix(ix, 1), x, y);
        lemma_covered_frame(ta, tb, l + 1, child_ix(ix, 2), x, y);
        lemma_covered_frame(ta, tb, l + 1, child_ix(ix, 3), x, y);
    }
}

/// How an insertion changes the covered set: it can only grow; the
/// inserted coordinate becomes covered; and any newly covered coordinate
/// shares a leaf rectangle with the inserted one.
pub proof fn lemma_insert_covered(t0: QuadTree, tf: QuadTree, l: int, ix: int, x: int, y: int)
    requires
        t0.shape_wf(),
        t0.valid_node(l, ix),
        t0.sub_ranges_ok(l, ix),
        t0.status_ok_sub(l, ix),
        tf.levels() == t0.levels(),
        forall|l2: int| 0 <= l2 < t0.levels() ==> (#[trigger] tf.tree@[l2])@.len()
            == t0.tree@[l2]@.len(),
        forall|l2: int, ix2: int|
            t0.valid_node(l2, ix2) && #[trigger] desc(l, ix, l2, ix2) ==> tf.node(
                l2,
                ix2,
            ).same_range(t0.node(l2, ix2)) && tf.node(l2, ix2).changed == t0.inserted_status(
                l2,
                ix2,
                x,
                y,
            ),
    ensures
        forall|qx: int, qy: int|
            t0.covered_from(l, ix, qx, qy) ==> #[trigger] tf.covered_from(l, ix, qx, qy),
        t0.node(l, ix).contains(x, y) ==> tf.covered_from(l, ix, x, y),
        forall|qx: int, qy: int|
            #[trigger] tf.covered_from(l, ix, qx, qy) ==> t0.covered_from(l, ix, qx, qy) || (
            t0.node(l, ix).contains(x, y) && exists|ll: int, li: int|
                t0.valid_node(ll, li) && ll == t0.levels() - 1 && #[trigger] desc(l, ix, ll, li)
                    && t0.node(ll, li).contains(x, y) && t0.node(ll, li).contains(qx, qy)),
    decreases t0.levels() - l,
{
    lemma_desc_refl(l, ix);
    let n0 = t0.node(l, ix);
    let nf = tf.node(l, ix);
    if l < t0.levels() - 1 {
        assert(t0.tree@[l as int]@.len() == pow4(l as nat));
        assert(t0.tree@[l + 1]@.len() == pow4((l + 1) as nat));
        assert(pow4((l + 1) as nat) == 4 * pow4(l as nat));
        assert forall|k: int| 0 <= k < 4 implies t0.valid_node(l + 1, child_ix(ix, k))
            && #[trigger] desc(l, ix, l + 1, child_ix(ix, k)) by {
            lemma_desc_child(l, ix, k);
            lemma_desc_valid(l, ix, l + 1, child_ix(ix, k));
        }
        assert forall|k: int, l2: int, ix2: int|
            0 <= k < 4 && t0.valid_node(l2, ix2) && #[trigger] desc(
                l + 1,
                child_ix(ix, k),
                l2,
                ix2,
            ) implies desc(l, ix, l2, ix2) by {
            lemma_desc_child_trans(l, ix, k, l2, ix2);
        }
        lemma_sub_preds_restrict(t0, l, ix, 0);
        lemma_insert_covered(t0, tf, l + 1, child_ix(ix, 0), x, y);
        lemma_insert_covered(t0, tf, l + 1, child_ix(ix, 1), x, y);
        lemma_insert_covered(t0, tf, l + 1, child_ix(ix, 2), x, y);
        lemma_insert_covered(t0, tf, l + 1, child_ix(ix, 3), x, y);
        // Newly `Yes` ancestors add no coverage beyond their children.
        if nf.changed == Changed::Yes && n0.changed != Changed::Yes && n0.contains(x, y) {
            assert forall|qx: int, qy: int| nf.contains(qx, qy) implies exists|k: int|
                0 <= k < 4 && (#[trigger] t0.node(l + 1, child_ix(ix, k))).contains(qx, qy) by {
                lemma_children_cover(t0, l, ix, qx, qy);
            }
        }
        if n0.contains(x, y) && n0.changed != Changed::Yes {
            lemma_children_cover(t0, l, ix, x, y);
        }
        // Monotonicity: old coverage survives.
        assert forall|qx: int, qy: int|
            t0.covered_from(l, ix, qx, qy) implies #[trigger] tf.covered_from(l, ix, qx, qy) by {
            if n0.changed == Changed::Yes && n0.contains(qx, qy) {
                assert(nf.changed == Changed::Yes);
                assert(nf.contains(qx, qy));
            } else {
                if t0.covered_from(l + 1, child_ix(ix, 0), qx, qy) {
                    assert(tf.covered_from(l + 1, child_ix(ix, 0), qx, qy));
                } else if t0.covered_from(l + 1, child_ix(ix, 1), qx, qy) {
                    assert(tf.covered_from(l + 1, child_ix(ix, 1), qx, qy));
                } else if t0.covered_from(l + 1, child_ix(ix, 2), qx, qy) {
                    assert(tf.covered_from(l + 1, child_ix(ix, 2), qx, qy));
                } else {
                    assert(t0.covered_from(l + 1, child_ix(ix, 3), qx, qy));
                    assert(tf.covered_from(l + 1, child_ix(ix, 3), qx, qy));
                }
            }
        }
        // Completeness: the inserted coordinate is covered afterwards.
        if n0.contains(x, y) {
            if n0.changed == Changed::Yes {
                assert(nf.changed == Changed::Yes);
                assert(tf.covered_from(l, ix, x, y));
            } else {
                let kc = choose|k: int|
                    0 <= k < 4 && (#[trigger] t0.node(l + 1, child_ix(ix, k))).contains(x, y);
                if kc == 0 {
                    assert(tf.covered_from(l + 1, child_ix(ix, 0), x, y));
                } else if kc == 1 {
                    assert(tf.covered_from(l + 1, child_ix(ix, 1), x, y));
                } else if kc == 2 {
                    assert(tf.covered_from(l + 1, child_ix(ix, 2), x, y));
                } else {
                    assert(tf.covered_from(l + 1, child_ix(ix, 3), x, y));
                }
                assert(tf.covered_from(l, ix, x, y));
            }
        }
        // Soundness at this node follows from the children; lift leaf
        // witnesses one level up.
        assert forall|qx: int, qy: int|
            #[trigger] tf.covered_from(l, ix, qx, qy) implies t0.covered_from(l, ix, qx, qy) || (
        t0.node(l, ix).contains(x, y) && exists|ll: int, li: int|
            t0.valid_node(ll, li) && ll == t0.levels() - 1 && #[trigger] desc(l, ix, ll, li)
                && t0.node(ll, li).contains(x, y) && t0.node(ll, li).contains(qx, qy)) by {
            if tf.covered_from(l, ix, qx, qy) && !t0.covered_from(l, ix, qx, qy) {
                if nf.changed == Changed::Yes && nf.contains(qx, qy) {
                    if n0.changed == Changed::Yes || !n0.contains(x, y) {
                        assert(nf.changed == n0.changed);
                        assert(t0.covered_from(l, ix, qx, qy));
                    } else {
                        assert(n0.contains(qx, qy));
                        lemma_children_cover(t0, l, ix, qx, qy);
                        let k = choose|k: int|
                            0 <= k < 4 && (#[trigger] t0.node(l + 1, child_ix(ix, k))).contains(
                                qx,
                                qy,
                            );
                        lemma_desc_child(l, ix, 0);
                        lemma_desc_child(l, ix, 1);
                        lemma_desc_child(l, ix, 2);
                        lemma_desc_child(l, ix, 3);
                        lemma_desc_child(l, ix, k);
                        assert(tf.node(l + 1, child_ix(ix, k)).changed == t0.inserted_status(
                            l + 1,
                            child_ix(ix, k),
                            x,
                            y,
                        ));
                        assert(nf.changed == combine(
                            t0.inserted_status(l + 1, child_ix(ix, 0), x, y),
                            t0.inserted_status(l + 1, child_ix(ix, 1), x, y),
                            t0.inserted_status(l + 1, child_ix(ix, 2), x, y),
                            t0.inserted_status(l + 1, child_ix(ix, 3), x, y),
                        ));
                        assert(combine(
                            tf.node(l + 1, child_ix(ix, 0)).changed,
                            tf.node(l + 1, child_ix(ix, 1)).changed,
                            tf.node(l + 1, child_ix(ix, 2)).changed,
                            tf.node(l + 1, child_ix(ix, 3)).changed,
                        ) == Changed::Yes);
                        assert(tf.node(l + 1, child_ix(ix, k)).changed == Changed::Yes);
                        assert(tf.node(l + 1, child_ix(ix, k)).contains(qx, qy));
                        assert(tf.covered_from(l + 1, child_ix(ix, k), qx, qy));
                    }
                }
                if !t0.covered_from(l, ix, qx, qy) {
                    assert(exists|k: int|
                        0 <= k < 4 && #[trigger] tf.covered_from(l + 1, child_ix(ix, k), qx, qy))
                        by {
                        if !(nf.changed == Changed::Yes && nf.contains(qx, qy)) {
                            if tf.covered_from(l + 1, child_ix(ix, 0), qx, qy) {
                            } else if tf.covered_from(l + 1, child_ix(ix, 1), qx, qy) {
                            } else if tf.covered_from(l + 1, child_ix(ix, 2), qx, qy) {
                            } else {
                                assert(tf.covered_from(l + 1, child_ix(ix, 3), qx, qy));
                            }
                        }
                    }
                    let k = choose|k: int|
                        0 <= k < 4 && #[trigger] tf.covered_from(l + 1, child_ix(ix, k), qx, qy);
                    lemma_desc_child(l, ix, k);
                    if tf.covered_from(l + 1, child_ix(ix, k), qx, qy) && !t0.covered_from(
                        l + 1,
                        child_ix(ix, k),
                        qx,
                        qy,
                    ) {
                        let (ll, li) = choose|ll: int, li: int|
                            t0.valid_node(ll, li) && ll == t0.levels() - 1 && #[trigger] desc(
                                l + 1,
                                child_ix(ix, k),
                                ll,
                                li,
                            ) && t0.node(ll, li).contains(x, y) && t0.node(ll, li).contains(qx, qy);
                        lemma_desc_child_trans(l, ix, k, ll, li);
                        lemma_range_within(t0, l + 1, child_ix(ix, k), ll, li);
                        assert(t0.node(l + 1, child_ix(ix, k)).contains(x, y));
                        lemma_range_within(t0, l, ix, l + 1, child_ix(ix, k));
                        assert(n0.contains(x, y));
                    } else {
                        assert(t0.covered_from(l + 1, child_ix(ix, k), qx, qy));
                        if k == 0 {
                            assert(t0.covered_from(l, ix, qx, qy));
                        } else if k == 1 {
                            assert(t0.covered_from(l, ix, qx, qy));
                        } else if k == 2 {
                            assert(t0.covered_from(l, ix, qx, qy));
                        } else {
                            assert(t0.covered_from(l, ix, qx, qy));
                        }
                    }
                }
            }
        }
    } else {
        // A leaf: the only node in its subtree is itself.
        assert forall|l2: int, ix2: int|
            t0.valid_node(l2, ix2) && #[trigger] desc(l, ix, l2, ix2) implies l2 == l && ix2 == ix
            by {
            if !(l2 == l && ix2 == ix) {
                lemma_desc_split(l, ix, l2, ix2);
            }
        }
        if n0.contains(x, y) {
            assert(nf.changed == Changed::Yes);
            assert(tf.covered_from(l, ix, x, y));
        }
    }
}

/// Dirty-tracker soundness at full depth: when every leaf covers at most
/// one cell, an insertion makes exactly the inserted coordinate newly
/// covered -- no rectangle will ever be emitted for coordinates that were
/// neither inserted nor within the dilation of an inserted one.
pub proof fn lemma_insert_covered_exact(t0: QuadTree, tf: QuadTree, x: int, y: int)
    requires
        t0.wf(),
        t0.unit_leaves(),
        inserted_sub(t0, tf, 0, 0, x, y),
    ensures
        forall|qx: int, qy: int|
            #![trigger tf.covered(qx, qy)]
            tf.covered(qx, qy) <==> (t0.covered(qx, qy) || (t0.node(0, 0).contains(x, y) && qx == x
                && qy == y)),
{
    lemma_desc_refl(0, 0);
    lemma_insert_covered(t0, tf, 0, 0, x, y);
    assert forall|qx: int, qy: int|
        #![trigger tf.covered(qx, qy)]
        tf.covered(qx, qy) <==> (t0.covered(qx, qy) || (t0.node(0, 0).contains(x, y) && qx == x
            && qy == y)) by {
        if tf.covered_from(0, 0, qx, qy) && !t0.covered_from(0, 0, qx, qy) {
            let (ll, li) = choose|ll: int, li: int|
                t0.valid_node(ll, li) && ll == t0.levels() - 1 && #[trigger] desc(0, 0, ll, li)
                    && t0.node(ll, li).contains(x, y) && t0.node(ll, li).contains(qx, qy);
            assert(t0.node(ll, li).empty() || (t0.node(ll, li).x_start == t0.node(ll, li).x_end
                && t0.node(ll, li).y_start == t0.node(ll, li).y_end));
            assert(qx == x && qy == y);
        }
        if t0.node(0, 0).contains(x, y) && qx == x && qy == y {
            assert(tf.covered_from(0, 0, x, y));
        }
        if t0.covered_from(0, 0, qx, qy) {
            assert(tf.covered_from(0, 0, qx, qy));
        }
    }
}

/// Whether `(px, py)` and `(qx, qy)` fall inside the same leaf rectangle
/// of the tree.
pub open spec fn shares_leaf(t: QuadTree, px: int, py: int, qx: int, qy: int) -> bool {
    exists|ll: int, li: int|
        t.valid_node(ll, li) && ll == t.levels() - 1 && #[trigger] desc(0, 0, ll, li) && t.node(
            ll,
            li,
        ).contains(px, py) && t.node(ll, li).contains(qx, qy)
}

/// Leaf sharing carries over to a tree with the same shape whose nodes
/// keep the same rectangles.
pub proof fn lemma_shares_leaf_transfer(
    t1: QuadTree,
    t0: QuadTree,
    px: int,
    py: int,
    qx: int,
    qy: int,
)
    requires
        t0.shape_wf(),
        t1.levels() == t0.levels(),
        forall|l2: int, ix2: int|
            t0.valid_node(l2, ix2) ==> (#[trigger] t1.node(l2, ix2)).same_range(
                t0.node(l2, ix2),
            ),
        forall|l2: int| 0 <= l2 < t0.levels() ==> (#[trigger] t1.tree@[l2])@.len()
            == t0.tree@[l2]@.len(),
        shares_leaf(t1, px, py, qx, qy),
    ensures
        shares_leaf(t0, px, py, qx, qy),
{
    let (ll, li) = choose|ll: int, li: int|
        t1.valid_node(ll, li) && ll == t1.levels() - 1 && #[trigger] desc(0, 0, ll, li)
            && t1.node(ll, li).contains(px, py) && t1.node(ll, li).contains(qx, qy);
    assert(t0.valid_node(ll, li));
    assert(t1.node(ll, li).same_range(t0.node(ll, li)));
    assert(t0.node(ll, li).contains(px, py) && t0.node(ll, li).contains(qx, qy));
}

} // verus!
