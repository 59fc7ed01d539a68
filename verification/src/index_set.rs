//! The set of grid coordinates to recompute in a step, stored as a
//! fixed-size bit set over row-major cell positions.

use vstd::prelude::*;
use vstd::arithmetic::div_mod::lemma_fundamental_div_mod;

use fixedbitset::FixedBitSet;

use crate::matrix::{lemma_rm_pos_bounds, lemma_rm_pos_injective, rm_pos};
use crate::quad_tree::Rect;

verus! {

#[verifier::external_type_specification]
#[verifier::external_body]
pub struct ExFixedBitSet(FixedBitSet);

/// The set of bit positions that are enabled in `s`.
pub uninterp spec fn bits_of(s: FixedBitSet) -> Set<int>;

/// The number of bits `s` was created with.
pub uninterp spec fn nbits_of(s: FixedBitSet) -> int;

/// Relies on `fixedbitset::FixedBitSet::with_capacity`: a set of `bits`
/// bits, all initially clear.
#[verifier::external_body]
fn bitset_with_capacity(bits: usize) -> (r: FixedBitSet)
    ensures
        nbits_of(r) == bits,
        bits_of(r) == Set::<int>::empty(),
{
    FixedBitSet::with_capacity(bits)
}

/// Relies on `fixedbitset::FixedBitSet::insert`: enables one bit; an
/// out-of-range position panics, so it is excluded here.
#[verifier::external_body]
fn bitset_insert(s: &mut FixedBitSet, bit: usize)
    requires
        bit < nbits_of(*old(s)),
    ensures
        nbits_of(*final(s)) == nbits_of(*old(s)),
        bits_of(*final(s)) == bits_of(*old(s)).insert(bit as int),
{
    s.insert(bit)
}

/// Relies on `fixedbitset::FixedBitSet::set_range` with `true` (that is,
/// `insert_range`): enables every bit in `start..end`; a range past the
/// end panics, so it is excluded here.
#[verifier::external_body]
fn bitset_insert_range(s: &mut FixedBitSet, start: usize, end: usize)
    requires
        start <= end,
        end <= nbits_of(*old(s)),
    ensures
        nbits_of(*final(s)) == nbits_of(*old(s)),
        bits_of(*final(s)) == bits_of(*old(s)) + Set::new(
            |i: int| start <= i < end,
        ),
{
    s.set_range(start..end, true)
}

/// Relies on `fixedbitset::FixedBitSet::contains`: whether the bit is
/// enabled; positions beyond the capacity read as disabled.
#[verifier::external_body]
fn bitset_contains(s: &FixedBitSet, bit: usize) -> (r: bool)
    ensures
        r == bits_of(*s).contains(bit as int),
{
    s.contains(bit)
}

/// Relies on `fixedbitset::FixedBitSet::ones`: iterates exactly the
/// enabled bits in ascending order.
#[verifier::external_body]
fn bitset_ones(s: &FixedBitSet) -> (r: Vec<usize>)
    ensures
        forall|i: int, j: int| 0 <= i < j < r@.len() ==> r@[i] < r@[j],
        forall|i: int| 0 <= i < r@.len() ==> bits_of(*s).contains(#[trigger] r@[i] as int),
        forall|b: int|
            #[trigger] bits_of(*s).contains(b) ==> exists|i: int|
                0 <= i < r@.len() && r@[i] == b,
{
    s.ones().collect()
}

/// A set of `(x, y)` cell coordinates of a `matrix_width x matrix_height`
/// grid, with constant-time membership.
pub struct IndexSet {
    pub indices: FixedBitSet,
    pub matrix_width: usize,
    pub matrix_height: usize,
}

/// Row positions of a row-range coincide with the rectangle row.
proof fn lemma_row_range(w: int, a: int, b: int, yy: int, xs: int, xe: int)
    requires
        0 <= a < w,
        0 <= xs,
        xe < w,
        0 <= b,
        0 <= yy,
    ensures
        (yy * w + xs <= b * w + a <= yy * w + xe) <==> (b == yy && xs <= a <= xe),
{
    if b < yy {
        assert(b * w + w <= yy * w) by (nonlinear_arith)
            requires
                b + 1 <= yy,
                0 < w,
        {
        }
    }
    if b > yy {
        assert(yy * w + w <= b * w) by (nonlinear_arith)
            requires
                yy + 1 <= b,
                0 < w,
        {
        }
    }
}

impl IndexSet {
    /// Exactly one bit per cell, and every enabled bit names a cell.
    pub open spec fn wf(self) -> bool {
        &&& nbits_of(self.indices) == self.matrix_width * self.matrix_height
        &&& self.matrix_width * self.matrix_height <= usize::MAX
        &&& self.matrix_width >= 1
        &&& forall|b: int|
            bits_of(self.indices).contains(b) ==> 0 <= b < self.matrix_width
                * self.matrix_height
    }

    /// Whether the cell `(x, y)` is in the set.
    pub open spec fn has(self, x: int, y: int) -> bool {
        bits_of(self.indices).contains(rm_pos(self.matrix_width as int, x, y))
    }

    pub open spec fn in_bounds(self, x: int, y: int) -> bool {
        0 <= x < self.matrix_width && 0 <= y < self.matrix_height
    }

    /// An empty set over a `matrix_width x matrix_height` grid.
    pub fn new(matrix_width: usize, matrix_height: usize) -> (r: Self)
        requires
            1 <= matrix_width,
            matrix_width * matrix_height <= usize::MAX,
        ensures
            r.wf(),
            r.matrix_width == matrix_width,
            r.matrix_height == matrix_height,
            forall|x: int, y: int| !r.has(x, y),
    {
        let n = matrix_width * matrix_height;
        IndexSet { indices: bitset_with_capacity(n), matrix_width, matrix_height }
    }

    /// Add the cell `ix` to the set.
    pub fn insert(&mut self, ix: (usize, usize))
        requires
            old(self).wf(),
            old(self).in_bounds(ix.0 as int, ix.1 as int),
        ensures
            final(self).wf(),
            final(self).matrix_width == old(self).matrix_width,
            final(self).matrix_height == old(self).matrix_height,
            forall|x: int, y: int|
                old(self).in_bounds(x, y) ==> (#[trigger] final(self).has(x, y) == (old(self).has(
                    x,
                    y,
                ) || (x == ix.0 && y == ix.1))),
    {
        let (ixx, ixy) = ix;
        let w = self.matrix_width;
        proof {
            lemma_rm_pos_bounds(
                w as int,
                self.matrix_height as int,
                ixx as int,
                ixy as int,
            );
        }
        bitset_insert(&mut self.indices, ixy * w + ixx);
        proof {
            assert forall|x: int, y: int| old(self).in_bounds(x, y) implies (#[trigger] self.has(
                x,
                y,
            ) == (old(self).has(x, y) || (x == ixx && y == ixy))) by {
                if !(x == ixx && y == ixy) {
                    lemma_rm_pos_injective(w as int, x, y, ixx as int, ixy as int);
                }
            }
        }
    }

    /// Add every cell of `rect` to the set; the rectangle must lie inside
    /// the grid.
    #[verifier::loop_isolation(false)]
    pub fn insert_rect(&mut self, rect: &Rect)
        requires
            old(self).wf(),
            rect.x_start <= rect.x_end < old(self).matrix_width,
            rect.y_start <= rect.y_end < old(self).matrix_height,
        ensures
            final(self).wf(),
            final(self).matrix_width == old(self).matrix_width,
            final(self).matrix_height == old(self).matrix_height,
            forall|x: int, y: int|
                old(self).in_bounds(x, y) ==> (#[trigger] final(self).has(x, y) == (old(self).has(
                    x,
                    y,
                ) || rect.contains(x, y))),
    {
        let w = self.matrix_width;
        let mut ixy = rect.y_start;
        while ixy <= rect.y_end
            invariant
                rect.y_start <= ixy <= rect.y_end + 1,
                self.wf(),
                self.matrix_width == old(self).matrix_width,
                self.matrix_height == old(self).matrix_height,
                forall|x: int, y: int|
                    old(self).in_bounds(x, y) ==> (#[trigger] self.has(x, y) == (old(self).has(
                        x,
                        y,
                    ) || (rect.x_start <= x <= rect.x_end && rect.y_start <= y < ixy))),
            decreases rect.y_end + 1 - ixy,
        {
            let ghost pre = *self;
            proof {
                lemma_rm_pos_bounds(
                    w as int,
                    self.matrix_height as int,
                    rect.x_end as int,
                    ixy as int,
                );
                lemma_rm_pos_bounds(
                    w as int,
                    self.matrix_height as int,
                    rect.x_start as int,
                    ixy as int,
                );
            }
            let base = ixy * w;
            bitset_insert_range(&mut self.indices, base + rect.x_start, base + rect.x_end + 1);
            proof {
                assert forall|x: int, y: int| old(self).in_bounds(x, y) implies (
                #[trigger] self.has(x, y) == (old(self).has(x, y) || (rect.x_start <= x
                    <= rect.x_end && rect.y_start <= y < ixy + 1))) by {
                    lemma_row_range(
                        w as int,
                        x,
                        y,
                        ixy as int,
                        rect.x_start as int,
                        rect.x_end as int,
                    );
                    lemma_rm_pos_bounds(w as int, self.matrix_height as int, x, y);
                    assert(pre.has(x, y) == (old(self).has(x, y) || (rect.x_start <= x
                        <= rect.x_end && rect.y_start <= y < ixy)));
                    let b = rm_pos(w as int, x, y);
                    assert(Set::new(
                        |i: int| base + rect.x_start <= i < base + rect.x_end + 1,
                    ).contains(b) == (base + rect.x_start <= b <= base + rect.x_end));
                    assert(bits_of(self.indices).contains(b) == (bits_of(pre.indices).contains(b)
                        || (base + rect.x_start <= b <= base + rect.x_end)));
                }
            }
            ixy = ixy + 1;
        }
    }

    /// Whether the cell `ix` is in the set.
    pub fn contains(&self, ix: (usize, usize)) -> (r: bool)
        requires
            self.wf(),
            self.in_bounds(ix.0 as int, ix.1 as int),
        ensures
            r == self.has(ix.0 as int, ix.1 as int),
    {
        let (ixx, ixy) = ix;
        proof {
            lemma_rm_pos_bounds(
                self.matrix_width as int,
                self.matrix_height as int,
                ixx as int,
                ixy as int,
            );
        }
        bitset_contains(&self.indices, ixy * self.matrix_width + ixx)
    }

    /// The cells of the set, in ascending row-major order and without
    /// repetition.
    #[verifier::loop_isolation(false)]
    pub fn iter(&self) -> (r: Vec<(usize, usize)>)
        requires
            self.wf(),
        ensures
            forall|k: int|
                0 <= k < r@.len() ==> self.in_bounds(#[trigger] r@[k].0 as int, r@[k].1 as int)
                    && self.has(r@[k].0 as int, r@[k].1 as int),
            forall|k1: int, k2: int|
                0 <= k1 < k2 < r@.len() ==> rm_pos(
                    self.matrix_width as int,
                    #[trigger] r@[k1].0 as int,
                    r@[k1].1 as int,
                ) < rm_pos(self.matrix_width as int, #[trigger] r@[k2].0 as int, r@[k2].1 as int),
            forall|x: int, y: int|
                self.in_bounds(x, y) && #[trigger] self.has(x, y) ==> exists|k: int|
                    0 <= k < r@.len() && r@[k].0 == x && r@[k].1 == y,
    {
        let raw = bitset_ones(&self.indices);
        let w = self.matrix_width;
        let n = raw.len();
        let mut r: Vec<(usize, usize)> = Vec::new();
        let mut i: usize = 0;
        while i < n
            invariant
                i <= n,
                r@.len() == i,
                forall|k: int|
                    0 <= k < i ==> (#[trigger] r@[k]).1 * w + r@[k].0 == raw@[k] && r@[k].0 < w
                        && r@[k].1 < self.matrix_height,
            decreases n - i,
        {
            let raw_ix = raw[i];
            proof {
                assert(bits_of(self.indices).contains(raw_ix as int));
                assert(raw_ix < w * self.matrix_height);
                lemma_fundamental_div_mod(raw_ix as int, w as int);
                assert((raw_ix as int) / (w as int) < self.matrix_height) by (nonlinear_arith)
                    requires
                        raw_ix < w * self.matrix_height,
                        w >= 1,
                        0 <= (raw_ix as int) % (w as int) < w,
                        raw_ix == (w as int) * ((raw_ix as int) / (w as int)) + (raw_ix as int) % (
                        w as int),
                {
                }
            }
            proof {
                assert(((raw_ix as int) / (w as int)) * (w as int) == (w as int) * ((
                raw_ix as int) / (w as int))) by (nonlinear_arith);
            }
            r.push((raw_ix % w, raw_ix / w));
            i = i + 1;
        }
        proof {
            assert forall|k: int|
                0 <= k < r@.len() implies self.in_bounds(
                #[trigger] r@[k].0 as int,
                r@[k].1 as int,
            ) && self.has(r@[k].0 as int, r@[k].1 as int) by {
                assert(bits_of(self.indices).contains(raw@[k] as int));
            }
            assert forall|x: int, y: int|
                self.in_bounds(x, y) && #[trigger] self.has(x, y) implies exists|k: int|
                0 <= k < r@.len() && r@[k].0 == x && r@[k].1 == y by {
                let b = rm_pos(self.matrix_width as int, x, y);
                assert(bits_of(self.indices).contains(b));
                let k = choose|k: int| 0 <= k < raw@.len() && raw@[k] == b;
                assert(r@[k].1 * w + r@[k].0 == b);
                lemma_rm_pos_bounds(w as int, self.matrix_height as int, x, y);
                if r@[k].0 != x || r@[k].1 != y {
                    lemma_rm_pos_injective(w as int, r@[k].0 as int, r@[k].1 as int, x, y);
                    assert(false);
                }
                assert(r@[k].0 == x && r@[k].1 == y);
            }
        }
        r
    }
}

} // verus!
