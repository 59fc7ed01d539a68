//! The discrete cell alphabet and the per-type colour / field-value table.

use vstd::prelude::*;

use crate::random::random_usize;

verus! {

/// The numeric value attached to a cell type; convolution sums and rule
/// ranges are computed over this type.
pub type FieldType = i64;

/// The magnitude bound on kernel weights and field values; it keeps every
/// convolution sum of a kernel up to [`MAX_KERNEL_WIDTH`] wide inside `i64`.
pub const FIELD_ABS_BOUND: i64 = 0x100000;

/// The largest supported kernel width.
pub const MAX_KERNEL_WIDTH: usize = 63;

/// One cell state out of the fixed nine-letter alphabet, totally ordered by
/// its index `0..=8`.
#[derive(Copy, Clone, Debug, PartialEq, Eq, Structural)]
pub enum CellType {
    NoCell,
    A,
    B,
    C,
    D,
    E,
    F,
    G,
    H,
}

/// The number of cell types, and so the number of kernels in a bank.
pub const NUM_CELL_TYPES: usize = 9;

impl CellType {
    /// The index of this cell type, as a mathematical integer.
    pub open spec fn idx(self) -> int {
        match self {
            CellType::NoCell => 0,
            CellType::A => 1,
            CellType::B => 2,
            CellType::C => 3,
            CellType::D => 4,
            CellType::E => 5,
            CellType::F => 6,
            CellType::G => 7,
            CellType::H => 8,
        }
    }

    /// The cell type with the given index; indices above 8 give `NoCell`.
    pub open spec fn of_idx(i: int) -> CellType {
        if i == 0 {
            CellType::NoCell
        } else if i == 1 {
            CellType::A
        } else if i == 2 {
            CellType::B
        } else if i == 3 {
            CellType::C
        } else if i == 4 {
            CellType::D
        } else if i == 5 {
            CellType::E
        } else if i == 6 {
            CellType::F
        } else if i == 7 {
            CellType::G
        } else if i == 8 {
            CellType::H
        } else {
            CellType::NoCell
        }
    }

    /// The index of this cell type in `0..=8`.
    pub fn as_index(&self) -> (r: usize)
        ensures
            r == self.idx(),
            r <= 8,
    {
        match self {
            CellType::NoCell => 0,
            CellType::A => 1,
            CellType::B => 2,
            CellType::C => 3,
            CellType::D => 4,
            CellType::E => 5,
            CellType::F => 6,
            CellType::G => 7,
            CellType::H => 8,
        }
    }

    /// The cell type with index `value`; an index outside `0..=8` is
    /// rejected.
    pub fn from_index(value: usize) -> (r: Option<CellType>)
        ensures
            value <= 8 ==> r == Some(CellType::of_idx(value as int)),
            value > 8 ==> r is None,
    {
        match value {
            0 => Some(CellType::NoCell),
            1 => Some(CellType::A),
            2 => Some(CellType::B),
            3 => Some(CellType::C),
            4 => Some(CellType::D),
            5 => Some(CellType::E),
            6 => Some(CellType::F),
            7 => Some(CellType::G),
            8 => Some(CellType::H),
            _ => None,
        }
    }

    /// A uniform pseudo-random cell type whose index lies in
    /// `lo.idx()..=hi.idx()`.
    pub fn random_range(lo: &CellType, hi: &CellType) -> (r: CellType)
        requires
            lo.idx() <= hi.idx(),
        ensures
            lo.idx() <= r.idx() <= hi.idx(),
    {
        let l = lo.as_index();
        let h = hi.as_index();
        let i = random_usize(l, h + 1);
        CellType::from_index(i).unwrap()
    }

    /// A one-character name for display; `NoCell` shows as `"0"`.
    pub fn display_name(&self) -> (r: &'static str) {
        match self {
            CellType::NoCell => "0",
            CellType::A => "A",
            CellType::B => "B",
            CellType::C => "C",
            CellType::D => "D",
            CellType::E => "E",
            CellType::F => "F",
            CellType::G => "G",
            CellType::H => "H",
        }
    }
}

/// Round-trip of a cell type through its index.
pub proof fn lemma_cell_index_round_trip(c: CellType)
    ensures
        CellType::of_idx(c.idx()) == c,
        0 <= c.idx() <= 8,
{
}

/// An sRGBA colour with 8-bit channels.
#[derive(Copy, Clone, Debug, PartialEq, Eq, Structural)]
pub struct ColorRgba {
    pub r: u8,
    pub g: u8,
    pub b: u8,
    pub a: u8,
}

/// The colour that [`CellTypeMap::new`] assigns to the cell type with index
/// `i`.
pub open spec fn default_color(i: int) -> ColorRgba {
    if i == 0 {
        ColorRgba { r: 50, g: 20, b: 20, a: 200 }
    } else if i == 1 {
        ColorRgba { r: 236, g: 55, b: 90, a: 200 }
    } else if i == 2 {
        ColorRgba { r: 229, g: 117, b: 35, a: 200 }
    } else if i == 3 {
        ColorRgba { r: 89, g: 229, b: 39, a: 200 }
    } else if i == 4 {
        ColorRgba { r: 228, g: 228, b: 32, a: 200 }
    } else if i == 5 {
        ColorRgba { r: 105, g: 216, b: 205, a: 200 }
    } else if i == 6 {
        ColorRgba { r: 0, g: 94, b: 229, a: 200 }
    } else if i == 7 {
        ColorRgba { r: 190, g: 52, b: 219, a: 200 }
    } else {
        ColorRgba { r: 229, g: 152, b: 152, a: 200 }
    }
}

/// One row of the table: the colour and the numeric field value of a cell
/// type.
#[derive(Copy, Clone, Debug, PartialEq, Eq, Structural)]
pub struct MapEntry {
    pub color: ColorRgba,
    pub value: FieldType,
}

/// The bidirectional association between cell types and their display
/// colour and numeric field value.  The "selected" index is mutable UI
/// state; it always stays inside the alphabet.
#[derive(Clone)]
pub struct CellTypeMap {
    pub map: Vec<MapEntry>,
    pub selected_idx: usize,
    pub default: MapEntry,
}

impl CellTypeMap {
    /// One entry per cell type, a selected index inside the alphabet, and
    /// every field value within the magnitude bound.
    pub open spec fn wf(self) -> bool {
        &&& self.map@.len() == NUM_CELL_TYPES
        &&& self.selected_idx < NUM_CELL_TYPES
        &&& forall|i: int|
            0 <= i < NUM_CELL_TYPES ==> -FIELD_ABS_BOUND <= (#[trigger] self.map@[i]).value
                <= FIELD_ABS_BOUND
    }

    /// The colour shown for cell type `c`.
    pub open spec fn spec_color(self, c: CellType) -> ColorRgba {
        self.map@[c.idx()].color
    }

    /// The field value of cell type `c`.
    pub open spec fn spec_value(self, c: CellType) -> FieldType {
        self.map@[c.idx()].value
    }

    /// The default table: each cell type keeps its own index as field value,
    /// under the standard palette.
    pub fn new() -> (r: Self)
        ensures
            r.wf(),
            r.selected_idx == 0,
            forall|c: CellType| #[trigger] r.spec_value(c) == c.idx(),
            forall|c: CellType| #[trigger] r.spec_color(c) == default_color(c.idx()),
    {
        let mut map: Vec<MapEntry> = Vec::new();
        map.push(MapEntry { color: ColorRgba { r: 50, g: 20, b: 20, a: 200 }, value: 0 });
        map.push(MapEntry { color: ColorRgba { r: 236, g: 55, b: 90, a: 200 }, value: 1 });
        map.push(MapEntry { color: ColorRgba { r: 229, g: 117, b: 35, a: 200 }, value: 2 });
        map.push(MapEntry { color: ColorRgba { r: 89, g: 229, b: 39, a: 200 }, value: 3 });
        map.push(MapEntry { color: ColorRgba { r: 228, g: 228, b: 32, a: 200 }, value: 4 });
        map.push(MapEntry { color: ColorRgba { r: 105, g: 216, b: 205, a: 200 }, value: 5 });
        map.push(MapEntry { color: ColorRgba { r: 0, g: 94, b: 229, a: 200 }, value: 6 });
        map.push(MapEntry { color: ColorRgba { r: 190, g: 52, b: 219, a: 200 }, value: 7 });
        map.push(MapEntry { color: ColorRgba { r: 229, g: 152, b: 152, a: 200 }, value: 8 });
        let r = CellTypeMap {
            map,
            selected_idx: 0,
            default: MapEntry { color: ColorRgba { r: 255, g: 255, b: 255, a: 255 }, value: 0 },
        };
        proof {
            assert forall|c: CellType| #[trigger] r.spec_value(c) == c.idx() by {
                lemma_cell_index_round_trip(c);
            }
            assert forall|c: CellType| #[trigger] r.spec_color(c) == default_color(c.idx()) by {
                lemma_cell_index_round_trip(c);
            }
        }
        r
    }

    /// The colour of the first entry holding `value`, scanning in index
    /// order; `None` when no entry holds it.
    pub fn color_for_value(&self, value: FieldType) -> (r: Option<ColorRgba>)
        requires
            self.wf(),
        ensures
            match r {
                Some(color) => exists|i: int|
                    0 <= i < self.map@.len() && (#[trigger] self.map@[i]).value == value && color
                        == self.map@[i].color && (forall|j: int|
                        0 <= j < i ==> (#[trigger] self.map@[j]).value != value),
                None => forall|i: int|
                    0 <= i < self.map@.len() ==> (#[trigger] self.map@[i]).value != value,
            },
    {
        let n = self.map.len();
        let mut i: usize = 0;
        while i < n
            invariant
                i <= n,
                n == self.map@.len(),
                forall|j: int| 0 <= j < i ==> (#[trigger] self.map@[j]).value != value,
            decreases n - i,
        {
            let entry = self.map[i];
            if entry.value == value {
                return Some(entry.color);
            }
            i = i + 1;
        }
        None
    }

    /// The cell type with index `idx`; the index must be inside the
    /// alphabet.
    pub fn inv_lookup(&self, idx: usize) -> (r: CellType)
        requires
            idx < NUM_CELL_TYPES,
        ensures
            r == CellType::of_idx(idx as int),
    {
        CellType::from_index(idx).unwrap()
    }

    pub fn get_selected_idx(&self) -> (r: usize)
        ensures
            r == self.selected_idx,
    {
        self.selected_idx
    }

    /// Select `idx`, clamped into the alphabet.
    pub fn set_selected_idx(&mut self, idx: usize)
        ensures
            final(self).selected_idx == (if idx < NUM_CELL_TYPES {
                idx as int
            } else {
                (NUM_CELL_TYPES - 1) as int
            }),
            final(self).map == old(self).map,
            final(self).default == old(self).default,
    {
        self.selected_idx = if idx > 8 {
            8
        } else {
            idx
        };
    }

    /// The currently selected cell type.
    pub fn get_selected_rules_cell(&self) -> (r: CellType)
        requires
            self.wf(),
        ensures
            r == CellType::of_idx(self.selected_idx as int),
    {
        self.inv_lookup(self.selected_idx)
    }

    /// The field value of the currently selected cell type.
    pub fn get_selected_rules_val(&self) -> (r: FieldType)
        requires
            self.wf(),
        ensures
            r == self.spec_value(CellType::of_idx(self.selected_idx as int)),
    {
        let c = self.inv_lookup(self.selected_idx);
        proof {
            lemma_cell_index_round_trip(c);
        }
        self.map[self.selected_idx].value
    }

    /// The colour and field value of `cell_type`.
    pub fn index(&self, cell_type: CellType) -> (r: MapEntry)
        requires
            self.wf(),
        ensures
            r.color == self.spec_color(cell_type),
            r.value == self.spec_value(cell_type),
    {
        self.map[cell_type.as_index()]
    }

    /// Replace the colour of `cell_type`.
    pub fn set_color(&mut self, cell_type: CellType, color: ColorRgba)
        requires
            old(self).wf(),
        ensures
            final(self).wf(),
            final(self).spec_color(cell_type) == color,
            forall|c: CellType|
                c != cell_type ==> #[trigger] final(self).spec_color(c) == old(self).spec_color(c),
            forall|c: CellType| #[trigger] final(self).spec_value(c) == old(self).spec_value(c),
            final(self).selected_idx == old(self).selected_idx,
    {
        let i = cell_type.as_index();
        let value = self.map[i].value;
        self.map.set(i, MapEntry { color, value });
        proof {
            assert forall|c: CellType|
                c != cell_type implies #[trigger] self.spec_color(c) == old(self).spec_color(
                c,
            ) by {
                lemma_cell_index_round_trip(c);
                lemma_cell_index_round_trip(cell_type);
            }
        }
    }

    /// Replace the field value of `cell_type`; the value must stay within
    /// the magnitude bound.
    pub fn set_value(&mut self, cell_type: CellType, value: FieldType)
        requires
            old(self).wf(),
            -FIELD_ABS_BOUND <= value <= FIELD_ABS_BOUND,
        ensures
            final(self).wf(),
            final(self).spec_value(cell_type) == value,
            forall|c: CellType|
                c != cell_type ==> #[trigger] final(self).spec_value(c) == old(self).spec_value(c),
            forall|c: CellType| #[trigger] final(self).spec_color(c) == old(self).spec_color(c),
            final(self).selected_idx == old(self).selected_idx,
    {
        let i = cell_type.as_index();
        let color = self.map[i].color;
        self.map.set(i, MapEntry { color, value });
        proof {
            assert forall|c: CellType|
                c != cell_type implies #[trigger] self.spec_value(c) == old(self).spec_value(
                c,
            ) by {
                lemma_cell_index_round_trip(c);
                lemma_cell_index_round_trip(cell_type);
            }
        }
    }
}

} // verus!
