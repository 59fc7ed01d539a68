use rugol::cell_type::{CellType, CellTypeMap};
use rugol::matrix::{Symmetry, VecMatrix};
use rugol::rules::{classic_rules, flame_rules, Rule, RuleSet};

#[test]
fn cell_type_indices_round_trip() {
    let all = [
        CellType::NoCell,
        CellType::A,
        CellType::B,
        CellType::C,
        CellType::D,
        CellType::E,
        CellType::F,
        CellType::G,
        CellType::H,
    ];
    for (i, c) in all.iter().enumerate() {
        assert_eq!(c.as_index(), i);
        assert_eq!(CellType::from_index(i), Some(*c));
    }
    assert_eq!(CellType::from_index(9), None);
    assert_eq!(CellType::from_index(100), None);
}

#[test]
fn cell_type_random_range_stays_inside() {
    for _ in 0..50 {
        let c = CellType::random_range(&CellType::B, &CellType::D);
        let i = c.as_index();
        assert!(2 <= i && i <= 4);
    }
    assert_eq!(CellType::random_range(&CellType::E, &CellType::E), CellType::E);
}

#[test]
fn map_lookup_and_colors() {
    let map = CellTypeMap::new();
    for i in 0..9 {
        let c = map.inv_lookup(i);
        assert_eq!(c.as_index(), i);
        assert_eq!(map.index(c).value, i as i64);
    }
    // First-match colour lookup: value 3 belongs to cell type C.
    let c3 = map.color_for_value(3).unwrap();
    assert_eq!(c3, map.index(CellType::C).color);
    assert!(map.color_for_value(77).is_none());
}

#[test]
fn map_selected_and_edit() {
    let mut map = CellTypeMap::new();
    map.set_selected_idx(3);
    assert_eq!(map.get_selected_idx(), 3);
    assert_eq!(map.get_selected_rules_cell(), CellType::C);
    assert_eq!(map.get_selected_rules_val(), 3);
    map.set_selected_idx(100);
    assert_eq!(map.get_selected_idx(), 8);
    map.set_value(CellType::A, 42);
    assert_eq!(map.index(CellType::A).value, 42);
    assert_eq!(map.index(CellType::B).value, 2);
}

#[test]
fn rule_first_match_wins() {
    // Two overlapping rules: the earlier-indexed one decides.
    let rules = RuleSet {
        rules: vec![
            Rule {
                state: CellType::A,
                range_start: 0,
                range_end: 1,
                transition: CellType::NoCell,
                transition_probability: None,
            },
            Rule {
                state: CellType::A,
                range_start: 0,
                range_end: 8,
                transition: CellType::A,
                transition_probability: None,
            },
        ],
    };
    assert_eq!(rules.apply(CellType::A, 0), CellType::NoCell);
    assert_eq!(rules.apply(CellType::A, 2), CellType::A);
    // No match: identity.
    assert_eq!(rules.apply(CellType::B, 0), CellType::B);
    assert_eq!(rules.apply_random(CellType::B, 0), CellType::B);
}

#[test]
fn classic_and_flame_rules_shape() {
    let c = classic_rules();
    assert_eq!(c.rules.len(), 3);
    assert_eq!(c.apply(CellType::A, 0), CellType::NoCell);
    assert_eq!(c.apply(CellType::A, 2), CellType::A);
    assert_eq!(c.apply(CellType::A, 5), CellType::NoCell);
    assert_eq!(c.apply(CellType::NoCell, 3), CellType::A);
    assert_eq!(c.apply(CellType::NoCell, 2), CellType::NoCell);
    let f = flame_rules();
    assert_eq!(f.rules.len(), 3);
    assert_eq!(f.apply(CellType::NoCell, 7), CellType::A);
}

#[test]
fn matrix_set_get_clear() {
    let mut m: VecMatrix<i64> = VecMatrix::new(4, 3, 7);
    assert_eq!(m.width(), 4);
    assert_eq!(m.height(), 3);
    assert_eq!(m.index((2, 1)), 7);
    m.set_at_index((2, 1), -5);
    assert_eq!(m.index((2, 1)), -5);
    assert_eq!(m.index((1, 2)), 7);
    m.clear(0);
    assert_eq!(m.index((2, 1)), 0);
}

#[test]
fn std_conv_matrix_ring() {
    let m = VecMatrix::new_std_conv_matrix(3, 3);
    for y in 0..3 {
        for x in 0..3 {
            let expect = if x == 1 && y == 1 { 0 } else { 1 };
            assert_eq!(m.index((x, y)), expect);
        }
    }
}

#[test]
fn symmetric_edit_xy_corners() {
    // On a 5x5 kernel, an XY edit of (0,0) writes the four corners and
    // nothing else.
    let mut m: VecMatrix<i64> = VecMatrix::new(5, 5, 0);
    m.set_at_index_sym(Symmetry::XY, (0, 0), 9);
    for y in 0..5 {
        for x in 0..5 {
            let expect = if (x == 0 || x == 4) && (y == 0 || y == 4) { 9 } else { 0 };
            assert_eq!(m.index((x, y)), expect);
        }
    }
}

#[test]
fn symmetric_edit_x_and_rot180() {
    let mut m: VecMatrix<i64> = VecMatrix::new(5, 5, 0);
    m.set_at_index_sym(Symmetry::X, (1, 2), 4);
    assert_eq!(m.index((1, 2)), 4);
    assert_eq!(m.index((3, 2)), 4);
    assert_eq!(m.index((2, 2)), 0);
    let mut r: VecMatrix<i64> = VecMatrix::new(5, 5, 0);
    r.set_at_index_sym(Symmetry::ROT180, (0, 1), 6);
    assert_eq!(r.index((0, 1)), 6);
    assert_eq!(r.index((4, 3)), 6);
}

#[test]
fn donut_band() {
    // A 5x5 ring of thickness one starting one cell in from the border.
    let mut m: VecMatrix<i64> = VecMatrix::new(5, 5, 0);
    m.donut(1, 1, 8);
    for y in 0..5usize {
        for x in 0..5usize {
            let dx = x.min(4 - x);
            let dy = y.min(4 - y);
            let expect = if dx.min(dy) == 1 { 8 } else { 0 };
            assert_eq!(m.index((x, y)), expect, "at {} {}", x, y);
        }
    }
}

#[test]
fn random_matrices_respect_range() {
    let m = VecMatrix::<i64>::new_random_range(6, 6, -2, 3);
    for y in 0..6 {
        for x in 0..6 {
            let v = m.index((x, y));
            assert!(-2 <= v && v <= 3);
        }
    }
    let c = VecMatrix::<CellType>::new_random_range(6, 6, &CellType::A, &CellType::B);
    for y in 0..6 {
        for x in 0..6 {
            let v = c.index((x, y)).as_index();
            assert!(v == 1 || v == 2);
        }
    }
}
