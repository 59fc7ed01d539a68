use rugol::cell_type::CellType;
use rugol::rules::Rule;
use rugol::convolution::Convolution;
use rugol::index_set::IndexSet;
use rugol::matrix::VecMatrix;
use rugol::rugol::RugolState;

fn blank_state() -> RugolState {
    let mut state = RugolState::new(3);
    state.clear(CellType::NoCell);
    state
}

fn cells_of(state: &RugolState) -> Vec<Vec<CellType>> {
    let cells = state.get_cells();
    let mut out = Vec::new();
    for y in 0..cells.height() {
        let mut row = Vec::new();
        for x in 0..cells.width() {
            row.push(cells.index((x, y)));
        }
        out.push(row);
    }
    out
}

#[test]
fn corner_convolution_truncates() {
    // A corner cell with a 3x3 kernel sums only the neighbours that exist
    // inside the grid: no wrap-around from the opposite edge.
    let mut field = Convolution::new(10, 5, 3, 1);
    // A conspicuous value on the far edge; wrap-around would pick it up.
    field.set_at_index((9, 0), 1000);
    let kernels = vec![VecMatrix::new_std_conv_matrix(3, 3); 9];
    let cells: VecMatrix<CellType> = VecMatrix::new(10, 5, CellType::A);
    let mut acc: VecMatrix<i64> = VecMatrix::new(10, 5, 0);
    let mut indices = IndexSet::new(10, 5);
    indices.insert((0, 0));
    field.convolution(&kernels, true, &cells, &mut acc, &indices);
    // Neighbours of (0,0) inside the grid: (1,0), (0,1), (1,1), each 1;
    // the centre weight is 0.
    assert_eq!(acc.index((0, 0)), 3);
    // Inactive cells keep their previous accumulator value.
    assert_eq!(acc.index((5, 2)), 0);
}

#[test]
fn scenario_single_cell_dies() {
    // Classic rules on a 10x5 grid: one lone A cell at (5,2) starves and
    // every other cell stays empty.
    let mut state = blank_state();
    state.set_at_index(5, 2, &CellType::A);
    assert_eq!(state.get_cells().index((5, 2)), CellType::A);
    assert_eq!(state.get_fields().index((5, 2)), 1);
    state.step(true);
    for y in 0..5 {
        for x in 0..10 {
            assert_eq!(state.get_cells().index((x, y)), CellType::NoCell, "at {} {}", x, y);
        }
    }
    assert_eq!(state.get_fields().index((5, 2)), 0);
}

#[test]
fn blinker_oscillates() {
    // A vertical triple of A cells flips to a horizontal triple: the
    // classic blinker, exercising birth and survival rules together.
    let mut state = blank_state();
    state.set_at_index(4, 1, &CellType::A);
    state.set_at_index(4, 2, &CellType::A);
    state.set_at_index(4, 3, &CellType::A);
    state.step(true);
    for y in 0..5 {
        for x in 0..10 {
            let expect = if y == 2 && (3 <= x && x <= 5) {
                CellType::A
            } else {
                CellType::NoCell
            };
            assert_eq!(state.get_cells().index((x, y)), expect, "at {} {}", x, y);
        }
    }
    state.step(true);
    for y in 0..5 {
        for x in 0..10 {
            let expect = if x == 4 && (1 <= y && y <= 3) {
                CellType::A
            } else {
                CellType::NoCell
            };
            assert_eq!(state.get_cells().index((x, y)), expect, "at {} {}", x, y);
        }
    }
}

#[test]
fn determinism_two_runs_agree() {
    // Two engines prepared identically step to identical grids.
    let mut a = blank_state();
    let mut b = blank_state();
    for (x, y) in [(2usize, 2usize), (3, 2), (4, 2), (4, 1), (7, 3)] {
        a.set_at_index(x, y, &CellType::A);
        b.set_at_index(x, y, &CellType::A);
    }
    a.step(true);
    b.step(true);
    assert_eq!(cells_of(&a), cells_of(&b));
    a.step(true);
    b.step(true);
    assert_eq!(cells_of(&a), cells_of(&b));
}

#[test]
fn snapshot_round_trip_steps_identically() {
    // Capture a state, load it into a fresh engine, and step both: the
    // grids must agree exactly.
    let mut a = blank_state();
    for (x, y) in [(2usize, 2usize), (3, 2), (4, 2), (6, 1), (6, 2), (6, 3)] {
        a.set_at_index(x, y, &CellType::A);
    }
    let snap = a.make_snapshot(true, true, true, true);
    let mut b = RugolState::new(3);
    assert!(b.load_save_file(&snap));
    assert_eq!(cells_of(&a), cells_of(&b));
    a.step(true);
    b.step(true);
    assert_eq!(cells_of(&a), cells_of(&b));
}

#[test]
fn snapshot_with_wrong_shape_is_rejected() {
    let a = blank_state();
    let mut snap = a.make_snapshot(false, false, false, true);
    // Corrupt the cell grids: drop one resolution.
    if let Some(cells) = &mut snap.cells {
        cells.pop();
    }
    let mut b = RugolState::new(3);
    assert!(!b.load_save_file(&snap));
    // The rejected load left the engine untouched and still usable.
    b.step(true);
}

#[test]
fn randomize_fills_range_and_syncs_fields() {
    let mut state = blank_state();
    state.randomize(&CellType::B, &CellType::B);
    for y in 0..5 {
        for x in 0..10 {
            assert_eq!(state.get_cells().index((x, y)), CellType::B);
            assert_eq!(state.get_fields().index((x, y)), 2);
        }
    }
}

#[test]
fn clear_resets_grid() {
    let mut state = RugolState::new(3);
    state.randomize(&CellType::NoCell, &CellType::H);
    state.clear(CellType::C);
    for y in 0..5 {
        for x in 0..10 {
            assert_eq!(state.get_cells().index((x, y)), CellType::C);
            assert_eq!(state.get_fields().index((x, y)), 3);
        }
    }
}

#[test]
fn rule_edits_take_effect() {
    let mut state = blank_state();
    state.set_at_index(5, 2, &CellType::B);
    // A fresh rule: a lone B cell turns into H.
    state.add_rule(Rule {
        state: CellType::B,
        range_start: 0,
        range_end: 0,
        transition: CellType::H,
        transition_probability: None,
    });
    state.step(true);
    assert_eq!(state.get_cells().index((5, 2)), CellType::H);
    let n = state.rules.rules.len();
    state.delete_rule(n - 1);
    assert_eq!(state.rules.rules.len(), n - 1);
}

#[test]
fn selected_type_paints_cells() {
    let mut state = blank_state();
    state.cell_type_map.set_selected_idx(4);
    state.set_selected_at_index(1, 1);
    assert_eq!(state.get_cells().index((1, 1)), CellType::D);
    assert_eq!(state.get_fields().index((1, 1)), 4);
    assert!(state.is_valid_index(9, 4));
    assert!(!state.is_valid_index(10, 4));
}

#[test]
fn kernel_edits_apply_everywhere() {
    let mut state = blank_state();
    state.donut_all_kernels(0, 0, 5);
    // The ring of distance zero is the kernel border.
    let k = &state.conv_kernels[3];
    assert_eq!(k.index((0, 0)), 5);
    assert_eq!(k.index((2, 0)), 5);
    assert_eq!(k.index((1, 1)), 0);
    state.copy_kernel_to_all(3);
    let k0 = &state.conv_kernels[0];
    assert_eq!(k0.index((0, 0)), 5);
    assert_eq!(k0.index((1, 1)), 0);
}
