use rugol::index_set::IndexSet;
use rugol::quad_tree::{Changed, QuadTree, Rect};

#[test]
fn new_tracker_marks_everything() {
    let mut t = QuadTree::new(10, 5, 5);
    let mut rects: Vec<Rect> = Vec::new();
    t.get_changed_ranges(3, 0, 0, &mut rects);
    // The root is fully changed: one rectangle, the whole grid.
    assert_eq!(rects.len(), 1);
    assert_eq!(
        rects[0],
        Rect { x_start: 0, x_end: 9, y_start: 0, y_end: 4 },
    );
    t.clear();
    let mut rects2: Vec<Rect> = Vec::new();
    t.get_changed_ranges(3, 0, 0, &mut rects2);
    assert_eq!(rects2.len(), 0);
}

#[test]
fn insert_dilates_by_half_kernel() {
    // Soundness of the tracker at unit-leaf depth: a single insert emits
    // exactly its own cell dilated by half the kernel width, clamped.
    let mut t = QuadTree::new(10, 5, 5);
    t.clear();
    t.insert(5, 2, 0, 0);
    let mut rects: Vec<Rect> = Vec::new();
    t.get_changed_ranges(3, 0, 0, &mut rects);
    assert_eq!(rects.len(), 1);
    assert_eq!(
        rects[0],
        Rect { x_start: 4, x_end: 6, y_start: 1, y_end: 3 },
    );
}

#[test]
fn insert_at_corner_clamps() {
    let mut t = QuadTree::new(10, 5, 5);
    t.clear();
    t.insert(0, 0, 0, 0);
    let mut rects: Vec<Rect> = Vec::new();
    t.get_changed_ranges(5, 0, 0, &mut rects);
    assert_eq!(rects.len(), 1);
    assert_eq!(
        rects[0],
        Rect { x_start: 0, x_end: 2, y_start: 0, y_end: 2 },
    );
}

#[test]
fn out_of_grid_insert_changes_nothing() {
    let mut t = QuadTree::new(10, 5, 5);
    t.clear();
    t.insert(20, 20, 0, 0);
    let mut rects: Vec<Rect> = Vec::new();
    t.get_changed_ranges(3, 0, 0, &mut rects);
    assert_eq!(rects.len(), 0);
}

#[test]
fn aggregation_states_after_operations() {
    let mut t = QuadTree::new(10, 5, 5);
    // Fresh tracker: everything is marked changed, including the root.
    assert_eq!(t.tree[0][0].changed, Changed::Yes);
    t.clear();
    assert_eq!(t.tree[0][0].changed, Changed::No);
    // One insert makes the root a mix of changed and unchanged children.
    t.insert(5, 2, 0, 0);
    assert_eq!(t.tree[0][0].changed, Changed::Partial);
    t.everything_changed();
    assert_eq!(t.tree[0][0].changed, Changed::Yes);
    // The parent address of a node.
    assert_eq!(t.parent_ix(2, 13), (1, 3));
}

#[test]
fn index_set_membership_and_iteration() {
    let mut s = IndexSet::new(4, 3);
    assert!(!s.contains((1, 2)));
    s.insert((1, 2));
    s.insert((0, 0));
    assert!(s.contains((1, 2)));
    assert!(s.contains((0, 0)));
    assert!(!s.contains((2, 2)));
    // Ascending row-major iteration of exactly the inserted cells.
    let items = s.iter();
    assert_eq!(items, vec![(0, 0), (1, 2)]);
}

#[test]
fn index_set_rect_fill() {
    let mut s = IndexSet::new(5, 4);
    s.insert_rect(&Rect { x_start: 1, x_end: 2, y_start: 1, y_end: 2 });
    let mut count = 0;
    for y in 0..4 {
        for x in 0..5 {
            let inside = 1 <= x && x <= 2 && 1 <= y && y <= 2;
            assert_eq!(s.contains((x, y)), inside);
            if inside {
                count += 1;
            }
        }
    }
    assert_eq!(count, 4);
    assert_eq!(s.iter().len(), 4);
}
