use smirk_engine::grid::{cells_in_rect_into, footprint_diff, GridCell};
use smirk_engine::pairs::{candidate_pairs, contact_transitions};

fn cell(col: i32, row: i32) -> GridCell {
    GridCell { col, row }
}

#[test]
fn rect_cells_are_column_major_and_appended() {
    let mut out = vec![cell(9, 9)];
    cells_in_rect_into(0, 1, -1, 0, &mut out);
    assert_eq!(out, vec![cell(9, 9), cell(0, -1), cell(0, 0), cell(1, -1), cell(1, 0)]);
}

#[test]
fn empty_rect_appends_nothing() {
    let mut out = Vec::new();
    cells_in_rect_into(2, 1, 0, 0, &mut out);
    assert!(out.is_empty());
}

#[test]
fn crossing_a_cell_boundary_leaves_one_cell_and_enters_another() {
    let before = vec![cell(0, 0), cell(0, 1)];
    let after = vec![cell(0, 1), cell(1, 1)];
    let (leave, enter) = footprint_diff(&before, &after);
    assert_eq!(leave, vec![cell(0, 0)]);
    assert_eq!(enter, vec![cell(1, 1)]);
}

#[test]
fn stationary_footprint_touches_no_cell() {
    let cells = vec![cell(3, 4), cell(3, 5)];
    let (leave, enter) = footprint_diff(&cells, &cells);
    assert!(leave.is_empty());
    assert!(enter.is_empty());
}

#[test]
fn broadphase_pairs_are_canonical_and_reported_once() {
    // Entities 5 and 2 share two cells; 7 shares one cell with 5.
    let entities = vec![
        (5u64, vec![vec![5u64, 2], vec![2, 5, 7]]),
        (2u64, vec![vec![5, 2], vec![2, 5, 7]]),
        (7u64, vec![vec![2, 5, 7]]),
    ];
    let pairs = candidate_pairs(&entities);
    assert_eq!(pairs, vec![(2, 5), (5, 7), (2, 7)]);
}

#[test]
fn lone_entity_has_no_pairs() {
    let entities = vec![(1u64, vec![vec![1u64]])];
    assert!(candidate_pairs(&entities).is_empty());
}

#[test]
fn collision_transitions_are_sorted_and_active_set_follows_overlap() {
    let mut active = vec![(3u64, 4u64), (1, 2)];
    let overlapping = vec![(5u64, 6u64), (1, 2), (0, 9)];
    let (started, ended) = contact_transitions(&mut active, &overlapping);
    assert_eq!(started, vec![(0, 9), (5, 6)]);
    assert_eq!(ended, vec![(3, 4)]);
    let mut now = active.clone();
    now.sort();
    assert_eq!(now, vec![(0, 9), (1, 2), (5, 6)]);
}

#[test]
fn steady_overlap_reports_nothing_the_second_frame() {
    let mut active = Vec::new();
    let overlapping = vec![(1u64, 2u64), (2, 3)];
    let (started, _) = contact_transitions(&mut active, &overlapping);
    assert_eq!(started, vec![(1, 2), (2, 3)]);
    let (started, ended) = contact_transitions(&mut active, &overlapping);
    assert!(started.is_empty());
    assert!(ended.is_empty());
}

#[test]
fn collision_started_order_is_canonical_every_run() {
    for _ in 0..20 {
        let (center, victim_a, victim_b) = (0u64, 1u64, 2u64);
        let pair_a = (center, victim_a);
        let pair_b = (center, victim_b);
        let mut expected = [pair_a, pair_b];
        expected.sort();
        // Both pairs overlap; they arrive in reverse order.
        let mut active = Vec::new();
        let (started, ended) = contact_transitions(&mut active, &vec![pair_b, pair_a]);
        assert_eq!(started, expected.to_vec());
        assert!(ended.is_empty());
    }
}
