use msg_sampling::grid::SampleGrid;

#[test]
fn new_grid_is_empty() {
    let g = SampleGrid::new(3);
    assert_eq!(g.size(), 3);
    assert_eq!(g.accepted_count(), 0);
    assert_eq!(g.active_len(), 0);
    assert!(!g.is_running(10));
    assert!(g.neighbors(1, 1).is_empty());
}

#[test]
fn accept_fills_cell_and_activates_sample() {
    let mut g = SampleGrid::new(6);
    assert_eq!(g.accept(2, 3), 0);
    assert_eq!(g.accept(0, 0), 1);
    assert_eq!(g.accepted_count(), 2);
    assert_eq!(g.active_len(), 2);
    assert_eq!(g.pick_active(0), (0, 0));
    assert_eq!(g.pick_active(1), (1, 1));
    // Sample 0 at (2, 3) is in the window of (4, 5); sample 1 at (0, 0) is not.
    assert_eq!(g.neighbors(4, 5), vec![0]);
    // Both are in the window of (1, 1), in row-major order.
    assert_eq!(g.neighbors(1, 1), vec![1, 0]);
    // Neither is in the window of (5, 0).
    assert!(g.neighbors(5, 0).is_empty());
}

#[test]
fn pick_active_clamps_to_last_entry() {
    let mut g = SampleGrid::new(4);
    g.accept(0, 0);
    g.accept(3, 3);
    g.accept(1, 2);
    assert_eq!(g.pick_active(2), (2, 2));
    assert_eq!(g.pick_active(3), (2, 2));
    assert_eq!(g.pick_active(usize::MAX), (2, 2));
}

#[test]
fn retire_moves_last_entry_into_place() {
    let mut g = SampleGrid::new(4);
    g.accept(0, 0);
    g.accept(1, 1);
    g.accept(2, 2);
    g.retire(0);
    assert_eq!(g.active_len(), 2);
    assert_eq!(g.pick_active(0), (0, 2));
    assert_eq!(g.pick_active(1), (1, 1));
    // Retiring keeps the sample in its cell.
    assert_eq!(g.neighbors(0, 0), vec![0, 1, 2]);
    assert_eq!(g.accepted_count(), 3);
}

#[test]
fn running_stops_at_twice_the_target_or_when_inactive() {
    let mut g = SampleGrid::new(5);
    g.accept(0, 0);
    assert!(g.is_running(1));
    g.accept(4, 4);
    assert!(!g.is_running(1));
    assert!(g.is_running(2));
    g.retire(1);
    g.retire(0);
    assert!(!g.is_running(2));
    assert!(!g.is_running(0));
}

#[test]
fn clamp_cell_limits_to_last_cell() {
    let g = SampleGrid::new(7);
    assert_eq!(g.clamp_cell(0), 0);
    assert_eq!(g.clamp_cell(6), 6);
    assert_eq!(g.clamp_cell(7), 6);
    assert_eq!(g.clamp_cell(1000), 6);
}

#[test]
fn accept_over_an_occupied_cell_replaces_its_sample() {
    let mut g = SampleGrid::new(2);
    g.accept(1, 0);
    g.accept(1, 0);
    assert_eq!(g.neighbors(0, 0), vec![1]);
    assert_eq!(g.active_len(), 2);
}

#[test]
fn accepted_sample_is_reported_by_its_own_cell() {
    let mut g = SampleGrid::new(9);
    for (gx, gy) in [(0usize, 0usize), (8, 8), (4, 4), (8, 0)] {
        let idx = g.accept(gx, gy);
        assert!(g.neighbors(gx, gy).contains(&idx));
    }
    // Cells two steps away in both directions are in the window; three are not.
    assert_eq!(g.neighbors(6, 6), vec![2, 1]);
    assert_eq!(g.neighbors(1, 7), Vec::<usize>::new());
}
