use mandelbrot_rs::life::LifeBoard;

fn sorted_cells(b: &LifeBoard) -> Vec<(i64, i64)> {
    let mut v = b.cells();
    v.sort();
    v
}

fn board(cells: &[(i64, i64)]) -> LifeBoard {
    let mut b = LifeBoard::empty();
    for &(x, y) in cells {
        b.insert(x, y);
    }
    b
}

#[test]
fn new_board_holds_a_glider() {
    let b = LifeBoard::new();
    assert_eq!(b.len(), 5);
    assert_eq!(sorted_cells(&b), vec![(0, 2), (1, 0), (1, 2), (2, 1), (2, 2)]);
}

#[test]
fn blinker_oscillates() {
    let mut b = board(&[(0, 1), (1, 1), (2, 1)]);
    b.step();
    assert_eq!(sorted_cells(&b), vec![(1, 0), (1, 1), (1, 2)]);
    b.step();
    assert_eq!(sorted_cells(&b), vec![(0, 1), (1, 1), (2, 1)]);
}

#[test]
fn block_is_still() {
    let cells = [(5, 5), (5, 6), (6, 5), (6, 6)];
    let mut b = board(&cells);
    b.step();
    assert_eq!(sorted_cells(&b), vec![(5, 5), (5, 6), (6, 5), (6, 6)]);
}

#[test]
fn glider_moves_diagonally() {
    let mut b = LifeBoard::new();
    for _ in 0..4 {
        b.step();
    }
    assert_eq!(sorted_cells(&b), vec![(1, 3), (2, 1), (2, 3), (3, 2), (3, 3)]);
}

#[test]
fn lonely_cells_die_and_empty_stays_empty() {
    let mut b = board(&[(0, 0), (10, 10)]);
    b.step();
    assert_eq!(b.len(), 0);
    b.step();
    assert_eq!(b.len(), 0);
}

#[test]
fn toggle_flips_a_cell() {
    let mut b = LifeBoard::empty();
    b.toggle(-3, 4);
    assert!(b.contains(-3, 4));
    assert_eq!(b.len(), 1);
    b.toggle(-3, 4);
    assert!(!b.contains(-3, 4));
    assert_eq!(b.len(), 0);
}

#[test]
fn clear_kills_everything() {
    let mut b = LifeBoard::new();
    b.clear();
    assert_eq!(b.len(), 0);
    assert!(b.cells().is_empty());
}

#[test]
fn extreme_coordinates_are_distinct() {
    let mut b = LifeBoard::empty();
    b.insert(i64::MIN, i64::MAX);
    b.insert(i64::MAX, i64::MIN);
    b.insert(-1, -1);
    assert_eq!(b.len(), 3);
    assert!(b.contains(i64::MIN, i64::MAX));
    assert!(!b.contains(i64::MIN, i64::MIN));
    assert_eq!(sorted_cells(&b), vec![(i64::MIN, i64::MAX), (-1, -1), (i64::MAX, i64::MIN)]);
}

#[test]
fn birth_needs_exactly_three() {
    // an L of three cells gives birth to the fourth corner
    let mut b = board(&[(0, 0), (1, 0), (0, 1)]);
    b.step();
    assert_eq!(sorted_cells(&b), vec![(0, 0), (0, 1), (1, 0), (1, 1)]);
}

#[test]
fn can_step_checks_the_coordinate_limits() {
    let mut b = LifeBoard::new();
    assert!(b.can_step());
    b.insert(i64::MAX, 0);
    assert!(!b.can_step());
    b.toggle(i64::MAX, 0);
    assert!(b.can_step());
    b.insert(0, i64::MIN);
    assert!(!b.can_step());
    assert!(LifeBoard::empty().can_step());
}
