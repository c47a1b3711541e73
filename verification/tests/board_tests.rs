use minesweeper::board::Board;
use minesweeper::Cell;
use minesweeper::map_candidate;

fn cell(x: i32, y: i32) -> Cell {
    Cell { x, y }
}

/// Collects the revealed grid as a vector of booleans in row-major order.
fn revealed_grid(b: &Board) -> Vec<bool> {
    let mut grid = Vec::new();
    for y in 0..b.height {
        for x in 0..b.width {
            grid.push(b.is_revealed(cell(x, y)));
        }
    }
    grid
}

fn flagged_grid(b: &Board) -> Vec<bool> {
    let mut grid = Vec::new();
    for y in 0..b.height {
        for x in 0..b.width {
            grid.push(b.is_flagged(cell(x, y)));
        }
    }
    grid
}

fn count_hazards(b: &Board) -> usize {
    let mut n = 0;
    for y in 0..b.height {
        for x in 0..b.width {
            if b.is_hazard(cell(x, y)) {
                n += 1;
            }
        }
    }
    n
}

#[test]
fn scenario_adjacent_hazard() {
    // 2x2 board, hazard at (1,1): revealing (0,0) exposes only that cell
    // (its count is 1, so no cascade) and reports no hazard.
    let mut b = Board::with_hazards(2, 2, &vec![cell(1, 1)]);
    assert_eq!(b.neighbor_count(cell(0, 0)), Some(1));
    let exposed = b.reveal_board(cell(0, 0));
    assert!(!exposed);
    assert!(b.is_revealed(cell(0, 0)));
    assert!(!b.is_revealed(cell(1, 0)));
    assert!(!b.is_revealed(cell(0, 1)));
    assert!(!b.is_revealed(cell(1, 1)));
}

#[test]
fn scenario_full_cascade() {
    // 4x4 board, hazard at (3,3): revealing (0,0) cascades through the
    // zero-count region and exposes all 15 non-hazard cells.
    let mut b = Board::with_hazards(4, 4, &vec![cell(3, 3)]);
    let exposed = b.reveal_board(cell(0, 0));
    assert!(!exposed);
    for y in 0..4 {
        for x in 0..4 {
            if x == 3 && y == 3 {
                assert!(!b.is_revealed(cell(x, y)));
            } else {
                assert!(b.is_revealed(cell(x, y)));
            }
        }
    }
    assert_eq!(b.neighbor_count(cell(2, 2)), Some(1));
    assert_eq!(b.neighbor_count(cell(2, 3)), Some(1));
    assert_eq!(b.neighbor_count(cell(3, 2)), Some(1));
}

#[test]
fn scenario_center_hazard() {
    // 3x3 board, hazard in the center: every other cell has count 1, so
    // revealing a corner exposes just that corner.
    let mut b = Board::with_hazards(3, 3, &vec![cell(1, 1)]);
    assert_eq!(b.neighbor_count(cell(0, 0)), Some(1));
    let exposed = b.reveal_board(cell(0, 0));
    assert!(!exposed);
    for y in 0..3 {
        for x in 0..3 {
            assert_eq!(b.is_revealed(cell(x, y)), x == 0 && y == 0);
        }
    }
}

#[test]
fn scenario_flag_toggle() {
    // Toggling a flag twice on an empty board restores the empty flag set.
    let mut b = Board::with_hazards(2, 2, &vec![]);
    assert!(!b.is_flagged(cell(0, 0)));
    b.toggle_flag(cell(0, 0));
    assert!(b.is_flagged(cell(0, 0)));
    b.toggle_flag(cell(0, 0));
    assert!(!b.is_flagged(cell(0, 0)));
}

#[test]
fn scenario_saturated_generation() {
    // A hazard quota beyond the board size is clamped: every one of the
    // nine cells is a hazard and no cell has a neighbor count.
    let b = Board::generate(3, 3, 100);
    for y in 0..3 {
        for x in 0..3 {
            assert!(b.is_hazard(cell(x, y)));
            assert_eq!(b.neighbor_count(cell(x, y)), None);
        }
    }
}

#[test]
fn generation_cardinality() {
    let b = Board::generate(5, 4, 7);
    assert_eq!(count_hazards(&b), 7);
    let none = Board::generate(4, 4, 0);
    assert_eq!(count_hazards(&none), 0);
    let full = Board::generate(2, 3, 6);
    assert_eq!(count_hazards(&full), 6);
}

#[test]
fn generation_starts_blank() {
    let b = Board::generate(6, 5, 8);
    assert_eq!(revealed_grid(&b), vec![false; 30]);
    assert_eq!(flagged_grid(&b), vec![false; 30]);
}

#[test]
fn neighbor_count_matches_manual() {
    let hazards = vec![cell(0, 0), cell(2, 1), cell(3, 2)];
    let b = Board::with_hazards(4, 3, &hazards);
    for y in 0..3 {
        for x in 0..4 {
            if b.is_hazard(cell(x, y)) {
                assert_eq!(b.neighbor_count(cell(x, y)), None);
                continue;
            }
            let mut manual = 0u8;
            for dy in -1..2 {
                for dx in -1..2 {
                    if (dx, dy) != (0, 0) && b.is_hazard(cell(x + dx, y + dy)) {
                        manual += 1;
                    }
                }
            }
            assert_eq!(b.neighbor_count(cell(x, y)), Some(manual));
        }
    }
}

#[test]
fn reveal_idempotent() {
    let mut b = Board::with_hazards(4, 4, &vec![cell(3, 3)]);
    let first = b.reveal_board(cell(0, 0));
    let once = revealed_grid(&b);
    let second = b.reveal_board(cell(0, 0));
    assert_eq!(revealed_grid(&b), once);
    assert!(!first);
    assert!(!second);
}

#[test]
fn flag_blocks_reveal() {
    let mut b = Board::with_hazards(3, 3, &vec![cell(1, 1)]);
    b.toggle_flag(cell(0, 0));
    let before = revealed_grid(&b);
    let exposed = b.reveal_board(cell(0, 0));
    assert!(!exposed);
    assert_eq!(revealed_grid(&b), before);
    // A flagged hazard cannot be exposed either.
    b.toggle_flag(cell(1, 1));
    let exposed_hazard = b.reveal_board(cell(1, 1));
    assert!(!exposed_hazard);
    assert!(!b.is_revealed(cell(1, 1)));
}

#[test]
fn flag_toggle_involution() {
    let mut b = Board::with_hazards(3, 2, &vec![cell(2, 0)]);
    b.toggle_flag(cell(0, 1));
    let before = flagged_grid(&b);
    b.toggle_flag(cell(1, 0));
    b.toggle_flag(cell(1, 0));
    assert_eq!(flagged_grid(&b), before);
}

#[test]
fn cascade_deterministic() {
    // Two boards with the same layout reveal the same set.
    let mut a = Board::with_hazards(5, 5, &vec![cell(4, 4), cell(0, 4)]);
    let mut b = Board::with_hazards(5, 5, &vec![cell(4, 4), cell(0, 4)]);
    let ra = a.reveal_board(cell(1, 0));
    let rb = b.reveal_board(cell(1, 0));
    assert_eq!(ra, rb);
    assert_eq!(revealed_grid(&a), revealed_grid(&b));
}

#[test]
fn cascade_skips_flagged_cells() {
    let mut b = Board::with_hazards(4, 4, &vec![cell(3, 3)]);
    b.toggle_flag(cell(1, 1));
    let exposed = b.reveal_board(cell(0, 0));
    assert!(!exposed);
    assert!(!b.is_revealed(cell(1, 1)));
    assert!(b.is_flagged(cell(1, 1)));
    assert!(b.is_revealed(cell(2, 2)));
    assert!(!b.is_revealed(cell(3, 3)));
}

#[test]
fn hazard_exposure_signal() {
    let mut b = Board::with_hazards(3, 3, &vec![cell(1, 1)]);
    // A non-hazard reveal reports false.
    assert!(!b.reveal_board(cell(0, 0)));
    // Revealing the hazard reports true.
    assert!(b.reveal_board(cell(1, 1)));
    // Revealing it again reports false: it is no longer unrevealed.
    assert!(!b.reveal_board(cell(1, 1)));
}

#[test]
fn map_candidate_bounds() {
    assert_eq!(map_candidate(0, 0, 20, 15), Some(cell(0, 0)));
    assert_eq!(map_candidate(19, 14, 20, 15), Some(cell(19, 14)));
    assert_eq!(map_candidate(-1, 3, 20, 15), None);
    assert_eq!(map_candidate(3, -2, 20, 15), None);
    assert_eq!(map_candidate(20, 0, 20, 15), None);
    assert_eq!(map_candidate(0, 15, 20, 15), None);
}
