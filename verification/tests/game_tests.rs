use minesweeper::game::{Game, GameState};
use minesweeper::Cell;

fn cell(x: i32, y: i32) -> Cell {
    Cell { x, y }
}

fn revealed_grid(g: &Game) -> Vec<bool> {
    let mut grid = Vec::new();
    for y in 0..g.board.height {
        for x in 0..g.board.width {
            grid.push(g.board.is_revealed(cell(x, y)));
        }
    }
    grid
}

#[test]
fn new_game_is_playing() {
    let g = Game::new(20, 15, 40);
    assert_eq!(g.state, GameState::Playing);
    assert_eq!(g.board.width, 20);
    assert_eq!(g.board.height, 15);
}

#[test]
fn reveal_hazard_ends_game() {
    let mut g = Game::with_hazards(2, 2, &vec![cell(0, 0)]);
    g.reveal_action(cell(0, 0));
    assert_eq!(g.state, GameState::GameOver);
    assert!(g.board.is_revealed(cell(0, 0)));
}

#[test]
fn reveal_safe_cell_keeps_playing() {
    let mut g = Game::with_hazards(2, 2, &vec![cell(1, 1)]);
    g.reveal_action(cell(0, 0));
    assert_eq!(g.state, GameState::Playing);
}

#[test]
fn actions_after_game_over_are_ignored() {
    // After a hazard is exposed, reveal and flag requests change nothing.
    let mut g = Game::with_hazards(2, 2, &vec![cell(0, 0)]);
    g.reveal_action(cell(0, 0));
    assert_eq!(g.state, GameState::GameOver);
    let before = revealed_grid(&g);
    g.reveal_action(cell(1, 1));
    assert_eq!(revealed_grid(&g), before);
    assert!(!g.board.is_revealed(cell(1, 1)));
    g.flag_action(cell(1, 1));
    assert!(!g.board.is_flagged(cell(1, 1)));
    assert_eq!(g.state, GameState::GameOver);
}

#[test]
fn flag_action_never_transitions() {
    let mut g = Game::with_hazards(2, 2, &vec![cell(0, 0)]);
    g.flag_action(cell(0, 0));
    assert_eq!(g.state, GameState::Playing);
    assert!(g.board.is_flagged(cell(0, 0)));
    // A flagged hazard cannot end the game.
    g.reveal_action(cell(0, 0));
    assert_eq!(g.state, GameState::Playing);
    assert!(!g.board.is_revealed(cell(0, 0)));
}
