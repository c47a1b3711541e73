//! The controller: owns the board, holds the Playing/GameOver state
//! machine, and routes player actions to the board while the game runs.

use vstd::prelude::*;
use crate::Cell;
use crate::board::{Board, reveal_post, toggle_post};

verus! {

/// The phase of a game. `GameOver` is terminal: it is entered exactly
/// once and left only by building a fresh game.
#[derive(Clone, Copy, PartialEq, Eq, Structural, Debug)]
pub enum GameState {
    Playing,
    GameOver,
}

/// Owns one board for its whole life and mutates it only through the
/// reveal and flag actions below.
pub struct Game {
    pub board: Board,
    pub state: GameState,
}

impl Game {
    pub open spec fn wf(self) -> bool {
        self.board.wf()
    }

    /// Starts a fresh game in the `Playing` state on a randomly generated
    /// board.
    pub fn new(width: i32, height: i32, hazard_count: i32) -> (g: Game)
        requires
            0 < width,
            0 < height,
            0 <= hazard_count,
            width as int * height as int <= usize::MAX as int,
        ensures
            g.wf(),
            g.state == GameState::Playing,
            g.board.width == width,
            g.board.height == height,
            g.board.hazards().finite(),
            g.board.hazards().len() == vstd::math::min(hazard_count as int, g.board.total()),
            forall|c: Cell| !(#[trigger] g.board.flag_at(c)),
            forall|c: Cell| !(#[trigger] g.board.rev_at(c)),
    {
        Game { board: Board::generate(width, height, hazard_count), state: GameState::Playing }
    }

    /// Starts a fresh game in the `Playing` state on a board with the
    /// given hazard layout.
    pub fn with_hazards(width: i32, height: i32, hazards: &Vec<Cell>) -> (g: Game)
        requires
            0 < width,
            0 < height,
            width as int * height as int <= usize::MAX as int,
        ensures
            g.wf(),
            g.state == GameState::Playing,
            g.board.width == width,
            g.board.height == height,
            forall|c: Cell| #[trigger]
                g.board.mine_at(c) <==> (g.board.in_bounds_spec(c) && hazards@.contains(c)),
            forall|c: Cell| !(#[trigger] g.board.flag_at(c)),
            forall|c: Cell| !(#[trigger] g.board.rev_at(c)),
    {
        Game { board: Board::with_hazards(width, height, hazards), state: GameState::Playing }
    }

    /// Processes a reveal request. While playing, the board is revealed at
    /// `cell` and the game ends exactly when that exposed a hazard. After
    /// the game is over the request is dropped and nothing changes.
    pub fn reveal_action(&mut self, cell: Cell)
        requires
            old(self).wf(),
            old(self).board.in_bounds_spec(cell),
        ensures
            final(self).wf(),
            old(self).state == GameState::GameOver ==> *final(self) == *old(self),
            old(self).state == GameState::Playing ==> {
                &&& reveal_post(
                    old(self).board,
                    final(self).board,
                    cell,
                    old(self).board.eligible(cell) && old(self).board.mine_at(cell),
                )
                &&& final(self).state == (if old(self).board.eligible(cell)
                    && old(self).board.mine_at(cell) {
                    GameState::GameOver
                } else {
                    GameState::Playing
                })
            },
    {
        match self.state {
            GameState::Playing => {
                if self.board.reveal_board(cell) {
                    self.state = GameState::GameOver;
                }
            },
            GameState::GameOver => {},
        }
    }

    /// Processes a flag request. While playing, the flag on `cell` is
    /// toggled; a flag action never changes the game state. After the
    /// game is over the request is dropped and nothing changes.
    pub fn flag_action(&mut self, cell: Cell)
        requires
            old(self).wf(),
            old(self).board.in_bounds_spec(cell),
        ensures
            final(self).wf(),
            final(self).state == old(self).state,
            old(self).state == GameState::GameOver ==> *final(self) == *old(self),
            old(self).state == GameState::Playing ==> toggle_post(
                old(self).board,
                final(self).board,
                cell,
            ),
    {
        match self.state {
            GameState::Playing => {
                self.board.toggle_flag(cell);
            },
            GameState::GameOver => {},
        }
    }
}

} // verus!
