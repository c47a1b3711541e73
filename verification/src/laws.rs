//! Laws of the board operations, stated over the exact postconditions
//! `reveal_post` and `toggle_post` that `reveal_board` and `toggle_flag`
//! establish.

use vstd::prelude::*;
use crate::Cell;
use crate::board::{Board, moore_neighbors, lemma_adjacent_mines_is_neighborhood_count, reveal_post, toggle_post};

verus! {

/// Neighbor-count correctness: on a well-formed board, the stored count
/// of every non-hazard cell equals the number of hazards in its Moore
/// neighborhood.
pub proof fn lemma_neighbor_count_correct(b: Board, c: Cell)
    requires
        b.wf(),
        b.in_bounds_spec(c),
        !b.mine_at(c),
    ensures
        b.count_at(c) == b.hazards().intersect(moore_neighbors(c)).len(),
{
    assert(b.count_at(c) == b.adjacent_mines(c));
    lemma_adjacent_mines_is_neighborhood_count(b, c);
}

/// Reveal idempotence: revealing the same cell a second time leaves the
/// revealed set as it was after the first reveal, and reports no hazard.
pub proof fn lemma_reveal_idempotent(
    b0: Board,
    b1: Board,
    b2: Board,
    cell: Cell,
    r1: bool,
    r2: bool,
)
    requires
        reveal_post(b0, b1, cell, r1),
        reveal_post(b1, b2, cell, r2),
    ensures
        b2.revealed_cells() == b1.revealed_cells(),
        r2 == false,
{
    if b0.eligible(cell) {
        assert(b0.reaches(cell, cell, 0nat));
        assert(b0.reveal_region(cell).contains(cell));
        assert(b1.revealed_cells().contains(cell));
        assert(b1.rev_at(cell));
    } else {
        assert(b1.revealed_cells().contains(cell) == b0.revealed_cells().contains(cell));
        assert(b1.rev_at(cell) == b0.rev_at(cell));
        assert(b1.flag_at(cell) == b0.flag_at(cell));
    }
    assert(!b1.eligible(cell));
}

/// A flag blocks reveal: revealing a flagged cell changes nothing and
/// reports no hazard.
pub proof fn lemma_flag_blocks_reveal(b0: Board, b1: Board, cell: Cell, r: bool)
    requires
        b0.flag_at(cell),
        reveal_post(b0, b1, cell, r),
    ensures
        b1.revealed_cells() == b0.revealed_cells(),
        r == false,
{
}

/// Flag toggle involution: toggling the flag of the same cell twice
/// restores the flag set.
pub proof fn lemma_flag_toggle_involution(b0: Board, b1: Board, b2: Board, cell: Cell)
    requires
        toggle_post(b0, b1, cell),
        toggle_post(b1, b2, cell),
    ensures
        b2.flags() == b0.flags(),
{
    if b0.rev_at(cell) {
        assert(b2.flags() =~= b0.flags());
    } else if b0.flag_at(cell) {
        assert(b1.flags().contains(cell) == b1.flag_at(cell));
        assert(!b1.flag_at(cell));
        assert(!b1.rev_at(cell));
        assert(b2.flags() =~= b0.flags());
    } else {
        assert(b1.flags().contains(cell) == b1.flag_at(cell));
        assert(b1.flag_at(cell));
        assert(!b1.rev_at(cell));
        assert(b2.flags() =~= b0.flags());
    }
}

/// Cascade confluence: the cells a reveal exposes are a function of the
/// prior board and the target alone, so any two reveal executions —
/// whatever order they visit neighbors in — expose the same cells and
/// report the same result.
pub proof fn lemma_cascade_confluent(
    b0: Board,
    b1: Board,
    b2: Board,
    cell: Cell,
    r1: bool,
    r2: bool,
)
    requires
        reveal_post(b0, b1, cell, r1),
        reveal_post(b0, b2, cell, r2),
    ensures
        b1.revealed_cells() == b2.revealed_cells(),
        r1 == r2,
{
}

/// Hazard exposure signal: a reveal reports true exactly when the target
/// cell holds a hazard and was neither flagged nor already revealed.
pub proof fn lemma_hazard_exposure_signal(b0: Board, b1: Board, cell: Cell, r: bool)
    requires
        reveal_post(b0, b1, cell, r),
    ensures
        r <==> (b0.hazards().contains(cell) && !b0.flags().contains(cell)
            && !b0.revealed_cells().contains(cell)),
{
}

/// The revealed set only ever grows: no reveal hides a cell.
pub proof fn lemma_reveal_monotone(b0: Board, b1: Board, cell: Cell, r: bool)
    requires
        reveal_post(b0, b1, cell, r),
    ensures
        b0.revealed_cells().subset_of(b1.revealed_cells()),
{
}

} // verus!
