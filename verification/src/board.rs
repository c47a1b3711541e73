//! The board: hazard placement, per-cell neighbor counts, flags, and the
//! set of revealed cells, together with the reveal cascade and flag toggle.

use vstd::prelude::*;
use vstd::arithmetic::div_mod::lemma_fundamental_div_mod_converse;
use crate::Cell;

verus! {

/// True when `c` lies on a `w` by `h` grid.
pub open spec fn grid_in_bounds(w: int, h: int, c: Cell) -> bool {
    0 <= c.x < w && 0 <= c.y < h
}

/// Row-major index of a cell on a grid of width `w`.
pub open spec fn cell_idx(w: int, c: Cell) -> int {
    c.y as int * w + c.x as int
}

/// 1 when the grid position (x, y) exists and holds a hazard, else 0.
pub open spec fn mine_ind(mines: Seq<bool>, w: int, h: int, x: int, y: int) -> int {
    if 0 <= x < w && 0 <= y < h && mines[y * w + x] {
        1int
    } else {
        0int
    }
}

/// The number of hazards among the up-to-eight Moore neighbors of `c`,
/// clipped to the grid bounds.
pub open spec fn adj_mines(mines: Seq<bool>, w: int, h: int, c: Cell) -> int {
    let x = c.x as int;
    let y = c.y as int;
    mine_ind(mines, w, h, x - 1, y - 1) + mine_ind(mines, w, h, x, y - 1) + mine_ind(
        mines,
        w,
        h,
        x + 1,
        y - 1,
    ) + mine_ind(mines, w, h, x - 1, y) + mine_ind(mines, w, h, x + 1, y) + mine_ind(
        mines,
        w,
        h,
        x - 1,
        y + 1,
    ) + mine_ind(mines, w, h, x, y + 1) + mine_ind(mines, w, h, x + 1, y + 1)
}

/// True when `d` is one of the up-to-eight Moore neighbors of `c`.
pub open spec fn is_neighbor(c: Cell, d: Cell) -> bool {
    &&& !(d.x == c.x && d.y == c.y)
    &&& c.x as int - 1 <= d.x as int <= c.x as int + 1
    &&& c.y as int - 1 <= d.y as int <= c.y as int + 1
}

/// How many entries of `s` are true.
pub open spec fn count_true(s: Seq<bool>) -> int
    decreases s.len(),
{
    if s.len() == 0 {
        0int
    } else {
        count_true(s.drop_last()) + if s.last() {
            1int
        } else {
            0int
        }
    }
}

/// The set of indices of `s` that hold true.
pub open spec fn true_indices(s: Seq<bool>) -> Set<int> {
    Set::new(|i: int| 0 <= i < s.len() && s[i])
}

pub proof fn lemma_count_true_bounds(s: Seq<bool>)
    ensures
        0 <= count_true(s) <= s.len(),
    decreases s.len(),
{
    if s.len() > 0 {
        lemma_count_true_bounds(s.drop_last());
    }
}

pub proof fn lemma_count_true_update(s: Seq<bool>, i: int)
    requires
        0 <= i < s.len(),
        !s[i],
    ensures
        count_true(s.update(i, true)) == count_true(s) + 1,
    decreases s.len(),
{
    let t = s.update(i, true);
    if i == s.len() - 1 {
        assert(t.drop_last() =~= s.drop_last());
    } else {
        assert(t.drop_last() =~= s.drop_last().update(i, true));
        lemma_count_true_update(s.drop_last(), i);
    }
}

pub proof fn lemma_count_true_all(s: Seq<bool>)
    requires
        forall|i: int| 0 <= i < s.len() ==> s[i],
    ensures
        count_true(s) == s.len(),
    decreases s.len(),
{
    if s.len() > 0 {
        lemma_count_true_all(s.drop_last());
    }
}

pub proof fn lemma_true_indices_len(s: Seq<bool>)
    ensures
        true_indices(s).finite(),
        true_indices(s).len() == count_true(s),
    decreases s.len(),
{
    if s.len() == 0 {
        assert(true_indices(s) =~= Set::<int>::empty());
    } else {
        let t = s.drop_last();
        lemma_true_indices_len(t);
        if s.last() {
            assert(true_indices(s) =~= true_indices(t).insert(s.len() - 1));
        } else {
            assert(true_indices(s) =~= true_indices(t));
        }
    }
}

pub proof fn lemma_index_bounds(w: int, h: int, x: int, y: int)
    requires
        0 < w,
        0 < h,
        0 <= x < w,
        0 <= y < h,
    ensures
        0 <= y * w + x,
        y * w + x < w * h,
{
    assert(0 <= y * w + x && y * w + x < w * h) by (nonlinear_arith)
        requires
            0 < w,
            0 < h,
            0 <= x < w,
            0 <= y < h,
    ;
}

pub proof fn lemma_index_injective(w: int, c: Cell, d: Cell)
    requires
        0 < w,
        0 <= c.x < w,
        0 <= d.x < w,
        cell_idx(w, c) == cell_idx(w, d),
    ensures
        c.x == d.x,
        c.y == d.y,
{
    let n = cell_idx(w, c);
    lemma_fundamental_div_mod_converse(n, w, c.y as int, c.x as int);
    lemma_fundamental_div_mod_converse(n, w, d.y as int, d.x as int);
}

/// The Moore neighborhood of `c`: the up-to-eight cells horizontally,
/// vertically, or diagonally adjacent to it.
pub open spec fn moore_neighbors(c: Cell) -> Set<Cell> {
    Set::new(|d: Cell| is_neighbor(c, d))
}

/// Peels one candidate element off a finite set, accounting for its size.
proof fn lemma_split_off(s: Set<Cell>, n: Cell)
    requires
        s.finite(),
    ensures
        s.remove(n).finite(),
        s.len() == s.remove(n).len() + (if s.contains(n) {
            1int
        } else {
            0int
        }),
        forall|d: Cell| #[trigger] s.remove(n).contains(d) <==> (s.contains(d) && d != n),
{
    if !s.contains(n) {
        assert(s.remove(n) =~= s);
    }
}

/// The state of one game's board.
///
/// A cell is addressed in row-major order; the four vectors all have
/// `width * height` entries. `counts` is meaningful only at non-hazard
/// cells (well-formedness says nothing about its entries at hazards).
pub struct Board {
    pub width: i32,
    pub height: i32,
    pub mines: Vec<bool>,
    pub counts: Vec<u8>,
    pub flagged: Vec<bool>,
    pub revealed: Vec<bool>,
}

impl Board {
    pub open spec fn total(self) -> int {
        self.width as int * self.height as int
    }

    pub open spec fn in_bounds_spec(self, c: Cell) -> bool {
        grid_in_bounds(self.width as int, self.height as int, c)
    }

    pub open spec fn idx(self, c: Cell) -> int {
        cell_idx(self.width as int, c)
    }

    pub open spec fn mine_at(self, c: Cell) -> bool {
        self.in_bounds_spec(c) && self.mines@[self.idx(c)]
    }

    pub open spec fn flag_at(self, c: Cell) -> bool {
        self.in_bounds_spec(c) && self.flagged@[self.idx(c)]
    }

    pub open spec fn rev_at(self, c: Cell) -> bool {
        self.in_bounds_spec(c) && self.revealed@[self.idx(c)]
    }

    /// The neighbor-hazard count stored for `c`.
    pub open spec fn count_at(self, c: Cell) -> int {
        self.counts@[self.idx(c)] as int
    }

    /// The true number of hazards in the Moore neighborhood of `c`.
    pub open spec fn adjacent_mines(self, c: Cell) -> int {
        adj_mines(self.mines@, self.width as int, self.height as int, c)
    }

    pub open spec fn hazards(self) -> Set<Cell> {
        Set::new(|c: Cell| self.mine_at(c))
    }

    pub open spec fn flags(self) -> Set<Cell> {
        Set::new(|c: Cell| self.flag_at(c))
    }

    pub open spec fn revealed_cells(self) -> Set<Cell> {
        Set::new(|c: Cell| self.rev_at(c))
    }

    /// Well-formedness: positive dimensions that fit the address space,
    /// correctly sized storage, neighbor counts that agree with the hazard
    /// layout at every non-hazard cell, and no cell both flagged and
    /// revealed.
    pub open spec fn wf(self) -> bool {
        &&& 0 < self.width
        &&& 0 < self.height
        &&& self.total() <= usize::MAX as int
        &&& self.mines@.len() == self.total()
        &&& self.counts@.len() == self.total()
        &&& self.flagged@.len() == self.total()
        &&& self.revealed@.len() == self.total()
        &&& forall|c: Cell|
            self.in_bounds_spec(c) && !self.mine_at(c) ==> #[trigger] self.count_at(c)
                == self.adjacent_mines(c)
        &&& forall|c: Cell| #[trigger] self.flag_at(c) ==> !self.rev_at(c)
    }

    /// True iff `c` lies on the board. Out-of-bounds positions are the
    /// caller's signal not to dispatch an action.
    pub fn in_bounds(&self, c: Cell) -> (r: bool)
        ensures
            r == self.in_bounds_spec(c),
    {
        c.x >= 0 && c.y >= 0 && c.x < self.width && c.y < self.height
    }
}

fn make_bool_vec(n: usize) -> (v: Vec<bool>)
    ensures
        v@.len() == n,
        forall|i: int| 0 <= i < n ==> !v@[i],
{
    let mut v: Vec<bool> = Vec::new();
    while v.len() < n
        invariant
            v@.len() <= n,
            forall|i: int| 0 <= i < v@.len() ==> !v@[i],
        decreases n - v@.len(),
    {
        v.push(false);
    }
    v
}

fn grid_index(width: i32, height: i32, c: Cell) -> (i: usize)
    requires
        0 < width,
        0 < height,
        width as int * height as int <= usize::MAX as int,
        grid_in_bounds(width as int, height as int, c),
    ensures
        i as int == cell_idx(width as int, c),
        (i as int) < width as int * height as int,
{
    proof {
        lemma_index_bounds(width as int, height as int, c.x as int, c.y as int);
    }
    (c.y as usize) * (width as usize) + (c.x as usize)
}

fn ind_at(mines: &Vec<bool>, width: i32, height: i32, x: i32, y: i32) -> (r: u8)
    requires
        0 < width,
        0 < height,
        width as int * height as int <= usize::MAX as int,
        mines@.len() == width as int * height as int,
    ensures
        r as int == mine_ind(mines@, width as int, height as int, x as int, y as int),
{
    if x >= 0 && y >= 0 && x < width && y < height {
        let i = grid_index(width, height, Cell { x, y });
        if mines[i] {
            1
        } else {
            0
        }
    } else {
        0
    }
}

fn count_adjacent(mines: &Vec<bool>, width: i32, height: i32, c: Cell) -> (n: u8)
    requires
        0 < width,
        0 < height,
        width as int * height as int <= usize::MAX as int,
        mines@.len() == width as int * height as int,
        grid_in_bounds(width as int, height as int, c),
    ensures
        n as int == adj_mines(mines@, width as int, height as int, c),
{
    let mut n = ind_at(mines, width, height, c.x - 1, c.y - 1);
    n = n + ind_at(mines, width, height, c.x, c.y - 1);
    n = n + ind_at(mines, width, height, c.x + 1, c.y - 1);
    n = n + ind_at(mines, width, height, c.x - 1, c.y);
    n = n + ind_at(mines, width, height, c.x + 1, c.y);
    n = n + ind_at(mines, width, height, c.x - 1, c.y + 1);
    n = n + ind_at(mines, width, height, c.x, c.y + 1);
    n = n + ind_at(mines, width, height, c.x + 1, c.y + 1);
    n
}

/// Computes the stored neighbor count for every cell of the grid, in
/// row-major order; hazard cells get a placeholder of zero.
fn compute_counts(mines: &Vec<bool>, width: i32, height: i32) -> (counts: Vec<u8>)
    requires
        0 < width,
        0 < height,
        width as int * height as int <= usize::MAX as int,
        mines@.len() == width as int * height as int,
    ensures
        counts@.len() == width as int * height as int,
        forall|c: Cell|
            #[trigger] grid_in_bounds(width as int, height as int, c) && !mines@[cell_idx(
                width as int,
                c,
            )] ==> counts@[cell_idx(width as int, c)] as int == adj_mines(
                mines@,
                width as int,
                height as int,
                c,
            ),
{
    let mut counts: Vec<u8> = Vec::new();
    let mut y: i32 = 0;
    while y < height
        invariant
            0 <= y <= height,
            0 < width,
            0 < height,
            width as int * height as int <= usize::MAX as int,
            mines@.len() == width as int * height as int,
            counts@.len() == y as int * width as int,
            forall|c: Cell|
                #[trigger] grid_in_bounds(width as int, height as int, c) && c.y < y && !mines@[cell_idx(
                    width as int,
                    c,
                )] ==> counts@[cell_idx(width as int, c)] as int == adj_mines(
                    mines@,
                    width as int,
                    height as int,
                    c,
                ),
        decreases height - y,
    {
        let mut x: i32 = 0;
        while x < width
            invariant
                0 <= x <= width,
                0 <= y < height,
                0 < width,
                0 < height,
                width as int * height as int <= usize::MAX as int,
                mines@.len() == width as int * height as int,
                counts@.len() == y as int * width as int + x as int,
                forall|c: Cell|
                    #[trigger] grid_in_bounds(width as int, height as int, c) && (c.y < y || (c.y
                        == y && c.x < x)) && !mines@[cell_idx(width as int, c)] ==> counts@[cell_idx(
                        width as int,
                        c,
                    )] as int == adj_mines(mines@, width as int, height as int, c),
            decreases width - x,
        {
            let c = Cell { x, y };
            proof {
                lemma_index_bounds(width as int, height as int, x as int, y as int);
            }
            let i = grid_index(width, height, c);
            let n = if mines[i] {
                0u8
            } else {
                count_adjacent(mines, width, height, c)
            };
            counts.push(n);
            proof {
                assert forall|d: Cell|
                    #[trigger] grid_in_bounds(width as int, height as int, d) && (d.y < y || (d.y
                        == y && d.x < x + 1)) && !mines@[cell_idx(width as int, d)] implies counts@[cell_idx(
                    width as int,
                    d,
                )] as int == adj_mines(mines@, width as int, height as int, d) by {
                    if d.y == y && d.x == x {
                        assert(cell_idx(width as int, d) == counts@.len() - 1);
                    } else {
                        assert(cell_idx(width as int, d) < y as int * width as int + x as int)
                            by (nonlinear_arith)
                            requires
                                grid_in_bounds(width as int, height as int, d),
                                0 < width,
                                0 <= x,
                                (d.y < y || (d.y == y && d.x < x)),
                                cell_idx(width as int, d) == d.y as int * width as int
                                    + d.x as int,
                        ;
                    }
                }
            }
            x += 1;
        }
        proof {
            assert((y as int + 1) * width as int == y as int * width as int + width as int)
                by (nonlinear_arith);
        }
        y += 1;
    }
    proof {
        assert(height as int * width as int == width as int * height as int) by (nonlinear_arith);
    }
    counts
}

impl Board {
    /// Builds a board with the given hazard layout (out-of-bounds entries
    /// are ignored), correct neighbor counts, and nothing flagged or
    /// revealed. This is the deterministic construction path; random
    /// placement is layered on top of it by `generate`.
    pub fn with_hazards(width: i32, height: i32, hazards: &Vec<Cell>) -> (b: Board)
        requires
            0 < width,
            0 < height,
            width as int * height as int <= usize::MAX as int,
        ensures
            b.wf(),
            b.width == width,
            b.height == height,
            forall|c: Cell| #[trigger] b.mine_at(c) <==> (b.in_bounds_spec(c) && hazards@.contains(c)),
            forall|c: Cell| !(#[trigger] b.flag_at(c)),
            forall|c: Cell| !(#[trigger] b.rev_at(c)),
    {
        let total = (width as usize) * (height as usize);
        let mut mines = make_bool_vec(total);
        proof {
            assert forall|c: Cell| #[trigger]
                grid_in_bounds(width as int, height as int, c) implies (!mines@[cell_idx(
                width as int,
                c,
            )] && !hazards@.take(0).contains(c)) by {
                lemma_index_bounds(width as int, height as int, c.x as int, c.y as int);
            }
        }
        let mut k: usize = 0;
        while k < hazards.len()
            invariant
                0 < width,
                0 < height,
                width as int * height as int <= usize::MAX as int,
                mines@.len() == width as int * height as int,
                k <= hazards@.len(),
                forall|c: Cell|
                    #[trigger] grid_in_bounds(width as int, height as int, c) ==> (mines@[cell_idx(
                        width as int,
                        c,
                    )] <==> hazards@.take(k as int).contains(c)),
            decreases hazards@.len() - k,
        {
            let hz = hazards[k];
            let ghost prev = mines@;
            if hz.x >= 0 && hz.y >= 0 && hz.x < width && hz.y < height {
                let i = grid_index(width, height, hz);
                mines[i] = true;
            }
            proof {
                assert(hazards@.take(k as int + 1) =~= hazards@.take(k as int).push(
                    hazards@[k as int],
                ));
                assert forall|c: Cell| #[trigger]
                    grid_in_bounds(width as int, height as int, c) implies (mines@[cell_idx(
                    width as int,
                    c,
                )] <==> hazards@.take(k as int + 1).contains(c)) by {
                    lemma_index_bounds(width as int, height as int, c.x as int, c.y as int);
                    if grid_in_bounds(width as int, height as int, hz) {
                        lemma_index_bounds(width as int, height as int, hz.x as int, hz.y as int);
                        if cell_idx(width as int, c) == cell_idx(width as int, hz) {
                            lemma_index_injective(width as int, c, hz);
                            assert(c == hz);
                            assert(mines@[cell_idx(width as int, c)]);
                            assert(hazards@.take(k as int + 1)[k as int] == c);
                        } else {
                            assert(mines@[cell_idx(width as int, c)] == prev[cell_idx(
                                width as int,
                                c,
                            )]);
                        }
                    } else {
                        assert(mines@ == prev);
                    }
                    if c != hz {
                        if hazards@.take(k as int + 1).contains(c) {
                            let j = choose|j: int|
                                0 <= j < k as int + 1 && #[trigger] hazards@.take(k as int + 1)[j]
                                    == c;
                            assert(hazards@.take(k as int)[j] == c);
                        }
                        if hazards@.take(k as int).contains(c) {
                            let j = choose|j: int|
                                0 <= j < k as int && #[trigger] hazards@.take(k as int)[j] == c;
                            assert(hazards@.take(k as int + 1)[j] == c);
                        }
                    }
                }
            }
            k += 1;
        }
        proof {
            assert(hazards@.take(hazards@.len() as int) =~= hazards@);
        }
        let counts = compute_counts(&mines, width, height);
        let flagged = make_bool_vec(total);
        let revealed = make_bool_vec(total);
        let b = Board { width, height, mines, counts, flagged, revealed };
        proof {
            assert forall|c: Cell| b.in_bounds_spec(c) && !b.mine_at(c) implies #[trigger] b.count_at(
                c,
            ) == b.adjacent_mines(c) by {
                assert(grid_in_bounds(width as int, height as int, c));
            }
            assert forall|c: Cell| #[trigger] b.flag_at(c) implies !b.rev_at(c) by {
                lemma_index_bounds(width as int, height as int, c.x as int, c.y as int);
            }
            assert forall|c: Cell| !(#[trigger] b.rev_at(c)) by {
                if b.in_bounds_spec(c) {
                    lemma_index_bounds(width as int, height as int, c.x as int, c.y as int);
                }
            }
            assert forall|c: Cell| !(#[trigger] b.flag_at(c)) by {
                if b.in_bounds_spec(c) {
                    lemma_index_bounds(width as int, height as int, c.x as int, c.y as int);
                }
            }
        }
        b
    }
}

/// Exact effect of one flag toggle: everything but the flag set is
/// unchanged; a revealed target leaves the flag set unchanged too, any
/// other target has its flag membership flipped.
pub open spec fn toggle_post(pre: Board, post: Board, cell: Cell) -> bool {
    &&& post.width == pre.width
    &&& post.height == pre.height
    &&& post.mines@ == pre.mines@
    &&& post.counts@ == pre.counts@
    &&& post.revealed@ == pre.revealed@
    &&& post.flagged@.len() == pre.flagged@.len()
    &&& if pre.rev_at(cell) {
        post.flagged@ == pre.flagged@
    } else if pre.flag_at(cell) {
        post.flags() == pre.flags().remove(cell)
    } else {
        post.flags() == pre.flags().insert(cell)
    }
}

impl Board {
    /// Toggles the marker on `cell`: a revealed cell cannot be flagged
    /// (no-op), otherwise the flag is removed if present and added if
    /// absent.
    pub fn toggle_flag(&mut self, cell: Cell)
        requires
            old(self).wf(),
            old(self).in_bounds_spec(cell),
        ensures
            final(self).wf(),
            toggle_post(*old(self), *final(self), cell),
    {
        let ghost pre = *self;
        let i = grid_index(self.width, self.height, cell);
        if !self.revealed[i] {
            let cur = self.flagged[i];
            self.flagged[i] = !cur;
            proof {
                assert forall|c: Cell| #[trigger] self.flag_at(c) == (if c == cell {
                    !pre.flag_at(c)
                } else {
                    pre.flag_at(c)
                }) by {
                    if self.in_bounds_spec(c) {
                        lemma_index_bounds(
                            self.width as int,
                            self.height as int,
                            c.x as int,
                            c.y as int,
                        );
                        if cell_idx(self.width as int, c) == cell_idx(self.width as int, cell) {
                            lemma_index_injective(self.width as int, c, cell);
                        }
                    }
                }
                if pre.flag_at(cell) {
                    assert(self.flags() =~= pre.flags().remove(cell));
                } else {
                    assert(self.flags() =~= pre.flags().insert(cell));
                }
                assert forall|c: Cell|
                    self.in_bounds_spec(c) && !self.mine_at(c) implies #[trigger] self.count_at(c)
                    == self.adjacent_mines(c) by {
                    assert(pre.count_at(c) == pre.adjacent_mines(c));
                }
                assert forall|c: Cell| #[trigger] self.flag_at(c) implies !self.rev_at(c) by {
                    if c != cell {
                        assert(pre.flag_at(c));
                    }
                }
            }
        } else {
            proof {
                assert(pre.rev_at(cell));
            }
        }
    }

    /// Whether `cell` holds a hazard; false off the board.
    pub fn is_hazard(&self, c: Cell) -> (r: bool)
        requires
            self.wf(),
        ensures
            r == self.mine_at(c),
    {
        if self.in_bounds(c) {
            let i = grid_index(self.width, self.height, c);
            self.mines[i]
        } else {
            false
        }
    }

    /// Whether `cell` carries a flag; false off the board.
    pub fn is_flagged(&self, c: Cell) -> (r: bool)
        requires
            self.wf(),
        ensures
            r == self.flag_at(c),
    {
        if self.in_bounds(c) {
            let i = grid_index(self.width, self.height, c);
            self.flagged[i]
        } else {
            false
        }
    }

    /// Whether `cell` has been revealed; false off the board.
    pub fn is_revealed(&self, c: Cell) -> (r: bool)
        requires
            self.wf(),
        ensures
            r == self.rev_at(c),
    {
        if self.in_bounds(c) {
            let i = grid_index(self.width, self.height, c);
            self.revealed[i]
        } else {
            false
        }
    }

    /// The neighbor-hazard count of a non-hazard cell on the board, and
    /// nothing for hazards or out-of-bounds positions.
    pub fn neighbor_count(&self, c: Cell) -> (r: Option<u8>)
        requires
            self.wf(),
        ensures
            match r {
                Some(n) => self.in_bounds_spec(c) && !self.mine_at(c) && n as int
                    == self.adjacent_mines(c),
                None => !(self.in_bounds_spec(c) && !self.mine_at(c)),
            },
    {
        if self.in_bounds(c) {
            let i = grid_index(self.width, self.height, c);
            if self.mines[i] {
                None
            } else {
                proof {
                    assert(self.count_at(c) == self.adjacent_mines(c));
                }
                Some(self.counts[i])
            }
        } else {
            None
        }
    }
}

impl Board {
    /// A cell can be revealed: it is on the board and neither flagged nor
    /// already revealed.
    pub open spec fn eligible(self, c: Cell) -> bool {
        self.in_bounds_spec(c) && !self.flag_at(c) && !self.rev_at(c)
    }

    /// A cell through which the cascade expands: an eligible non-hazard
    /// cell with no hazard in its neighborhood.
    pub open spec fn cascades(self, c: Cell) -> bool {
        self.eligible(c) && !self.mine_at(c) && self.count_at(c) == 0
    }

    /// `c` is connected to `start` by a chain of at most `k` steps whose
    /// interior nodes (every node but `c` itself) all cascade.
    pub open spec fn reaches(self, start: Cell, c: Cell, k: nat) -> bool
        decreases k,
    {
        ||| c == start
        ||| (k > 0 && exists|m: Cell|
            self.cascades(m) && #[trigger] is_neighbor(m, c) && self.reaches(
                start,
                m,
                (k - 1) as nat,
            ))
    }

    pub open spec fn reachable(self, start: Cell, c: Cell) -> bool {
        exists|k: nat| self.reaches(start, c, k)
    }

    /// The cells a reveal at `start` exposes: everything eligible that the
    /// cascade can reach.
    pub open spec fn cascade_region(self, start: Cell) -> Set<Cell> {
        Set::new(|c: Cell| self.eligible(c) && self.reachable(start, c))
    }

    /// The revealed set after a reveal at `cell`.
    pub open spec fn reveal_region(self, cell: Cell) -> Set<Cell> {
        if self.eligible(cell) {
            self.revealed_cells().union(self.cascade_region(cell))
        } else {
            self.revealed_cells()
        }
    }
}

/// Exact effect of one reveal: hazards, counts, and flags are untouched;
/// the revealed set becomes `reveal_region`; a hazard was exposed exactly
/// when the target itself was an eligible hazard.
pub open spec fn reveal_post(pre: Board, post: Board, cell: Cell, exposed: bool) -> bool {
    &&& post.width == pre.width
    &&& post.height == pre.height
    &&& post.mines@ == pre.mines@
    &&& post.counts@ == pre.counts@
    &&& post.flagged@ == pre.flagged@
    &&& post.revealed@.len() == pre.revealed@.len()
    &&& post.revealed_cells() == pre.reveal_region(cell)
    &&& exposed == (pre.eligible(cell) && pre.mine_at(cell))
}

/// If the start of a chain does not cascade, the chain never leaves it.
proof fn lemma_reach_only_start(b: Board, start: Cell, c: Cell, k: nat)
    requires
        !b.cascades(start),
        b.reaches(start, c, k),
    ensures
        c == start,
    decreases k,
{
    if c != start {
        let m = choose|m: Cell|
            b.cascades(m) && #[trigger] is_neighbor(m, c) && b.reaches(start, m, (k - 1) as nat);
        lemma_reach_only_start(b, start, m, (k - 1) as nat);
    }
}

/// Every eligible neighbor of `e` is already revealed.
pub open spec fn cascade_closed_at(g: Board, cur: Board, e: Cell) -> bool {
    forall|d: Cell| #[trigger] is_neighbor(e, d) && g.eligible(d) ==> cur.rev_at(d)
}

/// Facts carried through the cascade loop: the original board `g` is
/// well formed and the reveal started at a cascading cell; only the
/// revealed vector of `cur` differs from `g`; everything revealed so far
/// is either old or eligible-and-reachable; the worklist holds revealed,
/// reachable, cascading cells.
pub open spec fn cascade_inv_core(g: Board, start: Cell, cur: Board, wl: Seq<Cell>) -> bool {
    &&& g.wf()
    &&& g.cascades(start)
    &&& cur.width == g.width
    &&& cur.height == g.height
    &&& cur.mines@ == g.mines@
    &&& cur.counts@ == g.counts@
    &&& cur.flagged@ == g.flagged@
    &&& cur.revealed@.len() == g.revealed@.len()
    &&& cur.rev_at(start)
    &&& forall|e: Cell| g.rev_at(e) ==> #[trigger] cur.rev_at(e)
    &&& forall|e: Cell| #[trigger] cur.rev_at(e) ==> g.rev_at(e) || (g.eligible(e)
        && g.reachable(start, e))
    &&& forall|i: int|
        0 <= i < wl.len() ==> g.cascades(#[trigger] wl[i]) && g.reachable(start, wl[i])
            && cur.rev_at(wl[i])
}

/// Every newly revealed cascading cell that is not pending on the
/// worklist has already had all its eligible neighbors revealed.
pub open spec fn cascade_inv_closure(g: Board, cur: Board, wl: Seq<Cell>) -> bool {
    forall|e: Cell|
        #[trigger] g.cascades(e) && cur.rev_at(e) && !g.rev_at(e) && !wl.contains(e)
            ==> cascade_closed_at(g, cur, e)
}

/// As `cascade_inv_closure`, but the cell currently being expanded is
/// exempt until all eight of its neighbors have been visited.
pub open spec fn cascade_inv_closure_except(g: Board, cur: Board, wl: Seq<Cell>, skip: Cell) -> bool {
    forall|e: Cell|
        #[trigger] g.cascades(e) && cur.rev_at(e) && !g.rev_at(e) && !wl.contains(e) && e != skip
            ==> cascade_closed_at(g, cur, e)
}

/// Termination measure of the cascade: every iteration either reveals a
/// new cell or shortens the worklist.
pub open spec fn cascade_measure(cur: Board, wl: Seq<Cell>) -> int {
    9 * (cur.revealed@.len() - count_true(cur.revealed@)) + wl.len()
}

impl Board {
    /// Visits one neighbor `d` of the cascading cell `c`: reveals it when
    /// it is neither flagged nor already revealed, and queues it when the
    /// cascade continues through it.
    fn reveal_neighbor(
        &mut self,
        Ghost(g): Ghost<Board>,
        Ghost(start): Ghost<Cell>,
        Ghost(c): Ghost<Cell>,
        worklist: &mut Vec<Cell>,
        d: Cell,
    )
        requires
            cascade_inv_core(g, start, *old(self), old(worklist)@),
            cascade_inv_closure_except(g, *old(self), old(worklist)@, c),
            g.cascades(c),
            g.reachable(start, c),
            is_neighbor(c, d),
        ensures
            cascade_inv_core(g, start, *final(self), final(worklist)@),
            cascade_inv_closure_except(g, *final(self), final(worklist)@, c),
            cascade_measure(*final(self), final(worklist)@) <= cascade_measure(
                *old(self),
                old(worklist)@,
            ),
            forall|e: Cell| old(self).rev_at(e) ==> #[trigger] final(self).rev_at(e),
            g.in_bounds_spec(d) && !g.flag_at(d) ==> final(self).rev_at(d),
            forall|i: int| 0 <= i < old(worklist)@.len() ==> final(worklist)@[i] == old(
                worklist,
            )@[i],
            final(worklist)@.len() >= old(worklist)@.len(),
    {
        let in_b = d.x >= 0 && d.y >= 0 && d.x < self.width && d.y < self.height;
        if in_b {
            let i = grid_index(self.width, self.height, d);
            if !self.flagged[i] && !self.revealed[i] {
                let ghost pre = *self;
                let ghost wl0 = worklist@;
                self.revealed[i] = true;
                proof {
                    lemma_index_bounds(
                        self.width as int,
                        self.height as int,
                        d.x as int,
                        d.y as int,
                    );
                    lemma_count_true_update(pre.revealed@, i as int);
                    assert forall|e: Cell| #[trigger] self.rev_at(e) == (pre.rev_at(e) || e == d) by {
                        if self.in_bounds_spec(e) {
                            lemma_index_bounds(
                                self.width as int,
                                self.height as int,
                                e.x as int,
                                e.y as int,
                            );
                            if cell_idx(self.width as int, e) == cell_idx(self.width as int, d) {
                                lemma_index_injective(self.width as int, e, d);
                            }
                        }
                    }
                    let k = choose|k: nat| g.reaches(start, c, k);
                    assert(g.reaches(start, d, (k + 1) as nat));
                    assert(!pre.rev_at(d));
                    assert(!g.rev_at(d));
                    assert(!g.flag_at(d));
                    assert(g.in_bounds_spec(d));
                    assert(g.eligible(d));
                }
                if !self.mines[i] && self.counts[i] == 0 {
                    worklist.push(d);
                    proof {
                        assert(g.cascades(d));
                        assert forall|e: Cell|
                            #[trigger] g.cascades(e) && self.rev_at(e) && !g.rev_at(e)
                                && !worklist@.contains(e) && e != c implies cascade_closed_at(
                            g,
                            *self,
                            e,
                        ) by {
                            assert(worklist@[worklist@.len() - 1] == d);
                            assert(e != d);
                            if wl0.contains(e) {
                                let j = choose|j: int| 0 <= j < wl0.len() && #[trigger] wl0[j] == e;
                                assert(worklist@[j] == e);
                            }
                            assert(cascade_closed_at(g, pre, e));
                            assert forall|d2: Cell|
                                #[trigger] is_neighbor(e, d2) && g.eligible(d2) implies self.rev_at(
                                d2,
                            ) by {
                                assert(pre.rev_at(d2));
                            }
                        }
                    }
                } else {
                    proof {
                        assert(!g.cascades(d));
                        assert forall|e: Cell|
                            #[trigger] g.cascades(e) && self.rev_at(e) && !g.rev_at(e)
                                && !worklist@.contains(e) && e != c implies cascade_closed_at(
                            g,
                            *self,
                            e,
                        ) by {
                            assert(e != d);
                            assert(cascade_closed_at(g, pre, e));
                            assert forall|d2: Cell|
                                #[trigger] is_neighbor(e, d2) && g.eligible(d2) implies self.rev_at(
                                d2,
                            ) by {
                                assert(pre.rev_at(d2));
                            }
                        }
                    }
                }
            } else {
                proof {
                    assert(g.in_bounds_spec(d) && !g.flag_at(d) ==> self.rev_at(d));
                }
            }
        }
    }
}

/// Once the cascade loop has drained its worklist, every reachable
/// eligible cell has been revealed.
proof fn lemma_cascade_complete(g: Board, cur: Board, start: Cell, c: Cell, k: nat)
    requires
        cascade_inv_core(g, start, cur, Seq::<Cell>::empty()),
        cascade_inv_closure(g, cur, Seq::<Cell>::empty()),
        g.eligible(c),
        g.reaches(start, c, k),
    ensures
        cur.rev_at(c),
    decreases k,
{
    if c != start {
        let m = choose|m: Cell|
            g.cascades(m) && #[trigger] is_neighbor(m, c) && g.reaches(start, m, (k - 1) as nat);
        lemma_cascade_complete(g, cur, start, m, (k - 1) as nat);
        assert(!Seq::<Cell>::empty().contains(m));
        assert(cascade_closed_at(g, cur, m));
    }
}

impl Board {
    /// Reveals `cell`. A flagged or already revealed cell is left alone;
    /// revealing a hazard reports `true`; revealing a cell with no hazard
    /// in its neighborhood automatically exposes the whole connected
    /// zero-count region and its border.
    pub fn reveal_board(&mut self, cell: Cell) -> (exposed: bool)
        requires
            old(self).wf(),
            old(self).in_bounds_spec(cell),
        ensures
            final(self).wf(),
            reveal_post(*old(self), *final(self), cell, exposed),
    {
        let ghost g = *self;
        let i = grid_index(self.width, self.height, cell);
        if self.flagged[i] || self.revealed[i] {
            proof {
                assert(!g.eligible(cell));
                assert(self.revealed_cells() =~= g.reveal_region(cell));
            }
            return false;
        }
        self.revealed[i] = true;
        proof {
            lemma_index_bounds(g.width as int, g.height as int, cell.x as int, cell.y as int);
            assert forall|e: Cell| #[trigger] self.rev_at(e) == (g.rev_at(e) || e == cell) by {
                if self.in_bounds_spec(e) {
                    lemma_index_bounds(g.width as int, g.height as int, e.x as int, e.y as int);
                    if cell_idx(g.width as int, e) == cell_idx(g.width as int, cell) {
                        lemma_index_injective(g.width as int, e, cell);
                    }
                }
            }
            assert(g.eligible(cell));
            assert(g.reaches(cell, cell, 0nat));
        }
        let exposed = self.mines[i];
        let cnt = self.counts[i];
        if exposed || cnt != 0 {
            proof {
                assert(!g.cascades(cell));
                assert forall|e: Cell|
                    g.eligible(e) && g.reachable(cell, e) implies e == cell by {
                    let k = choose|k: nat| g.reaches(cell, e, k);
                    lemma_reach_only_start(g, cell, e, k);
                }
                assert(self.revealed_cells() =~= g.reveal_region(cell));
                assert forall|c2: Cell|
                    self.in_bounds_spec(c2) && !self.mine_at(c2) implies #[trigger] self.count_at(
                    c2,
                ) == self.adjacent_mines(c2) by {
                    assert(g.count_at(c2) == g.adjacent_mines(c2));
                }
                assert forall|c2: Cell| #[trigger] self.flag_at(c2) implies !self.rev_at(c2) by {
                    assert(g.flag_at(c2));
                }
            }
            return exposed;
        }
        // The target cascades: drain a worklist of cascading cells,
        // revealing every eligible neighbor of each.
        let mut worklist: Vec<Cell> = Vec::new();
        worklist.push(cell);
        proof {
            assert(g.cascades(cell));
            assert(worklist@[0] == cell);
            assert forall|e: Cell|
                #[trigger] g.cascades(e) && self.rev_at(e) && !g.rev_at(e) && !worklist@.contains(
                    e,
                ) implies cascade_closed_at(g, *self, e) by {
                assert(e == cell);
                assert(worklist@.contains(cell));
            }
            lemma_count_true_bounds(self.revealed@);
        }
        while worklist.len() > 0
            invariant
                cascade_inv_core(g, cell, *self, worklist@),
                cascade_inv_closure(g, *self, worklist@),
                0 <= cascade_measure(*self, worklist@),
            decreases cascade_measure(*self, worklist@),
        {
            let ghost wl0 = worklist@;
            let c = worklist.pop().unwrap();
            proof {
                assert(wl0[wl0.len() - 1] == c);
                assert(g.cascades(c) && g.reachable(cell, c) && self.rev_at(c));
                assert forall|e: Cell|
                    #[trigger] g.cascades(e) && self.rev_at(e) && !g.rev_at(e)
                        && !worklist@.contains(e) && e != c implies cascade_closed_at(
                    g,
                    *self,
                    e,
                ) by {
                    if wl0.contains(e) {
                        let j = choose|j: int| 0 <= j < wl0.len() && #[trigger] wl0[j] == e;
                        assert(worklist@[j] == e);
                    }
                }
            }
            let n1 = Cell { x: c.x - 1, y: c.y - 1 };
            let n2 = Cell { x: c.x, y: c.y - 1 };
            let n3 = Cell { x: c.x + 1, y: c.y - 1 };
            let n4 = Cell { x: c.x - 1, y: c.y };
            let n5 = Cell { x: c.x + 1, y: c.y };
            let n6 = Cell { x: c.x - 1, y: c.y + 1 };
            let n7 = Cell { x: c.x, y: c.y + 1 };
            let n8 = Cell { x: c.x + 1, y: c.y + 1 };
            self.reveal_neighbor(Ghost(g), Ghost(cell), Ghost(c), &mut worklist, n1);
            self.reveal_neighbor(Ghost(g), Ghost(cell), Ghost(c), &mut worklist, n2);
            self.reveal_neighbor(Ghost(g), Ghost(cell), Ghost(c), &mut worklist, n3);
            self.reveal_neighbor(Ghost(g), Ghost(cell), Ghost(c), &mut worklist, n4);
            self.reveal_neighbor(Ghost(g), Ghost(cell), Ghost(c), &mut worklist, n5);
            self.reveal_neighbor(Ghost(g), Ghost(cell), Ghost(c), &mut worklist, n6);
            self.reveal_neighbor(Ghost(g), Ghost(cell), Ghost(c), &mut worklist, n7);
            self.reveal_neighbor(Ghost(g), Ghost(cell), Ghost(c), &mut worklist, n8);
            proof {
                assert(cascade_closed_at(g, *self, c)) by {
                    assert forall|d: Cell|
                        #[trigger] is_neighbor(c, d) && g.eligible(d) implies self.rev_at(d) by {
                        assert(d == n1 || d == n2 || d == n3 || d == n4 || d == n5 || d == n6 || d
                            == n7 || d == n8);
                        assert(self.rev_at(n1) || !(g.in_bounds_spec(n1) && !g.flag_at(n1)));
                        assert(self.rev_at(n2) || !(g.in_bounds_spec(n2) && !g.flag_at(n2)));
                        assert(self.rev_at(n3) || !(g.in_bounds_spec(n3) && !g.flag_at(n3)));
                        assert(self.rev_at(n4) || !(g.in_bounds_spec(n4) && !g.flag_at(n4)));
                        assert(self.rev_at(n5) || !(g.in_bounds_spec(n5) && !g.flag_at(n5)));
                        assert(self.rev_at(n6) || !(g.in_bounds_spec(n6) && !g.flag_at(n6)));
                        assert(self.rev_at(n7) || !(g.in_bounds_spec(n7) && !g.flag_at(n7)));
                        assert(self.rev_at(n8) || !(g.in_bounds_spec(n8) && !g.flag_at(n8)));
                    }
                }
                assert forall|e: Cell|
                    #[trigger] g.cascades(e) && self.rev_at(e) && !g.rev_at(e)
                        && !worklist@.contains(e) implies cascade_closed_at(g, *self, e) by {
                }
                lemma_count_true_bounds(self.revealed@);
            }
        }
        proof {
            assert(worklist@ =~= Seq::<Cell>::empty());
            assert forall|e: Cell|
                g.eligible(e) && g.reachable(cell, e) implies self.rev_at(e) by {
                let k = choose|k: nat| g.reaches(cell, e, k);
                lemma_cascade_complete(g, *self, cell, e, k);
            }
            assert(self.revealed_cells() =~= g.reveal_region(cell));
            assert forall|c2: Cell|
                self.in_bounds_spec(c2) && !self.mine_at(c2) implies #[trigger] self.count_at(c2)
                == self.adjacent_mines(c2) by {
                assert(g.count_at(c2) == g.adjacent_mines(c2));
            }
            assert forall|c2: Cell| #[trigger] self.flag_at(c2) implies !self.rev_at(c2) by {
                assert(g.flag_at(c2));
            }
        }
        false
    }
}

pub proof fn lemma_count_true_none(s: Seq<bool>)
    requires
        forall|i: int| 0 <= i < s.len() ==> !s[i],
    ensures
        count_true(s) == 0,
    decreases s.len(),
{
    if s.len() > 0 {
        lemma_count_true_none(s.drop_last());
    }
}

/// Splits a row-major index back into its coordinates.
pub proof fn lemma_decode(w: int, h: int, i: int)
    requires
        0 < w,
        0 < h,
        0 <= i,
        i < w * h,
    ensures
        0 <= i % w < w,
        0 <= i / w < h,
        (i / w) * w + (i % w) == i,
{
    vstd::arithmetic::div_mod::lemma_fundamental_div_mod(i, w);
    vstd::arithmetic::div_mod::lemma_mod_bound(i, w);
    let q = i / w;
    let r = i % w;
    assert(0 <= q && q < h) by (nonlinear_arith)
        requires
            0 < w,
            0 < h,
            0 <= i,
            i < w * h,
            i == w * q + r,
            0 <= r < w,
    ;
    assert(q * w + r == i) by (nonlinear_arith)
        requires
            i == w * q + r,
    ;
}

/// The set of hazard cells is exactly as large as the number of true
/// entries in the hazard vector.
pub proof fn lemma_hazards_card(b: Board)
    requires
        b.wf(),
    ensures
        b.hazards().finite(),
        b.hazards().len() == count_true(b.mines@),
{
    let w = b.width as int;
    let h = b.height as int;
    let ti = true_indices(b.mines@);
    let dec = |i: int| Cell { x: (i % w) as i32, y: (i / w) as i32 };
    lemma_true_indices_len(b.mines@);
    assert forall|c: Cell| b.hazards().contains(c) implies ti.map(dec).contains(c) by {
        let i = cell_idx(w, c);
        lemma_index_bounds(w, h, c.x as int, c.y as int);
        lemma_fundamental_div_mod_converse(i, w, c.y as int, c.x as int);
        assert(ti.contains(i) && c == dec(i));
    }
    assert forall|c: Cell| ti.map(dec).contains(c) implies b.hazards().contains(c) by {
        let i = choose|i: int| ti.contains(i) && c == dec(i);
        lemma_decode(w, h, i);
        assert(cell_idx(w, c) == i);
    }
    assert(ti.map(dec) =~= b.hazards());
    assert forall|i: int, j: int|
        ti.contains(i) && ti.contains(j) && #[trigger] dec(i) == #[trigger] dec(j) implies i
        == j by {
        lemma_decode(w, h, i);
        lemma_decode(w, h, j);
        assert(i % w == j % w);
        assert(i / w == j / w);
    }
    vstd::set_lib::lemma_map_size(ti, b.hazards(), dec);
}

/// The stored neighbor indicator sum counts exactly the hazards that lie
/// in the Moore neighborhood of `c`.
pub proof fn lemma_adjacent_mines_is_neighborhood_count(b: Board, c: Cell)
    requires
        b.wf(),
        b.in_bounds_spec(c),
    ensures
        b.hazards().intersect(moore_neighbors(c)).finite(),
        b.adjacent_mines(c) == b.hazards().intersect(moore_neighbors(c)).len(),
{
    let w = b.width as int;
    let h = b.height as int;
    let x = c.x as int;
    let y = c.y as int;
    let n1 = Cell { x: (c.x - 1) as i32, y: (c.y - 1) as i32 };
    let n2 = Cell { x: c.x, y: (c.y - 1) as i32 };
    let n3 = Cell { x: (c.x + 1) as i32, y: (c.y - 1) as i32 };
    let n4 = Cell { x: (c.x - 1) as i32, y: c.y };
    let n5 = Cell { x: (c.x + 1) as i32, y: c.y };
    let n6 = Cell { x: (c.x - 1) as i32, y: (c.y + 1) as i32 };
    let n7 = Cell { x: c.x, y: (c.y + 1) as i32 };
    let n8 = Cell { x: (c.x + 1) as i32, y: (c.y + 1) as i32 };
    assert(n1.x as int == x - 1 && n1.y as int == y - 1);
    assert(n2.x as int == x && n2.y as int == y - 1);
    assert(n3.x as int == x + 1 && n3.y as int == y - 1);
    assert(n4.x as int == x - 1 && n4.y as int == y);
    assert(n5.x as int == x + 1 && n5.y as int == y);
    assert(n6.x as int == x - 1 && n6.y as int == y + 1);
    assert(n7.x as int == x && n7.y as int == y + 1);
    assert(n8.x as int == x + 1 && n8.y as int == y + 1);
    let s = b.hazards().intersect(moore_neighbors(c));
    let all8 = Set::<Cell>::empty().insert(n1).insert(n2).insert(n3).insert(n4).insert(n5).insert(
        n6,
    ).insert(n7).insert(n8);
    assert forall|d: Cell| s.contains(d) implies all8.contains(d) by {
        assert(is_neighbor(c, d));
        assert(d == n1 || d == n2 || d == n3 || d == n4 || d == n5 || d == n6 || d == n7 || d
            == n8);
    }
    assert(s.subset_of(all8));
    vstd::set_lib::lemma_len_subset(s, all8);
    lemma_split_off(s, n1);
    let s1 = s.remove(n1);
    lemma_split_off(s1, n2);
    let s2 = s1.remove(n2);
    lemma_split_off(s2, n3);
    let s3 = s2.remove(n3);
    lemma_split_off(s3, n4);
    let s4 = s3.remove(n4);
    lemma_split_off(s4, n5);
    let s5 = s4.remove(n5);
    lemma_split_off(s5, n6);
    let s6 = s5.remove(n6);
    lemma_split_off(s6, n7);
    let s7 = s6.remove(n7);
    lemma_split_off(s7, n8);
    let s8 = s7.remove(n8);
    assert(s8 =~= Set::<Cell>::empty());
    assert(s1.contains(n2) == s.contains(n2));
    assert(s2.contains(n3) == s.contains(n3));
    assert(s3.contains(n4) == s.contains(n4));
    assert(s4.contains(n5) == s.contains(n5));
    assert(s5.contains(n6) == s.contains(n6));
    assert(s6.contains(n7) == s.contains(n7));
    assert(s7.contains(n8) == s.contains(n8));
    assert(s.contains(n1) <==> mine_ind(b.mines@, w, h, x - 1, y - 1) == 1);
    assert(s.contains(n2) <==> mine_ind(b.mines@, w, h, x, y - 1) == 1);
    assert(s.contains(n3) <==> mine_ind(b.mines@, w, h, x + 1, y - 1) == 1);
    assert(s.contains(n4) <==> mine_ind(b.mines@, w, h, x - 1, y) == 1);
    assert(s.contains(n5) <==> mine_ind(b.mines@, w, h, x + 1, y) == 1);
    assert(s.contains(n6) <==> mine_ind(b.mines@, w, h, x - 1, y + 1) == 1);
    assert(s.contains(n7) <==> mine_ind(b.mines@, w, h, x, y + 1) == 1);
    assert(s.contains(n8) <==> mine_ind(b.mines@, w, h, x + 1, y + 1) == 1);
}

/// Relies on fastrand::i32: the result is drawn from the given range;
/// the call panics only on an empty range, which the precondition rules
/// out. Nothing more is assumed of a random draw.
#[verifier::external_body]
fn random_below(bound: i32) -> (r: i32)
    requires
        0 < bound,
    ensures
        0 <= r < bound,
{
    fastrand::i32(0..bound)
}

/// The index of some vacant cell; callable only while one exists.
fn first_free_index(mines: &Vec<bool>) -> (i: usize)
    requires
        count_true(mines@) < mines@.len(),
    ensures
        i < mines@.len(),
        !mines@[i as int],
{
    let mut i: usize = 0;
    while i < mines.len()
        invariant
            i <= mines@.len(),
            count_true(mines@) < mines@.len(),
            forall|j: int| 0 <= j < i ==> mines@[j],
        decreases mines@.len() - i,
    {
        if !mines[i] {
            return i;
        }
        i += 1;
    }
    proof {
        lemma_count_true_all(mines@);
    }
    0
}

/// Places one hazard on a vacant cell: a bounded number of uniform
/// random draws (rejection sampling), then, in the rare case that every
/// draw landed on an occupied cell, the first vacant cell in row-major
/// order.
fn place_hazard(mines: &mut Vec<bool>, width: i32, height: i32)
    requires
        0 < width,
        0 < height,
        width as int * height as int <= usize::MAX as int,
        old(mines)@.len() == width as int * height as int,
        count_true(old(mines)@) < old(mines)@.len(),
    ensures
        final(mines)@.len() == old(mines)@.len(),
        count_true(final(mines)@) == count_true(old(mines)@) + 1,
        forall|j: int| 0 <= j < old(mines)@.len() && old(mines)@[j] ==> final(mines)@[j],
{
    let ghost orig = mines@;
    let mut tries: u32 = 32;
    while tries > 0
        invariant
            mines@ == orig,
            orig == old(mines)@,
            count_true(orig) < orig.len(),
            0 < width,
            0 < height,
            width as int * height as int <= usize::MAX as int,
            orig.len() == width as int * height as int,
        decreases tries,
    {
        let x = random_below(width);
        let y = random_below(height);
        let i = grid_index(width, height, Cell { x, y });
        if !mines[i] {
            mines[i] = true;
            proof {
                lemma_count_true_update(orig, i as int);
            }
            return ;
        }
        tries -= 1;
    }
    let i = first_free_index(mines);
    mines[i] = true;
    proof {
        lemma_count_true_update(orig, i as int);
    }
}

impl Board {
    /// Produces a fresh board: `min(hazard_count, width * height)` hazards
    /// placed by rejection-sampled uniform draws, neighbor counts computed
    /// for every non-hazard cell, and nothing flagged or revealed.
    pub fn generate(width: i32, height: i32, hazard_count: i32) -> (b: Board)
        requires
            0 < width,
            0 < height,
            0 <= hazard_count,
            width as int * height as int <= usize::MAX as int,
        ensures
            b.wf(),
            b.width == width,
            b.height == height,
            b.hazards().finite(),
            b.hazards().len() == vstd::math::min(hazard_count as int, b.total()),
            forall|c: Cell| !(#[trigger] b.flag_at(c)),
            forall|c: Cell| !(#[trigger] b.rev_at(c)),
    {
        let total = (width as usize) * (height as usize);
        let hc = hazard_count as usize;
        let quota = if hc < total {
            hc
        } else {
            total
        };
        let mut mines = make_bool_vec(total);
        proof {
            lemma_count_true_none(mines@);
        }
        let mut placed: usize = 0;
        while placed < quota
            invariant
                0 < width,
                0 < height,
                width as int * height as int <= usize::MAX as int,
                total == width as int * height as int,
                quota <= total,
                placed <= quota,
                mines@.len() == total,
                count_true(mines@) == placed,
            decreases quota - placed,
        {
            place_hazard(&mut mines, width, height);
            placed += 1;
        }
        let counts = compute_counts(&mines, width, height);
        let flagged = make_bool_vec(total);
        let revealed = make_bool_vec(total);
        let b = Board { width, height, mines, counts, flagged, revealed };
        proof {
            assert forall|c: Cell| b.in_bounds_spec(c) && !b.mine_at(c) implies #[trigger] b.count_at(
                c,
            ) == b.adjacent_mines(c) by {
                assert(grid_in_bounds(width as int, height as int, c));
            }
            assert forall|c: Cell| !(#[trigger] b.rev_at(c)) by {
                if b.in_bounds_spec(c) {
                    lemma_index_bounds(width as int, height as int, c.x as int, c.y as int);
                }
            }
            assert forall|c: Cell| !(#[trigger] b.flag_at(c)) by {
                if b.in_bounds_spec(c) {
                    lemma_index_bounds(width as int, height as int, c.x as int, c.y as int);
                }
            }
            lemma_hazards_card(b);
        }
        b
    }
}

} // verus!
