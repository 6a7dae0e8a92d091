//! The mathematical model of a board: what each cell holds, laid out row by
//! row, and the counts and predicates that the board's contracts speak of.

use vstd::prelude::*;
use crate::board::CellState;
use crate::grid::{Pos, in_grid, near, neighbors, adjacent, lemma_neighbors};

verus! {

/// Position `p` of a grid with `cols` columns, as an index into the
/// row-by-row layout of its cells.
pub open spec fn cell_index(cols: nat, p: Pos) -> int {
    p.0 * cols + p.1
}

/// The cells of `s` that hold a mine, in a layout of `cols` columns.
pub open spec fn mines_among(cols: nat, mines: Seq<bool>, s: Seq<Pos>) -> nat
    decreases s.len(),
{
    if s.len() == 0 {
        0
    } else {
        mines_among(cols, mines, s.drop_last()) + if mines[cell_index(cols, s.last())] { 1nat } else { 0nat }
    }
}

/// The cells of `s` whose state satisfies `flagged` (when `flagged` holds) or
/// differs from `Empty` (when it does not).
pub open spec fn state_among(cols: nat, states: Seq<CellState>, s: Seq<Pos>, flagged: bool) -> nat
    decreases s.len(),
{
    if s.len() == 0 {
        0
    } else {
        let st = states[cell_index(cols, s.last())];
        let hit = if flagged { st == CellState::Flagged } else { st != CellState::Empty };
        state_among(cols, states, s.drop_last(), flagged) + if hit { 1nat } else { 0nat }
    }
}

/// How many entries of `mines` are true.
pub open spec fn mine_total(mines: Seq<bool>) -> nat
    decreases mines.len(),
{
    if mines.len() == 0 {
        0
    } else {
        mine_total(mines.drop_last()) + if mines.last() { 1nat } else { 0nat }
    }
}

/// How many entries of `states` equal `s`.
pub open spec fn state_total(states: Seq<CellState>, s: CellState) -> nat
    decreases states.len(),
{
    if states.len() == 0 {
        0
    } else {
        state_total(states.drop_last(), s) + if states.last() == s { 1nat } else { 0nat }
    }
}

/// A state the engine may still change: `Covered`, and when `flag` holds
/// also `Detonated`.
pub open spec fn is_target(s: CellState, flag: bool) -> bool {
    s == CellState::Covered || (flag && s == CellState::Detonated)
}

/// A state that shows the cell's content: `Empty` or `Detonated`.
pub open spec fn is_revealed(s: CellState) -> bool {
    s == CellState::Empty || s == CellState::Detonated
}

/// The state that revealing a cell gives it.
pub open spec fn revealed_state(mine: bool) -> CellState {
    if mine {
        CellState::Detonated
    } else {
        CellState::Empty
    }
}

/// A board as plain values. Cells are laid out row by row: the cell at `p`
/// is entry `cell_index(cols, p)` of `states`, `mines` and `values`.
pub struct BoardModel {
    pub rows: nat,
    pub cols: nat,
    pub states: Seq<CellState>,
    pub mines: Seq<bool>,
    pub values: Seq<nat>,
    /// The number of mines the board is made with.
    pub bombs: nat,
    /// Whether the mines have been laid.
    pub placed: bool,
    pub auto_flag: bool,
    pub auto_reveal: bool,
}

impl BoardModel {
    pub open spec fn on(self, p: Pos) -> bool {
        in_grid(self.rows, self.cols, p)
    }

    pub open spec fn state(self, p: Pos) -> CellState {
        self.states[cell_index(self.cols, p)]
    }

    pub open spec fn mine(self, p: Pos) -> bool {
        self.mines[cell_index(self.cols, p)]
    }

    pub open spec fn value(self, p: Pos) -> nat {
        self.values[cell_index(self.cols, p)]
    }

    pub open spec fn nbrs(self, p: Pos) -> Seq<Pos> {
        neighbors(self.rows, self.cols, p)
    }

    /// Mines among the neighbours of `p`.
    pub open spec fn mines_near(self, p: Pos) -> nat {
        mines_among(self.cols, self.mines, self.nbrs(p))
    }

    /// Flagged neighbours of `p`.
    pub open spec fn flags_near(self, p: Pos) -> nat {
        state_among(self.cols, self.states, self.nbrs(p), true)
    }

    /// Neighbours of `p` that are not `Empty`: covered, flagged or detonated.
    pub open spec fn unrevealed_near(self, p: Pos) -> nat {
        state_among(self.cols, self.states, self.nbrs(p), false)
    }

    /// No neighbour of `p` is left for the engine to change: none is
    /// `Covered`, and when `flag` holds none is `Detonated` either.
    pub open spec fn none_target_near(self, p: Pos, flag: bool) -> bool {
        forall|j: int| 0 <= j < self.nbrs(p).len() ==> !is_target(self.state(#[trigger] self.nbrs(p)[j]), flag)
    }

    /// The number of flagged cells.
    pub open spec fn flag_count(self) -> nat {
        state_total(self.states, CellState::Flagged)
    }

    /// The number of covered cells.
    pub open spec fn covered_count(self) -> nat {
        state_total(self.states, CellState::Covered)
    }

    /// A measure that every change the engine makes lowers: a covered cell
    /// weighs two, a detonated one weighs one.
    pub open spec fn weight(self) -> nat {
        2 * self.covered_count() + state_total(self.states, CellState::Detonated)
    }

    /// Mines not yet accounted for by a flag; negative when the player has
    /// placed more flags than there are mines.
    pub open spec fn mines_remaining(self) -> int {
        self.bombs - self.flag_count()
    }

    /// A cell is satisfied when its flagged neighbours match its mine count.
    pub open spec fn satisfied(self, p: Pos) -> bool {
        self.flags_near(p) == self.value(p)
    }

    /// The dimensions are positive and fit the machine, and each layout holds
    /// one entry per cell.
    pub open spec fn shaped(self) -> bool {
        &&& self.rows > 0
        &&& self.cols > 0
        &&& self.rows <= usize::MAX
        &&& self.cols <= usize::MAX
        &&& self.rows * self.cols <= isize::MAX
        &&& self.states.len() == self.rows * self.cols
        &&& self.mines.len() == self.rows * self.cols
        &&& self.values.len() == self.rows * self.cols
    }

    /// The board's invariant.
    pub open spec fn wf(self) -> bool {
        &&& self.shaped()
        &&& self.bombs <= self.rows * self.cols
        &&& forall|p: Pos| self.on(p) ==> #[trigger] self.value(p) == self.mines_near(p)
        &&& forall|p: Pos| self.on(p) && #[trigger] self.state(p) == CellState::Empty ==> !self.mine(p)
        &&& forall|p: Pos| self.on(p) && #[trigger] self.state(p) == CellState::Detonated ==> self.mine(p)
        &&& self.placed ==> mine_total(self.mines) == self.bombs
        &&& !self.placed ==> mine_total(self.mines) == 0
        &&& !self.placed ==> forall|p: Pos| self.on(p) ==> !is_revealed(#[trigger] self.state(p))
    }

    /// Everything but the cells' states is the same in `self` and `other`.
    pub open spec fn same_layout(self, other: BoardModel) -> bool {
        &&& self.rows == other.rows
        &&& self.cols == other.cols
        &&& self.mines == other.mines
        &&& self.values == other.values
        &&& self.bombs == other.bombs
        &&& self.placed == other.placed
        &&& self.auto_flag == other.auto_flag
        &&& self.auto_reveal == other.auto_reveal
        &&& self.states.len() == other.states.len()
    }

    /// The state of `p` differs between `self` and `later`.
    pub open spec fn changed(self, later: BoardModel, p: Pos) -> bool {
        self.on(p) && self.state(p) != later.state(p)
    }

    /// A revealed cell `p` leaves nothing to do: when it has no mine around
    /// it, or (with auto-reveal) it is satisfied, it has no covered neighbour
    /// left; when (with auto-flag) its neighbours that are not `Empty` are
    /// exactly its mines, none of them is covered or detonated any more.
    pub open spec fn settled(self, p: Pos) -> bool {
        is_revealed(self.state(p)) ==> {
            &&& (self.value(p) == 0 || (self.auto_reveal && self.satisfied(p))) ==> self.none_target_near(p, false)
            &&& (self.auto_flag && self.unrevealed_near(p) == self.value(p)) ==> self.none_target_near(p, true)
        }
    }

    /// `q` shows what it holds: it is revealed, or it is a mine under a flag
    /// (a detonated cell that auto-flag has flagged since).
    pub open spec fn shown(self, q: Pos) -> bool {
        is_revealed(self.state(q)) || (self.state(q) == CellState::Flagged && self.mine(q))
    }

    /// `q` is the reason the engine gave cell `n` its state: `q` is a shown
    /// neighbour of `n`, and either `n` is flagged, auto-flag is on and the
    /// neighbours of `q` that are not `Empty` are exactly its mines, or `q`
    /// has no mine around it or (with auto-reveal) at least as many flags
    /// around it as mines.
    pub open spec fn reason(self, q: Pos, n: Pos) -> bool {
        &&& self.on(q)
        &&& adjacent(self.rows, self.cols, q, n)
        &&& self.shown(q)
        &&& if self.state(n) == CellState::Flagged {
            self.auto_flag && self.unrevealed_near(q) == self.value(q)
        } else {
            self.value(q) == 0 || (self.auto_reveal && self.flags_near(q) >= self.value(q))
        }
    }

    /// `w` is a walk of neighbouring cells in which every cell but the last
    /// has no mine around it.
    pub open spec fn zero_walk(self, w: Seq<Pos>) -> bool {
        &&& w.len() > 0
        &&& forall|j: int| 0 <= j < w.len() - 1 ==> self.on(#[trigger] w[j]) && self.value(w[j]) == 0
            && adjacent(self.rows, self.cols, w[j], w[j + 1])
    }

    /// The flood region of `a`: the cells reached from `a` through cells with
    /// no mine around them. For a cell `a` with no mine around it, that is
    /// the connected region of such cells around `a` plus its one-cell border.
    pub open spec fn flood_reach(self, a: Pos, q: Pos) -> bool {
        exists|w: Seq<Pos>| #[trigger] self.zero_walk(w) && w[0] == a && w.last() == q
    }

    /// From `self` to `later` each cell either keeps its state or goes from
    /// `Covered` to revealed, or, with auto-flag and only on a mine, from
    /// `Covered` or `Detonated` to `Flagged`.
    pub open spec fn advances_to(self, later: BoardModel) -> bool {
        forall|p: Pos| self.on(p) && #[trigger] self.changed(later, p) ==> {
            ||| self.state(p) == CellState::Covered && later.state(p) == revealed_state(self.mine(p))
            ||| (self.state(p) == CellState::Covered || self.state(p) == CellState::Detonated)
                && later.state(p) == CellState::Flagged && self.auto_flag && self.mine(p)
        }
    }
}

impl BoardModel {
    /// What the reveal engine guarantees when it starts on `self` with the
    /// positions `seeds` to look at and ends on `later`:
    /// - only states change, and only as `advances_to` allows;
    /// - the seeds, every cell whose state changed, and (with an assist on)
    ///   every neighbour of such a cell are settled;
    /// - without auto-reveal, every cell revealed at the end was revealed at
    ///   the start or lies in the flood region of a cell revealed at the start.
    pub open spec fn cascade(self, later: BoardModel, seeds: Seq<Pos>) -> bool {
        &&& self.same_layout(later)
        &&& self.advances_to(later)
        &&& forall|q: Pos| self.on(q) && seeds.contains(q) ==> #[trigger] later.settled(q)
        &&& forall|q: Pos| #[trigger] self.changed(later, q) ==> later.settled(q)
        &&& (self.auto_flag || self.auto_reveal) ==> forall|n: Pos, q: Pos|
            #[trigger] self.changed(later, n) && #[trigger] adjacent(self.rows, self.cols, n, q) ==> later.settled(q)
        &&& !self.auto_reveal ==> forall|q: Pos|
            self.on(q) && #[trigger] is_revealed(later.state(q)) ==> is_revealed(self.state(q)) || exists|a: Pos|
                self.on(a) && is_revealed(self.state(a)) && #[trigger] self.flood_reach(a, q)
        &&& !self.auto_flag && !self.auto_reveal ==> forall|y: Pos|
            self.on(y) && #[trigger] is_revealed(later.state(y)) && !is_revealed(self.state(y)) ==> exists|a: Pos|
                seeds.contains(a) && #[trigger] self.flood_reach(a, y)
        &&& forall|n: Pos| #[trigger] self.changed(later, n) ==> exists|q: Pos| #[trigger] later.reason(q, n)
        &&& (forall|q: Pos| self.on(q) && #[trigger] seeds.contains(q) ==> self.settled(q)) ==> later == self
    }
}

/// A board with no mine laid and every cell covered is well formed.
pub proof fn lemma_blank_wf(m: BoardModel)
    requires
        m.rows > 0,
        m.cols > 0,
        m.rows <= usize::MAX,
        m.cols <= usize::MAX,
        m.rows * m.cols <= isize::MAX,
        m.states.len() == m.rows * m.cols,
        m.mines.len() == m.rows * m.cols,
        m.values.len() == m.rows * m.cols,
        m.bombs <= m.rows * m.cols,
        !m.placed,
        forall|i: int| 0 <= i < m.states.len() ==> #[trigger] m.states[i] == CellState::Covered,
        forall|i: int| 0 <= i < m.mines.len() ==> !#[trigger] m.mines[i],
        forall|i: int| 0 <= i < m.values.len() ==> #[trigger] m.values[i] == 0,
    ensures
        m.wf(),
        forall|p: Pos| m.on(p) ==> #[trigger] m.state(p) == CellState::Covered,
{
    lemma_mine_total_none(m.mines);
    assert forall|p: Pos| m.on(p) implies #[trigger] m.value(p) == m.mines_near(p) by {
        lemma_index(m.rows, m.cols, p);
        lemma_neighbors(m.rows, m.cols, p);
        assert forall|j: int| 0 <= j < m.nbrs(p).len() implies !m.mines[cell_index(m.cols, #[trigger] m.nbrs(p)[j])] by {
            assert(m.nbrs(p).contains(m.nbrs(p)[j]));
            lemma_index(m.rows, m.cols, m.nbrs(p)[j]);
        }
        lemma_mines_among_none(m.cols, m.mines, m.nbrs(p));
    }
    assert forall|p: Pos| m.on(p) implies #[trigger] m.state(p) == CellState::Covered by {
        lemma_index(m.rows, m.cols, p);
    }
}

/// When every mine of `s` sits on a cell that is not `Empty`, there are no
/// more mines than such cells, and when the two counts agree, every cell of
/// `s` that is not `Empty` holds a mine.
pub proof fn lemma_mines_within_unrevealed(cols: nat, mines: Seq<bool>, states: Seq<CellState>, s: Seq<Pos>)
    requires
        forall|j: int| 0 <= j < s.len() && #[trigger] mines[cell_index(cols, s[j])] ==> states[cell_index(cols, s[j])] != CellState::Empty,
    ensures
        mines_among(cols, mines, s) <= state_among(cols, states, s, false),
        mines_among(cols, mines, s) == state_among(cols, states, s, false) ==> forall|j: int|
            0 <= j < s.len() && #[trigger] states[cell_index(cols, s[j])] != CellState::Empty ==> mines[cell_index(cols, s[j])],
    decreases s.len(),
{
    if s.len() > 0 {
        let t = s.drop_last();
        assert forall|j: int| 0 <= j < t.len() && #[trigger] mines[cell_index(cols, t[j])] implies states[cell_index(cols, t[j])] != CellState::Empty by {
            assert(t[j] == s[j]);
        }
        lemma_mines_within_unrevealed(cols, mines, states, t);
        if mines_among(cols, mines, s) == state_among(cols, states, s, false) {
            assert forall|j: int| 0 <= j < s.len() && #[trigger] states[cell_index(cols, s[j])] != CellState::Empty implies mines[cell_index(cols, s[j])] by {
                if j < s.len() - 1 {
                    assert(t[j] == s[j]);
                }
            }
        }
    }
}

/// On a well-formed board, when the neighbours of `p` that are not `Empty`
/// are as many as its mine count, every one of them holds a mine.
pub proof fn lemma_unrevealed_are_mines(m: BoardModel, p: Pos)
    requires
        m.wf(),
        m.on(p),
        m.unrevealed_near(p) == m.value(p),
    ensures
        forall|j: int| 0 <= j < m.nbrs(p).len() && #[trigger] m.state(m.nbrs(p)[j]) != CellState::Empty ==> m.mine(m.nbrs(p)[j]),
{
    let s = m.nbrs(p);
    lemma_neighbors(m.rows, m.cols, p);
    assert forall|j: int| 0 <= j < s.len() && #[trigger] m.mines[cell_index(m.cols, s[j])] implies m.states[cell_index(m.cols, s[j])] != CellState::Empty by {
        assert(s.contains(s[j]));
        assert(m.state(s[j]) == CellState::Empty ==> !m.mine(s[j]));
    }
    lemma_mines_within_unrevealed(m.cols, m.mines, m.states, s);
    assert forall|j: int| 0 <= j < s.len() && #[trigger] m.state(s[j]) != CellState::Empty implies m.mine(s[j]) by {
        assert(m.states[cell_index(m.cols, s[j])] != CellState::Empty);
    }
}

/// How the mine total moves when one entry changes.
pub proof fn lemma_mine_total_update(mines: Seq<bool>, i: int, b: bool)
    requires
        0 <= i < mines.len(),
    ensures
        mine_total(mines.update(i, b)) + (if mines[i] { 1int } else { 0 }) == mine_total(mines) + (if b { 1int } else { 0 }),
    decreases mines.len(),
{
    let u = mines.update(i, b);
    assert(mine_total(u) == mine_total(u.drop_last()) + if u.last() { 1nat } else { 0nat });
    if i == mines.len() - 1 {
        assert(u.drop_last() =~= mines.drop_last());
    } else {
        assert(u.last() == mines.last());
        assert(u.drop_last() =~= mines.drop_last().update(i, b));
        lemma_mine_total_update(mines.drop_last(), i, b);
    }
}

/// A layout whose mine total is zero holds no mine.
pub proof fn lemma_mine_total_zero(mines: Seq<bool>)
    requires
        mine_total(mines) == 0,
    ensures
        forall|i: int| 0 <= i < mines.len() ==> !#[trigger] mines[i],
    decreases mines.len(),
{
    if mines.len() > 0 {
        lemma_mine_total_zero(mines.drop_last());
        assert forall|i: int| 0 <= i < mines.len() implies !#[trigger] mines[i] by {
            if i < mines.len() - 1 {
                assert(mines[i] == mines.drop_last()[i]);
            }
        }
    }
}

/// There are no more mines than cells.
pub proof fn lemma_mine_total_bound(mines: Seq<bool>)
    ensures
        mine_total(mines) <= mines.len(),
    decreases mines.len(),
{
    if mines.len() > 0 {
        lemma_mine_total_bound(mines.drop_last());
    }
}

/// A position on the grid has an index inside the layout.
pub proof fn lemma_index(rows: nat, cols: nat, p: Pos)
    requires
        in_grid(rows, cols, p),
    ensures
        0 <= cell_index(cols, p) < rows * cols,
{
    assert(0 <= p.0 * cols + p.1 < rows * cols) by (nonlinear_arith)
        requires
            p.0 < rows,
            p.1 < cols,
    ;
}

/// Distinct positions of a grid with `cols` columns have distinct indices.
pub proof fn lemma_index_injective(cols: nat, p: Pos, q: Pos)
    requires
        p.1 < cols,
        q.1 < cols,
        p != q,
    ensures
        cell_index(cols, p) != cell_index(cols, q),
{
    if p.0 == q.0 {
    } else if p.0 < q.0 {
        assert(p.0 * cols + cols <= q.0 * cols) by (nonlinear_arith)
            requires
                p.0 < q.0,
        ;
    } else {
        assert(q.0 * cols + cols <= p.0 * cols) by (nonlinear_arith)
            requires
                q.0 < p.0,
        ;
    }
}

/// With no mine at any position of `s`, there are no mines among them.
pub proof fn lemma_mines_among_none(cols: nat, mines: Seq<bool>, s: Seq<Pos>)
    requires
        forall|j: int| 0 <= j < s.len() ==> !mines[cell_index(cols, #[trigger] s[j])],
    ensures
        mines_among(cols, mines, s) == 0,
    decreases s.len(),
{
    if s.len() > 0 {
        lemma_mines_among_none(cols, mines, s.drop_last());
    }
}

/// A layout without mines has a mine total of zero.
pub proof fn lemma_mine_total_none(mines: Seq<bool>)
    requires
        forall|i: int| 0 <= i < mines.len() ==> !#[trigger] mines[i],
    ensures
        mine_total(mines) == 0,
    decreases mines.len(),
{
    if mines.len() > 0 {
        lemma_mine_total_none(mines.drop_last());
    }
}

/// Changing a state at an index that no position of `s` has leaves the
/// counts over `s` as they were.
pub proof fn lemma_state_among_frame(cols: nat, states: Seq<CellState>, i: int, st: CellState, s: Seq<Pos>, flagged: bool)
    requires
        0 <= i < states.len(),
        forall|j: int| 0 <= j < s.len() ==> cell_index(cols, #[trigger] s[j]) != i,
        forall|j: int| 0 <= j < s.len() ==> 0 <= cell_index(cols, #[trigger] s[j]) < states.len(),
    ensures
        state_among(cols, states.update(i, st), s, flagged) == state_among(cols, states, s, flagged),
    decreases s.len(),
{
    if s.len() > 0 {
        lemma_state_among_frame(cols, states, i, st, s.drop_last(), flagged);
    }
}

/// Whether state `st` counts in `state_among` with the given `flagged`.
pub open spec fn counted(st: CellState, flagged: bool) -> bool {
    if flagged { st == CellState::Flagged } else { st != CellState::Empty }
}

/// Changing one state never lowers a count it still counts in, and leaves
/// the count as it was when it counts in both states or in neither.
pub proof fn lemma_state_among_update(cols: nat, states: Seq<CellState>, i: int, st: CellState, s: Seq<Pos>, flagged: bool)
    requires
        0 <= i < states.len(),
        forall|j: int| 0 <= j < s.len() ==> 0 <= cell_index(cols, #[trigger] s[j]) < states.len(),
    ensures
        (counted(states[i], flagged) ==> counted(st, flagged)) ==> state_among(cols, states.update(i, st), s, flagged)
            >= state_among(cols, states, s, flagged),
        counted(states[i], flagged) == counted(st, flagged) ==> state_among(cols, states.update(i, st), s, flagged)
            == state_among(cols, states, s, flagged),
    decreases s.len(),
{
    if s.len() > 0 {
        lemma_state_among_update(cols, states, i, st, s.drop_last(), flagged);
    }
}

/// With no mine around `p`, no neighbour of `p` holds a mine.
pub proof fn lemma_no_mine_near(m: BoardModel, p: Pos, q: Pos)
    requires
        m.wf(),
        m.on(p),
        m.value(p) == 0,
        adjacent(m.rows, m.cols, p, q),
    ensures
        !m.mine(q),
{
    lemma_neighbors(m.rows, m.cols, p);
    let s = m.nbrs(p);
    assert(s.contains(q));
    let k = choose|k: int| 0 <= k < s.len() && s[k] == q;
    lemma_mines_among_zero(m.cols, m.mines, s, k);
}

proof fn lemma_mines_among_zero(cols: nat, mines: Seq<bool>, s: Seq<Pos>, k: int)
    requires
        mines_among(cols, mines, s) == 0,
        0 <= k < s.len(),
    ensures
        !mines[cell_index(cols, s[k])],
    decreases s.len(),
{
    if k < s.len() - 1 {
        assert(s.drop_last()[k] == s[k]);
        lemma_mines_among_zero(cols, mines, s.drop_last(), k);
    }
}

/// No more cells are covered or detonated than there are cells.
pub proof fn lemma_weight_bound(states: Seq<CellState>)
    ensures
        state_total(states, CellState::Covered) + state_total(states, CellState::Detonated) <= states.len(),
    decreases states.len(),
{
    if states.len() > 0 {
        lemma_weight_bound(states.drop_last());
    }
}

/// How a count of states moves when one entry changes.
pub proof fn lemma_state_total_update(states: Seq<CellState>, i: int, st: CellState, s: CellState)
    requires
        0 <= i < states.len(),
    ensures
        state_total(states.update(i, st), s) + (if states[i] == s { 1int } else { 0 })
            == state_total(states, s) + (if st == s { 1int } else { 0 }),
    decreases states.len(),
{
    let u = states.update(i, st);
    assert(state_total(u, s) == state_total(u.drop_last(), s) + if u.last() == s { 1nat } else { 0nat });
    assert(state_total(states, s) == state_total(states.drop_last(), s) + if states.last() == s { 1nat } else { 0nat });
    if i == states.len() - 1 {
        assert(u.drop_last() =~= states.drop_last());
        assert(u.last() == st);
    } else {
        assert(u.last() == states.last());
        assert(u.drop_last() =~= states.drop_last().update(i, st));
        lemma_state_total_update(states.drop_last(), i, st, s);
    }
}

/// Where the engine starts after `p` is revealed: `p`, and with an assist on
/// also its neighbours, whose counts of unrevealed neighbours just changed.
pub open spec fn expose_seeds(m: BoardModel, p: Pos) -> Seq<Pos> {
    seq![p] + if m.auto_flag || m.auto_reveal { m.nbrs(p) } else { Seq::empty() }
}

/// What `expose(p)` does, from `m0` to `m1`. On a flagged cell: nothing.
/// Otherwise the mines are laid first if they were not (none in the 3x3
/// window around `p`), `p` is revealed, and the reveal engine runs from
/// `expose_seeds`.
pub open spec fn exposed_from(m0: BoardModel, m1: BoardModel, p: Pos) -> bool {
    if m0.state(p) == CellState::Flagged {
        m1 == m0
    } else {
        &&& m1.placed
        &&& m0.placed ==> m1.mines == m0.mines && m1.values == m0.values
        &&& !m0.placed ==> forall|q: Pos| m1.on(q) && #[trigger] near(p, q) ==> !m1.mine(q)
        &&& (BoardModel {
            states: m0.states.update(cell_index(m0.cols, p), revealed_state(m1.mine(p))),
            mines: m1.mines,
            values: m1.values,
            placed: true,
            ..m0
        }).cascade(m1, expose_seeds(m0, p))
    }
}

/// What `toggle_bomb(p)` does, from `m0` to `m1`: a covered cell becomes
/// flagged (and, with auto-reveal once the mines are laid, the engine runs
/// from its neighbours); a flagged cell becomes covered; a revealed cell
/// stays as it is.
pub open spec fn toggled_from(m0: BoardModel, m1: BoardModel, p: Pos) -> bool {
    if m0.state(p) == CellState::Covered {
        let flagged = BoardModel { states: m0.states.update(cell_index(m0.cols, p), CellState::Flagged), ..m0 };
        if m0.auto_reveal && m0.placed {
            flagged.cascade(m1, m0.nbrs(p))
        } else {
            m1 == flagged
        }
    } else if m0.state(p) == CellState::Flagged {
        m1 == (BoardModel { states: m0.states.update(cell_index(m0.cols, p), CellState::Covered), ..m0 })
    } else {
        m1 == m0
    }
}

} // verus!
