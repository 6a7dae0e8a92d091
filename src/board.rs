//! The board: a grid of cells, mine placement, reveal and flags.

use vstd::prelude::*;
use crate::grid::{Pos, adjacent, neighbors_of, lemma_neighbors};
use crate::model::{
    BoardModel, revealed_state, is_revealed, cell_index, mines_among, mine_total, state_among, state_total,
    lemma_index, lemma_index_injective, lemma_blank_wf, lemma_mine_total_zero, lemma_mine_total_update,
    lemma_mine_total_bound,
};

verus! {

/// What a cell shows.
#[derive(Clone, Copy, PartialEq, Eq, Structural, Debug)]
pub enum CellState {
    Covered,
    Empty,
    Flagged,
    Detonated,
}

/// One square of the grid.
#[derive(Clone, Copy, Debug)]
pub struct Cell {
    pub state: CellState,
    bomb: bool,
    /// The number of mines among the cell's neighbours.
    pub value: usize,
}

/// A cell as plain values.
pub struct CellView {
    pub state: CellState,
    pub mine: bool,
    pub value: nat,
}

impl View for Cell {
    type V = CellView;

    closed spec fn view(&self) -> CellView {
        CellView { state: self.state, mine: self.bomb, value: self.value as nat }
    }
}

impl Cell {
    pub fn is_covered(&self) -> (r: bool)
        ensures
            r == (self@.state == CellState::Covered),
    {
        self.state == CellState::Covered
    }

    pub fn is_empty(&self) -> (r: bool)
        ensures
            r == (self@.state == CellState::Empty),
    {
        self.state == CellState::Empty
    }

    /// Reveals the cell: `Detonated` on a mine, `Empty` elsewhere.
    pub fn expose(&mut self)
        ensures
            final(self)@ == (CellView { state: revealed_state(old(self)@.mine), ..old(self)@ }),
    {
        self.state = if self.bomb {
            CellState::Detonated
        } else {
            CellState::Empty
        };
    }
}

impl Default for Cell {
    fn default() -> (r: Self)
        ensures
            r@ == (CellView { state: CellState::Covered, mine: false, value: 0 }),
    {
        Cell { state: CellState::Covered, bomb: false, value: 0 }
    }
}

/// The game board. It owns its cells; all changes go through `expose` and
/// `toggle_bomb`.
pub struct Board {
    cells: Vec<Cell>,
    rows: usize,
    cols: usize,
    bombs: usize,
    first_click: bool,
    /// Flag the unrevealed neighbours of a revealed cell when they must all be mines.
    pub auto_flag: bool,
    /// Reveal the covered neighbours of a revealed cell once its flags match its count.
    pub auto_reveal: bool,
}

impl View for Board {
    type V = BoardModel;

    closed spec fn view(&self) -> BoardModel {
        BoardModel {
            rows: self.rows as nat,
            cols: self.cols as nat,
            states: self.cells@.map_values(|c: Cell| c.state),
            mines: self.cells@.map_values(|c: Cell| c.bomb),
            values: self.cells@.map_values(|c: Cell| c.value as nat),
            bombs: self.bombs as nat,
            placed: self.first_click,
            auto_flag: self.auto_flag,
            auto_reveal: self.auto_reveal,
        }
    }
}

/// The state that the engine gives cell `n`: `Flagged`, or revealed.
pub open spec fn next_state(m: BoardModel, n: Pos, flag: bool) -> CellState {
    if flag {
        CellState::Flagged
    } else {
        revealed_state(m.mine(n))
    }
}

impl Board {
    /// A fresh board: every cell covered, no mine laid yet.
    pub fn new(r: usize, c: usize, bombs: usize, auto_flag: bool, auto_reveal: bool) -> (b: Self)
        requires
            r > 0,
            c > 0,
            r * c <= isize::MAX,
            bombs <= r * c,
        ensures
            b@.wf(),
            b@.rows == r,
            b@.cols == c,
            b@.bombs == bombs,
            !b@.placed,
            b@.auto_flag == auto_flag,
            b@.auto_reveal == auto_reveal,
            forall|p: Pos| b@.on(p) ==> #[trigger] b@.state(p) == CellState::Covered,
    {
        let n: usize = r * c;
        let mut cells: Vec<Cell> = Vec::new();
        let mut i: usize = 0;
        while i < n
            invariant
                i <= n,
                cells.len() == i,
                forall|j: int| 0 <= j < i ==> {
                    &&& (#[trigger] cells@[j]).state == CellState::Covered
                    &&& !cells@[j].bomb
                    &&& cells@[j].value == 0
                },
            decreases n - i,
        {
            cells.push(Cell::default());
            i = i + 1;
        }
        let b = Board { cells, rows: r, cols: c, bombs, first_click: false, auto_flag, auto_reveal };
        proof {
            let m = b@;
            assert forall|i: int| 0 <= i < m.states.len() implies #[trigger] m.states[i] == CellState::Covered by {
                assert(m.states[i] == cells@[i].state);
            }
            assert forall|i: int| 0 <= i < m.mines.len() implies !#[trigger] m.mines[i] by {
                assert(m.mines[i] == cells@[i].bomb);
            }
            assert forall|i: int| 0 <= i < m.values.len() implies #[trigger] m.values[i] == 0 by {
                assert(m.values[i] == cells@[i].value);
            }
            lemma_blank_wf(m);
        }
        b
    }

    /// The index of `c` in the row-by-row layout of the cells.
    fn index_of(&self, c: Pos) -> (i: usize)
        requires
            self@.shaped(),
            self@.on(c),
        ensures
            i == cell_index(self@.cols, c),
            i < self.cells.len(),
    {
        proof {
            lemma_index(self@.rows, self@.cols, c);
        }
        c.0 * self.cols + c.1
    }

    /// Sets the state of the cell at `c`, keeping the board's invariant.
    pub(crate) fn set_state(&mut self, c: Pos, st: CellState)
        requires
            old(self)@.wf(),
            old(self)@.on(c),
            st == CellState::Empty ==> !old(self)@.mine(c),
            st == CellState::Detonated ==> old(self)@.mine(c),
            !old(self)@.placed ==> !is_revealed(st),
        ensures
            final(self)@ == (BoardModel { states: old(self)@.states.update(cell_index(old(self)@.cols, c), st), ..old(self)@ }),
            final(self)@.wf(),
    {
        let i = self.index_of(c);
        let mut cell = self.cells[i];
        cell.state = st;
        self.cells.set(i, cell);
        proof {
            let m0 = old(self)@;
            let m1 = self@;
            assert(m1.states =~= m0.states.update(i as int, st));
            assert(m1.mines =~= m0.mines);
            assert(m1.values =~= m0.values);
            assert forall|p: Pos| m1.on(p) implies #[trigger] m1.state(p) == (if p == c { st } else { m0.state(p) }) by {
                if p != c {
                    lemma_index_injective(m0.cols, p, c);
                }
                lemma_index(m0.rows, m0.cols, p);
                lemma_index(m0.rows, m0.cols, c);
            }
            assert forall|p: Pos| m1.on(p) implies #[trigger] m1.value(p) == m1.mines_near(p) by {
                assert(m0.value(p) == m0.mines_near(p));
            }
        }
    }

    pub(crate) fn state_at(&self, c: Pos) -> (r: CellState)
        requires
            self@.wf(),
            self@.on(c),
        ensures
            r == self@.state(c),
    {
        let i = self.index_of(c);
        self.cells[i].state
    }

    pub(crate) fn value_at(&self, c: Pos) -> (r: usize)
        requires
            self@.wf(),
            self@.on(c),
        ensures
            r == self@.value(c),
    {
        let i = self.index_of(c);
        self.cells[i].value
    }

    /// The assist settings: auto-flag, then auto-reveal.
    pub(crate) fn assists(&self) -> (r: (bool, bool))
        ensures
            r == (self@.auto_flag, self@.auto_reveal),
    {
        (self.auto_flag, self.auto_reveal)
    }

    /// Flags the cell `n` (when `flag` holds) or reveals it, and queues in
    /// `work` what must be looked at again: `n` itself when it is now
    /// revealed, and, with an assist on, every neighbour of `n`.
    pub(crate) fn change_and_queue(&mut self, n: Pos, flag: bool, work: &mut Vec<Pos>)
        requires
            old(self)@.wf(),
            old(self)@.placed,
            old(self)@.on(n),
        ensures
            final(self)@ == (BoardModel {
                states: old(self)@.states.update(cell_index(old(self)@.cols, n), next_state(old(self)@, n, flag)),
                ..old(self)@
            }),
            final(self)@.wf(),
            final(work)@ == old(work)@ + (if !flag { seq![n] } else { Seq::empty() }) + (if old(self)@.auto_flag
                || old(self)@.auto_reveal { old(self)@.nbrs(n) } else { Seq::empty() }),
    {
        let i = self.index_of(n);
        let st = if flag {
            CellState::Flagged
        } else {
            let mut cell = self.cells[i];
            cell.expose();
            cell.state
        };
        self.set_state(n, st);
        let ghost w0 = work@;
        if !flag {
            work.push(n);
        }
        let ghost w1 = work@;
        if self.auto_flag || self.auto_reveal {
            let mut nb = self.nearby_cells(n);
            work.append(&mut nb);
        } else {
            assert(w1 + Seq::<Pos>::empty() =~= w1);
        }
        assert(w1 =~= w0 + (if !flag { seq![n] } else { Seq::empty() }));
    }

    /// The number of mines among the neighbours of `c`.
    fn count_mines_near(&self, c: Pos) -> (n: usize)
        requires
            self@.shaped(),
            self@.on(c),
        ensures
            n == self@.mines_near(c),
    {
        let nb = self.nearby_cells(c);
        proof {
            lemma_neighbors(self@.rows, self@.cols, c);
        }
        let ghost m = self@;
        let mut n: usize = 0;
        let mut k: usize = 0;
        while k < nb.len()
            invariant
                m == self@,
                m.shaped(),
                nb@ == m.nbrs(c),
                forall|q: Pos| nb@.contains(q) ==> m.on(q),
                k <= nb.len() <= 8,
                n <= k,
                n == mines_among(m.cols, m.mines, nb@.subrange(0, k as int)),
            decreases nb.len() - k,
        {
            let q = nb[k];
            assert(nb@.contains(q));
            let i = self.index_of(q);
            assert(nb@.subrange(0, k + 1).drop_last() =~= nb@.subrange(0, k as int));
            if self.cells[i].bomb {
                n = n + 1;
            }
            k = k + 1;
        }
        assert(nb@.subrange(0, nb.len() as int) =~= nb@);
        n
    }

    /// Lays a mine on each position of `sites`, records the mine count of
    /// every cell, and marks the mines as placed.
    pub(crate) fn lay_mines(&mut self, sites: &Vec<Pos>)
        requires
            old(self)@.wf(),
            !old(self)@.placed,
            sites@.no_duplicates(),
            forall|j: int| 0 <= j < sites@.len() ==> old(self)@.on(#[trigger] sites@[j]),
        ensures
            final(self)@.wf(),
            final(self)@.placed,
            final(self)@.bombs == sites@.len(),
            final(self)@.rows == old(self)@.rows,
            final(self)@.cols == old(self)@.cols,
            final(self)@.states == old(self)@.states,
            final(self)@.auto_flag == old(self)@.auto_flag,
            final(self)@.auto_reveal == old(self)@.auto_reveal,
            forall|p: Pos| final(self)@.on(p) ==> (#[trigger] final(self)@.mine(p) <==> sites@.contains(p)),
    {
        let ghost m0 = self@;
        proof {
            lemma_mine_total_zero(m0.mines);
            assert forall|p: Pos| m0.on(p) implies (#[trigger] self@.mine(p) <==> sites@.subrange(0, 0).contains(p)) by {
                lemma_index(m0.rows, m0.cols, p);
            }
        }
        let mut t: usize = 0;
        while t < sites.len()
            invariant
                m0.wf(),
                self@.shaped(),
                self@ == (BoardModel { mines: self@.mines, ..m0 }),
                sites@.no_duplicates(),
                forall|j: int| 0 <= j < sites@.len() ==> m0.on(#[trigger] sites@[j]),
                t <= sites.len(),
                forall|p: Pos| m0.on(p) ==> (#[trigger] self@.mine(p) <==> sites@.subrange(0, t as int).contains(p)),
                mine_total(self@.mines) == t,
            decreases sites.len() - t,
        {
            let c = sites[t];
            let i = self.index_of(c);
            let ghost before = self@;
            proof {
                lemma_index(m0.rows, m0.cols, c);
                if sites@.subrange(0, t as int).contains(c) {
                    let j = choose|j: int| 0 <= j < t && sites@.subrange(0, t as int)[j] == c;
                    assert(sites@[j] == sites@[t as int]);
                }
                assert(!before.mine(c));
                lemma_mine_total_update(before.mines, i as int, true);
            }
            let mut cell = self.cells[i];
            cell.bomb = true;
            self.cells.set(i, cell);
            proof {
                assert(self@.mines =~= before.mines.update(i as int, true));
                assert(self@.states =~= before.states);
                assert(self@.values =~= before.values);
                let pre = sites@.subrange(0, t as int);
                let post = sites@.subrange(0, t + 1);
                assert forall|p: Pos| m0.on(p) implies (#[trigger] self@.mine(p) <==> post.contains(p)) by {
                    lemma_index(m0.rows, m0.cols, p);
                    if p != c {
                        lemma_index_injective(m0.cols, p, c);
                        assert(before.mine(p) == self@.mine(p));
                        if post.contains(p) {
                            let j = choose|j: int| 0 <= j < post.len() && post[j] == p;
                            assert(pre[j] == p);
                        }
                        if pre.contains(p) {
                            let j = choose|j: int| 0 <= j < pre.len() && pre[j] == p;
                            assert(post[j] == p);
                        }
                    } else {
                        assert(post[t as int] == p);
                    }
                }
            }
            t = t + 1;
        }
        assert(sites@.subrange(0, t as int) =~= sites@);
        let ghost laid = self@;
        let n: usize = self.rows * self.cols;
        let mut i: usize = 0;
        let mut r: usize = 0;
        let mut c: usize = 0;
        while i < n
            invariant
                laid.shaped(),
                self@ == (BoardModel { values: self@.values, ..laid }),
                self@.values.len() == laid.values.len(),
                n == laid.rows * laid.cols,
                i <= n,
                c < laid.cols,
                i == r * laid.cols + c,
                i < n ==> r < laid.rows,
                forall|p: Pos| laid.on(p) && cell_index(laid.cols, p) < i ==> #[trigger] self@.value(p) == laid.mines_near(p),
            decreases n - i,
        {
            proof {
                assert(r < laid.rows);
            }
            let v = self.count_mines_near((r, c));
            let ghost before = self@;
            let mut cell = self.cells[i];
            cell.value = v;
            self.cells.set(i, cell);
            proof {
                assert(self@.values =~= before.values.update(i as int, v as nat));
                assert(self@.mines =~= laid.mines);
                assert(self@.states =~= laid.states);
                assert forall|p: Pos| laid.on(p) && cell_index(laid.cols, p) < i + 1 implies #[trigger] self@.value(p) == laid.mines_near(p) by {
                    lemma_index(laid.rows, laid.cols, p);
                    if p != (r, c) {
                        lemma_index_injective(laid.cols, p, (r, c));
                        assert(cell_index(laid.cols, p) < i);
                        assert(before.value(p) == laid.mines_near(p));
                    } else {
                        assert(self@.value(p) == v);
                        assert(before.mines_near(p) == laid.mines_near(p));
                    }
                }
            }
            i = i + 1;
            if c + 1 == self.cols {
                proof {
                    assert((r + 1) * laid.cols == r * laid.cols + laid.cols) by (nonlinear_arith);
                    if i < n {
                        assert(r + 1 < laid.rows) by (nonlinear_arith)
                            requires
                                i == (r + 1) * laid.cols,
                                i < laid.rows * laid.cols,
                        ;
                    }
                }
                r = r + 1;
                c = 0;
            } else {
                c = c + 1;
            }
        }
        let ghost valued = self@;
        self.bombs = sites.len();
        self.first_click = true;
        proof {
            let m = self@;
            assert(m.mines =~= laid.mines);
            assert(m.states =~= m0.states);
            lemma_mine_total_bound(m.mines);
            assert forall|p: Pos| m.on(p) implies #[trigger] m.value(p) == m.mines_near(p) by {
                lemma_index(m.rows, m.cols, p);
                assert(valued.value(p) == laid.mines_near(p));
            }
            assert forall|p: Pos| m.on(p) implies (#[trigger] m.mine(p) <==> sites@.contains(p)) by {
                assert(laid.mine(p) == m.mine(p));
            }
            assert forall|p: Pos| m.on(p) implies !is_revealed(#[trigger] m.state(p)) by {
                assert(m0.state(p) == m.state(p));
            }
        }
    }

    /// The number of mines the board is made with.
    pub fn mine_count(&self) -> (r: usize)
        ensures
            r == self@.bombs,
    {
        self.bombs
    }

    /// Whether the mines have been laid.
    pub fn mines_placed(&self) -> (r: bool)
        ensures
            r == self@.placed,
    {
        self.first_click
    }

    /// Reveals the cell at `c`.
    pub(crate) fn reveal_one(&mut self, c: Pos)
        requires
            old(self)@.wf(),
            old(self)@.placed,
            old(self)@.on(c),
        ensures
            final(self)@ == (BoardModel {
                states: old(self)@.states.update(cell_index(old(self)@.cols, c), revealed_state(old(self)@.mine(c))),
                ..old(self)@
            }),
            final(self)@.wf(),
    {
        let i = self.index_of(c);
        let mut cell = self.cells[i];
        cell.expose();
        self.set_state(c, cell.state);
    }

    /// The cell at `c`.
    pub fn get_cell(&self, c: Pos) -> (r: &Cell)
        requires
            self@.wf(),
            self@.on(c),
        ensures
            r@ == (CellView { state: self@.state(c), mine: self@.mine(c), value: self@.value(c) }),
    {
        let i = self.index_of(c);
        &self.cells[i]
    }

    pub fn rows(&self) -> (r: usize)
        ensures
            r == self@.rows,
    {
        self.rows
    }

    pub fn columns(&self) -> (r: usize)
        ensures
            r == self@.cols,
    {
        self.cols
    }

    /// The neighbours of `c`: every position on the board whose row and column
    /// each differ from those of `c` by at most one, `c` itself left out.
    pub fn nearby_cells(&self, c: Pos) -> (r: Vec<Pos>)
        requires
            self@.shaped(),
            self@.on(c),
        ensures
            r@ == self@.nbrs(c),
            forall|q: Pos| r@.contains(q) <==> adjacent(self@.rows, self@.cols, c, q),
            r@.no_duplicates(),
    {
        proof {
            lemma_neighbors(self@.rows, self@.cols, c);
        }
        neighbors_of(self.rows, self.cols, c)
    }

    /// The number of neighbours of `c` that are flagged (when `flagged`
    /// holds) or not `Empty` (when it does not).
    pub(crate) fn count_near(&self, c: Pos, flagged: bool) -> (n: usize)
        requires
            self@.wf(),
            self@.on(c),
        ensures
            n == state_among(self@.cols, self@.states, self@.nbrs(c), flagged),
    {
        let nb = self.nearby_cells(c);
        let ghost m = self@;
        let mut n: usize = 0;
        let mut k: usize = 0;
        while k < nb.len()
            invariant
                m == self@,
                m.wf(),
                nb@ == m.nbrs(c),
                forall|q: Pos| nb@.contains(q) ==> m.on(q),
                k <= nb.len() <= 8,
                n <= k,
                n == state_among(m.cols, m.states, nb@.subrange(0, k as int), flagged),
            decreases nb.len() - k,
        {
            let q = nb[k];
            assert(nb@.contains(q));
            let i = self.index_of(q);
            let st = self.cells[i].state;
            let hit = if flagged { st == CellState::Flagged } else { st != CellState::Empty };
            assert(nb@.subrange(0, k + 1).drop_last() =~= nb@.subrange(0, k as int));
            if hit {
                n = n + 1;
            }
            k = k + 1;
        }
        assert(nb@.subrange(0, nb.len() as int) =~= nb@);
        n
    }

    /// Whether the flagged neighbours of `c` match its mine count.
    pub fn is_cell_satsfied(&self, c: Pos) -> (r: bool)
        requires
            self@.wf(),
            self@.on(c),
        ensures
            r == self@.satisfied(c),
    {
        let f = self.count_near(c, true);
        let i = self.index_of(c);
        f == self.cells[i].value
    }

    /// The number of mines minus the number of flags; negative when there are
    /// more flags than mines.
    pub fn bombs_left(&self) -> (r: isize)
        requires
            self@.wf(),
        ensures
            r == self@.mines_remaining(),
    {
        let ghost m = self@;
        let mut flags: usize = 0;
        let mut i: usize = 0;
        while i < self.cells.len()
            invariant
                m == self@,
                m.wf(),
                i <= self.cells.len(),
                flags <= i,
                flags == state_total(m.states.subrange(0, i as int), CellState::Flagged),
            decreases self.cells.len() - i,
        {
            assert(m.states.subrange(0, i + 1).drop_last() =~= m.states.subrange(0, i as int));
            if self.cells[i].state == CellState::Flagged {
                flags = flags + 1;
            }
            i = i + 1;
        }
        assert(m.states.subrange(0, i as int) =~= m.states);
        self.bombs as isize - flags as isize
    }
}

} // verus!
