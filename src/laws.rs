//! Laws of the board that relate its operations, proved over the model.

use vstd::prelude::*;
use crate::board::CellState;
use crate::grid::{Pos, near, adjacent, lemma_neighbors};
use crate::model::{
    BoardModel, is_target, exposed_from, expose_seeds, toggled_from, is_revealed, revealed_state, cell_index, mine_total, mines_among,
    lemma_index, lemma_index_injective, lemma_state_total_update, lemma_no_mine_near,
};

verus! {

/// After the first reveal of a cell `p` that is not flagged, neither `p` nor
/// any of its neighbours holds a mine, and `p` is `Empty`.
pub proof fn lemma_first_reveal_is_safe(m0: BoardModel, m1: BoardModel, p: Pos)
    requires
        m0.wf(),
        m0.on(p),
        !m0.placed,
        m0.state(p) != CellState::Flagged,
        exposed_from(m0, m1, p),
    ensures
        !m1.mine(p),
        forall|q: Pos| #[trigger] m1.nbrs(p).contains(q) ==> !m1.mine(q),
        m1.state(p) == CellState::Empty,
{
    lemma_neighbors(m0.rows, m0.cols, p);
    assert(near(p, p));
    let mid = BoardModel {
        states: m0.states.update(cell_index(m0.cols, p), revealed_state(m1.mine(p))),
        mines: m1.mines,
        values: m1.values,
        placed: true,
        ..m0
    };
    lemma_index(m0.rows, m0.cols, p);
    assert(mid.state(p) == CellState::Empty);
    assert(!mid.changed(m1, p));
    assert forall|q: Pos| #[trigger] m1.nbrs(p).contains(q) implies !m1.mine(q) by {
        assert(adjacent(m0.rows, m0.cols, p, q));
        assert(m1.on(q) && near(p, q));
    }
}

/// The number of mines laid equals the board's mine count once they are laid.
pub proof fn lemma_mine_total(m: BoardModel)
    requires
        m.wf(),
        m.placed,
    ensures
        mine_total(m.mines) == m.bombs,
{
}

/// Over a sequence without duplicates, the mine count is the size of the set
/// of its positions that hold a mine.
proof fn lemma_mines_among_is_size(cols: nat, mines: Seq<bool>, s: Seq<Pos>)
    requires
        s.no_duplicates(),
    ensures
        Set::new(|q: Pos| s.contains(q) && mines[cell_index(cols, q)]).finite(),
        mines_among(cols, mines, s) == Set::new(|q: Pos| s.contains(q) && mines[cell_index(cols, q)]).len(),
    decreases s.len(),
{
    let all = Set::new(|q: Pos| s.contains(q) && mines[cell_index(cols, q)]);
    if s.len() == 0 {
        assert(all =~= Set::empty());
    } else {
        let t = s.drop_last();
        let x = s.last();
        let part = Set::new(|q: Pos| t.contains(q) && mines[cell_index(cols, q)]);
        assert(t.no_duplicates());
        lemma_mines_among_is_size(cols, mines, t);
        assert forall|q: Pos| s.contains(q) <==> t.contains(q) || q == x by {
            if s.contains(q) && q != x {
                let j = choose|j: int| 0 <= j < s.len() && s[j] == q;
                assert(t[j] == q);
            }
            if t.contains(q) {
                let j = choose|j: int| 0 <= j < t.len() && t[j] == q;
                assert(s[j] == q);
            }
        }
        assert(!t.contains(x)) by {
            if t.contains(x) {
                let j = choose|j: int| 0 <= j < t.len() && t[j] == x;
                assert(s[j] == s[s.len() - 1]);
            }
        }
        if mines[cell_index(cols, x)] {
            assert(all =~= part.insert(x));
        } else {
            assert(all =~= part);
        }
    }
}

/// Every cell's count is the number of its neighbours that hold a mine: the
/// size of the set of adjacent positions with a mine. The neighbour sequence
/// holds exactly the adjacent positions, each once.
pub proof fn lemma_cell_counts(m: BoardModel, p: Pos)
    requires
        m.wf(),
        m.on(p),
    ensures
        m.value(p) == m.mines_near(p),
        m.value(p) == Set::new(|q: Pos| adjacent(m.rows, m.cols, p, q) && m.mine(q)).len(),
        forall|q: Pos| #[trigger] m.nbrs(p).contains(q) <==> adjacent(m.rows, m.cols, p, q),
        m.nbrs(p).no_duplicates(),
{
    lemma_neighbors(m.rows, m.cols, p);
    lemma_mines_among_is_size(m.cols, m.mines, m.nbrs(p));
    assert(Set::new(|q: Pos| m.nbrs(p).contains(q) && m.mines[cell_index(m.cols, q)]) =~= Set::new(
        |q: Pos| adjacent(m.rows, m.cols, p, q) && m.mine(q),
    ));
}

/// Revealing a flagged cell changes nothing.
pub proof fn lemma_expose_flagged(m0: BoardModel, m1: BoardModel, p: Pos)
    requires
        m0.state(p) == CellState::Flagged,
        exposed_from(m0, m1, p),
    ensures
        m1 == m0,
        m1.state(p) == CellState::Flagged,
{
}

/// Toggling the flag of a covered cell twice leaves it covered.
pub proof fn lemma_toggle_twice(m0: BoardModel, m1: BoardModel, m2: BoardModel, p: Pos)
    requires
        m0.wf(),
        m0.on(p),
        m0.state(p) == CellState::Covered,
        toggled_from(m0, m1, p),
        toggled_from(m1, m2, p),
    ensures
        m1.state(p) == CellState::Flagged,
        m2.state(p) == CellState::Covered,
{
    lemma_index(m0.rows, m0.cols, p);
    let flagged = BoardModel { states: m0.states.update(cell_index(m0.cols, p), CellState::Flagged), ..m0 };
    assert(flagged.state(p) == CellState::Flagged);
    if m0.auto_reveal && m0.placed {
        assert(!flagged.changed(m1, p));
    }
}

/// Changing one cell's state moves the mines remaining by one in the
/// opposite direction of the flag count: down by one when a cell becomes
/// flagged, up by one when a flag is taken away.
pub proof fn lemma_remaining_step(m0: BoardModel, m1: BoardModel, p: Pos, st: CellState)
    requires
        m0.wf(),
        m0.on(p),
        m1 == (BoardModel { states: m0.states.update(cell_index(m0.cols, p), st), ..m0 }),
    ensures
        m0.state(p) != CellState::Flagged && st == CellState::Flagged ==> m1.mines_remaining() == m0.mines_remaining() - 1,
        m0.state(p) == CellState::Flagged && st != CellState::Flagged ==> m1.mines_remaining() == m0.mines_remaining() + 1,
        (m0.state(p) == CellState::Flagged) == (st == CellState::Flagged) ==> m1.mines_remaining() == m0.mines_remaining(),
{
    lemma_index(m0.rows, m0.cols, p);
    lemma_state_total_update(m0.states, cell_index(m0.cols, p), st, CellState::Flagged);
}

/// Without the engine running (auto-reveal off, or no mines laid yet),
/// flagging a covered cell lowers the mines remaining by one, and taking a
/// flag away raises it by one.
pub proof fn lemma_toggle_remaining(m0: BoardModel, m1: BoardModel, p: Pos)
    requires
        m0.wf(),
        m0.on(p),
        !(m0.auto_reveal && m0.placed),
        toggled_from(m0, m1, p),
    ensures
        m0.state(p) == CellState::Covered ==> m1.mines_remaining() == m0.mines_remaining() - 1,
        m0.state(p) == CellState::Flagged ==> m1.mines_remaining() == m0.mines_remaining() + 1,
        is_revealed(m0.state(p)) ==> m1.mines_remaining() == m0.mines_remaining(),
{
    if m0.state(p) == CellState::Covered {
        lemma_remaining_step(m0, m1, p, CellState::Flagged);
    } else if m0.state(p) == CellState::Flagged {
        lemma_remaining_step(m0, m1, p, CellState::Covered);
    }
}

/// A cell with no covered neighbour before the engine ran has none after.
proof fn lemma_clear_kept(m0: BoardModel, mid: BoardModel, m1: BoardModel, p: Pos, r: Pos)
    requires
        mid.same_layout(m1),
        mid.advances_to(m1),
        mid.rows == m0.rows,
        mid.cols == m0.cols,
        mid.rows <= usize::MAX,
        mid.cols <= usize::MAX,
        mid.on(r),
        is_revealed(mid.state(p)),
        forall|x: Pos| mid.on(x) && x != p ==> #[trigger] mid.state(x) == m0.state(x),
        m0.none_target_near(r, false),
    ensures
        m1.none_target_near(r, false),
{
    lemma_neighbors(mid.rows, mid.cols, r);
    assert forall|i: int| 0 <= i < m1.nbrs(r).len() implies !is_target(m1.state(#[trigger] m1.nbrs(r)[i]), false) by {
        let x = m1.nbrs(r)[i];
        assert(mid.nbrs(r).contains(x));
        assert(m0.nbrs(r) == m1.nbrs(r));
        assert(!is_target(m0.state(m0.nbrs(r)[i]), false));
        if x != p {
            assert(mid.state(x) == m0.state(x));
        }
        if mid.changed(m1, x) {
            assert(mid.state(x) == CellState::Covered || mid.state(x) == CellState::Detonated);
        }
    }
}

/// Along a walk from `p` through cells with no mine around them, every cell
/// ends up revealed when the engine ran from `p` alone with both assists
/// off, on a board without flags whose revealed cells were all settled.
proof fn lemma_walk_revealed(m0: BoardModel, mid: BoardModel, m1: BoardModel, p: Pos, w: Seq<Pos>, j: int)
    requires
        mid.cascade(m1, seq![p]),
        m0.wf(),
        mid.rows == m0.rows,
        mid.cols == m0.cols,
        m0.placed ==> mid.values == m0.values,
        mid.rows <= usize::MAX,
        mid.cols <= usize::MAX,
        mid.on(p),
        is_revealed(mid.state(p)),
        forall|x: Pos| mid.on(x) && x != p ==> #[trigger] mid.state(x) == m0.state(x),
        forall|x: Pos| mid.on(x) ==> #[trigger] m0.state(x) != CellState::Flagged,
        forall|x: Pos| mid.on(x) ==> #[trigger] m0.settled(x),
        !mid.auto_flag,
        !mid.auto_reveal,
        m1.wf(),
        m1.zero_walk(w),
        w[0] == p,
        0 <= j < w.len(),
    ensures
        is_revealed(m1.state(w[j])),
    decreases j,
{
    if j == 0 {
        assert(!mid.changed(m1, p));
    } else {
        lemma_walk_revealed(m0, mid, m1, p, w, j - 1);
        let r = w[j - 1];
        let q = w[j];
        assert(m1.on(r) && m1.value(r) == 0 && adjacent(m1.rows, m1.cols, r, q));
        lemma_neighbors(m1.rows, m1.cols, r);
        if r == p {
            assert(!mid.changed(m1, p));
        } else {
            assert(j - 1 >= 1);
            lemma_no_mine_near(m1, w[j - 2], r);
        }
        assert(is_revealed(m1.state(r)));
        if r == p {
            assert(seq![p][0] == p);
            assert(seq![p].contains(p));
            assert(m1.settled(r));
        } else if mid.changed(m1, r) {
            assert(m1.settled(r));
        } else {
            assert(is_revealed(m0.state(r)));
            assert(m0.placed);
            assert(m0.settled(r));
            assert(m0.value(r) == 0);
            lemma_clear_kept(m0, mid, m1, p, r);
        }
        assert(m1.nbrs(r).contains(q));
        let k = choose|k: int| 0 <= k < m1.nbrs(r).len() && m1.nbrs(r)[k] == q;
        assert(!is_target(m1.state(m1.nbrs(r)[k]), false));
        if m1.state(q) == CellState::Flagged {
            assert(mid.changed(m1, q));
        }
    }
}

/// With both assists off, on a board without flags whose revealed cells are
/// all settled, revealing a cell `p` reveals exactly the flood region of
/// `p` besides what was revealed already: the cells reached from `p` through
/// cells with no mine around them. When `p` has a mine around it, that
/// region is `p` alone; `p` floods whether it detonates or not.
pub proof fn lemma_flood_region(m0: BoardModel, m1: BoardModel, p: Pos)
    requires
        m0.wf(),
        m1.wf(),
        m0.on(p),
        forall|q: Pos| m0.on(q) ==> #[trigger] m0.state(q) != CellState::Flagged,
        forall|q: Pos| m0.on(q) ==> #[trigger] m0.settled(q),
        !m0.auto_flag,
        !m0.auto_reveal,
        exposed_from(m0, m1, p),
    ensures
        forall|q: Pos| m1.on(q) ==> (is_revealed(#[trigger] m1.state(q)) <==> is_revealed(m0.state(q)) || m1.flood_reach(p, q)),
{
    let mid = BoardModel {
        states: m0.states.update(cell_index(m0.cols, p), revealed_state(m1.mine(p))),
        mines: m1.mines,
        values: m1.values,
        placed: true,
        ..m0
    };
    assert(expose_seeds(m0, p) =~= seq![p]);
    assert(near(p, p));
    assert(m0.state(p) != CellState::Flagged);
    assert(mid.same_layout(m1));
    assert(m1.on(p));
    lemma_index(m0.rows, m0.cols, p);
    assert forall|x: Pos| mid.on(x) && x != p implies #[trigger] mid.state(x) == m0.state(x) by {
        lemma_index(m0.rows, m0.cols, x);
        lemma_index_injective(m0.cols, x, p);
    }
    assert forall|q: Pos| m1.on(q) implies (is_revealed(#[trigger] m1.state(q)) <==> is_revealed(m0.state(q)) || m1.flood_reach(p, q)) by {
        if m1.flood_reach(p, q) {
            let w = choose|w: Seq<Pos>| #[trigger] m1.zero_walk(w) && w[0] == p && w.last() == q;
            lemma_walk_revealed(m0, mid, m1, p, w, w.len() - 1);
        }
        if is_revealed(m0.state(q)) {
            if q != p {
                assert(mid.state(q) == m0.state(q));
            }
            assert(!mid.changed(m1, q));
        }
        if is_revealed(m1.state(q)) && !is_revealed(m0.state(q)) {
            if q == p {
                let w = seq![p];
                assert(m1.zero_walk(w));
            } else {
                assert(mid.state(q) == m0.state(q));
                let a = choose|a: Pos| seq![p].contains(a) && #[trigger] mid.flood_reach(a, q);
                assert(a == p);
                let w = choose|w: Seq<Pos>| #[trigger] mid.zero_walk(w) && w[0] == a && w.last() == q;
                assert(m1.zero_walk(w)) by {
                    assert forall|j: int| 0 <= j < w.len() - 1 implies m1.on(#[trigger] w[j]) && m1.value(w[j]) == 0
                        && adjacent(m1.rows, m1.cols, w[j], w[j + 1]) by {
                        assert(mid.on(w[j]) && mid.value(w[j]) == 0);
                    }
                }
            }
        }
    }
}

/// Revealing the same cell a second time changes nothing: the engine left
/// every cell it started from settled, so a second run has nothing to do.
pub proof fn lemma_expose_again(m0: BoardModel, m1: BoardModel, m2: BoardModel, p: Pos)
    requires
        m0.wf(),
        m0.on(p),
        exposed_from(m0, m1, p),
        exposed_from(m1, m2, p),
    ensures
        m2 == m1,
{
    if m0.state(p) != CellState::Flagged && m1.state(p) != CellState::Flagged {
        let mid1 = BoardModel {
            states: m0.states.update(cell_index(m0.cols, p), revealed_state(m1.mine(p))),
            mines: m1.mines,
            values: m1.values,
            placed: true,
            ..m0
        };
        lemma_index(m0.rows, m0.cols, p);
        assert(mid1.state(p) == revealed_state(m1.mine(p)));
        assert(!mid1.changed(m1, p));
        let mid2 = BoardModel {
            states: m1.states.update(cell_index(m1.cols, p), revealed_state(m2.mine(p))),
            mines: m2.mines,
            values: m2.values,
            placed: true,
            ..m1
        };
        assert(m2.mines == m1.mines);
        assert(mid2.states =~= m1.states);
        assert(mid2 == m1);
        assert(expose_seeds(m1, p) == expose_seeds(m0, p));
        assert forall|q: Pos| m1.on(q) && #[trigger] expose_seeds(m1, p).contains(q) implies m1.settled(q) by {
            assert(mid1.on(q));
        }
    }
}

} // verus!
