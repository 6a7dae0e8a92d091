//! The reveal engine: flood reveal, auto-flag and auto-reveal, run from a
//! work-list until every cell it touched is settled.

use vstd::prelude::*;
use crate::board::{Board, CellState, next_state};
use crate::grid::{Pos, adjacent, window_size, lemma_neighbors};
use crate::model::{
    BoardModel, exposed_from, expose_seeds, toggled_from, is_revealed, is_target, revealed_state, counted, cell_index,
    state_among,
    lemma_index, lemma_index_injective, lemma_state_among_frame, lemma_state_among_update, lemma_state_total_update,
    lemma_unrevealed_are_mines, lemma_weight_bound,
};

verus! {

/// `q` waits in `work` at index `i` or later.
spec fn pending(work: Seq<Pos>, i: int, q: Pos) -> bool {
    exists|j: int| i <= j < work.len() && work[j] == q
}

spec fn assisted(m: BoardModel) -> bool {
    m.auto_flag || m.auto_reveal
}

/// `x` is settled in `cur`, waits in `work`, or is `busy`, the cell being handled.
spec fn in_hand(cur: BoardModel, work: Seq<Pos>, i: int, busy: Option<Pos>, x: Pos) -> bool {
    cur.settled(x) || pending(work, i, x) || busy == Some(x)
}

/// Every cell that the engine, started on `m0` with `seeds`, owes a look is
/// in hand.
#[verifier::opaque]
spec fn all_in_hand(m0: BoardModel, cur: BoardModel, seeds: Seq<Pos>, work: Seq<Pos>, i: int, busy: Option<Pos>) -> bool {
    &&& forall|x: Pos| m0.on(x) && #[trigger] seeds.contains(x) ==> in_hand(cur, work, i, busy, x)
    &&& forall|x: Pos| #[trigger] m0.changed(cur, x) ==> in_hand(cur, work, i, busy, x)
    &&& assisted(m0) ==> forall|n: Pos, x: Pos|
        #[trigger] m0.changed(cur, n) && #[trigger] adjacent(m0.rows, m0.cols, n, x) ==> in_hand(cur, work, i, busy, x)
}

/// Without auto-reveal, every cell revealed in `cur` was revealed in `m0` or
/// lies in the flood region of a cell revealed in `m0`.
#[verifier::opaque]
spec fn explained(m0: BoardModel, cur: BoardModel) -> bool {
    !m0.auto_reveal ==> forall|y: Pos|
        m0.on(y) && #[trigger] is_revealed(cur.state(y)) ==> is_revealed(m0.state(y)) || exists|a: Pos|
            m0.on(a) && is_revealed(m0.state(a)) && #[trigger] m0.flood_reach(a, y)
}

/// Every position in `work` is a seed or a cell that changed since `m0`.
#[verifier::opaque]
spec fn sourced(m0: BoardModel, cur: BoardModel, seeds: Seq<Pos>, work: Seq<Pos>) -> bool {
    forall|j: int| 0 <= j < work.len() ==> seeds.contains(#[trigger] work[j]) || m0.changed(cur, work[j])
}

/// Every cell revealed since `m0` lies in the flood region of a seed.
#[verifier::opaque]
spec fn from_seeds(m0: BoardModel, cur: BoardModel, seeds: Seq<Pos>) -> bool {
    forall|y: Pos|
        m0.on(y) && #[trigger] is_revealed(cur.state(y)) && !is_revealed(m0.state(y)) ==> exists|a: Pos|
            seeds.contains(a) && #[trigger] m0.flood_reach(a, y)
}

/// Without assists: the work-list holds seeds and changed cells only, every
/// cell revealed since `m0` lies in a seed's flood region, and the busy cell
/// `q` is a seed or a changed cell.
#[verifier::opaque]
spec fn bounded(m0: BoardModel, cur: BoardModel, seeds: Seq<Pos>, work: Seq<Pos>, q: Pos) -> bool {
    !assisted(m0) ==> sourced(m0, cur, seeds, work) && from_seeds(m0, cur, seeds) && (seeds.contains(q) || m0.changed(cur, q))
}

/// Every cell whose state changed from `m0` has a reason for its state in `cur`.
#[verifier::opaque]
spec fn justified(m0: BoardModel, cur: BoardModel) -> bool {
    forall|n: Pos| #[trigger] m0.changed(cur, n) ==> exists|q: Pos| #[trigger] cur.reason(q, n)
}

/// No position waits in `work` twice, and none of them is covered: each
/// entered the list once it was revealed.
#[verifier::opaque]
spec fn once(cur: BoardModel, work: Seq<Pos>) -> bool {
    &&& work.no_duplicates()
    &&& forall|j: int| 0 <= j < work.len() ==> !is_target(cur.state(#[trigger] work[j]), false)
}

/// Without assists, a revealed cell is queued only as it leaves `Covered`,
/// so a work-list that starts `once` stays so.
proof fn lemma_flood_once(cur: BoardModel, nxt: BoardModel, w: Seq<Pos>, nw: Seq<Pos>, n: Pos, st: CellState)
    requires
        cur.wf(),
        cur.on(n),
        cur.state(n) == CellState::Covered,
        st == revealed_state(cur.mine(n)),
        !assisted(cur),
        one_change(cur, nxt, n, st),
        nw == w + seq![n] + Seq::<Pos>::empty(),
        forall|j: int| 0 <= j < w.len() ==> cur.on(#[trigger] w[j]),
        once(cur, w),
    ensures
        once(nxt, nw),
{
    reveal(once);
    lemma_one_change_states(cur, nxt, n, st);
    assert(!w.contains(n)) by {
        if w.contains(n) {
            let j = choose|j: int| 0 <= j < w.len() && w[j] == n;
            assert(!is_target(cur.state(w[j]), false));
        }
    }
    assert(nw =~= w.push(n));
    assert forall|j: int| 0 <= j < nw.len() implies !is_target(nxt.state(#[trigger] nw[j]), false) by {
        if j < w.len() {
            assert(nw[j] == w[j]);
            assert(w[j] != n);
        }
    }
}

/// What lets the revealed cell `q` act on its neighbours: with `flag`,
/// auto-flag is on and its neighbours that are not `Empty` match its count;
/// without, it has no mine around it or (with auto-reveal) at least as many
/// flags around it as mines.
spec fn acts(cur: BoardModel, q: Pos, flag: bool) -> bool {
    if flag {
        cur.auto_flag && cur.unrevealed_near(q) == cur.value(q)
    } else {
        cur.value(q) == 0 || (cur.auto_reveal && cur.flags_near(q) >= cur.value(q))
    }
}

/// `nxt` is `cur` with the state of `n` set to `st`.
spec fn one_change(cur: BoardModel, nxt: BoardModel, n: Pos, st: CellState) -> bool {
    nxt == (BoardModel { states: cur.states.update(cell_index(cur.cols, n), st), ..cur })
}

proof fn lemma_one_change_states(cur: BoardModel, nxt: BoardModel, n: Pos, st: CellState)
    requires
        cur.wf(),
        cur.on(n),
        one_change(cur, nxt, n, st),
    ensures
        forall|x: Pos| cur.on(x) ==> #[trigger] nxt.state(x) == (if x == n { st } else { cur.state(x) }),
{
    assert forall|x: Pos| cur.on(x) implies #[trigger] nxt.state(x) == (if x == n { st } else { cur.state(x) }) by {
        lemma_index(cur.rows, cur.cols, x);
        lemma_index(cur.rows, cur.cols, n);
        if x != n {
            lemma_index_injective(cur.cols, x, n);
        }
    }
}

/// A change at `n` leaves a cell that is neither `n` nor next to it as settled
/// as it was.
proof fn lemma_settled_frame(cur: BoardModel, nxt: BoardModel, n: Pos, st: CellState, x: Pos)
    requires
        cur.wf(),
        cur.on(n),
        cur.on(x),
        x != n,
        !adjacent(cur.rows, cur.cols, x, n),
        one_change(cur, nxt, n, st),
    ensures
        nxt.settled(x) == cur.settled(x),
{
    lemma_one_change_states(cur, nxt, n, st);
    lemma_neighbors(cur.rows, cur.cols, x);
    let s = cur.nbrs(x);
    let i = cell_index(cur.cols, n);
    lemma_index(cur.rows, cur.cols, n);
    assert forall|j: int| 0 <= j < s.len() implies cell_index(cur.cols, #[trigger] s[j]) != i
        && 0 <= cell_index(cur.cols, s[j]) < cur.states.len() by {
        assert(s.contains(s[j]));
        lemma_index_injective(cur.cols, s[j], n);
        lemma_index(cur.rows, cur.cols, s[j]);
    }
    lemma_state_among_frame(cur.cols, cur.states, i, st, s, true);
    lemma_state_among_frame(cur.cols, cur.states, i, st, s, false);
    assert forall|j: int| 0 <= j < s.len() implies #[trigger] nxt.state(s[j]) == cur.state(s[j]) by {
        assert(s.contains(s[j]));
    }
    assert(nxt.none_target_near(x, true) == cur.none_target_near(x, true));
    assert(nxt.none_target_near(x, false) == cur.none_target_near(x, false));
}

/// Without assists, a cell that leaves `Covered` cannot unsettle another cell.
proof fn lemma_settled_grow(cur: BoardModel, nxt: BoardModel, n: Pos, st: CellState, x: Pos)
    requires
        cur.wf(),
        cur.on(n),
        cur.on(x),
        x != n,
        !assisted(cur),
        st != CellState::Covered,
        cur.settled(x),
        one_change(cur, nxt, n, st),
    ensures
        nxt.settled(x),
{
    lemma_one_change_states(cur, nxt, n, st);
    lemma_neighbors(cur.rows, cur.cols, x);
    let s = cur.nbrs(x);
    if is_revealed(nxt.state(x)) && nxt.value(x) == 0 {
        assert forall|j: int| 0 <= j < s.len() implies !is_target(nxt.state(#[trigger] s[j]), false) by {
            assert(s.contains(s[j]));
        }
    }
}

/// Adjacency is symmetric.
proof fn lemma_adjacent_sym(rows: nat, cols: nat, p: Pos, q: Pos)
    requires
        in_grid_both(rows, cols, p, q),
    ensures
        adjacent(rows, cols, p, q) == adjacent(rows, cols, q, p),
{
}

spec fn in_grid_both(rows: nat, cols: nat, p: Pos, q: Pos) -> bool {
    p.0 < rows && p.1 < cols && q.0 < rows && q.1 < cols
}

/// The requirements of one engine step: the covered neighbour `n` of the busy
/// cell `q0` changes to `st`, and what the change may unsettle is queued.
spec fn step_ok(cur: BoardModel, nxt: BoardModel, work: Seq<Pos>, nwork: Seq<Pos>, q0: Pos, n: Pos, st: CellState) -> bool {
    &&& cur.wf()
    &&& cur.on(n)
    &&& cur.on(q0)
    &&& adjacent(cur.rows, cur.cols, q0, n)
    &&& is_revealed(cur.state(q0))
    &&& {
        ||| cur.state(n) == CellState::Covered && st == revealed_state(cur.mine(n)) && acts(cur, q0, false)
        ||| is_target(cur.state(n), true) && st == CellState::Flagged && cur.mine(n) && acts(cur, q0, true)
    }
    &&& one_change(cur, nxt, n, st)
    &&& nwork == work + (if is_revealed(st) { seq![n] } else { Seq::empty() }) + (if assisted(cur) {
        cur.nbrs(n)
    } else {
        Seq::empty()
    })
}

proof fn lemma_step_advances(m0: BoardModel, cur: BoardModel, nxt: BoardModel, work: Seq<Pos>, nwork: Seq<Pos>, q0: Pos, n: Pos, st: CellState)
    requires
        step_ok(cur, nxt, work, nwork, q0, n, st),
        m0.same_layout(cur),
        m0.advances_to(cur),
    ensures
        m0.same_layout(nxt),
        m0.advances_to(nxt),
        nxt.weight() < cur.weight(),
{
    lemma_one_change_states(cur, nxt, n, st);
    lemma_index(cur.rows, cur.cols, n);
    lemma_state_total_update(cur.states, cell_index(cur.cols, n), st, CellState::Covered);
    lemma_state_total_update(cur.states, cell_index(cur.cols, n), st, CellState::Detonated);
    assert forall|x: Pos| m0.on(x) && #[trigger] m0.changed(nxt, x) implies {
        ||| m0.state(x) == CellState::Covered && nxt.state(x) == revealed_state(m0.mine(x))
        ||| (m0.state(x) == CellState::Covered || m0.state(x) == CellState::Detonated)
            && nxt.state(x) == CellState::Flagged && m0.auto_flag && m0.mine(x)
    } by {
        if x == n {
            if m0.changed(cur, n) {
                assert(m0.state(n) == CellState::Covered);
                assert(cur.state(n) == CellState::Detonated);
            }
        } else {
            assert(m0.changed(cur, x));
        }
    }
}

/// After a step, each cell that was in hand still is, and so are the changed
/// cell and (with an assist) its neighbours.
proof fn lemma_step_hand(cur: BoardModel, nxt: BoardModel, work: Seq<Pos>, nwork: Seq<Pos>, i: int, q0: Pos, n: Pos, st: CellState)
    requires
        step_ok(cur, nxt, work, nwork, q0, n, st),
        0 <= i <= work.len(),
    ensures
        forall|x: Pos| cur.on(x) && #[trigger] in_hand(cur, work, i, Some(q0), x) ==> in_hand(nxt, nwork, i, Some(q0), x),
        in_hand(nxt, nwork, i, Some(q0), n),
        assisted(cur) ==> forall|x: Pos| #[trigger] adjacent(cur.rows, cur.cols, n, x) ==> in_hand(nxt, nwork, i, Some(q0), x),
{
    lemma_one_change_states(cur, nxt, n, st);
    lemma_neighbors(cur.rows, cur.cols, n);
    let pushed = if is_revealed(st) { seq![n] } else { Seq::<Pos>::empty() };
    assert forall|x: Pos| pending(work, i, x) implies pending(nwork, i, x) by {
        let j = choose|j: int| i <= j < work.len() && work[j] == x;
        assert(nwork[j] == x);
    }
    if is_revealed(st) {
        assert(nwork[work.len() as int] == n);
    }
    assert forall|x: Pos| assisted(cur) && #[trigger] adjacent(cur.rows, cur.cols, n, x) implies pending(nwork, i, x) by {
        assert(cur.nbrs(n).contains(x));
        let j = choose|j: int| 0 <= j < cur.nbrs(n).len() && cur.nbrs(n)[j] == x;
        assert(nwork[work.len() + pushed.len() + j] == x);
    }
    assert forall|x: Pos| cur.on(x) && #[trigger] in_hand(cur, work, i, Some(q0), x) implies in_hand(nxt, nwork, i, Some(q0), x) by {
        if pending(work, i, x) || x == q0 {
        } else if x == n {
        } else if adjacent(cur.rows, cur.cols, x, n) {
            lemma_adjacent_sym(cur.rows, cur.cols, x, n);
            if !assisted(cur) {
                lemma_settled_grow(cur, nxt, n, st, x);
            }
        } else {
            lemma_settled_frame(cur, nxt, n, st, x);
        }
    }
}

/// One step keeps every owed cell in hand.
proof fn lemma_step_all(m0: BoardModel, cur: BoardModel, nxt: BoardModel, seeds: Seq<Pos>, work: Seq<Pos>, nwork: Seq<Pos>, i: int, q0: Pos, n: Pos, st: CellState)
    requires
        step_ok(cur, nxt, work, nwork, q0, n, st),
        m0.same_layout(cur),
        0 <= i <= work.len(),
        all_in_hand(m0, cur, seeds, work, i, Some(q0)),
    ensures
        all_in_hand(m0, nxt, seeds, nwork, i, Some(q0)),
{
    reveal(all_in_hand);
    lemma_step_hand(cur, nxt, work, nwork, i, q0, n, st);
    lemma_one_change_states(cur, nxt, n, st);
    assert forall|x: Pos| #[trigger] m0.changed(nxt, x) implies in_hand(nxt, nwork, i, Some(q0), x) by {
        if x != n {
            assert(m0.changed(cur, x));
            assert(in_hand(cur, work, i, Some(q0), x));
        }
    }
    assert forall|x: Pos| m0.on(x) && #[trigger] seeds.contains(x) implies in_hand(nxt, nwork, i, Some(q0), x) by {
        assert(in_hand(cur, work, i, Some(q0), x));
    }
    if assisted(m0) {
        assert forall|k: Pos, x: Pos|
            #[trigger] m0.changed(nxt, k) && #[trigger] adjacent(m0.rows, m0.cols, k, x) implies in_hand(
            nxt,
            nwork,
            i,
            Some(q0),
            x,
        ) by {
            if k != n {
                assert(m0.changed(cur, k));
                assert(in_hand(cur, work, i, Some(q0), x));
            }
        }
    }
}

/// A walk to a cell with no mine around it goes on to each of its neighbours.
proof fn lemma_walk_extend(m: BoardModel, w: Seq<Pos>, q: Pos)
    requires
        m.zero_walk(w),
        m.on(w.last()),
        m.value(w.last()) == 0,
        adjacent(m.rows, m.cols, w.last(), q),
    ensures
        m.zero_walk(w.push(q)),
        w.push(q)[0] == w[0],
        w.push(q).last() == q,
{
    let v = w.push(q);
    assert forall|j: int| 0 <= j < v.len() - 1 implies m.on(#[trigger] v[j]) && m.value(v[j]) == 0
        && adjacent(m.rows, m.cols, v[j], v[j + 1]) by {
        if j < w.len() - 1 {
            assert(v[j] == w[j] && v[j + 1] == w[j + 1]);
        }
    }
}

/// Without auto-reveal a step reveals only next to a revealed cell with no
/// mine around it, which keeps every revealed cell explained.
proof fn lemma_step_explained(m0: BoardModel, cur: BoardModel, nxt: BoardModel, work: Seq<Pos>, nwork: Seq<Pos>, q0: Pos, n: Pos, st: CellState)
    requires
        step_ok(cur, nxt, work, nwork, q0, n, st),
        m0.same_layout(cur),
        explained(m0, cur),
    ensures
        explained(m0, nxt),
{
    reveal(explained);
    lemma_one_change_states(cur, nxt, n, st);
    if !m0.auto_reveal {
        assert forall|y: Pos|
            m0.on(y) && #[trigger] is_revealed(nxt.state(y)) implies is_revealed(m0.state(y)) || exists|a: Pos|
            m0.on(a) && is_revealed(m0.state(a)) && #[trigger] m0.flood_reach(a, y) by {
            if y == n {
                assert(is_revealed(st));
                assert(acts(cur, q0, false));
                assert(is_revealed(cur.state(q0)));
                assert(m0.on(q0) && m0.value(q0) == 0 && adjacent(m0.rows, m0.cols, q0, n));
                if is_revealed(m0.state(q0)) {
                    let w = seq![q0];
                    assert(m0.zero_walk(w));
                    lemma_walk_extend(m0, w, n);
                    assert(m0.flood_reach(q0, n));
                } else {
                    let a = choose|a: Pos| m0.on(a) && is_revealed(m0.state(a)) && #[trigger] m0.flood_reach(a, q0);
                    let w = choose|w: Seq<Pos>| #[trigger] m0.zero_walk(w) && w[0] == a && w.last() == q0;
                    lemma_walk_extend(m0, w, n);
                    assert(m0.flood_reach(a, n));
                }
            }
        }
    }
}

/// Taking the item at `i` off the work-list makes it the busy cell.
proof fn lemma_take(m0: BoardModel, cur: BoardModel, seeds: Seq<Pos>, work: Seq<Pos>, i: int)
    requires
        0 <= i < work.len(),
        all_in_hand(m0, cur, seeds, work, i, None),
    ensures
        all_in_hand(m0, cur, seeds, work, i + 1, Some(work[i])),
{
    reveal(all_in_hand);
    assert forall|x: Pos| #[trigger] in_hand(cur, work, i, None, x) implies in_hand(cur, work, i + 1, Some(work[i]), x) by {
        if pending(work, i, x) && x != work[i] {
            let j = choose|j: int| i <= j < work.len() && work[j] == x;
            assert(j != i);
        }
    }
}

/// Once the busy cell is settled, nothing is busy.
proof fn lemma_release(m0: BoardModel, cur: BoardModel, seeds: Seq<Pos>, work: Seq<Pos>, i: int, q: Pos)
    requires
        all_in_hand(m0, cur, seeds, work, i, Some(q)),
        cur.settled(q),
    ensures
        all_in_hand(m0, cur, seeds, work, i, None),
{
    reveal(all_in_hand);
    assert forall|x: Pos| #[trigger] in_hand(cur, work, i, Some(q), x) implies in_hand(cur, work, i, None, x) by {
    }
}

/// How a count over the neighbours of `q` moves when the state of `n`
/// changes: not at all when `n` is not a neighbour or counts the same before
/// and after, and not down when it counted before only if it counts after.
proof fn lemma_count_step(cur: BoardModel, nxt: BoardModel, n: Pos, st: CellState, q: Pos, flagged: bool)
    requires
        cur.wf(),
        cur.on(n),
        cur.on(q),
        one_change(cur, nxt, n, st),
    ensures
        (counted(cur.state(n), flagged) ==> counted(st, flagged)) ==> state_among(nxt.cols, nxt.states, nxt.nbrs(q), flagged)
            >= state_among(cur.cols, cur.states, cur.nbrs(q), flagged),
        counted(cur.state(n), flagged) == counted(st, flagged) || !adjacent(cur.rows, cur.cols, q, n) ==> state_among(
            nxt.cols,
            nxt.states,
            nxt.nbrs(q),
            flagged,
        ) == state_among(cur.cols, cur.states, cur.nbrs(q), flagged),
{
    lemma_neighbors(cur.rows, cur.cols, q);
    lemma_index(cur.rows, cur.cols, n);
    let s = cur.nbrs(q);
    let i = cell_index(cur.cols, n);
    assert forall|j: int| 0 <= j < s.len() implies 0 <= cell_index(cur.cols, #[trigger] s[j]) < cur.states.len() by {
        assert(s.contains(s[j]));
        lemma_index(cur.rows, cur.cols, s[j]);
    }
    lemma_state_among_update(cur.cols, cur.states, i, st, s, flagged);
    if !adjacent(cur.rows, cur.cols, q, n) {
        assert forall|j: int| 0 <= j < s.len() implies cell_index(cur.cols, #[trigger] s[j]) != i by {
            assert(s.contains(s[j]));
            lemma_index_injective(cur.cols, s[j], n);
        }
        lemma_state_among_frame(cur.cols, cur.states, i, st, s, flagged);
    }
}

/// Without assists, a step reveals a neighbour of a busy cell that is a seed
/// or was revealed since `m0`, so what is revealed stays within the seeds'
/// flood regions and what is queued stays seeds or changed cells.
proof fn lemma_step_sourced(m0: BoardModel, cur: BoardModel, nxt: BoardModel, seeds: Seq<Pos>, w: Seq<Pos>, nw: Seq<Pos>, q0: Pos, n: Pos, st: CellState)
    requires
        step_ok(cur, nxt, w, nw, q0, n, st),
        m0.same_layout(cur),
        m0.advances_to(cur),
        !assisted(cur),
        sourced(m0, cur, seeds, w),
        from_seeds(m0, cur, seeds),
        seeds.contains(q0) || m0.changed(cur, q0),
    ensures
        sourced(m0, nxt, seeds, nw),
        from_seeds(m0, nxt, seeds),
{
    reveal(sourced);
    reveal(from_seeds);
    lemma_one_change_states(cur, nxt, n, st);
    assert(acts(cur, q0, false));
    assert(m0.on(q0) && m0.value(q0) == 0 && adjacent(m0.rows, m0.cols, q0, n));
    assert(!m0.changed(cur, n));
    assert(m0.changed(nxt, n));
    assert(nw =~= w.push(n));
    assert forall|j: int| 0 <= j < nw.len() implies seeds.contains(#[trigger] nw[j]) || m0.changed(nxt, nw[j]) by {
        if j < w.len() {
            assert(nw[j] == w[j]);
            assert(seeds.contains(w[j]) || m0.changed(cur, w[j]));
            if m0.changed(cur, w[j]) && w[j] != n {
                assert(m0.changed(nxt, w[j]));
            }
        } else {
            assert(nw[j] == n);
        }
    }
    assert forall|y: Pos|
        m0.on(y) && #[trigger] is_revealed(nxt.state(y)) && !is_revealed(m0.state(y)) implies exists|a: Pos|
        seeds.contains(a) && #[trigger] m0.flood_reach(a, y) by {
        if y == n {
            if seeds.contains(q0) {
                let v = seq![q0];
                assert(m0.zero_walk(v));
                lemma_walk_extend(m0, v, n);
                assert(m0.flood_reach(q0, n));
            } else {
                assert(m0.state(q0) == CellState::Covered);
                assert(is_revealed(cur.state(q0)));
                let a = choose|a: Pos| seeds.contains(a) && #[trigger] m0.flood_reach(a, q0);
                let v = choose|v: Seq<Pos>| #[trigger] m0.zero_walk(v) && v[0] == a && v.last() == q0;
                lemma_walk_extend(m0, v, n);
                assert(m0.flood_reach(a, n));
            }
        }
    }
}

/// A shown cell stays shown through a step, its flags do not decrease, and
/// when its neighbours that are not `Empty` match its count, that count does
/// not move.
proof fn lemma_q_stable(cur: BoardModel, nxt: BoardModel, n: Pos, st: CellState, q: Pos)
    requires
        cur.wf(),
        cur.on(n),
        cur.on(q),
        cur.shown(q),
        is_target(cur.state(n), true),
        st == CellState::Flagged || st == revealed_state(cur.mine(n)),
        one_change(cur, nxt, n, st),
    ensures
        nxt.shown(q),
        nxt.value(q) == cur.value(q),
        nxt.flags_near(q) >= cur.flags_near(q),
        cur.unrevealed_near(q) == cur.value(q) ==> nxt.unrevealed_near(q) == cur.unrevealed_near(q),
{
    lemma_one_change_states(cur, nxt, n, st);
    lemma_count_step(cur, nxt, n, st, q, true);
    lemma_count_step(cur, nxt, n, st, q, false);
    if cur.unrevealed_near(q) == cur.value(q) && adjacent(cur.rows, cur.cols, q, n) {
        lemma_unrevealed_are_mines(cur, q);
        lemma_neighbors(cur.rows, cur.cols, q);
        let s = cur.nbrs(q);
        assert(s.contains(n));
        let k = choose|k: int| 0 <= k < s.len() && s[k] == n;
        assert(cur.state(s[k]) != CellState::Empty);
        assert(cur.mine(n));
    }
}

/// A step keeps every changed cell justified: the changed cell by the busy
/// cell, the others by the reasons they had.
proof fn lemma_step_justified(m0: BoardModel, cur: BoardModel, nxt: BoardModel, work: Seq<Pos>, nwork: Seq<Pos>, q0: Pos, n: Pos, st: CellState)
    requires
        step_ok(cur, nxt, work, nwork, q0, n, st),
        m0.same_layout(cur),
        justified(m0, cur),
    ensures
        justified(m0, nxt),
        acts(nxt, q0, true) == acts(cur, q0, true) || !acts(cur, q0, true),
        acts(cur, q0, true) ==> acts(nxt, q0, true),
        acts(cur, q0, false) ==> acts(nxt, q0, false),
        nxt.state(q0) == cur.state(q0),
{
    reveal(justified);
    lemma_one_change_states(cur, nxt, n, st);
    lemma_q_stable(cur, nxt, n, st, q0);
    assert forall|x: Pos| #[trigger] m0.changed(nxt, x) implies exists|q: Pos| #[trigger] nxt.reason(q, x) by {
        if x == n {
            assert(nxt.reason(q0, n));
        } else {
            assert(m0.changed(cur, x));
            let q = choose|q: Pos| #[trigger] cur.reason(q, x);
            lemma_q_stable(cur, nxt, n, st, q);
            assert(nxt.reason(q, x));
        }
    }
}

/// The facts of one iteration of `act_around` that concern only `q`'s
/// neighbours and the work-list.
proof fn lemma_act_local(cur: BoardModel, nxt: BoardModel, w: Seq<Pos>, nw: Seq<Pos>, nb: Seq<Pos>, q: Pos, n: Pos, k: int, flag: bool)
    requires
        cur.wf(),
        cur.on(q),
        cur.on(n),
        n != q,
        nb.no_duplicates(),
        forall|x: Pos| nb.contains(x) ==> cur.on(x),
        0 <= k < nb.len(),
        n == nb[k],
        forall|j: int| 0 <= j < w.len() ==> cur.on(#[trigger] w[j]),
        flag ==> cur.mine(n),
        flag ==> forall|j: int| 0 <= j < nb.len() && #[trigger] cur.state(nb[j]) != CellState::Empty ==> cur.mine(nb[j]),
        forall|j: int| 0 <= j < k ==> !is_target(cur.state(#[trigger] nb[j]), flag),
        one_change(cur, nxt, n, next_state(cur, n, flag)),
        nw == w + (if !flag { seq![n] } else { Seq::empty() }) + (if cur.auto_flag || cur.auto_reveal {
            cur.nbrs(n)
        } else {
            Seq::empty()
        }),
    ensures
        forall|j: int| 0 <= j < nw.len() ==> nxt.on(#[trigger] nw[j]),
        w.len() <= nw.len(),
        flag ==> forall|j: int| 0 <= j < nb.len() && #[trigger] nxt.state(nb[j]) != CellState::Empty ==> nxt.mine(nb[j]),
        forall|j: int| 0 <= j < k + 1 ==> !is_target(nxt.state(#[trigger] nb[j]), flag),
{
    let st = next_state(cur, n, flag);
    lemma_neighbors(cur.rows, cur.cols, n);
    lemma_one_change_states(cur, nxt, n, st);
    assert forall|j: int| 0 <= j < nw.len() implies nxt.on(#[trigger] nw[j]) by {
        if j >= w.len() + (if is_revealed(st) { 1int } else { 0 }) {
            let t = j - w.len() - (if is_revealed(st) { 1int } else { 0 });
            assert(cur.nbrs(n).contains(cur.nbrs(n)[t]));
        }
    }
    assert forall|j: int| 0 <= j < k + 1 implies !is_target(nxt.state(#[trigger] nb[j]), flag) by {
        assert(nb.contains(nb[j]));
        if j < k {
            assert(nb[j] != n);
        }
    }
    if flag {
        assert forall|j: int| 0 <= j < nb.len() && #[trigger] nxt.state(nb[j]) != CellState::Empty implies nxt.mine(nb[j]) by {
            assert(nb.contains(nb[j]));
            if j != k {
                assert(nb[j] != n);
            }
        }
    }
}

/// One iteration of `act_around`: the neighbour `n = nb[k]` of `q` changes,
/// and the loop's invariant carries over.
proof fn lemma_act_step(
    m0: BoardModel,
    start: BoardModel,
    cur: BoardModel,
    nxt: BoardModel,
    seeds: Seq<Pos>,
    w: Seq<Pos>,
    nw: Seq<Pos>,
    nb: Seq<Pos>,
    i: int,
    q: Pos,
    n: Pos,
    k: int,
    flag: bool,
)
    requires
        cur.wf(),
        start.on(q),
        start.same_layout(cur),
        m0.same_layout(cur),
        m0.advances_to(cur),
        nb == start.nbrs(q),
        nb.no_duplicates(),
        forall|x: Pos| nb.contains(x) <==> adjacent(start.rows, start.cols, q, x),
        0 <= k < nb.len(),
        n == nb[k],
        is_target(cur.state(n), flag),
        is_revealed(cur.state(q)),
        acts(cur, q, flag),
        0 <= i <= w.len(),
        forall|j: int| 0 <= j < w.len() ==> cur.on(#[trigger] w[j]),
        all_in_hand(m0, cur, seeds, w, i, Some(q)),
        explained(m0, cur),
        justified(m0, cur),
        flag ==> forall|j: int| 0 <= j < nb.len() && #[trigger] cur.state(nb[j]) != CellState::Empty ==> cur.mine(nb[j]),
        forall|j: int| 0 <= j < k ==> !is_target(cur.state(#[trigger] nb[j]), flag),
        one_change(cur, nxt, n, next_state(cur, n, flag)),
        nw == w + (if !flag { seq![n] } else { Seq::empty() }) + (if cur.auto_flag || cur.auto_reveal {
            cur.nbrs(n)
        } else {
            Seq::empty()
        }),
    ensures
        nw.len() + 9 * nxt.weight() <= w.len() + 9 * cur.weight(),
        !assisted(cur) && once(cur, w) ==> once(nxt, nw),
        bounded(m0, cur, seeds, w, q) ==> bounded(m0, nxt, seeds, nw, q),
        forall|j: int| 0 <= j < w.len() ==> nw[j] == w[j],
        start.same_layout(nxt),
        m0.same_layout(nxt),
        m0.advances_to(nxt),
        forall|j: int| 0 <= j < nw.len() ==> nxt.on(#[trigger] nw[j]),
        w.len() <= nw.len(),
        all_in_hand(m0, nxt, seeds, nw, i, Some(q)),
        explained(m0, nxt),
        justified(m0, nxt),
        nxt.state(q) == cur.state(q),
        acts(nxt, q, flag),
        flag ==> forall|j: int| 0 <= j < nb.len() && #[trigger] nxt.state(nb[j]) != CellState::Empty ==> nxt.mine(nb[j]),
        forall|j: int| 0 <= j < k + 1 ==> !is_target(nxt.state(#[trigger] nb[j]), flag),
        nxt.weight() < cur.weight(),
{
    let st = next_state(cur, n, flag);
    assert(nb.contains(n));
    lemma_neighbors(cur.rows, cur.cols, n);
    if flag {
        assert(cur.state(nb[k]) != CellState::Empty);
    }
    assert(step_ok(cur, nxt, w, nw, q, n, st));
    lemma_step_advances(m0, cur, nxt, w, nw, q, n, st);
    lemma_step_all(m0, cur, nxt, seeds, w, nw, i, q, n, st);
    lemma_step_explained(m0, cur, nxt, w, nw, q, n, st);
    lemma_step_justified(m0, cur, nxt, w, nw, q, n, st);
    lemma_act_local(cur, nxt, w, nw, nb, q, n, k, flag);
    if !assisted(cur) && once(cur, w) {
        lemma_flood_once(cur, nxt, w, nw, n, st);
    }
    if bounded(m0, cur, seeds, w, q) {
        reveal(bounded);
        if !assisted(cur) {
            lemma_step_sourced(m0, cur, nxt, seeds, w, nw, q, n, st);
            assert(m0.changed(nxt, q) == m0.changed(cur, q));
        }
    }
    assert forall|j: int| 0 <= j < w.len() implies nw[j] == w[j] by {}
}

impl Board {
    /// Changes every neighbour of the revealed busy cell `q` that the action
    /// applies to: with `flag`, each covered or detonated neighbour becomes
    /// flagged; without, each covered neighbour is revealed. Each change
    /// queues what it may unsettle.
    #[verifier::rlimit(40)]
    fn act_around(
        &mut self,
        q: Pos,
        flag: bool,
        work: &mut Vec<Pos>,
        Ghost(m0): Ghost<BoardModel>,
        Ghost(seeds): Ghost<Seq<Pos>>,
        Ghost(i): Ghost<int>,
    )
        requires
            old(self)@.wf(),
            old(self)@.placed,
            old(self)@.on(q),
            is_revealed(old(self)@.state(q)),
            acts(old(self)@, q, flag),
            m0.same_layout(old(self)@),
            m0.advances_to(old(self)@),
            0 <= i <= old(work)@.len(),
            forall|j: int| 0 <= j < old(work)@.len() ==> old(self)@.on(#[trigger] old(work)@[j]),
            all_in_hand(m0, old(self)@, seeds, old(work)@, i, Some(q)),
            explained(m0, old(self)@),
            justified(m0, old(self)@),
            flag ==> forall|j: int| 0 <= j < old(self)@.nbrs(q).len() && #[trigger] old(self)@.state(old(self)@.nbrs(q)[j])
                != CellState::Empty ==> old(self)@.mine(old(self)@.nbrs(q)[j]),
            !assisted(m0) && once(m0, seeds) ==> once(old(self)@, old(work)@),
            bounded(m0, old(self)@, seeds, old(work)@, q),
        ensures
            final(work)@.len() + 9 * final(self)@.weight() <= old(work)@.len() + 9 * old(self)@.weight(),
            bounded(m0, final(self)@, seeds, final(work)@, q),
            !assisted(m0) && once(m0, seeds) ==> once(final(self)@, final(work)@),
            forall|j: int| 0 <= j < old(work)@.len() ==> final(work)@[j] == old(work)@[j],
            final(self)@.wf(),
            m0.same_layout(final(self)@),
            m0.advances_to(final(self)@),
            forall|j: int| 0 <= j < final(work)@.len() ==> final(self)@.on(#[trigger] final(work)@[j]),
            old(work)@.len() <= final(work)@.len(),
            all_in_hand(m0, final(self)@, seeds, final(work)@, i, Some(q)),
            explained(m0, final(self)@),
            justified(m0, final(self)@),
            final(self)@.none_target_near(q, flag),
            final(self)@.state(q) == old(self)@.state(q),
            final(self)@.weight() < old(self)@.weight() || (final(self)@ == old(self)@ && final(work)@ == old(work)@),
            old(self)@.none_target_near(q, flag) ==> final(self)@ == old(self)@ && final(work)@ == old(work)@,
    {
        let ghost start = self@;
        let ghost wstart = work@;
        let nb = self.nearby_cells(q);
        proof {
            lemma_neighbors(start.rows, start.cols, q);
        }
        let mut k: usize = 0;
        while k < nb.len()
            invariant
                self@.wf(),
                self@.placed,
                start.on(q),
                start.same_layout(self@),
                m0.same_layout(self@),
                m0.advances_to(self@),
                nb@ == start.nbrs(q),
                nb@.no_duplicates(),
                forall|x: Pos| nb@.contains(x) <==> adjacent(start.rows, start.cols, q, x),
                0 <= k <= nb.len(),
                0 <= i <= wstart.len() <= work@.len(),
                forall|j: int| 0 <= j < work@.len() ==> self@.on(#[trigger] work@[j]),
                all_in_hand(m0, self@, seeds, work@, i, Some(q)),
                explained(m0, self@),
                justified(m0, self@),
                self@.state(q) == start.state(q),
                is_revealed(start.state(q)),
                acts(self@, q, flag),
                flag ==> forall|j: int| 0 <= j < nb.len() && #[trigger] self@.state(nb@[j]) != CellState::Empty ==> self@.mine(nb@[j]),
                forall|j: int| 0 <= j < k ==> !is_target(self@.state(#[trigger] nb@[j]), flag),
                self@.weight() < start.weight() || (self@ == start && work@ == wstart),
                start.none_target_near(q, flag) ==> self@ == start && work@ == wstart,
                !assisted(m0) && once(m0, seeds) ==> once(self@, work@),
                forall|j: int| 0 <= j < wstart.len() ==> work@[j] == wstart[j],
                bounded(m0, self@, seeds, work@, q),
                work@.len() + 9 * self@.weight() <= wstart.len() + 9 * start.weight(),
            decreases nb.len() - k,
        {
            let n = nb[k];
            assert(nb@.contains(n));
            let s = self.state_at(n);
            if s == CellState::Covered || (flag && s == CellState::Detonated) {
                let ghost cur = self@;
                let ghost w = work@;
                proof {
                    if start.none_target_near(q, flag) {
                        assert(!is_target(start.state(start.nbrs(q)[k as int]), flag));
                    }
                }
                self.change_and_queue(n, flag, work);
                proof {
                    lemma_act_step(m0, start, cur, self@, seeds, w, work@, nb@, i, q, n, k as int, flag);
                }
            }
            k = k + 1;
        }
        proof {
            assert forall|j: int| 0 <= j < self@.nbrs(q).len() implies !is_target(self@.state(#[trigger] self@.nbrs(q)[j]), flag) by {
                assert(self@.nbrs(q)[j] == nb@[j]);
            }
        }
    }

    /// Runs the engine from the positions in `work` until every cell it owes
    /// a look is settled. Revealed cells act, detonated ones too: one with no mine around it,
    /// or (with auto-reveal) one that is satisfied, has its covered
    /// neighbours revealed; with auto-flag, one whose neighbours that are not
    /// `Empty` are exactly its mines has those of them that are covered or
    /// detonated flagged. Each change queues the changed cell and, with an
    /// assist on, its neighbours.
    /// It returns every position it looked at, in order, the given ones
    /// first. With both assists off, and the given positions revealed and
    /// each given once, no position is looked at twice. With an assist on a
    /// cell is looked at again after a neighbour changes; every change lowers
    /// the board's weight (at most twice the number of cells) and queues at
    /// most nine positions, so at most nine times the weight are added.
    pub(crate) fn settle(&mut self, work: Vec<Pos>) -> (looked: Vec<Pos>)
        requires
            old(self)@.wf(),
            old(self)@.placed,
            forall|j: int| 0 <= j < work@.len() ==> old(self)@.on(#[trigger] work@[j]),
        ensures
            final(self)@.wf(),
            old(self)@.cascade(final(self)@, work@),
            looked@.len() >= work@.len(),
            looked@.len() <= work@.len() + 9 * old(self)@.weight(),
            old(self)@.weight() <= 2 * old(self)@.states.len(),
            forall|j: int| 0 <= j < work@.len() ==> looked@[j] == work@[j],
            !old(self)@.auto_flag && !old(self)@.auto_reveal && work@.no_duplicates() && (forall|j: int|
                0 <= j < work@.len() ==> #[trigger] is_revealed(old(self)@.state(work@[j]))) ==> looked@.no_duplicates(),
    {
        let ghost m0 = self@;
        let ghost seeds = work@;
        let ghost calm = forall|x: Pos| m0.on(x) && #[trigger] seeds.contains(x) ==> m0.settled(x);
        let mut work = work;
        let mut i: usize = 0;
        proof {
            lemma_weight_bound(m0.states);
            reveal(all_in_hand);
            reveal(explained);
            reveal(justified);
            reveal(sourced);
            reveal(from_seeds);
            assert forall|j: int| 0 <= j < seeds.len() implies seeds.contains(#[trigger] seeds[j]) by {}
            assert forall|x: Pos| m0.on(x) && #[trigger] seeds.contains(x) implies in_hand(m0, seeds, 0, None, x) by {
                let j = choose|j: int| 0 <= j < seeds.len() && seeds[j] == x;
                assert(pending(seeds, 0, x));
            }
        }
        while i < work.len()
            invariant
                self@.wf(),
                self@.placed,
                m0.same_layout(self@),
                m0.advances_to(self@),
                i <= work.len(),
                forall|j: int| 0 <= j < work@.len() ==> self@.on(#[trigger] work@[j]),
                all_in_hand(m0, self@, seeds, work@, i as int, None),
                explained(m0, self@),
                justified(m0, self@),
                calm == (forall|x: Pos| m0.on(x) && #[trigger] seeds.contains(x) ==> m0.settled(x)),
                calm ==> self@ == m0 && work@ == seeds,
                seeds.len() <= work@.len(),
                forall|j: int| 0 <= j < seeds.len() ==> work@[j] == seeds[j],
                !assisted(m0) && once(m0, seeds) ==> once(self@, work@),
                !assisted(m0) ==> sourced(m0, self@, seeds, work@) && from_seeds(m0, self@, seeds),
                work@.len() + 9 * self@.weight() <= seeds.len() + 9 * m0.weight(),
            decreases self@.weight(), work.len() - i,
        {
            let q = work[i];
            proof {
                lemma_take(m0, self@, seeds, work@, i as int);
                if calm {
                    assert(seeds.contains(seeds[i as int]));
                }
                if !assisted(m0) {
                    reveal(sourced);
                    assert(seeds.contains(work@[i as int]) || m0.changed(self@, work@[i as int]));
                }
                reveal(bounded);
                assert(bounded(m0, self@, seeds, work@, q));
            }
            i = i + 1;
            let sq = self.state_at(q);
            if sq == CellState::Empty || sq == CellState::Detonated {
                let v = self.value_at(q);
                let (af, ar) = self.assists();
                let ghost before = self@;
                let ghost wbefore = work@;
                let reveal_now = v == 0 || (ar && self.count_near(q, true) == v);
                if reveal_now {
                    self.act_around(q, false, &mut work, Ghost(m0), Ghost(seeds), Ghost(i as int));
                }
                let ghost middle = self@;
                let ghost wmiddle = work@;
                let flag_now = af && self.count_near(q, false) == v;
                if flag_now {
                    proof {
                        lemma_unrevealed_are_mines(self@, q);
                    }
                    self.act_around(q, true, &mut work, Ghost(m0), Ghost(seeds), Ghost(i as int));
                }
                proof {
                    let m = self@;
                    if !flag_now {
                        assert(m == middle);
                    }
                    if flag_now {
                        assert forall|j: int| 0 <= j < m.nbrs(q).len() implies !is_target(m.state(#[trigger] m.nbrs(q)[j]), false) by {
                            assert(!is_target(m.state(m.nbrs(q)[j]), true));
                        }
                    } else if !reveal_now {
                        assert(middle == before);
                    }
                    assert(m.settled(q));
                }
            }
            proof {
                lemma_release(m0, self@, seeds, work@, i as int, q);
                reveal(bounded);
            }
        }
        proof {
            reveal(all_in_hand);
            reveal(explained);
            reveal(justified);
            reveal(from_seeds);
            assert forall|x: Pos| !pending(work@, i as int, x) by {}
            if !m0.auto_flag && !m0.auto_reveal && seeds.no_duplicates() && (forall|j: int|
                0 <= j < seeds.len() ==> #[trigger] is_revealed(m0.state(seeds[j]))) {
                assert forall|j: int| 0 <= j < seeds.len() implies !is_target(m0.state(#[trigger] seeds[j]), false) by {
                    assert(is_revealed(m0.state(seeds[j])));
                }
                reveal(once);
                assert(once(m0, seeds));
                assert(once(self@, work@));
            }
        }
        work
    }

    /// Reveals the cell at `c`. A flagged cell is left alone. On the first
    /// reveal the mines are laid first, none on `c` or next to it. When the
    /// revealed cell has no mine around it its region floods open, and the
    /// assists that are on run until nothing more is certain.
    pub fn expose(&mut self, c: Pos)
        requires
            old(self)@.wf(),
            old(self)@.on(c),
            !old(self)@.placed && old(self)@.state(c) != CellState::Flagged ==> old(self)@.bombs + window_size(
                old(self)@.rows,
                old(self)@.cols,
                c,
            ) <= old(self)@.rows * old(self)@.cols,
        ensures
            final(self)@.wf(),
            exposed_from(old(self)@, final(self)@, c),
    {
        if self.state_at(c) == CellState::Flagged {
            return;
        }
        if !self.mines_placed() {
            self.fisrt_click(c);
        }
        self.reveal_one(c);
        let mut work: Vec<Pos> = Vec::new();
        work.push(c);
        let (af, ar) = self.assists();
        if af || ar {
            let mut nb = self.nearby_cells(c);
            work.append(&mut nb);
        }
        proof {
            lemma_neighbors(self@.rows, self@.cols, c);
            assert(work@ =~= expose_seeds(old(self)@, c));
            assert forall|j: int| 0 <= j < work@.len() implies self@.on(#[trigger] work@[j]) by {
                if j > 0 {
                    assert(self@.nbrs(c).contains(work@[j]));
                }
            }
        }
        self.settle(work);
    }

    /// Flags a covered cell or unflags a flagged one; a revealed cell stays as
    /// it is. With auto-reveal on and the mines laid, a new flag sets the
    /// engine going from the cell's neighbours.
    pub fn toggle_bomb(&mut self, c: Pos)
        requires
            old(self)@.wf(),
            old(self)@.on(c),
        ensures
            final(self)@.wf(),
            toggled_from(old(self)@, final(self)@, c),
    {
        let st = self.state_at(c);
        if st == CellState::Covered {
            self.set_state(c, CellState::Flagged);
            let (_, ar) = self.assists();
            if ar && self.mines_placed() {
                let nb = self.nearby_cells(c);
                proof {
                    lemma_neighbors(self@.rows, self@.cols, c);
                    assert forall|j: int| 0 <= j < nb@.len() implies self@.on(#[trigger] nb@[j]) by {
                        assert(nb@.contains(nb@[j]));
                    }
                }
                self.settle(nb);
            }
        } else if st == CellState::Flagged {
            self.set_state(c, CellState::Covered);
        }
    }
}

} // verus!
