//! Choosing where the mines go: uniformly at random among the cells outside
//! the 3x3 window around the first revealed cell.

use vstd::prelude::*;
use crate::board::{Board, CellState};
use crate::grid::{Pos, in_grid, near, span, window_size};
use crate::model::BoardModel;

verus! {

/// Relies on `rand::random` (the thread-local generator's `gen`): any
/// `usize` may come back, so nothing is stated of it.
#[verifier::external_body]
fn draw() -> (r: usize) {
    rand::random::<usize>()
}

/// Of the indices `0..x`, how many lie within one of `a`.
spec fn close_below(a: int, x: int) -> int {
    let hi = if x < a + 2 { x } else { a + 2 };
    let lo = if a - 1 > 0 { a - 1 } else { 0 };
    if hi > lo { hi - lo } else { 0 }
}

/// Removes and returns the entry of `pool` that `draw` selects: the one at
/// `draw % pool.len()`, whose place the last entry takes.
pub fn take_drawn(pool: &mut Vec<Pos>, draw: usize) -> (q: Pos)
    requires
        old(pool)@.len() > 0,
    ensures
        q == old(pool)@[draw as int % old(pool)@.len() as int],
        final(pool)@ == old(pool)@.update(draw as int % old(pool)@.len() as int, old(pool)@.last()).drop_last(),
{
    let k = draw % pool.len();
    pool.swap_remove(k)
}

/// Taking entry `k` out the way `take_drawn` does keeps a sequence free of
/// duplicates and leaves every other entry in it.
proof fn lemma_take_out(s: Seq<Pos>, k: int)
    requires
        s.no_duplicates(),
        0 <= k < s.len(),
    ensures
        s.update(k, s.last()).drop_last().no_duplicates(),
        s.update(k, s.last()).drop_last().len() + 1 == s.len(),
        forall|x: Pos| #[trigger] s.update(k, s.last()).drop_last().contains(x) <==> s.contains(x) && x != s[k],
{
    let t = s.update(k, s.last()).drop_last();
    let last = s.len() - 1;
    assert forall|i: int| 0 <= i < t.len() implies #[trigger] t[i] == (if i == k { s[last] } else { s[i] }) by {
    }
    assert forall|x: Pos| t.contains(x) <==> s.contains(x) && x != s[k] by {
        if t.contains(x) {
            let i = choose|i: int| 0 <= i < t.len() && t[i] == x;
            if i == k {
                assert(s[last] == x);
            } else {
                assert(s[i] == x);
            }
        }
        if s.contains(x) && x != s[k] {
            let i = choose|i: int| 0 <= i < s.len() && s[i] == x;
            if i == last {
                assert(t[k] == x);
            } else {
                assert(t[i] == x);
            }
        }
    }
}

/// Every position of a `rows` by `cols` grid outside the 3x3 window around
/// `anchor`, row by row.
fn safe_positions(rows: usize, cols: usize, anchor: Pos) -> (r: Vec<Pos>)
    requires
        in_grid(rows as nat, cols as nat, anchor),
    ensures
        r@.no_duplicates(),
        forall|q: Pos| #[trigger] r@.contains(q) ==> in_grid(rows as nat, cols as nat, q) && !near(anchor, q),
        r@.len() + window_size(rows as nat, cols as nat, anchor) == rows * cols,
{
    let ghost (ar, ac) = (anchor.0 as int, anchor.1 as int);
    let ghost sc = span(cols as nat, anchor.1 as nat) as int;
    assert(close_below(ac, cols as int) == sc);
    let mut r: Vec<Pos> = Vec::new();
    let mut x: usize = 0;
    while x < rows
        invariant
            x <= rows,
            in_grid(rows as nat, cols as nat, anchor),
            ar == anchor.0,
            ac == anchor.1,
            sc == close_below(ac, cols as int),
            r@.no_duplicates(),
            forall|q: Pos| #[trigger] r@.contains(q) ==> in_grid(rows as nat, cols as nat, q) && !near(anchor, q) && q.0 < x,
            r@.len() == x * cols - close_below(ar, x as int) * sc,
        decreases rows - x,
    {
        let near_row = x + 1 >= anchor.0 && x <= anchor.0 + 1;
        let ghost base = r@.len() as int;
        assert(base == x * cols - close_below(ar, x as int) * sc);
        let mut y: usize = 0;
        while y < cols
            invariant
                x < rows,
                y <= cols,
                in_grid(rows as nat, cols as nat, anchor),
                ar == anchor.0,
                ac == anchor.1,
                near_row == (-1 <= x - ar <= 1),
                r@.no_duplicates(),
                forall|q: Pos| #[trigger] r@.contains(q) ==> in_grid(rows as nat, cols as nat, q) && !near(anchor, q)
                    && (q.0 < x || (q.0 == x && q.1 < y)),
                r@.len() == base + y - (if near_row { close_below(ac, y as int) } else { 0 }),
            decreases cols - y,
        {
            let near_col = y + 1 >= anchor.1 && y <= anchor.1 + 1;
            if !(near_row && near_col) {
                proof {
                    assert(!r@.contains((x, y)));
                }
                let ghost old_r = r@;
                r.push((x, y));
                proof {
                    assert forall|q: Pos| #[trigger] r@.contains(q) implies old_r.contains(q) || q == (x, y) by {
                        let j = choose|j: int| 0 <= j < r@.len() && r@[j] == q;
                        if j < old_r.len() {
                            assert(old_r[j] == q);
                        }
                    }
                    assert(r@.len() == base + (y + 1) - (if near_row { close_below(ac, y + 1) } else { 0 }));
                }
            } else {
                assert(r@.len() == base + (y + 1) - (if near_row { close_below(ac, y + 1) } else { 0 }));
            }
            y = y + 1;
        }
        proof {
            let nr = if near_row { 1int } else { 0 };
            assert(r@.len() == base + cols - nr * sc);
            assert(close_below(ar, x + 1) == close_below(ar, x as int) + nr);
            assert((x + 1) * cols - close_below(ar, x + 1) * sc == x * cols - close_below(ar, x as int) * sc + cols
                - nr * sc) by (nonlinear_arith)
                requires
                    close_below(ar, x + 1) == close_below(ar, x as int) + nr,
            ;
            assert forall|q: Pos| #[trigger] r@.contains(q) implies in_grid(rows as nat, cols as nat, q) && !near(anchor, q)
                && q.0 < x + 1 by {
            }
        }
        x = x + 1;
    }
    proof {
        assert(close_below(ar, rows as int) == span(rows as nat, anchor.0 as nat));
    }
    r
}

/// `count` distinct positions of a `rows` by `cols` grid, none of them in the
/// 3x3 window around `anchor`. Each is drawn at random among the positions
/// still free, as drawing over the whole grid and rejecting taken or
/// excluded positions would, but with no retry: the loop runs `count` times.
pub fn choose_sites(rows: usize, cols: usize, anchor: Pos, count: usize) -> (sites: Vec<Pos>)
    requires
        in_grid(rows as nat, cols as nat, anchor),
        count + window_size(rows as nat, cols as nat, anchor) <= rows * cols,
    ensures
        sites@.len() == count,
        sites@.no_duplicates(),
        forall|q: Pos| #[trigger] sites@.contains(q) ==> in_grid(rows as nat, cols as nat, q) && !near(anchor, q),
{
    let mut pool = safe_positions(rows, cols, anchor);
    let ghost total = pool@.len();
    let mut sites: Vec<Pos> = Vec::new();
    while sites.len() < count
        invariant
            sites@.len() <= count <= total,
            sites@.len() + pool@.len() == total,
            pool@.no_duplicates(),
            sites@.no_duplicates(),
            forall|q: Pos| #[trigger] sites@.contains(q) ==> !pool@.contains(q),
            forall|q: Pos| #[trigger] pool@.contains(q) ==> in_grid(rows as nat, cols as nat, q) && !near(anchor, q),
            forall|q: Pos| #[trigger] sites@.contains(q) ==> in_grid(rows as nat, cols as nat, q) && !near(anchor, q),
        decreases count - sites@.len(),
    {
        let ghost before = pool@;
        let d = draw();
        let q = take_drawn(&mut pool, d);
        proof {
            let k = d as int % before.len() as int;
            lemma_take_out(before, k);
            assert(before.contains(q));
        }
        let ghost old_sites = sites@;
        assert(!old_sites.contains(q));
        sites.push(q);
        proof {
            assert forall|x: Pos| #[trigger] sites@.contains(x) implies old_sites.contains(x) || x == q by {
                let j = choose|j: int| 0 <= j < sites@.len() && sites@[j] == x;
                if j < old_sites.len() {
                    assert(old_sites[j] == x);
                }
            }
        }
    }
    sites
}

impl Board {
    /// Lays the mines for a first reveal at `c`: `bombs` of them, drawn at
    /// random, none on `c` or next to it.
    pub fn fisrt_click(&mut self, c: Pos)
        requires
            old(self)@.wf(),
            !old(self)@.placed,
            old(self)@.on(c),
            old(self)@.bombs + window_size(old(self)@.rows, old(self)@.cols, c) <= old(self)@.rows * old(self)@.cols,
        ensures
            final(self)@.wf(),
            final(self)@.placed,
            final(self)@ == (BoardModel { mines: final(self)@.mines, values: final(self)@.values, placed: true, ..old(self)@ }),
            forall|q: Pos| final(self)@.on(q) && #[trigger] near(c, q) ==> !final(self)@.mine(q),
    {
        let sites = choose_sites(self.rows(), self.columns(), c, self.mine_count());
        proof {
            assert forall|j: int| 0 <= j < sites@.len() implies self@.on(#[trigger] sites@[j]) by {
                assert(sites@.contains(sites@[j]));
            }
        }
        self.lay_mines(&sites);
        proof {
            assert forall|q: Pos| self@.on(q) && #[trigger] near(c, q) implies !self@.mine(q) by {
                if sites@.contains(q) {
                    assert(!near(c, q));
                }
            }
        }
    }

    /// A board with mines on exactly the positions of `sites`, every cell
    /// covered.
    pub fn with_mines(r: usize, c: usize, sites: &Vec<Pos>, auto_flag: bool, auto_reveal: bool) -> (b: Board)
        requires
            r > 0,
            c > 0,
            r * c <= isize::MAX,
            sites@.no_duplicates(),
            forall|j: int| 0 <= j < sites@.len() ==> in_grid(r as nat, c as nat, #[trigger] sites@[j]),
        ensures
            b@.wf(),
            b@.placed,
            b@.rows == r,
            b@.cols == c,
            b@.bombs == sites@.len(),
            b@.auto_flag == auto_flag,
            b@.auto_reveal == auto_reveal,
            forall|p: Pos| b@.on(p) ==> #[trigger] b@.state(p) == CellState::Covered,
            forall|p: Pos| b@.on(p) ==> (#[trigger] b@.mine(p) <==> sites@.contains(p)),
    {
        let mut b = Board::new(r, c, 0, auto_flag, auto_reveal);
        let ghost m0 = b@;
        b.lay_mines(sites);
        proof {
            assert forall|p: Pos| b@.on(p) implies #[trigger] b@.state(p) == CellState::Covered by {
                assert(m0.state(p) == CellState::Covered);
            }
        }
        b
    }
}

} // verus!
