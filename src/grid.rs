//! Positions on a rectangular grid and the eight-neighbourhood of a cell.

use vstd::prelude::*;

verus! {

/// A position on the grid: `(row, column)`, both counted from zero.
pub type Pos = (usize, usize);

/// `p` lies on a grid of `rows` by `cols` cells.
pub open spec fn in_grid(rows: nat, cols: nat, p: Pos) -> bool {
    p.0 < rows && p.1 < cols
}

/// Row and column of `p` and `q` each differ by at most one.
pub open spec fn near(p: Pos, q: Pos) -> bool {
    -1 <= p.0 - q.0 <= 1 && -1 <= p.1 - q.1 <= 1
}

/// `q` is a neighbour of `p`: on the grid, distinct from `p`, and touching it
/// by a side or a corner.
pub open spec fn adjacent(rows: nat, cols: nat, p: Pos, q: Pos) -> bool {
    in_grid(rows, cols, q) && q != p && near(p, q)
}

/// The one-element sequence `[q]` when `b` holds, else the empty sequence.
pub open spec fn only_if(b: bool, q: Pos) -> Seq<Pos> {
    if b {
        seq![q]
    } else {
        Seq::empty()
    }
}

/// The neighbours of `p`, in a fixed order: the column to the left (same row,
/// row above, row below), then the row above and the row below, then the
/// column to the right (same row, row above, row below); positions off the
/// grid are left out.
pub open spec fn neighbors(rows: nat, cols: nat, p: Pos) -> Seq<Pos> {
    let (r, c) = p;
    let up = r > 0;
    let down = r + 1 < rows;
    let left = c > 0;
    let right = c + 1 < cols;
    let (ru, rd, cl, cr) = ((r - 1) as usize, (r + 1) as usize, (c - 1) as usize, (c + 1) as usize);
    only_if(left, (r, cl)) + only_if(left && up, (ru, cl)) + only_if(left && down, (rd, cl))
        + only_if(up, (ru, c)) + only_if(down, (rd, c)) + only_if(right, (r, cr))
        + only_if(right && up, (ru, cr)) + only_if(right && down, (rd, cr))
}

/// How many rows (or columns) of the 3-wide window centred on index `i` lie
/// within `0..n`.
pub open spec fn span(n: nat, i: nat) -> nat {
    1 + (if i > 0 { 1nat } else { 0nat }) + (if i + 1 < n { 1nat } else { 0nat })
}

/// The cells of the 3x3 window centred on `p` that lie on the grid, `p` included.
pub open spec fn window_size(rows: nat, cols: nat, p: Pos) -> nat {
    span(rows, p.0 as nat) * span(cols, p.1 as nat)
}

/// The prefixes of the neighbour sequence: the first `k` of its eight slots.
spec fn prefix(rows: nat, cols: nat, p: Pos, k: nat) -> Seq<Pos>
    decreases k,
{
    if k == 0 {
        Seq::empty()
    } else {
        prefix(rows, cols, p, (k - 1) as nat) + only_if(slot_used(rows, cols, p, (k - 1) as nat), slot(p, (k - 1) as nat))
    }
}

/// The row and column offsets of the eight slots, in the order of `neighbors`.
spec fn slot_offset(k: nat) -> (int, int) {
    if k == 0 { (0, -1) }
    else if k == 1 { (-1, -1) }
    else if k == 2 { (1, -1) }
    else if k == 3 { (-1, 0) }
    else if k == 4 { (1, 0) }
    else if k == 5 { (0, 1) }
    else if k == 6 { (-1, 1) }
    else { (1, 1) }
}

spec fn slot(p: Pos, k: nat) -> Pos {
    ((p.0 + slot_offset(k).0) as usize, (p.1 + slot_offset(k).1) as usize)
}

spec fn slot_used(rows: nat, cols: nat, p: Pos, k: nat) -> bool {
    0 <= p.0 + slot_offset(k).0 < rows && 0 <= p.1 + slot_offset(k).1 < cols
}

proof fn lemma_prefix_is_neighbors(rows: nat, cols: nat, p: Pos)
    requires
        in_grid(rows, cols, p),
    ensures
        prefix(rows, cols, p, 8) == neighbors(rows, cols, p),
{
    reveal_with_fuel(prefix, 9);
    assert(Seq::<Pos>::empty() + only_if(slot_used(rows, cols, p, 0), slot(p, 0)) =~= only_if(
        slot_used(rows, cols, p, 0),
        slot(p, 0),
    ));
}

/// What the first `k` slots hold.
proof fn lemma_prefix_contains(rows: nat, cols: nat, p: Pos, k: nat, x: Pos)
    requires
        k <= 8,
        rows <= usize::MAX,
        cols <= usize::MAX,
    ensures
        prefix(rows, cols, p, k).contains(x) <==> exists|i: nat| i < k && slot_used(rows, cols, p, i) && x == slot(p, i),
        prefix(rows, cols, p, k).no_duplicates(),
    decreases k,
{
    if k > 0 {
        let j = (k - 1) as nat;
        lemma_prefix_contains(rows, cols, p, j, x);
        lemma_prefix_contains(rows, cols, p, j, slot(p, j));
        lemma_append_one(prefix(rows, cols, p, j), slot_used(rows, cols, p, j), slot(p, j));
        if prefix(rows, cols, p, j).contains(slot(p, j)) && slot_used(rows, cols, p, j) {
            let i = choose|i: nat| i < j && slot_used(rows, cols, p, i) && slot(p, j) == slot(p, i);
            assert(slot_offset(i) == slot_offset(j));
            assert(slot_offset(i) != slot_offset(j)) by {
                assert(i < 8 && j < 8);
            }
        }
    }
}

/// The neighbour sequence holds each neighbour of `p` exactly once and nothing
/// else; there are `window_size - 1` of them.
pub proof fn lemma_neighbors(rows: nat, cols: nat, p: Pos)
    requires
        in_grid(rows, cols, p),
        rows <= usize::MAX,
        cols <= usize::MAX,
    ensures
        forall|q: Pos| neighbors(rows, cols, p).contains(q) <==> adjacent(rows, cols, p, q),
        neighbors(rows, cols, p).no_duplicates(),
        neighbors(rows, cols, p).len() + 1 == window_size(rows, cols, p),
        neighbors(rows, cols, p).len() <= 8,
{
    let s = neighbors(rows, cols, p);
    let (r, c) = p;
    let up = r > 0;
    let down = r + 1 < rows;
    let left = c > 0;
    let right = c + 1 < cols;
    assert(window_size(rows, cols, p) == span(rows, r as nat) * span(cols, c as nat));
    assert(s.len() + 1 == span(rows, r as nat) * span(cols, c as nat)) by (nonlinear_arith)
        requires
            s.len() == (if left { 1int } else { 0 }) + (if left && up { 1int } else { 0 })
                + (if left && down { 1int } else { 0 }) + (if up { 1int } else { 0 })
                + (if down { 1int } else { 0 }) + (if right { 1int } else { 0 })
                + (if right && up { 1int } else { 0 }) + (if right && down { 1int } else { 0 }),
            span(rows, r as nat) == 1 + (if up { 1int } else { 0 }) + (if down { 1int } else { 0 }),
            span(cols, c as nat) == 1 + (if left { 1int } else { 0 }) + (if right { 1int } else { 0 }),
    ;
    lemma_prefix_is_neighbors(rows, cols, p);
    lemma_prefix_contains(rows, cols, p, 8, p);
    assert forall|q: Pos| s.contains(q) <==> adjacent(rows, cols, p, q) by {
        lemma_prefix_contains(rows, cols, p, 8, q);
        if adjacent(rows, cols, p, q) {
            let dr = q.0 - p.0;
            let dc = q.1 - p.1;
            let i: nat = if dc == -1 {
                if dr == 0 { 0 } else if dr == -1 { 1 } else { 2 }
            } else if dc == 0 {
                if dr == -1 { 3 } else { 4 }
            } else {
                if dr == 0 { 5 } else if dr == -1 { 6 } else { 7 }
            };
            assert(slot_used(rows, cols, p, i) && q == slot(p, i));
        }
    }
}

/// Appending at most one element: what the result holds, and that it stays
/// free of duplicates when the element is new.
proof fn lemma_append_one(a: Seq<Pos>, b: bool, q: Pos)
    ensures
        forall|x: Pos| (a + only_if(b, q)).contains(x) <==> a.contains(x) || (b && x == q),
        a.no_duplicates() && (b ==> !a.contains(q)) ==> (a + only_if(b, q)).no_duplicates(),
        (a + only_if(b, q)).len() == a.len() + (if b { 1int } else { 0 }),
{
    let t = a + only_if(b, q);
    if b {
        assert(t =~= a.push(q));
        assert forall|x: Pos| t.contains(x) <==> a.contains(x) || x == q by {
            if a.contains(x) {
                let i = choose|i: int| 0 <= i < a.len() && a[i] == x;
                assert(t[i] == x);
            }
            if x == q {
                assert(t[a.len() as int] == x);
            }
        }
    } else {
        assert(t =~= a);
    }
}

/// On a grid of at least two rows and two columns a corner cell has 3
/// neighbours, another cell on the border 5, and an inner cell 8; no cell is
/// its own neighbour and every neighbour lies on the grid.
pub proof fn lemma_neighbor_counts(rows: nat, cols: nat, p: Pos)
    requires
        in_grid(rows, cols, p),
        2 <= rows <= usize::MAX,
        2 <= cols <= usize::MAX,
    ensures
        !neighbors(rows, cols, p).contains(p),
        forall|q: Pos| #[trigger] neighbors(rows, cols, p).contains(q) ==> in_grid(rows, cols, q),
        ({
            let row_edge = p.0 == 0 || p.0 + 1 == rows;
            let col_edge = p.1 == 0 || p.1 + 1 == cols;
            &&& row_edge && col_edge ==> neighbors(rows, cols, p).len() == 3
            &&& row_edge != col_edge ==> neighbors(rows, cols, p).len() == 5
            &&& !row_edge && !col_edge ==> neighbors(rows, cols, p).len() == 8
        }),
{
    lemma_neighbors(rows, cols, p);
}

/// The neighbours of `p` on a `rows` by `cols` grid, in the order of `neighbors`.
pub fn neighbors_of(rows: usize, cols: usize, p: Pos) -> (r: Vec<Pos>)
    requires
        in_grid(rows as nat, cols as nat, p),
    ensures
        r@ == neighbors(rows as nat, cols as nat, p),
{
    let (r, c) = p;
    let up = r > 0;
    let down = r < rows - 1;
    let mut n: Vec<Pos> = Vec::new();
    if c > 0 {
        n.push((r, c - 1));
        if up {
            n.push((r - 1, c - 1));
        }
        if down {
            n.push((r + 1, c - 1));
        }
    }
    if up {
        n.push((r - 1, c));
    }
    if down {
        n.push((r + 1, c));
    }
    if c < cols - 1 {
        n.push((r, c + 1));
        if up {
            n.push((r - 1, c + 1));
        }
        if down {
            n.push((r + 1, c + 1));
        }
    }
    assert(n@ =~= neighbors(rows as nat, cols as nat, p));
    n
}

} // verus!
