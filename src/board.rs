//! The mathematical model of the board: rows of present / removed cells,
//! the scans that the cursor follows, and the count of present cells.
use vstd::prelude::*;

verus! {

/// Number of present cells in one row.
pub open spec fn row_present(row: Seq<bool>) -> nat
    decreases row.len(),
{
    if row.len() == 0 {
        0
    } else {
        row_present(row.drop_last()) + if row.last() { 1nat } else { 0nat }
    }
}

/// Number of present cells on the whole board.
pub open spec fn grid_present(g: Seq<Seq<bool>>) -> nat
    decreases g.len(),
{
    if g.len() == 0 {
        0
    } else {
        grid_present(g.drop_last()) + row_present(g.last())
    }
}

/// The row holds at least one present cell.
pub open spec fn has_present(row: Seq<bool>) -> bool {
    exists|j: int| 0 <= j < row.len() && #[trigger] row[j]
}

/// Row `i` of a fresh board of `n` rows has `1 + 2 * i` cells.
pub open spec fn triangular(g: Seq<Seq<bool>>, n: int) -> bool {
    &&& g.len() == n
    &&& forall|i: int| 0 <= i < n ==> (#[trigger] g[i]).len() == 1 + 2 * i
}

/// The nearest present cell strictly left of column `c`.
pub open spec fn prev_present(row: Seq<bool>, c: int) -> Option<int>
    decreases c,
{
    if c <= 0 {
        None
    } else if row[c - 1] {
        Some(c - 1)
    } else {
        prev_present(row, c - 1)
    }
}

/// The nearest present cell strictly right of column `c`.
pub open spec fn next_present(row: Seq<bool>, c: int) -> Option<int>
    decreases row.len() - c,
{
    if c + 1 >= row.len() {
        None
    } else if row[c + 1] {
        Some(c + 1)
    } else {
        next_present(row, c + 1)
    }
}

/// Column after a step to the left: the nearest present cell, or `c` itself.
pub open spec fn left_of(row: Seq<bool>, c: int) -> int {
    match prev_present(row, c) {
        Some(j) => j,
        None => c,
    }
}

/// Column after a step to the right: the nearest present cell, or `c` itself.
pub open spec fn right_of(row: Seq<bool>, c: int) -> int {
    match next_present(row, c) {
        Some(j) => j,
        None => c,
    }
}

/// Column reached on entering a row at column `c`: a step right, then a step left.
pub open spec fn snap(row: Seq<bool>, c: int) -> int {
    left_of(row, right_of(row, c))
}

/// The nearest row above row `r` that holds a present cell.
pub open spec fn row_above(g: Seq<Seq<bool>>, r: int) -> Option<int>
    decreases r,
{
    if r <= 0 {
        None
    } else if has_present(g[r - 1]) {
        Some(r - 1)
    } else {
        row_above(g, r - 1)
    }
}

/// The nearest row below row `r` that holds a present cell.
pub open spec fn row_below(g: Seq<Seq<bool>>, r: int) -> Option<int>
    decreases g.len() - r,
{
    if r + 1 >= g.len() {
        None
    } else if has_present(g[r + 1]) {
        Some(r + 1)
    } else {
        row_below(g, r + 1)
    }
}

pub proof fn lemma_prev_present(row: Seq<bool>, c: int)
    requires
        0 <= c <= row.len(),
    ensures
        match prev_present(row, c) {
            Some(j) => 0 <= j < c && row[j] && forall|k: int| j < k < c ==> !#[trigger] row[k],
            None => forall|k: int| 0 <= k < c ==> !#[trigger] row[k],
        },
    decreases c,
{
    if c > 0 && !row[c - 1] {
        lemma_prev_present(row, c - 1);
    }
}

pub proof fn lemma_next_present(row: Seq<bool>, c: int)
    requires
        0 <= c < row.len(),
    ensures
        match next_present(row, c) {
            Some(j) => c < j < row.len() && row[j] && forall|k: int| c < k < j ==> !#[trigger] row[k],
            None => forall|k: int| c < k < row.len() ==> !#[trigger] row[k],
        },
    decreases row.len() - c,
{
    if c + 1 < row.len() && !row[c + 1] {
        lemma_next_present(row, c + 1);
    }
}

/// Entering a row lands inside it, on a present cell when it has one, and
/// does not move on a row without any.
pub proof fn lemma_snap(row: Seq<bool>, c: int)
    requires
        0 <= c < row.len(),
    ensures
        0 <= snap(row, c) < row.len(),
        has_present(row) ==> row[snap(row, c)],
        !has_present(row) ==> snap(row, c) == c,
{
    lemma_next_present(row, c);
    let c1 = right_of(row, c);
    lemma_prev_present(row, c1);
    if has_present(row) {
        let w = choose|j: int| 0 <= j < row.len() && #[trigger] row[j];
        if next_present(row, c) is None && prev_present(row, c1) is None {
            assert(row[w] && w == c);
        }
    } else {
        if let Some(j) = next_present(row, c) {
            assert(row[j]);
        }
        if let Some(j) = prev_present(row, c1) {
            assert(row[j]);
        }
    }
}

pub proof fn lemma_row_above(g: Seq<Seq<bool>>, r: int)
    requires
        0 <= r <= g.len(),
    ensures
        match row_above(g, r) {
            Some(x) => 0 <= x < r && has_present(g[x]),
            None => forall|k: int| 0 <= k < r ==> !has_present(#[trigger] g[k]),
        },
    decreases r,
{
    if r > 0 && !has_present(g[r - 1]) {
        lemma_row_above(g, r - 1);
    }
}

pub proof fn lemma_row_below(g: Seq<Seq<bool>>, r: int)
    requires
        0 <= r < g.len(),
    ensures
        match row_below(g, r) {
            Some(x) => r < x < g.len() && has_present(g[x]),
            None => forall|k: int| r < k < g.len() ==> !has_present(#[trigger] g[k]),
        },
    decreases g.len() - r,
{
    if r + 1 < g.len() && !has_present(g[r + 1]) {
        lemma_row_below(g, r + 1);
    }
}

/// Removing a present cell lowers the row's count by one.
pub proof fn lemma_row_remove(row: Seq<bool>, c: int)
    requires
        0 <= c < row.len(),
        row[c],
    ensures
        row_present(row.update(c, false)) + 1 == row_present(row),
    decreases row.len(),
{
    let u = row.update(c, false);
    if c == row.len() - 1 {
        assert(u.drop_last() =~= row.drop_last());
    } else {
        assert(u.drop_last() =~= row.drop_last().update(c, false));
        lemma_row_remove(row.drop_last(), c);
    }
}

/// Replacing one row changes the board's count by the difference of the rows' counts.
pub proof fn lemma_grid_replace(g: Seq<Seq<bool>>, r: int, row: Seq<bool>)
    requires
        0 <= r < g.len(),
    ensures
        grid_present(g.update(r, row)) + row_present(g[r]) == grid_present(g) + row_present(row),
    decreases g.len(),
{
    let u = g.update(r, row);
    if r == g.len() - 1 {
        assert(u.drop_last() =~= g.drop_last());
    } else {
        assert(u.drop_last() =~= g.drop_last().update(r, row));
        lemma_grid_replace(g.drop_last(), r, row);
    }
}

/// A row's count is positive exactly when it has a present cell.
pub proof fn lemma_row_count_pos(row: Seq<bool>)
    ensures
        row_present(row) > 0 <==> has_present(row),
    decreases row.len(),
{
    if row.len() > 0 {
        let d = row.drop_last();
        lemma_row_count_pos(d);
        if has_present(d) {
            let w = choose|j: int| 0 <= j < d.len() && #[trigger] d[j];
            assert(row[w]);
        }
        if has_present(row) && !row.last() {
            let w = choose|j: int| 0 <= j < row.len() && #[trigger] row[j];
            assert(d[w]);
        }
    }
}

/// The board's count is positive exactly when some row has a present cell.
pub proof fn lemma_grid_count_pos(g: Seq<Seq<bool>>)
    ensures
        grid_present(g) > 0 <==> exists|i: int| 0 <= i < g.len() && has_present(#[trigger] g[i]),
    decreases g.len(),
{
    if g.len() > 0 {
        let d = g.drop_last();
        lemma_grid_count_pos(d);
        lemma_row_count_pos(g.last());
        if exists|i: int| 0 <= i < d.len() && has_present(#[trigger] d[i]) {
            let w = choose|i: int| 0 <= i < d.len() && has_present(#[trigger] d[i]);
            assert(has_present(g[w]));
        }
        if (exists|i: int| 0 <= i < g.len() && has_present(#[trigger] g[i])) && !has_present(
            g.last(),
        ) {
            let w = choose|i: int| 0 <= i < g.len() && has_present(#[trigger] g[i]);
            assert(has_present(d[w]));
        }
    }
}

/// A row with every cell present counts all of them.
pub proof fn lemma_row_full(row: Seq<bool>)
    requires
        forall|j: int| 0 <= j < row.len() ==> #[trigger] row[j],
    ensures
        row_present(row) == row.len(),
    decreases row.len(),
{
    if row.len() > 0 {
        lemma_row_full(row.drop_last());
    }
}

/// A full board of `n` rows holds `n * n` cells.
pub proof fn lemma_grid_full(g: Seq<Seq<bool>>, n: int)
    requires
        triangular(g, n),
        forall|i: int, j: int| 0 <= i < g.len() && 0 <= j < g[i].len() ==> #[trigger] g[i][j],
    ensures
        grid_present(g) == n * n,
    decreases g.len(),
{
    if n > 0 {
        let d = g.drop_last();
        assert(triangular(d, n - 1));
        lemma_grid_full(d, n - 1);
        assert(g.last().len() == 2 * (n - 1) + 1);
        lemma_row_full(g.last());
        assert(grid_present(g) == grid_present(d) + row_present(g.last()));
        assert(n * n == (n - 1) * (n - 1) + 2 * (n - 1) + 1) by (nonlinear_arith);
    } else {
        assert(n * n == 0) by (nonlinear_arith)
            requires
                n == 0,
        ;
    }
}

/// A prefix of a row counts no more than the row.
pub proof fn lemma_row_prefix(row: Seq<bool>, j: int)
    requires
        0 <= j <= row.len(),
    ensures
        row_present(row.subrange(0, j)) <= row_present(row),
    decreases row.len(),
{
    if j < row.len() {
        assert(row.drop_last().subrange(0, j) =~= row.subrange(0, j));
        lemma_row_prefix(row.drop_last(), j);
    } else {
        assert(row.subrange(0, j) =~= row);
    }
}

/// A prefix of the board counts no more than the board.
pub proof fn lemma_grid_prefix(g: Seq<Seq<bool>>, i: int)
    requires
        0 <= i <= g.len(),
    ensures
        grid_present(g.subrange(0, i)) <= grid_present(g),
    decreases g.len(),
{
    if i < g.len() {
        assert(g.drop_last().subrange(0, i) =~= g.subrange(0, i));
        lemma_grid_prefix(g.drop_last(), i);
    } else {
        assert(g.subrange(0, i) =~= g);
    }
}

/// Cursor after a step left from `p = (row, column)`.
pub open spec fn step_left(g: Seq<Seq<bool>>, p: (int, int)) -> (int, int) {
    (p.0, left_of(g[p.0], p.1))
}

/// Cursor after a step right.
pub open spec fn step_right(g: Seq<Seq<bool>>, p: (int, int)) -> (int, int) {
    (p.0, right_of(g[p.0], p.1))
}

/// Cursor after a step down: to the nearest lower row with a present cell,
/// then onto a present cell of it; no move when no lower row has one.
pub open spec fn step_down(g: Seq<Seq<bool>>, p: (int, int)) -> (int, int) {
    match row_below(g, p.0) {
        Some(x) => (x, snap(g[x], p.1)),
        None => p,
    }
}

/// Cursor after a step up: to the nearest upper row with a present cell, with
/// the column cut to that row's last one, then onto a present cell of it; no
/// move when no upper row has one.
pub open spec fn step_up(g: Seq<Seq<bool>>, p: (int, int)) -> (int, int) {
    match row_above(g, p.0) {
        Some(x) => {
            let c = if p.1 > g[x].len() - 1 {
                g[x].len() - 1
            } else {
                p.1
            };
            (x, snap(g[x], c))
        },
        None => p,
    }
}

/// Cursor after its cell was removed: the first of a step left, right, down
/// and up that moves it, or the last of them.
pub open spec fn snap_after_removal(g: Seq<Seq<bool>>, p: (int, int)) -> (int, int) {
    if step_left(g, p) != p {
        step_left(g, p)
    } else if step_right(g, p) != p {
        step_right(g, p)
    } else if step_down(g, p) != p {
        step_down(g, p)
    } else {
        step_up(g, p)
    }
}

/// The position lies on the board.
pub open spec fn on_board(g: Seq<Seq<bool>>, p: (int, int)) -> bool {
    0 <= p.0 < g.len() && 0 <= p.1 < g[p.0].len()
}

/// Each step stays on the board; from a present cell it reaches a present cell.
pub proof fn lemma_steps(g: Seq<Seq<bool>>, p: (int, int))
    requires
        triangular(g, g.len() as int),
        on_board(g, p),
    ensures
        on_board(g, step_left(g, p)),
        on_board(g, step_right(g, p)),
        on_board(g, step_down(g, p)),
        on_board(g, step_up(g, p)),
        g[p.0][p.1] ==> {
            let (l, r, d, u) = (step_left(g, p), step_right(g, p), step_down(g, p), step_up(g, p));
            g[l.0][l.1] && g[r.0][r.1] && g[d.0][d.1] && g[u.0][u.1]
        },
{
    let row = g[p.0];
    lemma_prev_present(row, p.1);
    lemma_next_present(row, p.1);
    lemma_row_below(g, p.0);
    lemma_row_above(g, p.0);
    let rd = match row_below(g, p.0) {
        Some(x) => x,
        None => p.0,
    };
    assert(g[rd].len() >= row.len());
    lemma_snap(g[rd], p.1);
    let ru = match row_above(g, p.0) {
        Some(x) => x,
        None => p.0,
    };
    let cu = if p.1 > g[ru].len() - 1 {
        g[ru].len() - 1
    } else {
        p.1
    };
    assert(g[ru].len() >= 1);
    lemma_snap(g[ru], cu);
    if g[p.0][p.1] {
        assert(has_present(row));
    }
}

/// After a removal the cursor stays on the board, and rests on a present
/// cell whenever the board still has one.
pub proof fn lemma_snap_after_removal(g: Seq<Seq<bool>>, p: (int, int))
    requires
        triangular(g, g.len() as int),
        on_board(g, p),
        !g[p.0][p.1],
    ensures
        on_board(g, snap_after_removal(g, p)),
        grid_present(g) > 0 ==> {
            let q = snap_after_removal(g, p);
            g[q.0][q.1]
        },
{
    lemma_steps(g, p);
    let row = g[p.0];
    lemma_prev_present(row, p.1);
    lemma_next_present(row, p.1);
    lemma_row_below(g, p.0);
    lemma_row_above(g, p.0);
    lemma_grid_count_pos(g);
    if grid_present(g) > 0 {
        let i = choose|i: int| 0 <= i < g.len() && has_present(#[trigger] g[i]);
        if step_left(g, p) == p && step_right(g, p) == p {
            assert(!has_present(row)) by {
                if has_present(row) {
                    let w = choose|j: int| 0 <= j < row.len() && #[trigger] row[j];
                    assert(row[w]);
                }
            }
            if step_down(g, p) != p {
                let q = step_down(g, p);
                lemma_snap(g[q.0], p.1);
            } else {
                assert(row_below(g, p.0) is None) by {
                    if let Some(x) = row_below(g, p.0) {
                        assert(x != p.0);
                    }
                }
                assert(i < p.0);
                let x = row_above(g, p.0)->Some_0;
                assert(g[x].len() >= 1);
                let c = if p.1 > g[x].len() - 1 {
                    g[x].len() - 1
                } else {
                    p.1
                };
                lemma_snap(g[x], c);
            }
        }
    }
}

} // verus!
