//! The local-search solver: greedy cell flips with random overrides,
//! alternating between rows and columns until every line meets its target.

use vstd::prelude::*;
use crate::board::{
    bad_cols, bad_rows, bounded_target, cells, col_diff, col_score, column, get_bad_cols,
    get_bad_rows, lemma_score_bound, puzzle, row_score, signatures, Board, LIMIT,
};
use crate::encode::{encode, ints, row_diff, score};
use crate::random::{lcg_next, Lcg};

verus! {

/// Chance, in thousandths, that a repair flips a random cell of its line
/// instead of the best one.
pub const REPAIR_OVERRIDE: usize = 100;

/// Chance, in thousandths, that a step repairs a random line instead of one
/// that misses its target.
pub const PICK_OVERRIDE: usize = 100;

/// `g` with the cell at row `r`, column `c` inverted.
pub open spec fn flip(g: Seq<Seq<bool>>, r: int, c: int) -> Seq<Seq<bool>> {
    g.update(r, g[r].update(c, !g[r][c]))
}

/// The penalties of row `r` and column `c` together.
pub open spec fn cross_score(g: Seq<Seq<bool>>, r: int, c: int, trow: Seq<int>, tcol: Seq<int>) -> int {
    score(encode(g[r]), trow) + score(encode(column(g, c)), tcol)
}

/// How much flipping the cell at `(r, c)` lowers the penalties of its row
/// and its column.
pub open spec fn improvement_of(g: Seq<Seq<bool>>, r: int, c: int, trow: Seq<int>, tcol: Seq<int>) -> int {
    cross_score(g, r, c, trow, tcol) - cross_score(flip(g, r, c), r, c, trow, tcol)
}

/// A rectangular grid of `rows` by `n` cells within `LIMIT`.
pub open spec fn rectangle(g: Seq<Seq<bool>>, n: int) -> bool {
    &&& 1 <= g.len() <= LIMIT
    &&& 1 <= n <= LIMIT
    &&& forall|i: int| 0 <= i < g.len() ==> (#[trigger] g[i]).len() == n
}

proof fn lemma_flip_rectangle(g: Seq<Seq<bool>>, n: int, r: int, c: int)
    requires
        rectangle(g, n),
        0 <= r < g.len(),
        0 <= c < n,
    ensures
        rectangle(flip(g, r, c), n),
        flip(flip(g, r, c), r, c) == g,
{
    let f = flip(g, r, c);
    assert forall|i: int| 0 <= i < f.len() implies (#[trigger] f[i]).len() == n by {
        if i != r {
            assert(f[i] == g[i]);
        }
    }
    assert(flip(f, r, c)[r] =~= g[r]);
    assert(flip(f, r, c) =~= g);
}

/// How much flipping the cell at `(row_n, col_n)` lowers the penalties of its
/// row and its column; the board is left as it was.
pub fn improvement(
    board: &mut Board,
    row_n: usize,
    col_n: usize,
    target_row: &Vec<usize>,
    target_col: &Vec<usize>,
) -> (r: isize)
    requires
        old(board)@.len() >= 1,
        rectangle(cells(old(board)), old(board)@[0]@.len() as int),
        row_n < old(board)@.len(),
        col_n < old(board)@[0]@.len(),
        bounded_target(ints(target_row@)),
        bounded_target(ints(target_col@)),
    ensures
        cells(final(board)) == cells(old(board)),
        r == improvement_of(cells(old(board)), row_n as int, col_n as int, ints(target_row@), ints(target_col@)),
{
    let ghost g = cells(board);
    let ghost n = g[0].len() as int;
    proof {
        lemma_score_bound(g[row_n as int], ints(target_row@));
        lemma_score_bound(column(g, col_n as int), ints(target_col@));
        lemma_flip_rectangle(g, n, row_n as int, col_n as int);
        let f = flip(g, row_n as int, col_n as int);
        lemma_score_bound(f[row_n as int], ints(target_row@));
        lemma_score_bound(column(f, col_n as int), ints(target_col@));
    }
    let a: isize = row_diff(&board[row_n], target_row) as isize + col_diff(board, col_n, target_col) as isize;
    flip_cell(board, row_n, col_n);
    let b: isize = row_diff(&board[row_n], target_row) as isize + col_diff(board, col_n, target_col) as isize;
    flip_cell(board, row_n, col_n);
    a - b
}

/// The index and the state that a repair picks: with the first draw below
/// `per_mille` thousandths, the second draw modulo `n`; else `default`.
pub open spec fn choose_spec(s: int, default: int, n: int, per_mille: int) -> (int, int) {
    let s1 = lcg_next(s);
    if s1 % 1000 < per_mille {
        let s2 = lcg_next(s1);
        (s2 % n, s2)
    } else {
        (default, s1)
    }
}

/// Over the columns below `m` of row `r`, the first column whose flip has
/// the greatest positive improvement, with that improvement; `(0, 0)` when
/// no flip improves.
pub open spec fn best_col(g: Seq<Seq<bool>>, tr: Seq<Seq<int>>, tc: Seq<Seq<int>>, r: int, m: nat) -> (int, int)
    decreases m,
{
    if m == 0 {
        (0, 0)
    } else {
        let p = best_col(g, tr, tc, r, (m - 1) as nat);
        let x = improvement_of(g, r, m - 1, tr[r], tc[m - 1]);
        if x > p.1 { (m - 1, x) } else { p }
    }
}

/// Over the rows below `m` of column `c`, the first row whose flip has the
/// greatest positive improvement, with that improvement; `(0, 0)` when no
/// flip improves.
pub open spec fn best_row(g: Seq<Seq<bool>>, tr: Seq<Seq<int>>, tc: Seq<Seq<int>>, c: int, m: nat) -> (int, int)
    decreases m,
{
    if m == 0 {
        (0, 0)
    } else {
        let p = best_row(g, tr, tc, c, (m - 1) as nat);
        let x = improvement_of(g, m - 1, c, tr[m - 1], tc[c]);
        if x > p.1 { (m - 1, x) } else { p }
    }
}

/// The grid and generator state after repairing row `r` from state `s`.
pub open spec fn fix_row_spec(g: Seq<Seq<bool>>, tr: Seq<Seq<int>>, tc: Seq<Seq<int>>, r: int, s: int) -> (Seq<Seq<bool>>, int) {
    let n = tc.len() as int;
    let pick = choose_spec(s, best_col(g, tr, tc, r, n as nat).0, n, REPAIR_OVERRIDE as int);
    (flip(g, r, pick.0), pick.1)
}

/// The grid and generator state after repairing column `c` from state `s`.
pub open spec fn fix_col_spec(g: Seq<Seq<bool>>, tr: Seq<Seq<int>>, tc: Seq<Seq<int>>, c: int, s: int) -> (Seq<Seq<bool>>, int) {
    let n = g.len() as int;
    let pick = choose_spec(s, best_row(g, tr, tc, c, n as nat).0, n, REPAIR_OVERRIDE as int);
    (flip(g, pick.0, c), pick.1)
}

proof fn lemma_best_col_range(g: Seq<Seq<bool>>, tr: Seq<Seq<int>>, tc: Seq<Seq<int>>, r: int, m: nat)
    ensures
        0 <= best_col(g, tr, tc, r, m).0 <= if m == 0 { 0 } else { m - 1 },
        best_col(g, tr, tc, r, m).1 >= 0,
    decreases m,
{
    if m > 0 {
        lemma_best_col_range(g, tr, tc, r, (m - 1) as nat);
    }
}

proof fn lemma_best_row_range(g: Seq<Seq<bool>>, tr: Seq<Seq<int>>, tc: Seq<Seq<int>>, c: int, m: nat)
    ensures
        0 <= best_row(g, tr, tc, c, m).0 <= if m == 0 { 0 } else { m - 1 },
        best_row(g, tr, tc, c, m).1 >= 0,
    decreases m,
{
    if m > 0 {
        lemma_best_row_range(g, tr, tc, c, (m - 1) as nat);
    }
}

proof fn lemma_puzzle_rectangle(g: Seq<Seq<bool>>, tr: Seq<Seq<int>>, tc: Seq<Seq<int>>)
    requires
        puzzle(g, tr, tc),
    ensures
        rectangle(g, tc.len() as int),
        g[0].len() == tc.len(),
{
}

/// Flipping a cell keeps a puzzle a puzzle.
proof fn lemma_flip_puzzle(g: Seq<Seq<bool>>, tr: Seq<Seq<int>>, tc: Seq<Seq<int>>, r: int, c: int)
    requires
        puzzle(g, tr, tc),
        0 <= r < g.len(),
        0 <= c < tc.len(),
    ensures
        puzzle(flip(g, r, c), tr, tc),
{
    let f = flip(g, r, c);
    assert forall|i: int| 0 <= i < f.len() implies (#[trigger] f[i]).len() == tc.len() by {
        if i != r {
            assert(f[i] == g[i]);
        }
    }
}

/// Once every row and column meets its target, the search stops at the
/// next step, whichever step that is, without changing the grid or drawing
/// from the generator.
pub proof fn lemma_converged_stops(g: Seq<Seq<bool>>, tr: Seq<Seq<int>>, tc: Seq<Seq<int>>, s: int, step: nat, budget: nat)
    requires
        solved(g, tr, tc),
        budget > 0,
    ensures
        run_spec(g, tr, tc, s, step, budget) == (g, s, true),
{
    reveal(step_spec);
    lemma_bad_rows(g, tr, g.len());
    lemma_bad_cols(g, tc, tc.len());
}

/// Inverts the cell at row `r`, column `c`.
fn flip_cell(board: &mut Board, r: usize, c: usize)
    requires
        r < old(board)@.len(),
        c < cells(old(board))[r as int].len(),
    ensures
        cells(final(board)) == flip(cells(old(board)), r as int, c as int),
{
    let ghost g = cells(board);
    let cell = board[r][c];
    board[r][c] = !cell;
    assert(cells(board) =~= flip(g, r as int, c as int)) by {
        assert(cells(board)[r as int] =~= flip(g, r as int, c as int)[r as int]);
    }
}

/// With the first draw below `per_mille` thousandths, a second draw picks an
/// index below `n`; else the index is `default`.
pub fn choose_repair_target(rng: &mut Lcg, default: usize, n: usize, per_mille: usize) -> (r: usize)
    requires
        default < n,
    ensures
        (r as int, final(rng)@) == choose_spec(old(rng)@, default as int, n as int, per_mille as int),
        r < n,
{
    let first = rng.next_random();
    if first % 1000 < per_mille {
        let second = rng.next_random();
        second % n
    } else {
        default
    }
}

/// Repairs row `row_n`: flips the cell whose flip lowers the penalties of
/// the row and its column the most (column 0 when none does), or, with
/// chance `REPAIR_OVERRIDE` in a thousand, a random cell of the row.
pub fn fix_row(
    board: &mut Board,
    row_n: usize,
    target_rows: &Vec<Vec<usize>>,
    target_cols: &Vec<Vec<usize>>,
    rng: &mut Lcg,
)
    requires
        puzzle(cells(old(board)), signatures(target_rows@), signatures(target_cols@)),
        row_n < old(board)@.len(),
    ensures
        (cells(final(board)), final(rng)@) == fix_row_spec(
            cells(old(board)),
            signatures(target_rows@),
            signatures(target_cols@),
            row_n as int,
            old(rng)@,
        ),
        puzzle(cells(final(board)), signatures(target_rows@), signatures(target_cols@)),
{
    let ghost g = cells(board);
    let ghost tr = signatures(target_rows@);
    let ghost tc = signatures(target_cols@);
    proof {
        lemma_puzzle_rectangle(g, tr, tc);
    }
    assert(g[row_n as int].len() == tc.len());
    let n = board[row_n].len();
    let mut max_imp: isize = 0;
    let mut max_col_n: usize = 0;
    let mut col_n: usize = 0;
    while col_n < n
        invariant
            cells(board) == g,
            tr == signatures(target_rows@),
            tc == signatures(target_cols@),
            puzzle(g, tr, tc),
            rectangle(g, n as int),
            g[0].len() == n,
            n == tc.len(),
            row_n < g.len(),
            target_rows@.len() == g.len(),
            target_cols@.len() == n,
            col_n <= n,
            (max_col_n as int, max_imp as int) == best_col(g, tr, tc, row_n as int, col_n as nat),
        decreases n - col_n,
    {
        assert(bounded_target(tr[row_n as int]) && bounded_target(tc[col_n as int]));
        let imp = improvement(board, row_n, col_n, &target_rows[row_n], &target_cols[col_n]);
        if imp > max_imp {
            max_imp = imp;
            max_col_n = col_n;
        }
        col_n = col_n + 1;
    }
    proof {
        lemma_best_col_range(g, tr, tc, row_n as int, n as nat);
    }
    let c = choose_repair_target(rng, max_col_n, n, REPAIR_OVERRIDE);
    flip_cell(board, row_n, c);
    proof {
        lemma_flip_puzzle(g, tr, tc, row_n as int, c as int);
    }
}

/// Repairs column `col_n`: flips the cell whose flip lowers the penalties of
/// the column and its row the most (row 0 when none does), or, with chance
/// `REPAIR_OVERRIDE` in a thousand, a random cell of the column.
pub fn fix_col(
    board: &mut Board,
    col_n: usize,
    target_rows: &Vec<Vec<usize>>,
    target_cols: &Vec<Vec<usize>>,
    rng: &mut Lcg,
)
    requires
        puzzle(cells(old(board)), signatures(target_rows@), signatures(target_cols@)),
        col_n < target_cols@.len(),
    ensures
        (cells(final(board)), final(rng)@) == fix_col_spec(
            cells(old(board)),
            signatures(target_rows@),
            signatures(target_cols@),
            col_n as int,
            old(rng)@,
        ),
        puzzle(cells(final(board)), signatures(target_rows@), signatures(target_cols@)),
{
    let ghost g = cells(board);
    let ghost tr = signatures(target_rows@);
    let ghost tc = signatures(target_cols@);
    proof {
        lemma_puzzle_rectangle(g, tr, tc);
    }
    let n = board.len();
    let mut max_imp: isize = 0;
    let mut max_row_n: usize = 0;
    let mut row_n: usize = 0;
    while row_n < n
        invariant
            cells(board) == g,
            tr == signatures(target_rows@),
            tc == signatures(target_cols@),
            puzzle(g, tr, tc),
            rectangle(g, tc.len() as int),
            g[0].len() == tc.len(),
            n == g.len(),
            col_n < tc.len(),
            target_rows@.len() == n,
            target_cols@.len() == tc.len(),
            row_n <= n,
            (max_row_n as int, max_imp as int) == best_row(g, tr, tc, col_n as int, row_n as nat),
        decreases n - row_n,
    {
        assert(bounded_target(tr[row_n as int]) && bounded_target(tc[col_n as int]));
        let imp = improvement(board, row_n, col_n, &target_rows[row_n], &target_cols[col_n]);
        if imp > max_imp {
            max_imp = imp;
            max_row_n = row_n;
        }
        row_n = row_n + 1;
    }
    proof {
        lemma_best_row_range(g, tr, tc, col_n as int, n as nat);
    }
    let r = choose_repair_target(rng, max_row_n, n, REPAIR_OVERRIDE);
    assert(g[r as int].len() == tc.len());
    flip_cell(board, r, col_n);
    proof {
        lemma_flip_puzzle(g, tr, tc, r as int, col_n as int);
    }
}

/// Where the search stands.
#[derive(Debug, Clone, Copy, PartialEq, Eq, Structural)]
pub enum SolveState {
    /// Some row or column still misses its target.
    Searching,
    /// Every row and column meets its target; no step follows.
    Converged,
}

/// Every row and every column of `g` meets its target.
pub open spec fn solved(g: Seq<Seq<bool>>, tr: Seq<Seq<int>>, tc: Seq<Seq<int>>) -> bool {
    &&& forall|r: int| 0 <= r < g.len() ==> #[trigger] row_score(g, tr, r) == 0
    &&& forall|c: int| 0 <= c < tc.len() ==> #[trigger] col_score(g, tc, c) == 0
}

/// Step number `step` of the search from grid `g` and generator state `s`:
/// the grid and state after it, and whether the search has converged. An
/// even step repairs a row that misses its target, an odd step a column;
/// with none to repair it converges if the other kind has none either, and
/// else does nothing.
#[verifier::opaque]
pub open spec fn step_spec(g: Seq<Seq<bool>>, tr: Seq<Seq<int>>, tc: Seq<Seq<int>>, s: int, step: int) -> (Seq<Seq<bool>>, int, bool) {
    if step % 2 == 0 {
        let bad = bad_rows(g, tr, g.len());
        if bad.len() == 0 {
            (g, s, bad_cols(g, tc, tc.len()).len() == 0)
        } else {
            let s1 = lcg_next(s);
            let pick = choose_spec(s1, bad[s1 % (bad.len() as int)], g.len() as int, PICK_OVERRIDE as int);
            let f = fix_row_spec(g, tr, tc, pick.0, pick.1);
            (f.0, f.1, false)
        }
    } else {
        let bad = bad_cols(g, tc, tc.len());
        if bad.len() == 0 {
            (g, s, bad_rows(g, tr, g.len()).len() == 0)
        } else {
            let s1 = lcg_next(s);
            let pick = choose_spec(s1, bad[s1 % (bad.len() as int)], tc.len() as int, PICK_OVERRIDE as int);
            let f = fix_col_spec(g, tr, tc, pick.0, pick.1);
            (f.0, f.1, false)
        }
    }
}

/// The search run for at most `budget` steps after step number `step`: the
/// final grid and state, and whether it converged.
pub open spec fn run_spec(g: Seq<Seq<bool>>, tr: Seq<Seq<int>>, tc: Seq<Seq<int>>, s: int, step: nat, budget: nat) -> (Seq<Seq<bool>>, int, bool)
    decreases budget,
{
    if budget == 0 {
        (g, s, false)
    } else {
        let t = step_spec(g, tr, tc, s, step + 1int);
        if t.2 { t } else { run_spec(t.0, tr, tc, t.1, step + 1, (budget - 1) as nat) }
    }
}

proof fn lemma_bad_rows(g: Seq<Seq<bool>>, tr: Seq<Seq<int>>, m: nat)
    ensures
        forall|i: int| 0 <= i < bad_rows(g, tr, m).len() ==> 0 <= #[trigger] bad_rows(g, tr, m)[i] < m,
        bad_rows(g, tr, m).len() == 0 <==> forall|r: int| 0 <= r < m ==> #[trigger] row_score(g, tr, r) == 0,
    decreases m,
{
    if m > 0 {
        lemma_bad_rows(g, tr, (m - 1) as nat);
        if bad_rows(g, tr, m).len() == 0 {
            assert forall|r: int| 0 <= r < m implies #[trigger] row_score(g, tr, r) == 0 by {
                if r < m - 1 {
                    assert(row_score(g, tr, r) == 0);
                }
            }
        }
    }
}

/// A step that converges leaves a solved grid.
proof fn lemma_step_converged(g: Seq<Seq<bool>>, tr: Seq<Seq<int>>, tc: Seq<Seq<int>>, s: int, step: int)
    requires
        step_spec(g, tr, tc, s, step).2,
    ensures
        step_spec(g, tr, tc, s, step).0 == g,
        solved(g, tr, tc),
{
    reveal(step_spec);
    lemma_bad_rows(g, tr, g.len());
    lemma_bad_cols(g, tc, tc.len());
}

/// A step depends on its number only through its parity.
proof fn lemma_step_parity(g: Seq<Seq<bool>>, tr: Seq<Seq<int>>, tc: Seq<Seq<int>>, s: int, step: int)
    requires
        step >= 0,
    ensures
        step_spec(g, tr, tc, s, step) == step_spec(g, tr, tc, s, step % 2),
{
    reveal(step_spec);
}

proof fn lemma_bad_cols(g: Seq<Seq<bool>>, tc: Seq<Seq<int>>, m: nat)
    ensures
        forall|i: int| 0 <= i < bad_cols(g, tc, m).len() ==> 0 <= #[trigger] bad_cols(g, tc, m)[i] < m,
        bad_cols(g, tc, m).len() == 0 <==> forall|c: int| 0 <= c < m ==> #[trigger] col_score(g, tc, c) == 0,
    decreases m,
{
    if m > 0 {
        lemma_bad_cols(g, tc, (m - 1) as nat);
        if bad_cols(g, tc, m).len() == 0 {
            assert forall|c: int| 0 <= c < m implies #[trigger] col_score(g, tc, c) == 0 by {
                if c < m - 1 {
                    assert(col_score(g, tc, c) == 0);
                }
            }
        }
    }
}

/// An even step: repairs a row that misses its target, picked at random
/// (or, with chance `PICK_OVERRIDE` in a thousand, any row); with no such
/// row, reports whether every column meets its target.
fn row_step(
    board: &mut Board,
    target_rows: &Vec<Vec<usize>>,
    target_cols: &Vec<Vec<usize>>,
    rng: &mut Lcg,
) -> (done: bool)
    requires
        puzzle(cells(old(board)), signatures(target_rows@), signatures(target_cols@)),
    ensures
        (cells(final(board)), final(rng)@, done) == step_spec(
            cells(old(board)),
            signatures(target_rows@),
            signatures(target_cols@),
            old(rng)@,
            0,
        ),
        puzzle(cells(final(board)), signatures(target_rows@), signatures(target_cols@)),
{
    let ghost g = cells(board);
    let ghost tr = signatures(target_rows@);
    proof {
        reveal(step_spec);
        lemma_bad_rows(g, tr, g.len());
    }
    let bad_rows = get_bad_rows(board, target_rows);
    if bad_rows.len() == 0 {
        get_bad_cols(board, target_cols).len() == 0
    } else {
        let i = rng.next_random() % bad_rows.len();
        assert(ints(bad_rows@)[i as int] == bad_rows@[i as int] as int);
        let row = choose_repair_target(rng, bad_rows[i], board.len(), PICK_OVERRIDE);
        fix_row(board, row, target_rows, target_cols, rng);
        false
    }
}

/// An odd step: repairs a column that misses its target, picked at random
/// (or, with chance `PICK_OVERRIDE` in a thousand, any column); with no such
/// column, reports whether every row meets its target.
fn col_step(
    board: &mut Board,
    target_rows: &Vec<Vec<usize>>,
    target_cols: &Vec<Vec<usize>>,
    rng: &mut Lcg,
) -> (done: bool)
    requires
        puzzle(cells(old(board)), signatures(target_rows@), signatures(target_cols@)),
    ensures
        (cells(final(board)), final(rng)@, done) == step_spec(
            cells(old(board)),
            signatures(target_rows@),
            signatures(target_cols@),
            old(rng)@,
            1,
        ),
        puzzle(cells(final(board)), signatures(target_rows@), signatures(target_cols@)),
{
    let ghost g = cells(board);
    let ghost tc = signatures(target_cols@);
    proof {
        reveal(step_spec);
        lemma_bad_cols(g, tc, tc.len());
    }
    let bad_cols = get_bad_cols(board, target_cols);
    if bad_cols.len() == 0 {
        get_bad_rows(board, target_rows).len() == 0
    } else {
        let i = rng.next_random() % bad_cols.len();
        assert(ints(bad_cols@)[i as int] == bad_cols@[i as int] as int);
        let col = choose_repair_target(rng, bad_cols[i], target_cols.len(), PICK_OVERRIDE);
        fix_col(board, col, target_rows, target_cols, rng);
        false
    }
}

/// Runs the search on `board` for at most `max_steps` steps, drawing from
/// `rng`, and stops as soon as every row and column meets its target.
pub fn play(
    board: &mut Board,
    target_rows: &Vec<Vec<usize>>,
    target_cols: &Vec<Vec<usize>>,
    rng: &mut Lcg,
    max_steps: usize,
) -> (r: SolveState)
    requires
        puzzle(cells(old(board)), signatures(target_rows@), signatures(target_cols@)),
    ensures
        (cells(final(board)), final(rng)@, r == SolveState::Converged) == run_spec(
            cells(old(board)),
            signatures(target_rows@),
            signatures(target_cols@),
            old(rng)@,
            0,
            max_steps as nat,
        ),
        r == SolveState::Converged ==> solved(cells(final(board)), signatures(target_rows@), signatures(target_cols@)),
        puzzle(cells(final(board)), signatures(target_rows@), signatures(target_cols@)),
{
    let ghost tr = signatures(target_rows@);
    let ghost tc = signatures(target_cols@);
    let ghost whole = run_spec(cells(board), tr, tc, rng@, 0, max_steps as nat);
    let mut step: usize = 0;
    while step < max_steps
        invariant
            tr == signatures(target_rows@),
            tc == signatures(target_cols@),
            puzzle(cells(board), tr, tc),
            step <= max_steps,
            whole == run_spec(cells(old(board)), tr, tc, old(rng)@, 0, max_steps as nat),
            whole == run_spec(cells(board), tr, tc, rng@, step as nat, (max_steps - step) as nat),
        decreases max_steps - step,
    {
        let ghost g = cells(board);
        let ghost s = rng@;
        let ghost k = step as nat;
        let ghost t = step_spec(g, tr, tc, s, k + 1int);
        assert(whole == if t.2 { t } else { run_spec(t.0, tr, tc, t.1, k + 1, (max_steps - k - 1) as nat) });
        step = step + 1;
        let done = if step % 2 == 0 {
            row_step(board, target_rows, target_cols, rng)
        } else {
            col_step(board, target_rows, target_cols, rng)
        };
        proof {
            lemma_step_parity(g, tr, tc, s, step as int);
        }
        if done {
            proof {
                lemma_step_converged(g, tr, tc, s, step as int);
            }
            return SolveState::Converged;
        }
    }
    SolveState::Searching
}

} // verus!
