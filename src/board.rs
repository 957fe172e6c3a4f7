//! Boards of boolean cells, the penalties of their rows and columns, and the
//! bound under which every penalty fits in a machine word.

use vstd::prelude::*;
use crate::random::{lcg_iter, Lcg};
use crate::encode::{encode, ints, row_diff, score, score_upto, entry, lemma_score_upto_nonneg_mono};

verus! {

/// A board: a sequence of rows of cells, `true` for a filled cell.
pub type Board = Vec<Vec<bool>>;

/// The largest board side, signature length and target run length that the
/// solver takes. Every penalty is then at most `LIMIT` cubed, and the sum of
/// two penalties fits in an `isize` on every target.
pub const LIMIT: usize = 1000;

/// The cells of `b`, row by row.
pub open spec fn cells(b: &Board) -> Seq<Seq<bool>> {
    b@.map_values(|row: Vec<bool>| row@)
}

spec fn cells_of(rows: Seq<Vec<bool>>) -> Seq<Seq<bool>> {
    rows.map_values(|row: Vec<bool>| row@)
}

/// Column `c` of grid `g`, top to bottom.
pub open spec fn column(g: Seq<Seq<bool>>, c: int) -> Seq<bool> {
    Seq::new(g.len(), |r: int| g[r][c])
}

/// The target signatures, as sequences of integers.
pub open spec fn signatures(t: Seq<Vec<usize>>) -> Seq<Seq<int>> {
    t.map_values(|v: Vec<usize>| ints(v@))
}

/// The penalty of row `r` against its target.
pub open spec fn row_score(g: Seq<Seq<bool>>, tr: Seq<Seq<int>>, r: int) -> int {
    score(encode(g[r]), tr[r])
}

/// The penalty of column `c` against its target.
pub open spec fn col_score(g: Seq<Seq<bool>>, tc: Seq<Seq<int>>, c: int) -> int {
    score(encode(column(g, c)), tc[c])
}

/// A target line that the penalty bound covers.
pub open spec fn bounded_target(t: Seq<int>) -> bool {
    &&& t.len() <= LIMIT
    &&& forall|i: int| 0 <= i < t.len() ==> 0 <= #[trigger] t[i] <= LIMIT
}

/// One target per row, each bounded, and no row longer than `LIMIT`.
pub open spec fn rows_fit(g: Seq<Seq<bool>>, tr: Seq<Seq<int>>) -> bool {
    &&& tr.len() == g.len()
    &&& forall|r: int| 0 <= r < g.len() ==> (#[trigger] g[r]).len() <= LIMIT
    &&& forall|r: int| 0 <= r < tr.len() ==> bounded_target(#[trigger] tr[r])
}

/// At least one and at most `LIMIT` rows, each with one cell per column
/// target, and each column target bounded.
pub open spec fn cols_fit(g: Seq<Seq<bool>>, tc: Seq<Seq<int>>) -> bool {
    &&& 1 <= g.len() <= LIMIT
    &&& forall|r: int| 0 <= r < g.len() ==> (#[trigger] g[r]).len() == tc.len()
    &&& forall|c: int| 0 <= c < tc.len() ==> bounded_target(#[trigger] tc[c])
}

/// A puzzle that the solver works on: a board of at least one row and one
/// column, all rows of one length, one target per row and per column, and
/// sizes within `LIMIT`.
pub open spec fn puzzle(g: Seq<Seq<bool>>, tr: Seq<Seq<int>>, tc: Seq<Seq<int>>) -> bool {
    &&& rows_fit(g, tr)
    &&& cols_fit(g, tc)
    &&& 1 <= tc.len() <= LIMIT
}

proof fn lemma_score_upto_bound(a: Seq<int>, b: Seq<int>, m: nat)
    requires
        forall|i: int| 0 <= i < a.len() ==> 0 <= #[trigger] a[i] <= LIMIT,
        forall|i: int| 0 <= i < b.len() ==> 0 <= #[trigger] b[i] <= LIMIT,
    ensures
        score_upto(a, b, m) <= m * (LIMIT * LIMIT),
    decreases m,
{
    if m > 0 {
        lemma_score_upto_bound(a, b, (m - 1) as nat);
        let x = entry(a, m - 1);
        let y = entry(b, m - 1);
        assert((x - y) * (x - y) <= LIMIT * LIMIT) by (nonlinear_arith)
            requires 0 <= x <= LIMIT, 0 <= y <= LIMIT;
        assert((m - 1) * (LIMIT * LIMIT) + LIMIT * LIMIT == m * (LIMIT * LIMIT)) by (nonlinear_arith);
    }
}

/// The penalty of a line of at most `LIMIT` cells against a bounded target
/// lies between zero and `LIMIT` cubed.
pub proof fn lemma_score_bound(line: Seq<bool>, t: Seq<int>)
    requires
        line.len() <= LIMIT,
        bounded_target(t),
    ensures
        0 <= score(encode(line), t) <= LIMIT * LIMIT * LIMIT,
{
    let a = encode(line);
    crate::encode::lemma_encode_bounds(line);
    let m: nat = if a.len() >= t.len() { a.len() } else { t.len() };
    lemma_score_upto_bound(a, t, m);
    lemma_score_upto_nonneg_mono(a, t, 0, m);
    assert(m * (LIMIT * LIMIT) <= LIMIT * LIMIT * LIMIT) by (nonlinear_arith)
        requires m <= LIMIT;
}

/// The penalty of column `col_n` of `board` against `target_col`.
pub fn col_diff(board: &Board, col_n: usize, target_col: &Vec<usize>) -> (r: usize)
    requires
        forall|i: int| 0 <= i < board@.len() ==> col_n < (#[trigger] cells(board)[i]).len(),
        score(encode(column(cells(board), col_n as int)), ints(target_col@)) <= usize::MAX,
    ensures
        r == score(encode(column(cells(board), col_n as int)), ints(target_col@)),
{
    let mut as_row: Vec<bool> = Vec::new();
    let mut row_n: usize = 0;
    while row_n < board.len()
        invariant
            forall|i: int| 0 <= i < board@.len() ==> col_n < (#[trigger] cells(board)[i]).len(),
            row_n <= board.len(),
            as_row@ =~= column(cells(board), col_n as int).take(row_n as int),
        decreases board.len() - row_n,
    {
        assert(col_n < cells(board)[row_n as int].len());
        as_row.push(board[row_n][col_n]);
        row_n = row_n + 1;
    }
    assert(as_row@ =~= column(cells(board), col_n as int));
    row_diff(&as_row, target_col)
}

/// The indices below `m` of the rows whose penalty is not zero, in order.
pub open spec fn bad_rows(g: Seq<Seq<bool>>, tr: Seq<Seq<int>>, m: nat) -> Seq<int>
    decreases m,
{
    if m == 0 {
        Seq::empty()
    } else if row_score(g, tr, m - 1) != 0 {
        bad_rows(g, tr, (m - 1) as nat).push(m - 1)
    } else {
        bad_rows(g, tr, (m - 1) as nat)
    }
}

/// The indices below `m` of the columns whose penalty is not zero, in order.
pub open spec fn bad_cols(g: Seq<Seq<bool>>, tc: Seq<Seq<int>>, m: nat) -> Seq<int>
    decreases m,
{
    if m == 0 {
        Seq::empty()
    } else if col_score(g, tc, m - 1) != 0 {
        bad_cols(g, tc, (m - 1) as nat).push(m - 1)
    } else {
        bad_cols(g, tc, (m - 1) as nat)
    }
}

/// The rows of `board` whose penalty against their target is not zero.
pub fn get_bad_rows(board: &Board, target_rows: &Vec<Vec<usize>>) -> (bad: Vec<usize>)
    requires
        rows_fit(cells(board), signatures(target_rows@)),
    ensures
        ints(bad@) == bad_rows(cells(board), signatures(target_rows@), board@.len() as nat),
{
    let ghost g = cells(board);
    let ghost tr = signatures(target_rows@);
    let mut bad: Vec<usize> = Vec::new();
    assert(target_rows@.len() == tr.len());
    let mut row_n: usize = 0;
    while row_n < board.len()
        invariant
            g == cells(board),
            tr == signatures(target_rows@),
            rows_fit(g, tr),
            target_rows@.len() == board@.len(),
            row_n <= board.len(),
            ints(bad@) == bad_rows(g, tr, row_n as nat),
        decreases board.len() - row_n,
    {
        proof {
            lemma_score_bound(g[row_n as int], tr[row_n as int]);
        }
        let ghost before = bad@;
        if row_diff(&board[row_n], &target_rows[row_n]) > 0 {
            bad.push(row_n);
            assert(ints(bad@) =~= ints(before).push(row_n as int));
        }
        row_n = row_n + 1;
    }
    bad
}

/// The columns of `board` whose penalty against their target is not zero.
pub fn get_bad_cols(board: &Board, target_cols: &Vec<Vec<usize>>) -> (bad: Vec<usize>)
    requires
        cols_fit(cells(board), signatures(target_cols@)),
    ensures
        ints(bad@) == bad_cols(cells(board), signatures(target_cols@), target_cols@.len() as nat),
{
    let ghost g = cells(board);
    let ghost tc = signatures(target_cols@);
    let mut bad: Vec<usize> = Vec::new();
    let n = board[0].len();
    assert(n == g[0].len());
    let mut col_n: usize = 0;
    while col_n < n
        invariant
            g == cells(board),
            tc == signatures(target_cols@),
            cols_fit(g, tc),
            n == tc.len(),
            col_n <= n,
            ints(bad@) == bad_cols(g, tc, col_n as nat),
        decreases n - col_n,
    {
        proof {
            lemma_score_bound(column(g, col_n as int), tc[col_n as int]);
        }
        let ghost before = bad@;
        if col_diff(board, col_n, &target_cols[col_n]) > 0 {
            bad.push(col_n);
            assert(ints(bad@) =~= ints(before).push(col_n as int));
        }
        col_n = col_n + 1;
    }
    bad
}

/// A board of `rows_n` rows of `cols_n` cells, filled row by row: a cell is
/// `true` when the draw made for it is even.
pub fn generate_board(rows_n: usize, cols_n: usize, rng: &mut Lcg) -> (board: Board)
    ensures
        cells(&board).len() == rows_n,
        forall|i: int| 0 <= i < rows_n ==> (#[trigger] cells(&board)[i]).len() == cols_n,
        forall|i: int, j: int|
            0 <= i < rows_n && 0 <= j < cols_n ==> #[trigger] cells(&board)[i][j] == (lcg_iter(old(rng)@, (i * cols_n + j + 1) as nat) % 2 == 0),
        final(rng)@ == lcg_iter(old(rng)@, (rows_n * cols_n) as nat),
{
    let ghost s0 = rng@;
    let mut board: Board = Vec::new();
    let mut i: usize = 0;
    while i < rows_n
        invariant
            i <= rows_n,
            cells(&board).len() == i,
            forall|a: int| 0 <= a < i ==> (#[trigger] cells(&board)[a]).len() == cols_n,
            forall|a: int, b: int|
                0 <= a < i && 0 <= b < cols_n ==> #[trigger] cells(&board)[a][b] == (lcg_iter(s0, (a * cols_n + b + 1) as nat) % 2 == 0),
            rng@ == lcg_iter(s0, (i * cols_n) as nat),
        decreases rows_n - i,
    {
        let mut row: Vec<bool> = Vec::new();
        let mut j: usize = 0;
        while j < cols_n
            invariant
                i < rows_n,
                j <= cols_n,
                row@.len() == j,
                forall|b: int| 0 <= b < j ==> #[trigger] row@[b] == (lcg_iter(s0, (i * cols_n + b + 1) as nat) % 2 == 0),
                rng@ == lcg_iter(s0, (i * cols_n + j) as nat),
            decreases cols_n - j,
        {
            proof {
                assert(i * cols_n + j >= 0) by (nonlinear_arith)
                    requires i >= 0, cols_n >= 0, j >= 0;
            }
            let x = rng.next_random();
            row.push(x % 2 == 0);
            j = j + 1;
        }
        let ghost before = board@;
        board.push(row);
        proof {
            assert((i + 1) * cols_n == i * cols_n + cols_n) by (nonlinear_arith);
            assert(cells(&board) =~= cells_of(before).push(row@));
        }
        i = i + 1;
    }
    board
}

/// A row drawn as text: `#` for a filled cell, `.` for an empty one.
pub open spec fn render_row(row: Seq<bool>) -> Seq<u8> {
    row.map_values(|c: bool| if c { 35u8 } else { 46u8 })
}

/// The rows of `g` drawn one per line, each ended by a line feed.
pub open spec fn render(g: Seq<Seq<bool>>) -> Seq<u8>
    decreases g.len(),
{
    if g.len() == 0 {
        Seq::empty()
    } else {
        render(g.drop_last()) + render_row(g.last()).push(10u8)
    }
}

/// Draws `board` as text, one line per row, `#` for a filled cell and `.`
/// for an empty one.
pub fn render_board(board: &Board) -> (text: Vec<u8>)
    ensures
        text@ == render(cells(board)),
{
    let ghost g = cells(board);
    let mut text: Vec<u8> = Vec::new();
    let mut r: usize = 0;
    while r < board.len()
        invariant
            g == cells(board),
            r <= board.len(),
            text@ == render(g.take(r as int)),
        decreases board.len() - r,
    {
        let ghost before = text@;
        let row = &board[r];
        let mut c: usize = 0;
        while c < row.len()
            invariant
                c <= row@.len(),
                text@ == before + render_row(row@.take(c as int)),
            decreases row.len() - c,
        {
            let ch: u8 = if row[c] { 35 } else { 46 };
            text.push(ch);
            assert(render_row(row@.take(c + 1)) =~= render_row(row@.take(c as int)).push(ch));
            c = c + 1;
        }
        text.push(10);
        proof {
            assert(row@.take(row@.len() as int) =~= row@);
            assert(g.take(r + 1).drop_last() =~= g.take(r as int));
            assert(g.take(r + 1).last() == row@);
        }
        r = r + 1;
    }
    assert(g.take(board.len() as int) =~= g);
    text
}

} // verus!
