use vstd::prelude::*;
use crate::game::{CellState, Grid, Turn, grid_wf, gview, turn_cell};

verus! {

// Run-length evaluator for the connect-style board.
//
// Every row, every column and every diagonal long enough to hold a winning
// run is scanned exactly once with a consecutive-same-owner counter that
// resets on any other cell; each position where the counter reaches the
// line-length threshold adds a fixed bonus, so a run longer than the
// threshold is rewarded once per sliding window that reaches it. A 6-by-7
// board has six such diagonals in each direction.

/// Bonus added for each window of three in a row.
pub const RUN_BONUS: u32 = 10;

/// Score of the suffix of `line` from `i` on, entered with a running
/// count of `count` consecutive cells owned by `p` just before `i`.
pub open spec fn line_score_from(line: Seq<CellState>, p: CellState, i: int, count: int) -> int
    decreases line.len() - i,
{
    if i < 0 || i >= line.len() {
        0
    } else {
        let c2 = if line[i] == p { count + 1 } else { 0 };
        (if c2 >= 3 { 10int } else { 0int }) + line_score_from(line, p, i + 1, c2)
    }
}

/// Run-length score of one line for player `p`.
pub open spec fn spec_line_score(line: Seq<CellState>, p: CellState) -> int {
    line_score_from(line, p, 0, 0)
}

/// Column `c` of the grid, read top to bottom.
pub open spec fn col_seq(g: Seq<Seq<CellState>>, c: int) -> Seq<CellState> {
    Seq::new(6, |r: int| g[r][c])
}

/// Score of the diagonal ray through (r, c), stepping by (dr, +1), entered
/// with running count `count`.
pub open spec fn diag_score_from(
    g: Seq<Seq<CellState>>,
    p: CellState,
    r: int,
    c: int,
    dr: int,
    count: int,
) -> int
    decreases 7 - c,
{
    if r < 0 || r >= 6 || c < 0 || c >= 7 {
        0
    } else {
        let c2 = if g[r][c] == p { count + 1 } else { 0 };
        (if c2 >= 3 { 10int } else { 0int }) + diag_score_from(g, p, r + dr, c + 1, dr, c2)
    }
}

/// Total diagonal score: every distinct diagonal long enough for a
/// winning run, scanned once from its starting end. Down-right diagonals
/// start on the top row or the left column; up-right diagonals start on
/// the bottom row or the left column; diagonals shorter than four cells
/// hold no winning run and are skipped.
pub open spec fn spec_diag_score(g: Seq<Seq<CellState>>, p: CellState) -> int {
    diag_score_from(g, p, 0, 0, 1, 0) + diag_score_from(g, p, 0, 1, 1, 0)
        + diag_score_from(g, p, 0, 2, 1, 0) + diag_score_from(g, p, 0, 3, 1, 0)
        + diag_score_from(g, p, 1, 0, 1, 0) + diag_score_from(g, p, 2, 0, 1, 0)
        + diag_score_from(g, p, 3, 0, -1, 0) + diag_score_from(g, p, 4, 0, -1, 0)
        + diag_score_from(g, p, 5, 0, -1, 0) + diag_score_from(g, p, 5, 1, -1, 0)
        + diag_score_from(g, p, 5, 2, -1, 0) + diag_score_from(g, p, 5, 3, -1, 0)
}

/// Sum of the row scores for rows `r..6`.
pub open spec fn rows_score_from(g: Seq<Seq<CellState>>, p: CellState, r: int) -> int
    decreases 6 - r,
{
    if r < 0 || r >= 6 {
        0
    } else {
        spec_line_score(g[r], p) + rows_score_from(g, p, r + 1)
    }
}

/// Sum of the column scores for columns `c..7`.
pub open spec fn cols_score_from(g: Seq<Seq<CellState>>, p: CellState, c: int) -> int
    decreases 7 - c,
{
    if c < 0 || c >= 7 {
        0
    } else {
        spec_line_score(col_seq(g, c), p) + cols_score_from(g, p, c + 1)
    }
}

/// The whole-board run-length score for player `p`: rows, then columns,
/// then both diagonal families.
pub open spec fn spec_board_score(g: Seq<Seq<CellState>>, p: CellState) -> int {
    rows_score_from(g, p, 0) + cols_score_from(g, p, 0) + spec_diag_score(g, p)
}

/// Every line score is between 0 and 10 per scanned cell.
pub proof fn lemma_line_score_bounds(line: Seq<CellState>, p: CellState, i: int, count: int)
    ensures
        0 <= line_score_from(line, p, i, count),
        0 <= i <= line.len() ==> line_score_from(line, p, i, count) <= 10 * (line.len() - i),
    decreases line.len() - i,
{
    if 0 <= i < line.len() {
        let c2 = if line[i] == p { count + 1 } else { 0 };
        lemma_line_score_bounds(line, p, i + 1, c2);
    }
}

/// Every diagonal ray score is between 0 and 70.
pub proof fn lemma_diag_score_bounds(
    g: Seq<Seq<CellState>>,
    p: CellState,
    r: int,
    c: int,
    dr: int,
    count: int,
)
    ensures
        0 <= diag_score_from(g, p, r, c, dr, count) <= 70,
        0 <= c <= 7 ==> diag_score_from(g, p, r, c, dr, count) <= 10 * (7 - c),
    decreases 7 - c,
{
    if 0 <= r < 6 && 0 <= c < 7 {
        let c2 = if g[r][c] == p { count + 1 } else { 0 };
        lemma_diag_score_bounds(g, p, r + dr, c + 1, dr, c2);
    }
}

/// Row scores sum to at most 70 per remaining row.
pub proof fn lemma_rows_score_bounds(g: Seq<Seq<CellState>>, p: CellState, r: int)
    requires
        grid_wf(g),
        0 <= r <= 6,
    ensures
        0 <= rows_score_from(g, p, r) <= 70 * (6 - r),
    decreases 6 - r,
{
    if r < 6 {
        lemma_line_score_bounds(g[r], p, 0, 0);
        lemma_rows_score_bounds(g, p, r + 1);
    }
}

/// Column scores sum to at most 60 per remaining column.
pub proof fn lemma_cols_score_bounds(g: Seq<Seq<CellState>>, p: CellState, c: int)
    requires
        0 <= c <= 7,
    ensures
        0 <= cols_score_from(g, p, c) <= 60 * (7 - c),
    decreases 7 - c,
{
    if c < 7 {
        lemma_line_score_bounds(col_seq(g, c), p, 0, 0);
        lemma_cols_score_bounds(g, p, c + 1);
    }
}

/// The twelve diagonals together score at most 840.
pub proof fn lemma_diag_total_bounds(g: Seq<Seq<CellState>>, p: CellState)
    ensures
        0 <= spec_diag_score(g, p) <= 840,
{
    lemma_diag_score_bounds(g, p, 0, 0, 1, 0);
    lemma_diag_score_bounds(g, p, 0, 1, 1, 0);
    lemma_diag_score_bounds(g, p, 0, 2, 1, 0);
    lemma_diag_score_bounds(g, p, 0, 3, 1, 0);
    lemma_diag_score_bounds(g, p, 1, 0, 1, 0);
    lemma_diag_score_bounds(g, p, 2, 0, 1, 0);
    lemma_diag_score_bounds(g, p, 3, 0, -1, 0);
    lemma_diag_score_bounds(g, p, 4, 0, -1, 0);
    lemma_diag_score_bounds(g, p, 5, 0, -1, 0);
    lemma_diag_score_bounds(g, p, 5, 1, -1, 0);
    lemma_diag_score_bounds(g, p, 5, 2, -1, 0);
    lemma_diag_score_bounds(g, p, 5, 3, -1, 0);
}

/// Run-length score of one line (a row, or an extracted column) for the
/// given player's colour.
pub fn evaluate_line(line: &Vec<CellState>, turn: Turn) -> (score: u32)
    requires
        line@.len() <= 7,
    ensures
        score == spec_line_score(line@, turn_cell(turn)),
{
    let ghost p = turn_cell(turn);
    let player_cell = match turn {
        Turn::PlayerOne => CellState::PlayerOne,
        Turn::PlayerTwo => CellState::PlayerTwo,
    };
    let mut score: u32 = 0;
    let mut count: u32 = 0;
    let mut i: usize = 0;
    while i < line.len()
        invariant
            line@.len() <= 7,
            i <= line@.len(),
            score <= 10 * i,
            count <= i,
            player_cell == p,
            score + line_score_from(line@, p, i as int, count as int)
                == spec_line_score(line@, p),
        decreases line@.len() - i,
    {
        proof {
            lemma_line_score_bounds(line@, p, i as int, count as int);
        }
        if line[i] == player_cell {
            count = count + 1;
        } else {
            count = 0;
        }
        if count >= 3 {
            score = score + RUN_BONUS;
        }
        i += 1;
    }
    score
}

/// Run-length score of the diagonal ray from (start_row, start_col),
/// stepping one column right and `row_inc` rows per cell.
pub fn evaluate_diagonal(
    board: &Grid,
    start_row: usize,
    start_col: usize,
    row_inc: isize,
    col_inc: isize,
    turn: Turn,
) -> (score: u32)
    requires
        grid_wf(gview(board@)),
        start_row < 6,
        start_col < 7,
        row_inc == 1 || row_inc == -1,
        col_inc == 1,
    ensures
        score == diag_score_from(gview(board@), turn_cell(turn), start_row as int, start_col as int, row_inc as int, 0),
{
    let ghost g = gview(board@);
    let ghost p = turn_cell(turn);
    let player_cell = match turn {
        Turn::PlayerOne => CellState::PlayerOne,
        Turn::PlayerTwo => CellState::PlayerTwo,
    };
    let mut score: u32 = 0;
    let mut count: u32 = 0;
    let mut row: isize = start_row as isize;
    let mut col: isize = start_col as isize;
    while row >= 0 && row < 6 && col >= 0 && col < 7
        invariant
            grid_wf(g),
            g == gview(board@),
            player_cell == p,
            row_inc == 1 || row_inc == -1,
            -1 <= row <= 6,
            0 <= col <= 7,
            count <= col,
            score <= 10 * col,
            score + diag_score_from(g, p, row as int, col as int, row_inc as int, count as int)
                == diag_score_from(g, p, start_row as int, start_col as int, row_inc as int, 0),
        decreases 7 - col,
    {
        proof {
            lemma_diag_score_bounds(g, p, row as int, col as int, row_inc as int, count as int);
            assert(g[row as int] == board@[row as int]@);
        }
        if board[row as usize][col as usize] == player_cell {
            count = count + 1;
        } else {
            count = 0;
        }
        if count >= 3 {
            score = score + RUN_BONUS;
        }
        row = row + row_inc;
        col = col + 1;
    }
    score
}

/// Run-length score of all twelve distinct diagonals long enough for a
/// winning run, each scanned exactly once: the six down-right diagonals
/// starting at (0,0), (0,1), (0,2), (0,3), (1,0) and (2,0), and the six
/// up-right diagonals starting at (3,0), (4,0), (5,0), (5,1), (5,2) and
/// (5,3).
pub fn evaluate_diagonals(board: &Grid, turn: Turn) -> (score: u32)
    requires
        grid_wf(gview(board@)),
    ensures
        score == spec_diag_score(gview(board@), turn_cell(turn)),
        score <= 840,
{
    let ghost g = gview(board@);
    let ghost p = turn_cell(turn);
    proof {
        lemma_diag_total_bounds(g, p);
        lemma_diag_score_bounds(g, p, 0, 0, 1, 0);
        lemma_diag_score_bounds(g, p, 0, 1, 1, 0);
        lemma_diag_score_bounds(g, p, 0, 2, 1, 0);
        lemma_diag_score_bounds(g, p, 0, 3, 1, 0);
        lemma_diag_score_bounds(g, p, 1, 0, 1, 0);
        lemma_diag_score_bounds(g, p, 2, 0, 1, 0);
        lemma_diag_score_bounds(g, p, 3, 0, -1, 0);
        lemma_diag_score_bounds(g, p, 4, 0, -1, 0);
        lemma_diag_score_bounds(g, p, 5, 0, -1, 0);
        lemma_diag_score_bounds(g, p, 5, 1, -1, 0);
        lemma_diag_score_bounds(g, p, 5, 2, -1, 0);
        lemma_diag_score_bounds(g, p, 5, 3, -1, 0);
    }
    let mut score: u32 = evaluate_diagonal(board, 0, 0, 1, 1, turn);
    score = score + evaluate_diagonal(board, 0, 1, 1, 1, turn);
    score = score + evaluate_diagonal(board, 0, 2, 1, 1, turn);
    score = score + evaluate_diagonal(board, 0, 3, 1, 1, turn);
    score = score + evaluate_diagonal(board, 1, 0, 1, 1, turn);
    score = score + evaluate_diagonal(board, 2, 0, 1, 1, turn);
    score = score + evaluate_diagonal(board, 3, 0, -1, 1, turn);
    score = score + evaluate_diagonal(board, 4, 0, -1, 1, turn);
    score = score + evaluate_diagonal(board, 5, 0, -1, 1, turn);
    score = score + evaluate_diagonal(board, 5, 1, -1, 1, turn);
    score = score + evaluate_diagonal(board, 5, 2, -1, 1, turn);
    score = score + evaluate_diagonal(board, 5, 3, -1, 1, turn);
    score
}

/// The whole-board run-length score for the given player: each row, each
/// column, and every diagonal long enough for a winning run.
pub fn evaluate_board(board: &Grid, turn: Turn) -> (score: u32)
    requires
        grid_wf(gview(board@)),
    ensures
        score == spec_board_score(gview(board@), turn_cell(turn)),
        score <= 1680,
{
    let ghost g = gview(board@);
    let ghost p = turn_cell(turn);
    let mut score: u32 = 0;

    let mut row: usize = 0;
    while row < 6
        invariant
            grid_wf(g),
            g == gview(board@),
            p == turn_cell(turn),
            row <= 6,
            score == rows_score_from(g, p, 0) - rows_score_from(g, p, row as int),
        decreases 6 - row,
    {
        proof {
            lemma_rows_score_bounds(g, p, 0);
            lemma_rows_score_bounds(g, p, row as int);
            lemma_line_score_bounds(g[row as int], p, 0, 0);
            assert(g[row as int] == board@[row as int]@);
        }
        score = score + evaluate_line(&board[row], turn);
        row += 1;
    }

    let mut col: usize = 0;
    while col < 7
        invariant
            grid_wf(g),
            g == gview(board@),
            p == turn_cell(turn),
            col <= 7,
            score == rows_score_from(g, p, 0)
                + cols_score_from(g, p, 0) - cols_score_from(g, p, col as int),
        decreases 7 - col,
    {
        let mut column: Vec<CellState> = Vec::new();
        let mut r: usize = 0;
        while r < 6
            invariant
                grid_wf(g),
                g == gview(board@),
                col < 7,
                r <= 6,
                column@.len() == r,
                forall|i: int| 0 <= i < r ==> column@[i] == g[i][col as int],
            decreases 6 - r,
        {
            proof {
                assert(g[r as int] == board@[r as int]@);
            }
            column.push(board[r][col]);
            r += 1;
        }
        proof {
            assert(column@ =~= col_seq(g, col as int));
            lemma_rows_score_bounds(g, p, 0);
            lemma_cols_score_bounds(g, p, 0);
            lemma_cols_score_bounds(g, p, col as int);
            lemma_line_score_bounds(col_seq(g, col as int), p, 0, 0);
        }
        score = score + evaluate_line(&column, turn);
        col += 1;
    }

    proof {
        lemma_rows_score_bounds(g, p, 0);
        lemma_cols_score_bounds(g, p, 0);
        lemma_diag_total_bounds(g, p);
    }
    score + evaluate_diagonals(board, turn)
}

} // verus!
