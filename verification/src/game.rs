use vstd::prelude::*;

verus! {

/// One cell of the connect-style board: empty or owned by a player.
#[derive(Copy, Clone, Debug, PartialEq, Eq, Structural)]
pub enum CellState {
    Empty,
    PlayerOne,
    PlayerTwo,
}

/// The player whose move it is.
#[derive(Copy, Clone, Debug, PartialEq, Eq, Structural)]
pub enum Turn {
    PlayerOne,
    PlayerTwo,
}

/// Outcome of a finished game.
#[derive(Copy, Clone, Debug, PartialEq, Eq, Structural)]
pub enum GameResult {
    PlayerOneWin,
    PlayerTwoWin,
    Draw,
}

/// Board storage: 6 rows of 7 cells each.
pub type Grid = Vec<Vec<CellState>>;

/// Mathematical snapshot of a game: the board contents and whose move it is.
pub ghost struct GameView {
    pub grid: Seq<Seq<CellState>>,
    pub turn: Turn,
}

/// A connect-style game snapshot. Every transition returns a new value;
/// a `Game` is never mutated in place.
#[derive(Clone)]
pub struct Game {
    board: Grid,
    turn: Turn,
}

/// A well-formed board is exactly 6 rows of exactly 7 cells.
pub open spec fn grid_wf(g: Seq<Seq<CellState>>) -> bool {
    &&& g.len() == 6
    &&& forall|r: int| 0 <= r < 6 ==> (#[trigger] g[r]).len() == 7
}

/// The cell colour a player drops.
pub open spec fn turn_cell(t: Turn) -> CellState {
    match t {
        Turn::PlayerOne => CellState::PlayerOne,
        Turn::PlayerTwo => CellState::PlayerTwo,
    }
}

/// The player who moves after `t`.
pub open spec fn other_turn(t: Turn) -> Turn {
    match t {
        Turn::PlayerOne => Turn::PlayerTwo,
        Turn::PlayerTwo => Turn::PlayerOne,
    }
}

/// A column is full when no cell in it is empty.
pub open spec fn col_full(g: Seq<Seq<CellState>>, c: int) -> bool {
    forall|r: int| 0 <= r < 6 ==> (#[trigger] g[r])[c] != CellState::Empty
}

/// The board is full when no cell at all is empty.
pub open spec fn board_full(g: Seq<Seq<CellState>>) -> bool {
    forall|c: int| 0 <= c < 7 ==> col_full(g, c)
}

/// Row of the lowest empty cell of column `c`, scanning from row `r` upward
/// in the grid (the board is drawn with row 5 at the bottom); -1 if none.
pub open spec fn lowest_empty_from(g: Seq<Seq<CellState>>, c: int, r: int) -> int
    decreases r + 1 when r >= -1
{
    if r < 0 {
        -1
    } else if g[r][c] == CellState::Empty {
        r
    } else {
        lowest_empty_from(g, c, r - 1)
    }
}

/// The state after dropping a piece in column `c`: a full column leaves the
/// snapshot unchanged (the caller's error, by convention); otherwise the
/// lowest empty cell of the column takes the mover's colour and the turn flips.
pub open spec fn spec_apply(v: GameView, c: int) -> GameView {
    if col_full(v.grid, c) {
        v
    } else {
        let r = lowest_empty_from(v.grid, c, 5);
        GameView {
            grid: v.grid.update(r, v.grid[r].update(c, turn_cell(v.turn))),
            turn: other_turn(v.turn),
        }
    }
}

/// Four equal, non-empty cells in a row starting at (r, c).
pub open spec fn four_row(g: Seq<Seq<CellState>>, r: int, c: int) -> bool {
    &&& g[r][c] != CellState::Empty
    &&& g[r][c] == g[r][c + 1]
    &&& g[r][c] == g[r][c + 2]
    &&& g[r][c] == g[r][c + 3]
}

/// Four equal, non-empty cells in a column starting at (r, c).
pub open spec fn four_col(g: Seq<Seq<CellState>>, r: int, c: int) -> bool {
    &&& g[r][c] != CellState::Empty
    &&& g[r][c] == g[r + 1][c]
    &&& g[r][c] == g[r + 2][c]
    &&& g[r][c] == g[r + 3][c]
}

/// Four equal, non-empty cells diagonally down-right from (r, c).
pub open spec fn four_diag_down(g: Seq<Seq<CellState>>, r: int, c: int) -> bool {
    &&& g[r][c] != CellState::Empty
    &&& g[r][c] == g[r + 1][c + 1]
    &&& g[r][c] == g[r + 2][c + 2]
    &&& g[r][c] == g[r + 3][c + 3]
}

/// Four equal, non-empty cells diagonally down-left from (r, c).
pub open spec fn four_diag_up(g: Seq<Seq<CellState>>, r: int, c: int) -> bool {
    &&& g[r][c] != CellState::Empty
    &&& g[r][c] == g[r + 1][c - 1]
    &&& g[r][c] == g[r + 2][c - 2]
    &&& g[r][c] == g[r + 3][c - 3]
}

pub open spec fn winner_rows(g: Seq<Seq<CellState>>) -> bool {
    exists|r: int, c: int| 0 <= r < 6 && 0 <= c < 4 && #[trigger] four_row(g, r, c)
}

pub open spec fn winner_cols(g: Seq<Seq<CellState>>) -> bool {
    exists|r: int, c: int| 0 <= r < 3 && 0 <= c < 7 && #[trigger] four_col(g, r, c)
}

pub open spec fn winner_diags(g: Seq<Seq<CellState>>) -> bool {
    ||| exists|r: int, c: int| 0 <= r < 3 && 0 <= c < 4 && #[trigger] four_diag_down(g, r, c)
    ||| exists|r: int, c: int| 0 <= r < 3 && 3 <= c < 7 && #[trigger] four_diag_up(g, r, c)
}

/// Some player has four in a line somewhere on the board.
pub open spec fn spec_winner(g: Seq<Seq<CellState>>) -> bool {
    winner_rows(g) || winner_cols(g) || winner_diags(g)
}

/// The result the game reports: a win goes to the player who moved last
/// (the one whose turn it is not), a full board without a winner is a draw.
pub open spec fn spec_result(v: GameView) -> Option<GameResult> {
    if spec_winner(v.grid) {
        match v.turn {
            Turn::PlayerOne => Some(GameResult::PlayerTwoWin),
            Turn::PlayerTwo => Some(GameResult::PlayerOneWin),
        }
    } else if board_full(v.grid) {
        Some(GameResult::Draw)
    } else {
        None
    }
}

pub open spec fn spec_over(v: GameView) -> bool {
    spec_result(v) is Some
}

/// The columns that can still be played, in column order, starting at `c`.
pub open spec fn moves_from(g: Seq<Seq<CellState>>, c: int) -> Seq<int>
    decreases 7 - c when c <= 7
{
    if c >= 7 {
        Seq::empty()
    } else if col_full(g, c) {
        moves_from(g, c + 1)
    } else {
        seq![c] + moves_from(g, c + 1)
    }
}

/// The legal moves of a board, in natural column order.
pub open spec fn spec_moves(g: Seq<Seq<CellState>>) -> Seq<int> {
    moves_from(g, 0)
}

/// View of a raw grid as a sequence of rows.
pub open spec fn gview(b: Seq<Vec<CellState>>) -> Seq<Seq<CellState>> {
    b.map_values(|row: Vec<CellState>| row@)
}

impl View for Game {
    type V = GameView;

    closed spec fn view(&self) -> GameView {
        GameView { grid: gview(self.board@), turn: self.turn }
    }
}

// Two snapshots compare equal exactly when they hold the same board and
// the same turn: equal states produce identical future legal moves and
// outcomes.
impl vstd::std_specs::cmp::PartialEqSpecImpl for Game {
    open spec fn obeys_eq_spec() -> bool {
        true
    }

    open spec fn eq_spec(&self, other: &Game) -> bool {
        self@ == other@
    }
}

impl PartialEq for Game {
    fn eq(&self, other: &Game) -> (r: bool) {
        match (self.turn, other.turn) {
            (Turn::PlayerOne, Turn::PlayerTwo) | (Turn::PlayerTwo, Turn::PlayerOne) => {
                return false;
            },
            _ => {},
        }
        if self.board.len() != other.board.len() {
            proof {
                assert(self@.grid.len() != other@.grid.len());
            }
            return false;
        }
        let mut r: usize = 0;
        while r < self.board.len()
            invariant
                self.board@.len() == other.board@.len(),
                r <= self.board@.len(),
                forall|i: int| 0 <= i < r ==> (#[trigger] self@.grid[i]) == other@.grid[i],
            decreases self.board@.len() - r,
        {
            if self.board[r].len() != other.board[r].len() {
                proof {
                    assert(self@.grid[r as int].len() != other@.grid[r as int].len());
                }
                return false;
            }
            let mut c: usize = 0;
            while c < self.board[r].len()
                invariant
                    self.board@.len() == other.board@.len(),
                    r < self.board@.len(),
                    self.board@[r as int]@.len() == other.board@[r as int]@.len(),
                    c <= self.board@[r as int]@.len(),
                    forall|j: int| 0 <= j < c
                        ==> (#[trigger] self@.grid[r as int][j]) == other@.grid[r as int][j],
                decreases self.board@[r as int]@.len() - c,
            {
                if self.board[r][c] != other.board[r][c] {
                    proof {
                        assert(self@.grid[r as int][c as int] != other@.grid[r as int][c as int]);
                    }
                    return false;
                }
                c += 1;
            }
            proof {
                assert(self@.grid[r as int] =~= other@.grid[r as int]);
            }
            r += 1;
        }
        proof {
            assert(self@.grid =~~= other@.grid);
        }
        true
    }
}

impl Game {
    pub open spec fn wf(&self) -> bool {
        grid_wf(self@.grid)
    }

    /// A fresh game: an empty 6-by-7 board, player one to move.
    pub fn new() -> (g: Game)
        ensures
            g.wf(),
            g@.turn == Turn::PlayerOne,
            forall|r: int, c: int| 0 <= r < 6 && 0 <= c < 7
                ==> (#[trigger] g@.grid[r][c]) == CellState::Empty,
    {
        let mut board: Grid = Vec::new();
        while board.len() < 6
            invariant
                board.len() <= 6,
                forall|r: int| 0 <= r < board.len() ==> (#[trigger] board@[r])@.len() == 7,
                forall|r: int, c: int| 0 <= r < board.len() && 0 <= c < 7
                    ==> (#[trigger] board@[r]@[c]) == CellState::Empty,
            decreases 6 - board.len(),
        {
            let mut row: Vec<CellState> = Vec::new();
            while row.len() < 7
                invariant
                    row.len() <= 7,
                    forall|c: int| 0 <= c < row.len() ==> row@[c] == CellState::Empty,
                decreases 7 - row.len(),
            {
                row.push(CellState::Empty);
            }
            board.push(row);
        }
        Game { board, turn: Turn::PlayerOne }
    }

    /// A game over a caller-supplied board position.
    pub fn from_grid(grid: Grid, turn: Turn) -> (g: Game)
        requires
            grid_wf(gview(grid@)),
        ensures
            g.wf(),
            g@.grid == gview(grid@),
            g@.turn == turn,
    {
        Game { board: grid, turn }
    }

    /// A read-only copy of the board contents.
    pub fn board(&self) -> (b: Grid)
        requires
            self.wf(),
        ensures
            gview(b@) == self@.grid,
    {
        let mut out: Grid = Vec::new();
        let mut r: usize = 0;
        while r < 6
            invariant
                self.wf(),
                r <= 6,
                out.len() == r,
                forall|i: int| 0 <= i < r ==> (#[trigger] out@[i])@ == self@.grid[i],
            decreases 6 - r,
        {
            let mut row: Vec<CellState> = Vec::new();
            let mut c: usize = 0;
            while c < 7
                invariant
                    self.wf(),
                    r < 6,
                    c <= 7,
                    row@.len() == c,
                    forall|j: int| 0 <= j < c ==> row@[j] == self@.grid[r as int][j],
                decreases 7 - c,
            {
                proof {
                    assert(self@.grid[r as int] == self.board@[r as int]@);
                }
                row.push(self.board[r][c]);
                c += 1;
            }
            proof {
                assert(row@ =~= self@.grid[r as int]);
            }
            out.push(row);
            r += 1;
        }
        proof {
            assert(gview(out@) =~= self@.grid);
        }
        out
    }

    /// The player to move in this snapshot.
    pub fn turn(&self) -> (t: Turn)
        ensures
            t == self@.turn,
    {
        self.turn
    }

    /// The player who moves after the one to move: the perspective every
    /// evaluation is taken from.
    pub fn next_turn(&self) -> (t: Turn)
        ensures
            t == other_turn(self@.turn),
    {
        match self.turn {
            Turn::PlayerOne => Turn::PlayerTwo,
            Turn::PlayerTwo => Turn::PlayerOne,
        }
    }

    pub fn is_col_full(&self, column: usize) -> (full: bool)
        requires
            self.wf(),
            column < 7,
        ensures
            full == col_full(self@.grid, column as int),
    {
        let mut row: usize = 0;
        while row < 6
            invariant
                self.wf(),
                column < 7,
                row <= 6,
                forall|r: int| 0 <= r < row ==> (#[trigger] self@.grid[r])[column as int] != CellState::Empty,
            decreases 6 - row,
        {
            proof {
                assert(self@.grid[row as int] == self.board@[row as int]@);
            }
            if self.board[row][column] == CellState::Empty {
                return false;
            }
            row += 1;
        }
        true
    }

    /// Dropping a piece: a new snapshot, the current one untouched. A full
    /// column returns the position unchanged, by convention; callers that
    /// care must check the move changed the state.
    pub fn make_move(&self, column: usize) -> (g: Game)
        requires
            self.wf(),
            column < 7,
        ensures
            g.wf(),
            g@ == spec_apply(self@, column as int),
    {
        let mut new_board = self.board();
        if self.is_col_full(column) {
            return Game { board: new_board, turn: self.turn };
        }
        let ghost g0 = self@.grid;
        let mut row: usize = 6;
        while row > 0
            invariant
                self.wf(),
                column < 7,
                !col_full(g0, column as int),
                gview(new_board@) == g0,
                g0 == self@.grid,
                row <= 6,
                lowest_empty_from(g0, column as int, 5) == lowest_empty_from(g0, column as int, row - 1),
            decreases row,
        {
            let r = row - 1;
            proof {
                assert(g0[r as int] == new_board@[r as int]@);
            }
            if new_board[r][column] == CellState::Empty {
                let piece = match self.turn {
                    Turn::PlayerOne => CellState::PlayerOne,
                    Turn::PlayerTwo => CellState::PlayerTwo,
                };
                let mut line: Vec<CellState> = Vec::new();
                let mut j: usize = 0;
                while j < 7
                    invariant
                        self.wf(),
                        column < 7,
                        r < 6,
                        j <= 7,
                        line@.len() == j,
                        g0 == self@.grid,
                        gview(new_board@) == g0,
                        piece == turn_cell(self@.turn),
                        forall|k: int| 0 <= k < j ==> line@[k] == g0[r as int].update(column as int, turn_cell(self@.turn))[k],
                    decreases 7 - j,
                {
                    proof {
                        assert(g0[r as int] == new_board@[r as int]@);
                    }
                    if j == column {
                        line.push(piece);
                    } else {
                        line.push(new_board[r][j]);
                    }
                    j += 1;
                }
                proof {
                    assert(line@ =~= g0[r as int].update(column as int, turn_cell(self@.turn)));
                }
                new_board.set(r, line);
                let out = Game {
                    board: new_board,
                    turn: match self.turn {
                        Turn::PlayerOne => Turn::PlayerTwo,
                        Turn::PlayerTwo => Turn::PlayerOne,
                    },
                };
                proof {
                    let le = lowest_empty_from(g0, column as int, 5);
                    assert(le == r as int);
                    assert(out@.grid =~= g0.update(le, g0[le].update(column as int, turn_cell(self@.turn))));
                    assert(grid_wf(out@.grid));
                }
                return out;
            }
            row = r;
        }
        proof {
            // the scan exhausted every row without an empty cell, yet the
            // column is not full: impossible, so this point is unreachable
            let le = lowest_empty_from(g0, column as int, 5);
            lemma_lowest_empty_props(g0, column as int, 5);
            assert(!col_full(g0, column as int));
            assert(le >= 0);
            assert(lowest_empty_from(g0, column as int, -1) == -1);
            assert(false);
        }
        unreached()
    }
    /// The columns that can still be played, in column order.
    pub fn get_available_moves(&self) -> (moves: Vec<usize>)
        requires
            self.wf(),
        ensures
            moves@.map_values(|m: usize| m as int) == spec_moves(self@.grid),
            forall|i: int| 0 <= i < moves@.len() ==> (#[trigger] moves@[i]) < 7,
    {
        let mut moves: Vec<usize> = Vec::new();
        let mut c: usize = 0;
        while c < 7
            invariant
                self.wf(),
                c <= 7,
                moves@.map_values(|m: usize| m as int) + moves_from(self@.grid, c as int)
                    == spec_moves(self@.grid),
                forall|i: int| 0 <= i < moves@.len() ==> (#[trigger] moves@[i]) < 7,
            decreases 7 - c,
        {
            let ghost pre = moves@;
            if !self.is_col_full(c) {
                moves.push(c);
                proof {
                    assert(moves@.map_values(|m: usize| m as int)
                        =~= pre.map_values(|m: usize| m as int) + seq![c as int]);
                }
            }
            c += 1;
        }
        proof {
            assert(moves@.map_values(|m: usize| m as int) + Seq::<int>::empty()
                =~= moves@.map_values(|m: usize| m as int));
        }
        moves
    }

    pub fn check_for_result(&self) -> (res: Option<GameResult>)
        requires
            self.wf(),
        ensures
            res == spec_result(self@),
    {
        if self.check_winner() {
            return match self.turn {
                Turn::PlayerOne => Some(GameResult::PlayerTwoWin),
                Turn::PlayerTwo => Some(GameResult::PlayerOneWin),
            };
        }
        if self.is_board_full() {
            return Some(GameResult::Draw);
        }
        None
    }

    pub fn is_game_over(&self) -> (over: bool)
        requires
            self.wf(),
        ensures
            over == spec_over(self@),
    {
        self.check_for_result().is_some()
    }

    fn check_winner(&self) -> (won: bool)
        requires
            self.wf(),
        ensures
            won == spec_winner(self@.grid),
    {
        self.check_winner_in_rows()
            || self.check_winner_in_columns()
            || self.check_winner_in_diagonals()
    }

    /// Reads cell (r, c) of the board.
    fn cell(&self, r: usize, c: usize) -> (v: CellState)
        requires
            self.wf(),
            r < 6,
            c < 7,
        ensures
            v == self@.grid[r as int][c as int],
    {
        proof {
            assert(self@.grid[r as int] == self.board@[r as int]@);
        }
        self.board[r][c]
    }

    fn check_winner_in_rows(&self) -> (won: bool)
        requires
            self.wf(),
        ensures
            won == winner_rows(self@.grid),
    {
        let ghost g = self@.grid;
        let mut row: usize = 0;
        while row < 6
            invariant
                self.wf(),
                g == self@.grid,
                row <= 6,
                forall|r: int, c: int| 0 <= r < row && 0 <= c < 4 ==> !(#[trigger] four_row(g, r, c)),
            decreases 6 - row,
        {
            let mut col: usize = 0;
            while col < 4
                invariant
                    self.wf(),
                    g == self@.grid,
                    row < 6,
                    col <= 4,
                    forall|r: int, c: int| 0 <= r < row && 0 <= c < 4 ==> !(#[trigger] four_row(g, r, c)),
                    forall|c: int| 0 <= c < col ==> !(#[trigger] four_row(g, row as int, c)),
                decreases 4 - col,
            {
                let v = self.cell(row, col);
                if v != CellState::Empty
                    && v == self.cell(row, col + 1)
                    && v == self.cell(row, col + 2)
                    && v == self.cell(row, col + 3)
                {
                    proof {
                        assert(four_row(g, row as int, col as int));
                    }
                    return true;
                }
                col += 1;
            }
            row += 1;
        }
        false
    }

    fn check_winner_in_columns(&self) -> (won: bool)
        requires
            self.wf(),
        ensures
            won == winner_cols(self@.grid),
    {
        let ghost g = self@.grid;
        let mut col: usize = 0;
        while col < 7
            invariant
                self.wf(),
                g == self@.grid,
                col <= 7,
                forall|r: int, c: int| 0 <= r < 3 && 0 <= c < col ==> !(#[trigger] four_col(g, r, c)),
            decreases 7 - col,
        {
            let mut row: usize = 0;
            while row < 3
                invariant
                    self.wf(),
                    g == self@.grid,
                    col < 7,
                    row <= 3,
                    forall|r: int, c: int| 0 <= r < 3 && 0 <= c < col ==> !(#[trigger] four_col(g, r, c)),
                    forall|r: int| 0 <= r < row ==> !(#[trigger] four_col(g, r, col as int)),
                decreases 3 - row,
            {
                let v = self.cell(row, col);
                if v != CellState::Empty
                    && v == self.cell(row + 1, col)
                    && v == self.cell(row + 2, col)
                    && v == self.cell(row + 3, col)
                {
                    proof {
                        assert(four_col(g, row as int, col as int));
                    }
                    return true;
                }
                row += 1;
            }
            col += 1;
        }
        false
    }

    fn check_winner_in_diagonals(&self) -> (won: bool)
        requires
            self.wf(),
        ensures
            won == winner_diags(self@.grid),
    {
        let ghost g = self@.grid;
        let mut row: usize = 0;
        while row < 3
            invariant
                self.wf(),
                g == self@.grid,
                row <= 3,
                forall|r: int, c: int| 0 <= r < row && 0 <= c < 4 ==> !(#[trigger] four_diag_down(g, r, c)),
            decreases 3 - row,
        {
            let mut col: usize = 0;
            while col < 4
                invariant
                    self.wf(),
                    g == self@.grid,
                    row < 3,
                    col <= 4,
                    forall|r: int, c: int| 0 <= r < row && 0 <= c < 4 ==> !(#[trigger] four_diag_down(g, r, c)),
                    forall|c: int| 0 <= c < col ==> !(#[trigger] four_diag_down(g, row as int, c)),
                decreases 4 - col,
            {
                let v = self.cell(row, col);
                if v != CellState::Empty
                    && v == self.cell(row + 1, col + 1)
                    && v == self.cell(row + 2, col + 2)
                    && v == self.cell(row + 3, col + 3)
                {
                    proof {
                        assert(four_diag_down(g, row as int, col as int));
                    }
                    return true;
                }
                col += 1;
            }
            row += 1;
        }
        let mut row: usize = 0;
        while row < 3
            invariant
                self.wf(),
                g == self@.grid,
                row <= 3,
                forall|r: int, c: int| 0 <= r < 3 && 0 <= c < 4 ==> !(#[trigger] four_diag_down(g, r, c)),
                forall|r: int, c: int| 0 <= r < row && 3 <= c < 7 ==> !(#[trigger] four_diag_up(g, r, c)),
            decreases 3 - row,
        {
            let mut col: usize = 3;
            while col < 7
                invariant
                    self.wf(),
                    g == self@.grid,
                    row < 3,
                    3 <= col <= 7,
                    forall|r: int, c: int| 0 <= r < 3 && 0 <= c < 4 ==> !(#[trigger] four_diag_down(g, r, c)),
                    forall|r: int, c: int| 0 <= r < row && 3 <= c < 7 ==> !(#[trigger] four_diag_up(g, r, c)),
                    forall|c: int| 3 <= c < col ==> !(#[trigger] four_diag_up(g, row as int, c)),
                decreases 7 - col,
            {
                let v = self.cell(row, col);
                if v != CellState::Empty
                    && v == self.cell(row + 1, col - 1)
                    && v == self.cell(row + 2, col - 2)
                    && v == self.cell(row + 3, col - 3)
                {
                    proof {
                        assert(four_diag_up(g, row as int, col as int));
                    }
                    return true;
                }
                col += 1;
            }
            row += 1;
        }
        false
    }

    fn is_board_full(&self) -> (full: bool)
        requires
            self.wf(),
        ensures
            full == board_full(self@.grid),
    {
        let mut col: usize = 0;
        while col < 7
            invariant
                self.wf(),
                col <= 7,
                forall|c: int| 0 <= c < col ==> col_full(self@.grid, c),
            decreases 7 - col,
        {
            if !self.is_col_full(col) {
                return false;
            }
            col += 1;
        }
        true
    }
}

/// Number of empty cells of column `c` in rows `r..6`.
pub open spec fn col_empties(g: Seq<Seq<CellState>>, c: int, r: int) -> int
    decreases 6 - r,
{
    if r < 0 || r >= 6 {
        0
    } else {
        (if g[r][c] == CellState::Empty { 1int } else { 0int }) + col_empties(g, c, r + 1)
    }
}

/// Number of empty cells in columns `c..7`.
pub open spec fn empties_from(g: Seq<Seq<CellState>>, c: int) -> int
    decreases 7 - c,
{
    if c < 0 || c >= 7 {
        0
    } else {
        col_empties(g, c, 0) + empties_from(g, c + 1)
    }
}

/// Number of empty cells on the whole board.
pub open spec fn count_empty(g: Seq<Seq<CellState>>) -> int {
    empties_from(g, 0)
}

pub proof fn lemma_col_empties_nonneg(g: Seq<Seq<CellState>>, c: int, r: int)
    ensures
        0 <= col_empties(g, c, r) <= 6,
        0 <= r <= 6 ==> col_empties(g, c, r) <= 6 - r,
    decreases 6 - r,
{
    if 0 <= r < 6 {
        lemma_col_empties_nonneg(g, c, r + 1);
    }
}

pub proof fn lemma_empties_nonneg(g: Seq<Seq<CellState>>, c: int)
    ensures
        0 <= empties_from(g, c) <= 42,
        0 <= c <= 7 ==> empties_from(g, c) <= 6 * (7 - c),
    decreases 7 - c,
{
    if 0 <= c < 7 {
        lemma_col_empties_nonneg(g, c, 0);
        lemma_empties_nonneg(g, c + 1);
    }
}

/// Two grids that agree on column `c` from row `r` down have equal empty
/// counts there.
proof fn lemma_col_empties_same(g1: Seq<Seq<CellState>>, g2: Seq<Seq<CellState>>, c: int, r: int)
    requires
        forall|i: int| r <= i < 6 ==> (#[trigger] g1[i])[c] == g2[i][c],
    ensures
        col_empties(g1, c, r) == col_empties(g2, c, r),
    decreases 6 - r,
{
    if 0 <= r < 6 {
        lemma_col_empties_same(g1, g2, c, r + 1);
    } else if r < 0 {
        lemma_col_empties_same(g1, g2, c, r + 1);
    }
}

/// Filling the empty cell (le, c) drops the column's empty count by one,
/// counting from any row at or above it.
proof fn lemma_col_empties_filled(g1: Seq<Seq<CellState>>, g2: Seq<Seq<CellState>>, c: int, le: int, r: int)
    requires
        0 <= le < 6,
        0 <= r <= le,
        forall|i: int| 0 <= i < 6 && i != le ==> (#[trigger] g1[i])[c] == g2[i][c],
        g1[le][c] == CellState::Empty,
        g2[le][c] != CellState::Empty,
    ensures
        col_empties(g2, c, r) == col_empties(g1, c, r) - 1,
    decreases 6 - r,
{
    if r == le {
        lemma_col_empties_same(g1, g2, c, r + 1);
    } else {
        lemma_col_empties_filled(g1, g2, c, le, r + 1);
    }
}

proof fn lemma_empties_filled(g1: Seq<Seq<CellState>>, g2: Seq<Seq<CellState>>, c: int, le: int, c0: int)
    requires
        0 <= le < 6,
        0 <= c < 7,
        0 <= c0 <= 7,
        forall|i: int, j: int| 0 <= i < 6 && 0 <= j < 7 && (i != le || j != c)
            ==> (#[trigger] g1[i][j]) == g2[i][j],
        g1[le][c] == CellState::Empty,
        g2[le][c] != CellState::Empty,
    ensures
        empties_from(g2, c0) == empties_from(g1, c0) - (if c0 <= c { 1int } else { 0int }),
    decreases 7 - c0,
{
    if c0 < 7 {
        if c0 == c {
            lemma_col_empties_filled(g1, g2, c, le, 0);
        } else {
            lemma_col_empties_same(g1, g2, c0, 0);
        }
        lemma_empties_filled(g1, g2, c, le, c0 + 1);
    }
}

/// Playing a non-full column keeps the board well-formed and removes
/// exactly one empty cell; a full column changes nothing.
pub proof fn lemma_apply_props(v: GameView, c: int)
    requires
        grid_wf(v.grid),
        0 <= c < 7,
    ensures
        grid_wf(spec_apply(v, c).grid),
        !col_full(v.grid, c) ==> count_empty(spec_apply(v, c).grid) == count_empty(v.grid) - 1,
        !col_full(v.grid, c) ==> spec_apply(v, c).turn == other_turn(v.turn),
{
    if !col_full(v.grid, c) {
        let g1 = v.grid;
        let le = lowest_empty_from(g1, c, 5);
        lemma_lowest_empty_props(g1, c, 5);
        if le == -1 {
            assert(forall|i: int| 0 <= i <= 5 ==> (#[trigger] g1[i])[c] != CellState::Empty);
            assert(col_full(g1, c));
        }
        assert(0 <= le < 6);
        let g2 = spec_apply(v, c).grid;
        assert(g2 == g1.update(le, g1[le].update(c, turn_cell(v.turn))));
        assert forall|r: int| 0 <= r < 6 implies (#[trigger] g2[r]).len() == 7 by {
            if r != le {
                assert(g2[r] == g1[r]);
            }
        }
        assert(grid_wf(g2));
        assert(g2[le][c] == turn_cell(v.turn));
        assert(forall|i: int, j: int| 0 <= i < 6 && 0 <= j < 7 && (i != le || j != c)
            ==> (#[trigger] g1[i][j]) == g2[i][j]);
        lemma_empties_filled(g1, g2, c, le, 0);
    }
}

/// Every listed move is a playable column in `c0..7`.
pub proof fn lemma_moves_valid(g: Seq<Seq<CellState>>, c0: int)
    requires
        0 <= c0 <= 7,
    ensures
        forall|i: int| 0 <= i < moves_from(g, c0).len()
            ==> c0 <= #[trigger] moves_from(g, c0)[i] < 7 && !col_full(g, moves_from(g, c0)[i]),
    decreases 7 - c0,
{
    if c0 < 7 {
        lemma_moves_valid(g, c0 + 1);
        assert forall|i: int| 0 <= i < moves_from(g, c0).len()
            implies c0 <= #[trigger] moves_from(g, c0)[i] < 7 && !col_full(g, moves_from(g, c0)[i]) by {
            if col_full(g, c0) {
                assert(moves_from(g, c0)[i] == moves_from(g, c0 + 1)[i]);
            } else if i > 0 {
                assert(moves_from(g, c0)[i] == moves_from(g, c0 + 1)[i - 1]);
            }
        }
    }
}

/// A playable column at or after `c0` appears in the move list.
pub proof fn lemma_moves_contains(g: Seq<Seq<CellState>>, c0: int, c: int)
    requires
        0 <= c0 <= c < 7,
        !col_full(g, c),
    ensures
        moves_from(g, c0).contains(c),
    decreases 7 - c0,
{
    if c0 == c {
        assert(moves_from(g, c0)[0] == c);
    } else {
        lemma_moves_contains(g, c0 + 1, c);
        let i = choose|i: int| 0 <= i < moves_from(g, c0 + 1).len() && (#[trigger] moves_from(g, c0 + 1)[i]) == c;
        if col_full(g, c0) {
            assert(moves_from(g, c0)[i] == c);
        } else {
            assert(moves_from(g, c0)[i + 1] == c);
        }
    }
}

/// A board that is not full has at least one legal move.
pub proof fn lemma_moves_nonempty(g: Seq<Seq<CellState>>)
    requires
        !board_full(g),
    ensures
        spec_moves(g).len() > 0,
{
    let c = choose|c: int| 0 <= c < 7 && !col_full(g, c);
    lemma_moves_contains(g, 0, c);
}

/// `lowest_empty_from(g, c, r)` is -1 exactly when rows 0..=r of column `c`
/// hold no empty cell, and otherwise names the largest empty row below r+1.
pub proof fn lemma_lowest_empty_props(g: Seq<Seq<CellState>>, c: int, r: int)
    requires
        r >= -1,
    ensures
        lowest_empty_from(g, c, r) >= -1,
        lowest_empty_from(g, c, r) == -1 ==> forall|i: int| 0 <= i <= r ==> (#[trigger] g[i])[c] != CellState::Empty,
        lowest_empty_from(g, c, r) >= 0 ==> {
            let le = lowest_empty_from(g, c, r);
            &&& le <= r
            &&& g[le][c] == CellState::Empty
        },
    decreases r + 1,
{
    if r >= 0 && g[r][c] != CellState::Empty {
        lemma_lowest_empty_props(g, c, r - 1);
    }
}

} // verus!
