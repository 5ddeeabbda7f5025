use game_search::eval::evaluate_board;
use game_search::game::{CellState, Game, GameResult, Grid, Turn};
use game_search::search::{search, AI};

fn empty_grid() -> Grid {
    vec![vec![CellState::Empty; 7]; 6]
}

#[test]
fn new_game_is_empty_and_player_one_moves() {
    let g = Game::new();
    assert!(matches!(g.turn(), Turn::PlayerOne));
    let board = g.board();
    for row in &board {
        for cell in row {
            assert_eq!(*cell, CellState::Empty);
        }
    }
    assert!(!g.is_game_over());
}

#[test]
fn make_move_drops_to_bottom_and_flips_turn() {
    let g = Game::new();
    let g2 = g.make_move(3);
    assert_eq!(g2.board()[5][3], CellState::PlayerOne);
    assert!(matches!(g2.turn(), Turn::PlayerTwo));
    let g3 = g2.make_move(3);
    assert_eq!(g3.board()[4][3], CellState::PlayerTwo);
    assert!(matches!(g3.turn(), Turn::PlayerOne));
}

#[test]
fn full_column_move_returns_state_unchanged() {
    let mut g = Game::new();
    for _ in 0..6 {
        g = g.make_move(0);
    }
    assert!(g.is_col_full(0));
    let before = g.board();
    let turn_before = g.turn();
    let g2 = g.make_move(0);
    assert_eq!(g2.board(), before);
    assert_eq!(g2.turn(), turn_before);
}

#[test]
fn available_moves_skip_full_columns() {
    let mut g = Game::new();
    for _ in 0..6 {
        g = g.make_move(2);
    }
    let moves = g.get_available_moves();
    assert_eq!(moves, vec![0, 1, 3, 4, 5, 6]);
}

#[test]
fn row_win_is_reported_for_player_one() {
    let mut grid = empty_grid();
    for c in 0..4 {
        grid[5][c] = CellState::PlayerOne;
    }
    // player one just moved, so it is player two's turn
    let g = Game::from_grid(grid, Turn::PlayerTwo);
    assert!(g.is_game_over());
    assert!(matches!(g.check_for_result(), Some(GameResult::PlayerOneWin)));
}

#[test]
fn column_and_diagonal_wins_are_reported() {
    let mut grid = empty_grid();
    for r in 2..6 {
        grid[r][6] = CellState::PlayerTwo;
    }
    let g = Game::from_grid(grid, Turn::PlayerOne);
    assert!(matches!(g.check_for_result(), Some(GameResult::PlayerTwoWin)));

    let mut grid = empty_grid();
    for k in 0..4 {
        grid[1 + k][2 + k] = CellState::PlayerOne;
    }
    let g = Game::from_grid(grid, Turn::PlayerTwo);
    assert!(matches!(g.check_for_result(), Some(GameResult::PlayerOneWin)));

    let mut grid = empty_grid();
    for k in 0..4 {
        grid[2 + k][5 - k] = CellState::PlayerOne;
    }
    let g = Game::from_grid(grid, Turn::PlayerTwo);
    assert!(matches!(g.check_for_result(), Some(GameResult::PlayerOneWin)));
}

#[test]
fn full_board_without_winner_is_a_draw() {
    // columns of three-of-one then three-of-the-other, phase shifted so no
    // four in a line appears anywhere
    let one = CellState::PlayerOne;
    let two = CellState::PlayerTwo;
    let grid: Grid = vec![
        vec![two, two, one, two, two, one, one],
        vec![one, one, two, one, one, two, two],
        vec![two, two, one, two, two, one, one],
        vec![one, one, two, one, one, two, two],
        vec![two, two, one, two, two, one, one],
        vec![one, one, two, one, one, two, two],
    ];
    let g = Game::from_grid(grid, Turn::PlayerOne);
    assert!(matches!(g.check_for_result(), Some(GameResult::Draw)));
}

#[test]
fn evaluator_rewards_every_window_of_three() {
    let mut grid = empty_grid();
    for c in 0..3 {
        grid[5][c] = CellState::PlayerOne;
    }
    assert_eq!(evaluate_board(&grid, Turn::PlayerOne), 10);
    assert_eq!(evaluate_board(&grid, Turn::PlayerTwo), 0);

    // a run of five scores once per window reaching the threshold
    let mut grid = empty_grid();
    for c in 0..5 {
        grid[5][c] = CellState::PlayerOne;
    }
    assert_eq!(evaluate_board(&grid, Turn::PlayerOne), 30);
}

#[test]
fn each_diagonal_is_scanned_exactly_once() {
    // a run of five on the main diagonal: windows end at its third,
    // fourth and fifth cells, and nowhere else
    let mut grid = empty_grid();
    for k in 0..5 {
        grid[k][k] = CellState::PlayerOne;
    }
    assert_eq!(evaluate_board(&grid, Turn::PlayerOne), 30);

    // one window on an up-right diagonal
    let mut grid = empty_grid();
    for k in 0..3 {
        grid[5 - k][k] = CellState::PlayerOne;
    }
    assert_eq!(evaluate_board(&grid, Turn::PlayerOne), 10);

    // a full diagonal of length three cannot hold a winning run and is
    // not scanned at all
    let mut grid = empty_grid();
    grid[0][4] = CellState::PlayerOne;
    grid[1][5] = CellState::PlayerOne;
    grid[2][6] = CellState::PlayerOne;
    assert_eq!(evaluate_board(&grid, Turn::PlayerOne), 0);
}

#[test]
fn play_out_is_deterministic() {
    let start = Game::new().make_move(3);
    let mut a = AI::new(start.clone());
    let mut b = AI::new(start);
    a.run_to_completion();
    b.run_to_completion();
    assert!(a.current_game_state == b.current_game_state);
    assert!(a.current_game_state.is_game_over());
}

#[test]
fn depth_zero_search_equals_direct_evaluation() {
    let mut grid = empty_grid();
    for c in 1..4 {
        grid[5][c] = CellState::PlayerOne;
    }
    grid[4][2] = CellState::PlayerTwo;
    let g = Game::from_grid(grid, Turn::PlayerOne);
    let direct = evaluate_board(&g.board(), g.next_turn());
    let leaf = search(&g, 0, true).unwrap();
    assert_eq!(leaf.score, direct);
    assert_eq!(leaf.best_move, 0);
    let leaf_min = search(&g, 0, false).unwrap();
    assert_eq!(leaf_min.score, direct);
}

#[test]
fn search_is_deterministic() {
    let g = Game::new().make_move(3).make_move(2).make_move(4);
    let a = search(&g, 2, true).unwrap();
    let b = search(&g, 2, true).unwrap();
    assert_eq!(a.score, b.score);
    assert_eq!(a.best_move, b.best_move);
}

#[test]
fn tie_break_keeps_first_move_in_column_order() {
    // from an empty board every depth-1 child scores 0: a full tie, so the
    // first column must be kept
    let g = Game::new();
    let r = search(&g, 1, true).unwrap();
    assert_eq!(r.best_move, 0);
    assert_eq!(r.score, 0);
}

#[test]
fn depth_one_search_completes_three_in_a_row() {
    let mut grid = empty_grid();
    for c in 0..3 {
        grid[5][c] = CellState::PlayerOne;
    }
    grid[5][6] = CellState::PlayerTwo;
    grid[4][6] = CellState::PlayerTwo;
    grid[3][6] = CellState::PlayerTwo;
    let g = Game::from_grid(grid, Turn::PlayerOne);
    assert!(!g.is_game_over());
    let r = search(&g, 1, true).unwrap();
    assert_eq!(r.best_move, 3);
    assert_eq!(r.score, 20);
}

#[test]
fn ai_plays_both_sides_to_the_end() {
    let mut ai = AI::new(Game::new());
    ai.run_to_completion();
    assert!(ai.current_game_state.is_game_over());
}

#[test]
fn get_best_move_matches_search_at_depth_one() {
    let g = Game::new().make_move(3).make_move(3);
    let ai = AI::new(g.make_move(2));
    let expected = search(&ai.current_game_state, 1, true).unwrap().best_move;
    assert_eq!(ai.get_best_move(), expected);
}

#[test]
fn games_compare_equal_on_board_and_turn() {
    let a = Game::new().make_move(3);
    let b = Game::new().make_move(3);
    assert!(a == b);
    let c = Game::new().make_move(2);
    assert!(a != c);
    // same board, different player to move
    let mut grid = empty_grid();
    grid[5][3] = CellState::PlayerOne;
    let d = Game::from_grid(grid, Turn::PlayerOne);
    assert!(a != d);
}
