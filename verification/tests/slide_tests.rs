use game_search::selector::{greedy_move, select_move, slide_search, SelectorConfig};
use game_search::slide::{slide_line, Direction, SlideBoard};
use game_search::weights::{score, Weights};

fn board_of(cells: [u32; 16]) -> SlideBoard {
    SlideBoard::from_cells(cells.to_vec())
}

fn cells_of(b: &SlideBoard) -> Vec<u32> {
    let mut out = Vec::new();
    for r in 0..4 {
        for c in 0..4 {
            out.push(b.get(r, c));
        }
    }
    out
}

#[test]
fn slide_line_compacts_and_merges_once() {
    assert_eq!(slide_line(&vec![2, 2, 0, 0]), vec![4, 0, 0, 0]);
    assert_eq!(slide_line(&vec![2, 2, 2, 2]), vec![4, 4, 0, 0]);
    assert_eq!(slide_line(&vec![2, 2, 2, 0]), vec![4, 2, 0, 0]);
    assert_eq!(slide_line(&vec![0, 2, 0, 2]), vec![4, 0, 0, 0]);
    assert_eq!(slide_line(&vec![2, 4, 2, 0]), vec![2, 4, 2, 0]);
    assert_eq!(slide_line(&vec![0, 0, 0, 0]), vec![0, 0, 0, 0]);
    assert_eq!(slide_line(&vec![4, 4, 2, 2]), vec![8, 4, 0, 0]);
}

#[test]
fn move_left_merges_the_leading_pair() {
    let b = board_of([
        2, 2, 0, 0,
        0, 0, 0, 0,
        0, 0, 0, 0,
        0, 0, 0, 0,
    ]);
    let moved = b.apply_move(Direction::Left);
    let mut expected = vec![0; 16];
    expected[0] = 4;
    assert_eq!(cells_of(&moved), expected);
}

#[test]
fn moves_toward_each_edge() {
    let b = board_of([
        2, 0, 0, 2,
        0, 0, 0, 0,
        0, 0, 0, 0,
        4, 0, 0, 0,
    ]);
    let right = b.apply_move(Direction::Right);
    assert_eq!(right.get(0, 3), 4);
    assert_eq!(right.get(3, 3), 4);
    let down = b.apply_move(Direction::Down);
    assert_eq!(down.get(3, 0), 4);
    assert_eq!(down.get(2, 0), 2);
    assert_eq!(down.get(3, 3), 2);
    let up = b.apply_move(Direction::Up);
    assert_eq!(up.get(0, 0), 2);
    assert_eq!(up.get(1, 0), 4);
    assert_eq!(up.get(0, 3), 2);
}

#[test]
fn legality_means_the_board_changes() {
    let b = board_of([
        2, 2, 0, 0,
        0, 0, 0, 0,
        0, 0, 0, 0,
        0, 0, 0, 0,
    ]);
    assert!(b.is_legal(Direction::Left));
    assert!(b.is_legal(Direction::Right));
    assert!(b.is_legal(Direction::Down));
    assert!(!b.is_legal(Direction::Up));
    assert_eq!(b.legal_moves(), vec![Direction::Down, Direction::Left, Direction::Right]);
    assert!(!b.is_terminal());
}

#[test]
fn checkerboard_is_terminal() {
    let b = board_of([
        2, 4, 2, 4,
        4, 2, 4, 2,
        2, 4, 2, 4,
        4, 2, 4, 2,
    ]);
    assert!(b.is_terminal());
    assert_eq!(b.legal_moves(), vec![]);
}

#[test]
fn features_have_their_documented_values() {
    let b = board_of([
        2, 0, 0, 0,
        0, 0, 0, 0,
        0, 0, 0, 0,
        0, 0, 0, 0,
    ]);
    assert_eq!(b.max_value(), 2);
    assert_eq!(b.empty_cells(), 15);
    assert_eq!(b.adjacent_bonus(), 0);
    // the lone tile differs by 2 from the cell to its right and below
    assert_eq!(b.roughness(), 4);

    let b = board_of([
        2, 2, 0, 0,
        2, 0, 0, 0,
        0, 0, 0, 0,
        0, 0, 0, 0,
    ]);
    // (0,1) matches its left neighbour, (1,0) matches the cell above:
    // each adds its own value once
    assert_eq!(b.adjacent_bonus(), 4);
    assert_eq!(b.empty_cells(), 13);
}

#[test]
fn scorer_is_the_weighted_feature_sum() {
    let b = board_of([
        2, 0, 0, 0,
        0, 0, 0, 0,
        0, 0, 0, 0,
        0, 0, 0, 0,
    ]);
    let w = Weights::new(1000, 0, 0, 0);
    assert_eq!(score(&b, &w), 2000);
    let w = Weights::new(0, 0, 1000, 0);
    assert_eq!(score(&b, &w), 15000);
    let w = Weights::new(1000, 0, 1000, 1000);
    assert_eq!(score(&b, &w), 2000 + 15000 + 4000);
}

#[test]
fn spawn_fills_the_single_empty_cell() {
    let mut cells: Vec<u32> = vec![
        2, 4, 8, 16,
        32, 64, 128, 0,
        2, 4, 8, 16,
        32, 64, 128, 256,
    ];
    let b = SlideBoard::from_cells(cells.clone());
    let after = b.spawn_random_tile();
    let got = cells_of(&after);
    assert!(got[7] == 2 || got[7] == 4);
    cells[7] = got[7];
    assert_eq!(got, cells);
}

#[test]
fn spawn_on_a_full_board_changes_nothing() {
    let b = board_of([
        2, 4, 2, 4,
        4, 2, 4, 2,
        2, 4, 2, 4,
        4, 2, 4, 2,
    ]);
    let after = b.spawn_random_tile();
    assert_eq!(cells_of(&after), cells_of(&b));
}

#[test]
fn a_fresh_game_has_two_tiles() {
    let b = SlideBoard::new_random();
    assert_eq!(b.empty_cells(), 14);
    let mut tiles = 0;
    for v in cells_of(&b) {
        if v != 0 {
            assert!(v == 2 || v == 4);
            tiles += 1;
        }
    }
    assert_eq!(tiles, 2);
}

#[test]
fn greedy_prefers_the_merging_move() {
    let b = board_of([
        2, 2, 0, 0,
        0, 0, 0, 0,
        0, 0, 0, 0,
        0, 0, 0, 0,
    ]);
    let w = Weights::new(1000, 0, 0, 0);
    // down keeps the largest tile at 2; left and right merge to 4; on the
    // left-right tie, priority order keeps left
    assert_eq!(greedy_move(&b, &w), Some(Direction::Left));
}

#[test]
fn selector_returns_a_move_exactly_when_one_exists() {
    let b = board_of([
        2, 2, 0, 0,
        0, 0, 0, 0,
        0, 0, 0, 0,
        0, 0, 0, 0,
    ]);
    let w = Weights::new(1000, 0, 0, 0);
    let cfg = SelectorConfig::SearchBacked { depth: 1 };
    assert_eq!(select_move(&b, &cfg, &w), Some(Direction::Left));
    assert_eq!(select_move(&b, &SelectorConfig::Greedy, &w), Some(Direction::Left));

    let t = board_of([
        2, 4, 2, 4,
        4, 2, 4, 2,
        2, 4, 2, 4,
        4, 2, 4, 2,
    ]);
    assert_eq!(select_move(&t, &cfg, &w), None);
    assert_eq!(select_move(&t, &SelectorConfig::Greedy, &w), None);
}

#[test]
fn slide_search_depth_zero_is_the_direct_score() {
    let b = board_of([
        2, 2, 4, 0,
        0, 0, 0, 0,
        0, 0, 0, 0,
        0, 0, 0, 0,
    ]);
    let w = Weights::new(1000, 500, 250, 10);
    let r = slide_search(&b, &w, 0, true);
    assert_eq!(r.score, score(&b, &w));
}

#[test]
fn trivial_scorer_scores_every_board_zero() {
    let w = game_search::weights::trivial_weights();
    let b = board_of([
        2, 4, 8, 16,
        0, 0, 0, 0,
        0, 0, 0, 0,
        0, 0, 0, 2,
    ]);
    assert_eq!(score(&b, &w), 0);
    assert_eq!(score(&SlideBoard::new(), &w), 0);
}
