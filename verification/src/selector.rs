use vstd::prelude::*;
use crate::slide::{Direction, SlideBoard, dir_order, legal_from, spec_legal, spec_legal_dirs, spec_move_board, spec_terminal};
use crate::weights::{Weights, score, spec_score};

verus! {

// The move selector for the sliding game: either a depth-bounded minimax
// search or a one-ply greedy pick, both driven by the weighted scorer.
// Directions are tried in the fixed priority order (up, down, left,
// right); only a strictly better score replaces the running best, so a
// full tie falls to the earlier, higher-priority direction.

/// How the selector picks a move.
#[derive(Copy, Clone, Debug, PartialEq, Eq, Structural)]
pub enum SelectorConfig {
    /// Depth-bounded minimax from the maximizing perspective.
    SearchBacked { depth: usize },
    /// One-ply greedy: score each child state directly.
    Greedy,
}

/// Score and direction of one sliding search. At a leaf (depth 0 or a
/// terminal board) the direction is the no-op placeholder `Up`.
#[derive(Copy, Clone, Debug, PartialEq, Eq, Structural)]
pub struct SlideSearchResult {
    pub score: u64,
    pub direction: Direction,
}

pub open spec fn slide_better(maximizing: bool, s: int, best: int) -> bool {
    if maximizing {
        s > best
    } else {
        s < best
    }
}

/// Minimax value and direction of a sliding position: at depth 0 or a
/// terminal board the direct weighted score; otherwise the fold over the
/// legal directions in priority order, keeping the first strictly best
/// child. Children are the deterministic slides, with no spawned tile.
pub open spec fn spec_slide_search(b: Seq<u32>, w: Weights, depth: nat, maximizing: bool) -> (int, Direction)
    decreases depth, spec_legal_dirs(b).len() + 1,
{
    if depth == 0 || spec_terminal(b) {
        (spec_score(b, w), Direction::Up)
    } else {
        let dirs = spec_legal_dirs(b);
        let first = (
            spec_slide_search(spec_move_board(b, dirs[0]), w, (depth - 1) as nat, !maximizing).0,
            dirs[0],
        );
        spec_slide_search_from(b, w, depth, maximizing, 1, first)
    }
}

/// The fold from direction index `i` on, entered with the running best.
pub open spec fn spec_slide_search_from(
    b: Seq<u32>,
    w: Weights,
    depth: nat,
    maximizing: bool,
    i: nat,
    best: (int, Direction),
) -> (int, Direction)
    decreases depth, spec_legal_dirs(b).len() - i,
{
    let dirs = spec_legal_dirs(b);
    if depth == 0 || i >= dirs.len() {
        best
    } else {
        let s = spec_slide_search(spec_move_board(b, dirs[i as int]), w, (depth - 1) as nat, !maximizing).0;
        let b2 = if slide_better(maximizing, s, best.0) {
            (s, dirs[i as int])
        } else {
            best
        };
        spec_slide_search_from(b, w, depth, maximizing, i + 1, b2)
    }
}

/// Depth-bounded minimax over the sliding game, no pruning and no move
/// ordering beyond the priority order; the first direction achieving the
/// best score is kept.
pub fn slide_search(board: &SlideBoard, weights: &Weights, depth: usize, maximizing: bool) -> (r: SlideSearchResult)
    requires
        board.wf(),
        weights.wf(),
    ensures
        r.score as int == spec_slide_search(board@, *weights, depth as nat, maximizing).0,
        r.direction == spec_slide_search(board@, *weights, depth as nat, maximizing).1,
    decreases depth,
{
    let ghost b = board@;
    let ghost d = depth as nat;
    let dirs = board.legal_moves();
    if depth == 0 || dirs.len() == 0 {
        let s = score(board, weights);
        return SlideSearchResult { score: s, direction: Direction::Up };
    }
    let child = board.apply_move(dirs[0]);
    let first = slide_search(&child, weights, depth - 1, !maximizing);
    let mut best_score = first.score;
    let mut best_dir = dirs[0];
    let mut k: usize = 1;
    proof {
        assert(spec_slide_search(b, *weights, d, maximizing)
            == spec_slide_search_from(b, *weights, d, maximizing, 1, (best_score as int, best_dir)));
    }
    while k < dirs.len()
        invariant
            board.wf(),
            weights.wf(),
            b == board@,
            d == depth as nat,
            depth >= 1,
            dirs@ == spec_legal_dirs(b),
            1 <= k <= dirs@.len(),
            spec_slide_search(b, *weights, d, maximizing)
                == spec_slide_search_from(b, *weights, d, maximizing, k as nat, (best_score as int, best_dir)),
        decreases dirs@.len() - k,
    {
        let child = board.apply_move(dirs[k]);
        let sr = slide_search(&child, weights, depth - 1, !maximizing);
        if (maximizing && sr.score > best_score) || (!maximizing && sr.score < best_score) {
            best_score = sr.score;
            best_dir = dirs[k];
        }
        k += 1;
    }
    SlideSearchResult { score: best_score, direction: best_dir }
}

/// Every listed direction is a legal move.
pub proof fn lemma_legal_dirs_legal(b: Seq<u32>, i: int)
    ensures
        forall|t: int| 0 <= t < legal_from(b, i).len()
            ==> spec_legal(b, #[trigger] legal_from(b, i)[t]),
    decreases 4 - i,
{
    if 0 <= i < 4 {
        lemma_legal_dirs_legal(b, i + 1);
        assert forall|t: int| 0 <= t < legal_from(b, i).len()
            implies spec_legal(b, #[trigger] legal_from(b, i)[t]) by {
            if spec_legal(b, dir_order()[i]) {
                if t > 0 {
                    assert(legal_from(b, i)[t] == legal_from(b, i + 1)[t - 1]);
                }
            } else {
                assert(legal_from(b, i)[t] == legal_from(b, i + 1)[t]);
            }
        }
    }
}

proof fn lemma_slide_search_from_keeps_membership(
    b: Seq<u32>,
    w: Weights,
    depth: nat,
    maximizing: bool,
    i: nat,
    best: (int, Direction),
)
    requires
        spec_legal_dirs(b).contains(best.1),
    ensures
        spec_legal_dirs(b).contains(spec_slide_search_from(b, w, depth, maximizing, i, best).1),
    decreases spec_legal_dirs(b).len() - i,
{
    let dirs = spec_legal_dirs(b);
    if depth != 0 && i < dirs.len() {
        let s = spec_slide_search(spec_move_board(b, dirs[i as int]), w, (depth - 1) as nat, !maximizing).0;
        if slide_better(maximizing, s, best.0) {
            lemma_slide_search_from_keeps_membership(b, w, depth, maximizing, i + 1, (s, dirs[i as int]));
        } else {
            lemma_slide_search_from_keeps_membership(b, w, depth, maximizing, i + 1, best);
        }
    }
}

/// A non-leaf sliding search returns one of the legal moves.
pub proof fn lemma_slide_search_move_legal(b: Seq<u32>, w: Weights, depth: nat, maximizing: bool)
    requires
        depth >= 1,
        !spec_terminal(b),
    ensures
        spec_legal(b, spec_slide_search(b, w, depth, maximizing).1),
{
    let dirs = spec_legal_dirs(b);
    assert(dirs.contains(dirs[0]));
    lemma_slide_search_from_keeps_membership(
        b,
        w,
        depth,
        maximizing,
        1,
        (spec_slide_search(spec_move_board(b, dirs[0]), w, (depth - 1) as nat, !maximizing).0, dirs[0]),
    );
    lemma_legal_dirs_legal(b, 0);
    let mv = spec_slide_search(b, w, depth, maximizing).1;
    let t = choose|t: int| 0 <= t < dirs.len() && dirs[t] == mv;
    assert(spec_legal(b, dirs[t]));
}

proof fn lemma_greedy_from_keeps_membership(
    b: Seq<u32>,
    w: Weights,
    i: nat,
    best: (int, Direction),
)
    requires
        spec_legal_dirs(b).contains(best.1),
    ensures
        spec_legal_dirs(b).contains(spec_greedy_from(b, w, i, best).1),
    decreases spec_legal_dirs(b).len() - i,
{
    let dirs = spec_legal_dirs(b);
    if i < dirs.len() {
        let s = spec_score(spec_move_board(b, dirs[i as int]), w);
        if s > best.0 {
            lemma_greedy_from_keeps_membership(b, w, i + 1, (s, dirs[i as int]));
        } else {
            lemma_greedy_from_keeps_membership(b, w, i + 1, best);
        }
    }
}

/// On a non-terminal board the greedy choice is a legal move.
pub proof fn lemma_greedy_move_legal(b: Seq<u32>, w: Weights)
    requires
        !spec_terminal(b),
    ensures
        spec_greedy(b, w) is Some,
        spec_legal(b, spec_greedy(b, w)->Some_0),
{
    let dirs = spec_legal_dirs(b);
    assert(dirs.contains(dirs[0]));
    lemma_greedy_from_keeps_membership(
        b,
        w,
        1,
        (spec_score(spec_move_board(b, dirs[0]), w), dirs[0]),
    );
    lemma_legal_dirs_legal(b, 0);
    let mv = spec_greedy(b, w)->Some_0;
    let t = choose|t: int| 0 <= t < dirs.len() && dirs[t] == mv;
    assert(spec_legal(b, dirs[t]));
}

/// Greedy value of the fold from index `i` on.
pub open spec fn spec_greedy_from(
    b: Seq<u32>,
    w: Weights,
    i: nat,
    best: (int, Direction),
) -> (int, Direction)
    decreases spec_legal_dirs(b).len() - i,
{
    let dirs = spec_legal_dirs(b);
    if i >= dirs.len() {
        best
    } else {
        let s = spec_score(spec_move_board(b, dirs[i as int]), w);
        let b2 = if s > best.0 {
            (s, dirs[i as int])
        } else {
            best
        };
        spec_greedy_from(b, w, i + 1, b2)
    }
}

/// The greedy choice: the first legal direction, in priority order, whose
/// child state's direct score is strictly best; `None` on a terminal
/// board.
pub open spec fn spec_greedy(b: Seq<u32>, w: Weights) -> Option<Direction> {
    let dirs = spec_legal_dirs(b);
    if dirs.len() == 0 {
        None
    } else {
        let first = (spec_score(spec_move_board(b, dirs[0]), w), dirs[0]);
        Some(spec_greedy_from(b, w, 1, first).1)
    }
}

/// One-ply greedy selection: each legal direction's resulting state is
/// scored directly and the strictly best is picked; a full tie falls to
/// the fixed priority order up, down, left, right.
pub fn greedy_move(board: &SlideBoard, weights: &Weights) -> (r: Option<Direction>)
    requires
        board.wf(),
        weights.wf(),
    ensures
        r == spec_greedy(board@, *weights),
{
    let ghost b = board@;
    let dirs = board.legal_moves();
    if dirs.len() == 0 {
        return None;
    }
    let child = board.apply_move(dirs[0]);
    let mut best_score = score(&child, weights);
    let mut best_dir = dirs[0];
    let mut k: usize = 1;
    while k < dirs.len()
        invariant
            board.wf(),
            weights.wf(),
            b == board@,
            dirs@ == spec_legal_dirs(b),
            1 <= k <= dirs@.len(),
            spec_greedy(b, *weights)
                == Some(spec_greedy_from(b, *weights, k as nat, (best_score as int, best_dir)).1),
        decreases dirs@.len() - k,
    {
        let child = board.apply_move(dirs[k]);
        let s = score(&child, weights);
        if s > best_score {
            best_score = s;
            best_dir = dirs[k];
        }
        k += 1;
    }
    Some(best_dir)
}

/// Picks one move from the current state under the chosen strategy:
/// `Some` of a move exactly when the board is not terminal. Callers are
/// responsible for detecting terminal states; a search depth of at least
/// one ply is the caller's obligation, checked upstream as configuration.
pub fn select_move(board: &SlideBoard, config: &SelectorConfig, weights: &Weights) -> (r: Option<Direction>)
    requires
        board.wf(),
        weights.wf(),
        config is SearchBacked ==> config->depth >= 1,
    ensures
        r is Some <==> !spec_terminal(board@),
        r is Some ==> spec_legal(board@, r->Some_0),
        match *config {
            SelectorConfig::SearchBacked { depth } => !spec_terminal(board@)
                ==> r == Some(spec_slide_search(board@, *weights, depth as nat, true).1),
            SelectorConfig::Greedy => r == spec_greedy(board@, *weights),
        },
{
    match config {
        SelectorConfig::SearchBacked { depth } => {
            if board.is_terminal() {
                None
            } else {
                let sr = slide_search(board, weights, *depth, true);
                proof {
                    lemma_slide_search_move_legal(board@, *weights, *depth as nat, true);
                }
                Some(sr.direction)
            }
        },
        SelectorConfig::Greedy => {
            let r = greedy_move(board, weights);
            proof {
                if !spec_terminal(board@) {
                    lemma_greedy_move_legal(board@, *weights);
                }
            }
            r
        },
    }
}

} // verus!
