use vstd::prelude::*;
use crate::game::{
    Game, GameView, board_full, count_empty, lemma_apply_props, lemma_empties_nonneg,
    lemma_moves_nonempty, lemma_moves_valid, other_turn, spec_apply, spec_moves, spec_over,
    spec_result, turn_cell,
};
use crate::eval::{evaluate_board, spec_board_score};

verus! {

// Depth-bounded, unpruned minimax over the connect-style game.
//
// The tree is explored to a fixed depth, alternating maximizing and
// minimizing perspective. Moves are tried in natural column order, and only
// a strictly better score replaces the running best, so the first move
// achieving the best score is the one returned.

/// Score and move returned by one search invocation. At a leaf (depth 0 or
/// a finished game) the move is the no-op move 0.
#[derive(Copy, Clone, Debug, PartialEq, Eq, Structural)]
pub struct SearchResult {
    pub score: u32,
    pub best_move: usize,
}

/// Failure of the engine's collaborator contract: a state that is not
/// terminal offered no legal move.
#[derive(Copy, Clone, Debug, PartialEq, Eq, Structural)]
pub enum EngineError {
    NoLegalMoves,
}

/// Leaf evaluation: the state reached is always scored from the
/// perspective of the turn after the one to move, for both players alike
/// (the evaluation flips to "next turn's" perspective, at the root too).
pub open spec fn spec_leaf_score(v: GameView) -> int {
    spec_board_score(v.grid, turn_cell(other_turn(v.turn)))
}

/// Strict improvement over the running best, in the given perspective.
pub open spec fn better(maximizing: bool, s: int, best: int) -> bool {
    if maximizing {
        s > best
    } else {
        s < best
    }
}

/// The minimax value and move of a position: at depth 0 or a finished game
/// the leaf score and the no-op move; otherwise the fold over the legal
/// moves in column order, keeping the first strictly best child.
pub open spec fn spec_search(v: GameView, depth: nat, maximizing: bool) -> (int, int)
    decreases depth, spec_moves(v.grid).len() + 1,
{
    if depth == 0 || spec_over(v) {
        (spec_leaf_score(v), 0)
    } else {
        let moves = spec_moves(v.grid);
        if moves.len() == 0 {
            (spec_leaf_score(v), 0)
        } else {
            let first = (
                spec_search(spec_apply(v, moves[0]), (depth - 1) as nat, !maximizing).0,
                moves[0],
            );
            spec_search_from(v, depth, maximizing, 1, first)
        }
    }
}

/// The fold from move index `i` on, entered with the running best pair.
pub open spec fn spec_search_from(
    v: GameView,
    depth: nat,
    maximizing: bool,
    i: nat,
    best: (int, int),
) -> (int, int)
    decreases depth, spec_moves(v.grid).len() - i,
{
    let moves = spec_moves(v.grid);
    if depth == 0 || i >= moves.len() {
        best
    } else {
        let s = spec_search(spec_apply(v, moves[i as int]), (depth - 1) as nat, !maximizing).0;
        let b2 = if better(maximizing, s, best.0) {
            (s, moves[i as int])
        } else {
            best
        };
        spec_search_from(v, depth, maximizing, i + 1, b2)
    }
}

/// Minimax value of the child reached by the `i`-th legal move.
pub open spec fn child_score(v: GameView, depth: nat, maximizing: bool, i: int) -> int {
    spec_search(spec_apply(v, spec_moves(v.grid)[i]), (depth - 1) as nat, !maximizing).0
}

/// The returned pair names the first legal move, in enumeration order,
/// whose child value equals the best child value.
pub open spec fn is_first_best(v: GameView, depth: nat, maximizing: bool, s: int, mv: int) -> bool {
    exists|j: int|
        {
            &&& 0 <= j < spec_moves(v.grid).len()
            &&& #[trigger] spec_moves(v.grid)[j] == mv
            &&& child_score(v, depth, maximizing, j) == s
            &&& forall|k: int| 0 <= k < spec_moves(v.grid).len()
                ==> !better(maximizing, #[trigger] child_score(v, depth, maximizing, k), s)
            &&& forall|k: int| 0 <= k < j ==> #[trigger] child_score(v, depth, maximizing, k) != s
        }
}

proof fn lemma_search_from_first_best(
    v: GameView,
    depth: nat,
    maximizing: bool,
    i: nat,
    best: (int, int),
    j: int,
)
    requires
        depth >= 1,
        1 <= i <= spec_moves(v.grid).len(),
        0 <= j < i,
        spec_moves(v.grid)[j] == best.1,
        child_score(v, depth, maximizing, j) == best.0,
        forall|k: int| 0 <= k < i ==> !better(maximizing, #[trigger] child_score(v, depth, maximizing, k), best.0),
        forall|k: int| 0 <= k < j ==> #[trigger] child_score(v, depth, maximizing, k) != best.0,
    ensures
        is_first_best(
            v,
            depth,
            maximizing,
            spec_search_from(v, depth, maximizing, i, best).0,
            spec_search_from(v, depth, maximizing, i, best).1,
        ),
    decreases spec_moves(v.grid).len() - i,
{
    let moves = spec_moves(v.grid);
    if i >= moves.len() {
        assert(spec_search_from(v, depth, maximizing, i, best) == best);
    } else {
        let s = child_score(v, depth, maximizing, i as int);
        if better(maximizing, s, best.0) {
            lemma_search_from_first_best(v, depth, maximizing, i + 1, (s, moves[i as int]), i as int);
        } else {
            lemma_search_from_first_best(v, depth, maximizing, i + 1, best, j);
        }
    }
}

/// Tie-break stability: at depth 1 or more, with at least one legal move,
/// the search returns the first move in enumeration order whose child value
/// achieves the best child value; a later move with an equal value never
/// replaces it.
pub proof fn lemma_search_returns_first_best(v: GameView, depth: nat, maximizing: bool)
    requires
        depth >= 1,
        !spec_over(v),
        spec_moves(v.grid).len() > 0,
    ensures
        is_first_best(
            v,
            depth,
            maximizing,
            spec_search(v, depth, maximizing).0,
            spec_search(v, depth, maximizing).1,
        ),
{
    let moves = spec_moves(v.grid);
    let first = (child_score(v, depth, maximizing, 0), moves[0]);
    lemma_search_from_first_best(v, depth, maximizing, 1, first, 0);
}

/// The move returned by a non-leaf search is one of the legal moves.
pub proof fn lemma_search_move_legal(v: GameView, depth: nat, maximizing: bool)
    requires
        depth >= 1,
        !spec_over(v),
        spec_moves(v.grid).len() > 0,
    ensures
        spec_moves(v.grid).contains(spec_search(v, depth, maximizing).1),
{
    lemma_search_returns_first_best(v, depth, maximizing);
    let mv = spec_search(v, depth, maximizing).1;
    let j = choose|j: int|
        {
            &&& 0 <= j < spec_moves(v.grid).len()
            &&& #[trigger] spec_moves(v.grid)[j] == mv
            &&& child_score(v, depth, maximizing, j) == spec_search(v, depth, maximizing).0
            &&& forall|k: int| 0 <= k < spec_moves(v.grid).len()
                ==> !better(maximizing, #[trigger] child_score(v, depth, maximizing, k), spec_search(v, depth, maximizing).0)
            &&& forall|k: int| 0 <= k < j ==> #[trigger] child_score(v, depth, maximizing, k) != spec_search(v, depth, maximizing).0
        };
    assert(spec_moves(v.grid)[j] == mv);
}

/// Determinism of search: the result is a function of the position, the
/// depth and the perspective alone; two searches of equal inputs return
/// equal score-move pairs, with no hidden randomness.
pub proof fn lemma_search_deterministic(v1: GameView, v2: GameView, depth: nat, maximizing: bool)
    requires
        v1 == v2,
    ensures
        spec_search(v1, depth, maximizing) == spec_search(v2, depth, maximizing),
{
}

/// Terminal short-circuit: a depth-0 search of any state, in either
/// perspective, is exactly the direct evaluator score of that state, taken
/// from the perspective of the turn after the one to move.
pub proof fn lemma_search_depth_zero(v: GameView, maximizing: bool)
    ensures
        spec_search(v, 0, maximizing).0 == spec_leaf_score(v),
        spec_search(v, 0, maximizing).1 == 0,
{
}

/// Depth-bounded minimax: explores the move tree to `depth` plies with no
/// pruning and no move ordering beyond column order, and returns the best
/// score together with the first move achieving it. A state that is not
/// terminal yet offers no legal move is a collaborator contract breach and
/// is reported as an error; for a well-formed board it cannot occur, so the
/// result is always `Ok`.
pub fn search(game: &Game, depth: usize, maximizing: bool) -> (r: Result<SearchResult, EngineError>)
    requires
        game.wf(),
    ensures
        ({
            let sm = spec_search(game@, depth as nat, maximizing);
            match r {
                Ok(sr) => sr.score == sm.0 && sr.best_move == sm.1 && sr.best_move < 7,
                Err(_) => false,
            }
        }),
    decreases depth,
{
    let ghost v = game@;
    if depth == 0 || game.is_game_over() {
        let score = evaluate_board(&game.board(), game.next_turn());
        return Ok(SearchResult { score, best_move: 0 });
    }
    let moves = game.get_available_moves();
    proof {
        if moves.len() == 0 {
            assert(!board_full(v.grid)) by {
                if board_full(v.grid) {
                    assert(spec_result(v) is Some);
                }
            }
            lemma_moves_nonempty(v.grid);
            assert(spec_moves(v.grid)[0] == moves@.map_values(|m: usize| m as int)[0]);
            assert(false);
        }
        lemma_moves_valid(v.grid, 0);
    }
    if moves.len() == 0 {
        return Err(EngineError::NoLegalMoves);
    }
    let ghost d = depth as nat;
    proof {
        assert(moves@.map_values(|m: usize| m as int)[0] == moves@[0] as int);
    }
    let child = game.make_move(moves[0]);
    let first = match search(&child, depth - 1, !maximizing) {
        Ok(sr) => sr,
        Err(e) => {
            return Err(e);
        },
    };
    let mut best_score = first.score;
    let mut best_move = moves[0];
    let mut k: usize = 1;
    proof {
        assert(spec_search(v, d, maximizing)
            == spec_search_from(v, d, maximizing, 1, (best_score as int, best_move as int)));
    }
    while k < moves.len()
        invariant
            game.wf(),
            v == game@,
            d == depth as nat,
            depth >= 1,
            !spec_over(v),
            moves@.map_values(|m: usize| m as int) == spec_moves(v.grid),
            forall|i: int| 0 <= i < moves@.len() ==> (#[trigger] moves@[i]) < 7,
            1 <= k <= moves@.len(),
            best_move < 7,
            spec_search(v, d, maximizing)
                == spec_search_from(v, d, maximizing, k as nat, (best_score as int, best_move as int)),
        decreases moves@.len() - k,
    {
        proof {
            assert(moves@.map_values(|m: usize| m as int)[k as int] == moves@[k as int] as int);
        }
        let child = game.make_move(moves[k]);
        let sr = match search(&child, depth - 1, !maximizing) {
            Ok(sr) => sr,
            Err(e) => {
                return Err(e);
            },
        };
        if (maximizing && sr.score > best_score) || (!maximizing && sr.score < best_score) {
            best_score = sr.score;
            best_move = moves[k];
        }
        k += 1;
    }
    Ok(SearchResult { score: best_score, best_move })
}

/// The position after `fuel` best moves at depth 1, stopping at a
/// finished game: the deterministic play-out that `run_to_completion`
/// performs.
pub open spec fn spec_play_out(v: GameView, fuel: nat) -> GameView
    decreases fuel,
{
    if fuel == 0 || spec_over(v) {
        v
    } else {
        spec_play_out(spec_apply(v, spec_search(v, 1, true).1), (fuel - 1) as nat)
    }
}

/// A search-backed player that owns the current snapshot and plays both
/// sides of the game to completion.
pub struct AI {
    pub current_game_state: Game,
}

impl AI {
    pub fn new(game: Game) -> (ai: AI)
        ensures
            ai.current_game_state == game,
    {
        AI { current_game_state: game }
    }

    /// The move a depth-1 maximizing search picks from the current state.
    pub fn get_best_move(&self) -> (mv: usize)
        requires
            self.current_game_state.wf(),
        ensures
            mv as int == spec_search(self.current_game_state@, 1, true).1,
            mv < 7,
    {
        let depth: usize = 1;
        match search(&self.current_game_state, depth, true) {
            Ok(sr) => sr.best_move,
            Err(_) => {
                proof {
                    assert(false);
                }
                0
            },
        }
    }

    /// Plays the depth-1 best move for whichever side is to move until the
    /// game ends; the final state is exactly the deterministic play-out of
    /// the initial one, reached in at most one move per empty cell.
    pub fn run_to_completion(&mut self)
        requires
            old(self).current_game_state.wf(),
        ensures
            final(self).current_game_state.wf(),
            spec_over(final(self).current_game_state@),
            final(self).current_game_state@ == spec_play_out(
                old(self).current_game_state@,
                count_empty(old(self).current_game_state@.grid) as nat,
            ),
    {
        let ghost v0 = self.current_game_state@;
        let ghost f0 = count_empty(v0.grid) as nat;
        proof {
            lemma_empties_nonneg(v0.grid, 0);
        }
        while !self.current_game_state.is_game_over()
            invariant
                self.current_game_state.wf(),
                count_empty(self.current_game_state@.grid) >= 0,
                spec_play_out(v0, f0) == spec_play_out(
                    self.current_game_state@,
                    count_empty(self.current_game_state@.grid) as nat,
                ),
            decreases count_empty(self.current_game_state@.grid),
        {
            let ghost v = self.current_game_state@;
            let mv = self.get_best_move();
            proof {
                assert(!board_full(v.grid)) by {
                    if board_full(v.grid) {
                        assert(spec_result(v) is Some);
                    }
                }
                lemma_moves_nonempty(v.grid);
                lemma_search_move_legal(v, 1, true);
                lemma_moves_valid(v.grid, 0);
                let ms = spec_moves(v.grid);
                let j = choose|j: int| 0 <= j < ms.len() && #[trigger] ms[j] == mv as int;
                assert(!crate::game::col_full(v.grid, mv as int));
                lemma_apply_props(v, mv as int);
                lemma_empties_nonneg(spec_apply(v, mv as int).grid, 0);
                assert(count_empty(v.grid) >= 1);
                assert(spec_play_out(v, count_empty(v.grid) as nat)
                    == spec_play_out(spec_apply(v, mv as int), count_empty(spec_apply(v, mv as int).grid) as nat));
            }
            self.current_game_state = self.current_game_state.make_move(mv);
        }
    }
}

} // verus!
