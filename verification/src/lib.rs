//! A depth-bounded game-tree search engine over a connect-style game, a
//! weighted feature evaluator for a solitaire sliding-grid game, and the
//! grid-sweep harness that calibrates the evaluator's weights by playing
//! simulated games; alongside, a step-by-step random maze carver.

pub mod game;
pub mod eval;
pub mod search;
pub mod slide;
pub mod weights;
pub mod selector;
pub mod harness;
pub mod maze;
mod rng;
