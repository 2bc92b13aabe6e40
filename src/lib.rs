//! A sliding-agent block puzzle: the world model and a family of
//! state-space searchers over it.

pub mod bidir;
pub mod world;
pub mod search;
pub mod heuristic;
pub mod breadth_first_searcher;
pub mod depth_first_searcher;
pub mod iterative_deepening_searcher;
pub mod a_star_searcher;
pub mod solution_depth_difficulty;
