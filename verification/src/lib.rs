//! A time-bounded best-first search over several depths at once, for a
//! game in which a character walks a grid and collects the values it steps
//! on.
//!
//! The search keeps one frontier for each depth. A sweep expands the best
//! nodes of every frontier in turn, from the root down; sweeps are repeated
//! until the time is up, and the best node of the deepest frontier reached
//! names the action to take. Nothing is ever pruned, so a longer search
//! looks at more of the game and never reports a node evaluated lower.
//!
//! A frontier gives out its nodes by evaluation, highest first, and nodes
//! evaluated alike in the order in which they came. With that rule the
//! outcome of a search is a function of the root, the beam width, the depth
//! limit and the number of sweeps made.

pub mod grid;
pub mod model;
pub mod maze;
pub mod rng;
pub mod generate;
pub mod render;
pub mod frontier;
pub mod policy;
pub mod levels;
pub mod laws;
pub mod complete;
pub mod search;
pub mod play;

pub use crate::maze::MazeState;
pub use crate::model::{Action, Coord, MazeView, ScoreType};
pub use crate::policy::{greedy_action, random_action};
pub use crate::search::{
    chokudai_search_action_with_sweeps, chokudai_search_action_with_time_threshold, SearchError,
};
