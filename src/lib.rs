//! Exploration of the state space of a box-pushing puzzle: the puzzle
//! model and its text form, the step function, player reachability and
//! canonical states, a dead-state heuristic, the state graph with its
//! breadth-first expansion, win-reachability trimming, and a read-only
//! snapshot of the result.

pub mod model;
pub mod box_set;
pub mod board;
pub mod state;
pub mod update;
pub mod reach;
pub mod heuristics;
pub mod dead_state;
pub mod id_map;
pub mod unique_node;
pub mod graph;
pub mod populate;
pub mod level;
pub mod trim;
pub mod snapshot;

pub use model::{Cell, Direction, GameChangeType, UserAction, Vec2};
pub use box_set::GameStateEnvironment;
pub use board::{SharedGameState, WonCheckHelper};
pub use state::{GameState, GameUpdate};
pub use update::step;
pub use reach::{BoundedGrid, VisitationState};
pub use unique_node::UniqueNode;
pub use graph::{Edge, PopulateResult, StateGraph};
pub use trim::{trim_unwinnable, TrimStats};
pub use level::{parse_level, render_game_to_string};
pub use heuristics::{is_box_trapped, is_winnable, WinnableState};
