//! A concrete game state and the outcome of one step.

use vstd::prelude::*;
use crate::box_set::GameStateEnvironment;
use crate::model::{GameChangeType, Vec2};

verus! {

/// The player's position together with the boxes.
#[derive(Clone, Debug)]
pub struct GameState {
    pub environment: GameStateEnvironment,
    pub player: Vec2,
}

impl PartialEq for GameState {
    fn eq(&self, other: &GameState) -> (r: bool) {
        self.player == other.player && self.environment == other.environment
    }
}

impl vstd::std_specs::cmp::PartialEqSpecImpl for GameState {
    open spec fn obeys_eq_spec() -> bool {
        true
    }

    open spec fn eq_spec(&self, other: &GameState) -> bool {
        self.environment.boxes@ == other.environment.boxes@ && self.player == other.player
    }
}

impl Eq for GameState {}

/// What one step produced.
#[derive(Debug)]
pub enum GameUpdate {
    NextState(GameState, GameChangeType),
    Error(String),
}

} // verus!
