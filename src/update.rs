//! The step function: one player move, possibly pushing a box.

use vstd::prelude::*;
use vstd::string::*;
use crate::board::SharedGameState;
use crate::model::{dir_di, dir_dj, mk_pos, vec_from_dir, GameChangeType, UserAction, Vec2};
use crate::state::{GameState, GameUpdate};

verus! {

/// Whether row `i`, column `j` lies on the board.
pub open spec fn on_board(board: SharedGameState, i: int, j: int) -> bool {
    0 <= i < board.spec_height() && 0 <= j < board.spec_width()
}

/// The outcome of moving the player at `player` among `boxes` by action
/// `a`: the new player position, the new boxes and the kind of change, or
/// `None` when the move is illegal (off the board, into a wall, or a push
/// that is blocked).
pub open spec fn step_result(
    board: SharedGameState,
    player: Vec2,
    boxes: Set<Vec2>,
    a: UserAction,
) -> Option<(Vec2, Set<Vec2>, GameChangeType)> {
    let di = dir_di(a.direction());
    let dj = dir_dj(a.direction());
    let (ni, nj) = (player.i + di, player.j + dj);
    let d = mk_pos(ni, nj);
    if !on_board(board, ni, nj) {
        None
    } else if boxes.contains(d) {
        let (bi, bj) = (ni + di, nj + dj);
        let b = mk_pos(bi, bj);
        if !on_board(board, bi, bj) || !board.spec_cell(b).spec_is_walkable() || boxes.contains(b) {
            None
        } else {
            Some((d, boxes.remove(d).insert(b), GameChangeType::PlayerAndBoxMove))
        }
    } else if board.spec_cell(d).spec_is_walkable() {
        Some((d, boxes, GameChangeType::PlayerMove))
    } else {
        None
    }
}

/// Applies `action` to `game` on `shared`. The input is left as it is; a
/// legal move yields the new state and whether a box moved, an illegal one
/// an error message.
pub fn step(shared: &SharedGameState, game: &GameState, action: UserAction) -> (r: GameUpdate)
    requires
        shared.wf(),
        game.environment.wf(),
        shared.spec_in_bounds(game.player),
    ensures
        match r {
            GameUpdate::NextState(s, k) => s.environment.wf() && step_result(
                *shared,
                game.player,
                game.environment.box_set(),
                action,
            ) == Some((s.player, s.environment.box_set(), k)),
            GameUpdate::Error(_) => step_result(
                *shared,
                game.player,
                game.environment.box_set(),
                action,
            ) is None,
        },
{
    let h = shared.height();
    let w = shared.width();
    let dir = match action {
        UserAction::Move(d) => vec_from_dir(d),
    };
    let ni = game.player.i + dir.i;
    let nj = game.player.j + dir.j;
    if ni < 0 || nj < 0 || ni >= h || nj >= w {
        return GameUpdate::Error(String::from_str("Cannot move out of bounds"));
    }
    let dest = Vec2 { i: ni, j: nj };
    if game.environment.has_box_at(&dest) {
        let bi = ni + dir.i;
        let bj = nj + dir.j;
        if bi < 0 || bj < 0 || bi >= h || bj >= w {
            return GameUpdate::Error(String::from_str("Cannot push block out of bounds"));
        }
        let beyond = Vec2 { i: bi, j: bj };
        if !shared.cell_at(beyond).is_walkable() || game.environment.has_box_at(&beyond) {
            return GameUpdate::Error(String::from_str("Cannot push block"));
        }
        let mut environment = game.environment.duplicate();
        environment.move_box(dest, beyond);
        GameUpdate::NextState(
            GameState { environment, player: dest },
            GameChangeType::PlayerAndBoxMove,
        )
    } else {
        if !shared.cell_at(dest).is_walkable() {
            return GameUpdate::Error(String::from_str("Cannot walk into a wall"));
        }
        GameUpdate::NextState(
            GameState { environment: game.environment.duplicate(), player: dest },
            GameChangeType::PlayerMove,
        )
    }
}

} // verus!
