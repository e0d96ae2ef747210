//! A cheap dead-state test: a box that is not on a target and sits in a
//! corner can never move again.

use vstd::prelude::*;
use crate::board::{num_targets, SharedGameState};
use crate::model::{mk_pos, Vec2};
use crate::state::GameState;
use crate::update::on_board;

verus! {

#[derive(Clone, Copy, PartialEq, Eq, Debug, Structural)]
pub enum WinnableState {
    WinMaybePossible,
    WinImpossible,
}

/// Row `i`, column `j` cannot be entered: off the board or a wall.
pub open spec fn blocked_cell(board: SharedGameState, i: int, j: int) -> bool {
    !(on_board(board, i, j) && board.spec_cell(mk_pos(i, j)).spec_is_walkable())
}

/// A box off any target with two consecutive blocked neighbours (in the
/// order down, right, up, left) is stuck in a corner.
pub open spec fn spec_box_trapped(board: SharedGameState, b: Vec2) -> bool {
    let down = blocked_cell(board, b.i + 1, b.j as int);
    let right = blocked_cell(board, b.i as int, b.j + 1);
    let up = blocked_cell(board, b.i - 1, b.j as int);
    let left = blocked_cell(board, b.i as int, b.j - 1);
    !board.spec_is_target(b) && ((down && right) || (right && up) || (up && left) || (left
        && down))
}

/// Number of trapped boxes among `boxes`.
pub open spec fn trapped_count(board: SharedGameState, boxes: Seq<Vec2>) -> nat
    decreases boxes.len(),
{
    if boxes.len() == 0 {
        0
    } else {
        trapped_count(board, boxes.drop_last()) + if spec_box_trapped(board, boxes.last()) {
            1nat
        } else {
            0nat
        }
    }
}

/// Win is still possible by the corner test: enough boxes are free to
/// cover every target.
pub open spec fn spec_winnable(board: SharedGameState, boxes: Seq<Vec2>) -> bool {
    boxes.len() - trapped_count(board, boxes) >= num_targets(board)
}

/// All boxes lie on the board.
pub open spec fn boxes_on_board(board: SharedGameState, boxes: Seq<Vec2>) -> bool {
    forall|k: int| 0 <= k < boxes.len() ==> board.spec_in_bounds(#[trigger] boxes[k])
}

proof fn lemma_trapped_count_bound(board: SharedGameState, boxes: Seq<Vec2>)
    ensures
        trapped_count(board, boxes) <= boxes.len(),
    decreases boxes.len(),
{
    if boxes.len() > 0 {
        lemma_trapped_count_bound(board, boxes.drop_last());
    }
}

/// Whether `(i, j)` is off the board or a wall.
fn is_blocked(shared: &SharedGameState, i: i8, j: i8) -> (r: bool)
    requires
        shared.wf(),
    ensures
        r == blocked_cell(*shared, i as int, j as int),
{
    let p = Vec2 { i, j };
    !shared.walkable_at(p)
}

/// Whether the box at `game_box` is off any target and stuck in a corner.
pub fn is_box_trapped(shared: &SharedGameState, game_box: Vec2) -> (r: bool)
    requires
        shared.wf(),
        shared.spec_in_bounds(game_box),
    ensures
        r == spec_box_trapped(*shared, game_box),
{
    if shared.cell_at(game_box) == crate::model::Cell::Target {
        return false;
    }
    let down = is_blocked(shared, game_box.i + 1, game_box.j);
    let right = is_blocked(shared, game_box.i, game_box.j + 1);
    let up = is_blocked(shared, game_box.i - 1, game_box.j);
    let left = is_blocked(shared, game_box.i, game_box.j - 1);
    // two consecutive blocked sides make a corner
    (down && right) || (right && up) || (up && left) || (left && down)
}

/// `WinImpossible` exactly when fewer boxes are free of corners than there
/// are targets.
pub fn is_winnable(shared: &SharedGameState, game: &GameState) -> (r: WinnableState)
    requires
        shared.wf(),
        boxes_on_board(*shared, game.environment.boxes@),
    ensures
        (r == WinnableState::WinMaybePossible) == spec_winnable(*shared, game.environment.boxes@),
{
    let boxes = game.environment.iter_boxes();
    let mut total_trapped_boxes: usize = 0;
    let mut k: usize = 0;
    while k < boxes.len()
        invariant
            shared.wf(),
            boxes@ == game.environment.boxes@,
            boxes_on_board(*shared, boxes@),
            k <= boxes@.len(),
            total_trapped_boxes == trapped_count(*shared, boxes@.subrange(0, k as int)),
        decreases boxes@.len() - k,
    {
        proof {
            assert(boxes@.subrange(0, k + 1).drop_last() =~= boxes@.subrange(0, k as int));
            lemma_trapped_count_bound(*shared, boxes@.subrange(0, k as int));
        }
        if is_box_trapped(shared, boxes[k]) {
            total_trapped_boxes += 1;
        }
        k += 1;
    }
    proof {
        assert(boxes@.subrange(0, k as int) =~= boxes@);
        lemma_trapped_count_bound(*shared, boxes@);
    }
    let total_free_boxes = boxes.len() - total_trapped_boxes;
    let total_targets = shared.total_targets();
    if total_free_boxes >= total_targets {
        WinnableState::WinMaybePossible
    } else {
        WinnableState::WinImpossible
    }
}

} // verus!
