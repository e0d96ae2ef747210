//! The corner heuristic never rejects a winnable state: a trapped box can
//! never move again, so the boxes free to reach targets never become more.

use vstd::prelude::*;
use crate::board::{all_targets_covered, grid_targets, num_targets, row_targets, SharedGameState};
use crate::box_set::strictly_sorted;
use crate::heuristics::{spec_box_trapped, spec_winnable, trapped_count};
use crate::model::{dir_di, dir_dj, mk_pos, pos_lt, Cell, UserAction, Vec2};
use crate::state::GameState;
use crate::update::step_result;

verus! {

/// The player stands on a walkable cell without a box, and every box stands
/// on a walkable cell.
pub open spec fn valid_placement(board: SharedGameState, player: Vec2, boxes: Set<Vec2>) -> bool {
    &&& board.spec_walkable_at(player)
    &&& !boxes.contains(player)
    &&& forall|b: Vec2| #[trigger] boxes.contains(b) ==> board.spec_walkable_at(b)
}

/// The player position and boxes after `acts`, when every action is legal.
pub open spec fn run_actions(
    board: SharedGameState,
    player: Vec2,
    boxes: Set<Vec2>,
    acts: Seq<UserAction>,
) -> Option<(Vec2, Set<Vec2>)>
    decreases acts.len(),
{
    if acts.len() == 0 {
        Some((player, boxes))
    } else {
        match step_result(board, player, boxes, acts[0]) {
            Some(t) => run_actions(board, t.0, t.1, acts.drop_first()),
            None => None,
        }
    }
}

/// The target cells of the board.
pub open spec fn target_set(board: SharedGameState) -> Set<Vec2> {
    Set::new(|p: Vec2| board.spec_is_target(p))
}

/// The boxes of `boxes` that the corner test reports as trapped.
pub open spec fn trapped_set(board: SharedGameState, boxes: Set<Vec2>) -> Set<Vec2> {
    boxes.filter(|b: Vec2| spec_box_trapped(board, b))
}

/// Target cells before row `i`, column `j` in row-major order.
pub open spec fn targets_before(board: SharedGameState, i: int, j: int) -> Set<Vec2> {
    Set::new(|p: Vec2| board.spec_is_target(p) && (p.i < i || (p.i == i && p.j < j)))
}

proof fn lemma_targets_row(board: SharedGameState, i: int, j: int)
    requires
        board.wf(),
        0 <= i < board.spec_height(),
        0 <= j <= board.spec_width(),
        targets_before(board, i, 0).finite(),
        targets_before(board, i, 0).len() == grid_targets(board, i, Set::empty(), false),
    ensures
        targets_before(board, i, j).finite(),
        targets_before(board, i, j).len() == grid_targets(board, i, Set::empty(), false) + row_targets(
            board,
            i,
            j,
            Set::empty(),
            false,
        ),
    decreases j,
{
    if j > 0 {
        lemma_targets_row(board, i, j - 1);
        let q = mk_pos(i, j - 1);
        let prev = targets_before(board, i, j - 1);
        assert(q.i == i && q.j == j - 1);
        if board.spec_cell(q) == Cell::Target {
            assert(targets_before(board, i, j) =~= prev.insert(q));
            assert(!prev.contains(q));
        } else {
            assert(targets_before(board, i, j) =~= prev);
        }
    }
}

proof fn lemma_targets_rows(board: SharedGameState, i: int)
    requires
        board.wf(),
        0 <= i <= board.spec_height(),
    ensures
        targets_before(board, i, 0).finite(),
        targets_before(board, i, 0).len() == grid_targets(board, i, Set::empty(), false),
    decreases i,
{
    if i == 0 {
        assert(targets_before(board, 0, 0) =~= Set::<Vec2>::empty());
    } else {
        lemma_targets_rows(board, i - 1);
        lemma_targets_row(board, i - 1, board.spec_width());
        assert(targets_before(board, i, 0) =~= targets_before(board, i - 1, board.spec_width()));
    }
}

/// The recursive count of targets is the size of the set of target cells.
proof fn lemma_num_targets(board: SharedGameState)
    requires
        board.wf(),
    ensures
        target_set(board).finite(),
        target_set(board).len() == num_targets(board),
{
    lemma_targets_rows(board, board.spec_height());
    assert(target_set(board) =~= targets_before(board, board.spec_height(), 0));
}

/// Counting trapped boxes along a sequence without repetition gives the
/// size of the set of trapped boxes.
proof fn lemma_trapped_count(board: SharedGameState, s: Seq<Vec2>)
    requires
        s.no_duplicates(),
    ensures
        trapped_set(board, s.to_set()).finite(),
        trapped_set(board, s.to_set()).len() == trapped_count(board, s),
    decreases s.len(),
{
    if s.len() == 0 {
        assert(trapped_set(board, s.to_set()) =~= Set::<Vec2>::empty());
    } else {
        let t = s.drop_last();
        let x = s.last();
        assert(t.no_duplicates()) by {
            assert forall|a: int, b: int| 0 <= a < t.len() && 0 <= b < t.len() && a != b implies t[a] != t[b] by {
                assert(s[a] == t[a] && s[b] == t[b]);
            }
        }
        lemma_trapped_count(board, t);
        assert(s =~= t.push(x));
        crate::box_set::lemma_push_to_set(t, x);
        assert(!t.to_set().contains(x)) by {
            if t.contains(x) {
                let m = choose|m: int| 0 <= m < t.len() && t[m] == x;
                assert(s[m] == s[s.len() - 1]);
            }
        }
        if spec_box_trapped(board, x) {
            assert(trapped_set(board, s.to_set()) =~= trapped_set(board, t.to_set()).insert(x));
        } else {
            assert(trapped_set(board, s.to_set()) =~= trapped_set(board, t.to_set()));
        }
    }
}

/// One legal step keeps the placement valid, keeps the number of boxes and
/// moves no trapped box.
proof fn lemma_step_keeps_trapped(board: SharedGameState, player: Vec2, boxes: Set<Vec2>, a: UserAction)
    requires
        board.wf(),
        valid_placement(board, player, boxes),
        boxes.finite(),
        step_result(board, player, boxes, a) is Some,
    ensures
        valid_placement(board, step_result(board, player, boxes, a).unwrap().0, step_result(board, player, boxes, a).unwrap().1),
        step_result(board, player, boxes, a).unwrap().1.finite(),
        step_result(board, player, boxes, a).unwrap().1.len() == boxes.len(),
        forall|b: Vec2|
            #[trigger] boxes.contains(b) && spec_box_trapped(board, b) ==> step_result(board, player, boxes, a).unwrap().1.contains(b),
{
    let t = step_result(board, player, boxes, a)->0;
    let di = dir_di(a.direction());
    let dj = dir_dj(a.direction());
    let d = mk_pos(player.i + di, player.j + dj);
    assert(d.i == player.i + di && d.j == player.j + dj);
    if boxes.contains(d) {
        let b2 = mk_pos(d.i + di, d.j + dj);
        assert(b2.i == d.i + di && b2.j == d.j + dj);
        assert(t.1 == boxes.remove(d).insert(b2));
        assert(b2 != d);
        assert(!boxes.remove(d).contains(b2));
        assert forall|b: Vec2| #[trigger] boxes.contains(b) && spec_box_trapped(board, b) implies t.1.contains(b) by {
            if b == d {
                // the cells on both sides of the pushed box along the push are walkable
                assert(board.spec_walkable_at(player));
                assert(player == mk_pos(b.i - di, b.j - dj));
                assert(!crate::heuristics::blocked_cell(board, b.i - di, b.j - dj));
                assert(!crate::heuristics::blocked_cell(board, b.i + di, b.j + dj));
            }
        }
    }
}

proof fn lemma_run_keeps_trapped(board: SharedGameState, player: Vec2, boxes: Set<Vec2>, acts: Seq<UserAction>)
    requires
        board.wf(),
        valid_placement(board, player, boxes),
        boxes.finite(),
        run_actions(board, player, boxes, acts) is Some,
    ensures
        run_actions(board, player, boxes, acts).unwrap().1.finite(),
        run_actions(board, player, boxes, acts).unwrap().1.len() == boxes.len(),
        forall|b: Vec2|
            #[trigger] boxes.contains(b) && spec_box_trapped(board, b) ==> run_actions(board, player, boxes, acts).unwrap().1.contains(b),
    decreases acts.len(),
{
    if acts.len() > 0 {
        lemma_step_keeps_trapped(board, player, boxes, acts[0]);
        let t = step_result(board, player, boxes, acts[0])->0;
        lemma_run_keeps_trapped(board, t.0, t.1, acts.drop_first());
        assert forall|b: Vec2| #[trigger] boxes.contains(b) && spec_box_trapped(board, b) implies run_actions(
            board,
            player,
            boxes,
            acts,
        ).unwrap().1.contains(b) by {
            assert(t.1.contains(b));
        }
    }
}

/// The corner heuristic is conservative: from a state that it reports as
/// unwinnable, no sequence of moves covers every target with a box.
pub proof fn lemma_heuristic_conservative(board: SharedGameState, game: GameState, acts: Seq<UserAction>)
    requires
        board.wf(),
        game.environment.wf(),
        valid_placement(board, game.player, game.environment.box_set()),
        !spec_winnable(board, game.environment.boxes@),
    ensures
        !(run_actions(board, game.player, game.environment.box_set(), acts) matches Some(r)
            && all_targets_covered(board, r.1)),
{
    let s = game.environment.boxes@;
    let b0 = game.environment.box_set();
    assert(s.no_duplicates()) by {
        assert forall|a: int, b: int| 0 <= a < s.len() && 0 <= b < s.len() && a != b implies s[a] != s[b] by {
            if a < b {
                assert(pos_lt(s[a], s[b]));
            } else {
                assert(pos_lt(s[b], s[a]));
            }
        }
    }
    s.unique_seq_to_set();
    lemma_trapped_count(board, s);
    lemma_num_targets(board);
    if run_actions(board, game.player, b0, acts) is Some {
        let r = run_actions(board, game.player, b0, acts)->0;
        lemma_run_keeps_trapped(board, game.player, b0, acts);
        if all_targets_covered(board, r.1) {
            let tr = trapped_set(board, b0);
            let ts = target_set(board);
            assert(ts.disjoint(tr));
            assert((ts + tr).subset_of(r.1)) by {
                assert forall|x: Vec2| (ts + tr).contains(x) implies r.1.contains(x) by {
                    if tr.contains(x) {
                        assert(b0.contains(x) && spec_box_trapped(board, x));
                    }
                }
            }
            vstd::set_lib::lemma_len_subset(ts + tr, r.1);
            vstd::set_lib::lemma_set_disjoint_lens(ts, tr);
        }
    }
}

} // verus!
