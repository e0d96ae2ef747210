//! Player reachability: a flood fill over walkable cells in which boxes
//! block, and the canonical (least reachable) player position.

use vstd::prelude::*;
use crate::board::SharedGameState;
use crate::model::{pos_lt, Vec2};
use crate::state::GameState;

verus! {

/// Classification of a cell by the flood fill.
#[derive(Clone, Copy, PartialEq, Eq, Debug, Structural)]
pub enum VisitationState {
    Walkable,
    Blocked,
    Visited,
}

impl VisitationState {
    /// Whether the flood fill reached the cell.
    pub fn is_reachable(&self) -> (r: bool)
        ensures
            r == (*self == VisitationState::Visited),
    {
        *self == VisitationState::Visited
    }
}

/// `a` and `b` are orthogonal neighbours.
pub open spec fn adjacent(a: Vec2, b: Vec2) -> bool {
    (a.i == b.i && (a.j - b.j == 1 || b.j - a.j == 1)) || (a.j == b.j && (a.i - b.i == 1 || b.i
        - a.i == 1))
}

/// The player may stand on `p`: on the board, not a wall, no box.
pub open spec fn open_cell(board: SharedGameState, boxes: Set<Vec2>, p: Vec2) -> bool {
    board.spec_walkable_at(p) && !boxes.contains(p)
}

/// A walk of the player: consecutive cells are neighbours and every cell
/// after the first is open.
pub open spec fn is_walk(board: SharedGameState, boxes: Set<Vec2>, path: Seq<Vec2>) -> bool {
    &&& path.len() >= 1
    &&& forall|k: int|
        1 <= k < path.len() ==> open_cell(board, boxes, #[trigger] path[k]) && adjacent(
            path[k - 1],
            path[k],
        )
}

/// The player standing on `start` can walk to `c` without moving a box.
pub open spec fn reachable(board: SharedGameState, boxes: Set<Vec2>, start: Vec2, c: Vec2) -> bool {
    &&& board.spec_in_bounds(start)
    &&& !boxes.contains(start)
    &&& exists|path: Seq<Vec2>|
        #![trigger is_walk(board, boxes, path), path.last()]
        is_walk(board, boxes, path) && path[0] == start && path.last() == c
}

/// One step more: a neighbour that is open is reachable too.
pub proof fn lemma_reachable_step(
    board: SharedGameState,
    boxes: Set<Vec2>,
    start: Vec2,
    p: Vec2,
    q: Vec2,
)
    requires
        reachable(board, boxes, start, p),
        adjacent(p, q),
        open_cell(board, boxes, q),
    ensures
        reachable(board, boxes, start, q),
{
    let path = choose|path: Seq<Vec2>|
        #![trigger is_walk(board, boxes, path), path.last()]
        is_walk(board, boxes, path) && path[0] == start && path.last() == p;
    let path2 = path.push(q);
    assert forall|k: int| 1 <= k < path2.len() implies open_cell(board, boxes, #[trigger] path2[k])
        && adjacent(path2[k - 1], path2[k]) by {
        if k < path.len() {
            assert(path2[k] == path[k]);
            assert(path2[k - 1] == path[k - 1]);
        }
    }
    assert(is_walk(board, boxes, path2));
    assert(path2.last() == q);
}

proof fn lemma_contains_drop_last(s: Seq<Vec2>, q: Vec2)
    requires
        s.len() > 0,
        s.contains(q),
        s.last() != q,
    ensures
        s.drop_last().contains(q),
{
    let m = choose|m: int| 0 <= m < s.len() && s[m] == q;
    assert(s.drop_last()[m] == q);
}

/// `b` extends `a`.
pub open spec fn is_prefix(a: Seq<Vec2>, b: Seq<Vec2>) -> bool {
    a.len() <= b.len() && forall|k: int| 0 <= k < a.len() ==> #[trigger] b[k] == a[k]
}

proof fn lemma_contains_prefix(a: Seq<Vec2>, b: Seq<Vec2>, q: Vec2)
    requires
        is_prefix(a, b),
        a.contains(q),
    ensures
        b.contains(q),
{
    let m = choose|m: int| 0 <= m < a.len() && a[m] == q;
    assert(b[m] == q);
}

proof fn lemma_prefix(s0: Seq<Vec2>, s1: Seq<Vec2>, s2: Seq<Vec2>, s3: Seq<Vec2>, s4: Seq<Vec2>)
    requires
        s0.len() <= s1.len() <= s0.len() + 1 && s1.subrange(0, s0.len() as int) == s0,
        s1.len() <= s2.len() <= s1.len() + 1 && s2.subrange(0, s1.len() as int) == s1,
        s2.len() <= s3.len() <= s2.len() + 1 && s3.subrange(0, s2.len() as int) == s2,
        s3.len() <= s4.len() <= s3.len() + 1 && s4.subrange(0, s3.len() as int) == s3,
    ensures
        is_prefix(s0, s4),
        is_prefix(s1, s4),
        is_prefix(s2, s4),
        is_prefix(s3, s4),
        s4.len() <= s0.len() + 4,
{
    assert forall|k: int| 0 <= k < s3.len() implies #[trigger] s4[k] == s3[k] by {
        assert(s4.subrange(0, s3.len() as int)[k] == s4[k]);
    }
    assert forall|k: int| 0 <= k < s2.len() implies #[trigger] s4[k] == s2[k] by {
        assert(s3.subrange(0, s2.len() as int)[k] == s3[k]);
    }
    assert forall|k: int| 0 <= k < s1.len() implies #[trigger] s4[k] == s1[k] by {
        assert(s2.subrange(0, s1.len() as int)[k] == s2[k]);
        assert(s3.subrange(0, s2.len() as int)[k] == s3[k]);
    }
    assert forall|k: int| 0 <= k < s0.len() implies #[trigger] s4[k] == s0[k] by {
        assert(s1.subrange(0, s0.len() as int)[k] == s1[k]);
        assert(s2.subrange(0, s1.len() as int)[k] == s2[k]);
        assert(s3.subrange(0, s2.len() as int)[k] == s3[k]);
    }
}

/// Every cell of a walk from a visited start lies in a visited set that is
/// closed under open neighbours.
proof fn lemma_walk_visited(
    board: SharedGameState,
    boxes: Set<Vec2>,
    mask: BoundedGrid,
    start: Vec2,
    path: Seq<Vec2>,
    k: int,
)
    requires
        is_walk(board, boxes, path),
        path[0] == start,
        board.spec_in_bounds(start),
        mask.spec_at(start) == VisitationState::Visited,
        0 <= k < path.len(),
        forall|v: Vec2, q: Vec2|
            board.spec_in_bounds(v) && #[trigger] mask.spec_at(v) == VisitationState::Visited
                && #[trigger] adjacent(v, q) && open_cell(board, boxes, q) ==> mask.spec_at(q)
                == VisitationState::Visited,
    ensures
        mask.spec_at(path[k]) == VisitationState::Visited,
        board.spec_in_bounds(path[k]),
    decreases k,
{
    if k > 0 {
        lemma_walk_visited(board, boxes, mask, start, path, k - 1);
        assert(open_cell(board, boxes, path[k]) && adjacent(path[k - 1], path[k]));
    }
}

/// Per-cell result of a flood fill; row `i`, column `j` is `cells[i][j]`.
#[derive(Clone, Debug)]
pub struct BoundedGrid {
    pub cells: Vec<Vec<VisitationState>>,
}

/// Number of `Walkable` entries of a row.
pub open spec fn row_walkable(row: Seq<VisitationState>) -> nat
    decreases row.len(),
{
    if row.len() == 0 {
        0
    } else {
        row_walkable(row.drop_last()) + if row.last() == VisitationState::Walkable {
            1nat
        } else {
            0nat
        }
    }
}

/// Number of `Walkable` entries of a grid.
pub open spec fn grid_walkable(rows: Seq<Vec<VisitationState>>) -> nat
    decreases rows.len(),
{
    if rows.len() == 0 {
        0
    } else {
        grid_walkable(rows.drop_last()) + row_walkable(rows.last()@)
    }
}

proof fn lemma_row_walkable_update(row: Seq<VisitationState>, j: int, v: VisitationState)
    requires
        0 <= j < row.len(),
        row[j] == VisitationState::Walkable,
        v != VisitationState::Walkable,
    ensures
        row_walkable(row.update(j, v)) + 1 == row_walkable(row),
    decreases row.len(),
{
    let r2 = row.update(j, v);
    if j == row.len() - 1 {
        assert(r2.drop_last() =~= row.drop_last());
    } else {
        assert(r2.drop_last() =~= row.drop_last().update(j, v));
        lemma_row_walkable_update(row.drop_last(), j, v);
    }
}

proof fn lemma_grid_walkable_update(
    rows: Seq<Vec<VisitationState>>,
    i: int,
    row: Vec<VisitationState>,
)
    requires
        0 <= i < rows.len(),
        row_walkable(row@) + 1 == row_walkable(rows[i]@),
    ensures
        grid_walkable(rows.update(i, row)) + 1 == grid_walkable(rows),
    decreases rows.len(),
{
    let r2 = rows.update(i, row);
    if i == rows.len() - 1 {
        assert(r2.drop_last() =~= rows.drop_last());
    } else {
        assert(r2.drop_last() =~= rows.drop_last().update(i, row));
        lemma_grid_walkable_update(rows.drop_last(), i, row);
    }
}

impl BoundedGrid {
    /// Same shape as the board.
    pub open spec fn shaped_like(&self, board: SharedGameState) -> bool {
        &&& self.cells@.len() == board.spec_height()
        &&& forall|r: int|
            0 <= r < board.spec_height() ==> (#[trigger] self.cells@[r])@.len() == board.spec_width()
    }

    pub open spec fn spec_at(&self, p: Vec2) -> VisitationState {
        self.cells@[p.i as int]@[p.j as int]
    }

    /// The entry at `pos`, or `None` off the grid.
    pub fn get(&self, pos: &Vec2) -> (r: Option<VisitationState>)
        ensures
            r == if 0 <= pos.i < self.cells@.len() && 0 <= pos.j < self.cells@[pos.i as int]@.len() {
                Some(self.spec_at(*pos))
            } else {
                None::<VisitationState>
            },
    {
        if pos.i < 0 || pos.j < 0 {
            return None;
        }
        let i = pos.i as usize;
        let j = pos.j as usize;
        if i >= self.cells.len() || j >= self.cells[i].len() {
            return None;
        }
        Some(self.cells[i][j])
    }

    fn set(&mut self, board: &SharedGameState, pos: Vec2, v: VisitationState)
        requires
            old(self).shaped_like(*board),
            board.spec_in_bounds(pos),
        ensures
            final(self).shaped_like(*board),
            forall|p: Vec2|
                board.spec_in_bounds(p) ==> #[trigger] final(self).spec_at(p) == if p == pos {
                    v
                } else {
                    old(self).spec_at(p)
                },
            old(self).spec_at(pos) == VisitationState::Walkable && v != VisitationState::Walkable
                ==> grid_walkable(final(self).cells@) + 1 == grid_walkable(old(self).cells@),
    {
        let i = pos.i as usize;
        let j = pos.j as usize;
        let ghost old_rows = self.cells@;
        let mut row = Vec::new();
        std::mem::swap(&mut row, &mut self.cells[i]);
        let ghost old_row = row@;
        row.set(j, v);
        proof {
            if old_row[j as int] == VisitationState::Walkable && v != VisitationState::Walkable {
                lemma_row_walkable_update(old_row, j as int, v);
            }
        }
        self.cells.set(i, row);
        proof {
            assert(self.cells@ == old_rows.update(i as int, row));
            if old_row[j as int] == VisitationState::Walkable && v != VisitationState::Walkable {
                lemma_grid_walkable_update(old_rows, i as int, row);
            }
            assert forall|p: Vec2| board.spec_in_bounds(p) implies #[trigger] self.spec_at(p) == if p
                == pos {
                v
            } else {
                old(self).spec_at(p)
            } by {
                if p.i == pos.i && p.j != pos.j {
                    assert(row@[p.j as int] == old_row[p.j as int]);
                }
            }
        }
    }
}

/// The result of a flood fill from `start`: exactly the reachable cells are
/// `Visited`, cells holding a box are `Blocked`, every other cell is
/// `Walkable`.
pub open spec fn is_reach_mask(
    mask: BoundedGrid,
    board: SharedGameState,
    boxes: Set<Vec2>,
    start: Vec2,
) -> bool {
    &&& mask.shaped_like(board)
    &&& forall|p: Vec2|
        board.spec_in_bounds(p) ==> {
            &&& (#[trigger] mask.spec_at(p) == VisitationState::Visited) == reachable(
                board,
                boxes,
                start,
                p,
            )
            &&& (mask.spec_at(p) == VisitationState::Blocked) == boxes.contains(p)
        }
}

/// Pushes `q` when it is on the board, still `Walkable` and not a wall.
fn push_if_open(
    board: &SharedGameState,
    mask: &BoundedGrid,
    stack: &mut Vec<Vec2>,
    q: Vec2,
)
    requires
        board.wf(),
        mask.shaped_like(*board),
    ensures
        final(stack)@ == if board.spec_walkable_at(q) && mask.spec_at(q)
            == VisitationState::Walkable {
            old(stack)@.push(q)
        } else {
            old(stack)@
        },
        old(stack)@.len() <= final(stack)@.len() <= old(stack)@.len() + 1,
        final(stack)@.subrange(0, old(stack)@.len() as int) == old(stack)@,
{
    if board.in_bounds(q) {
        if mask.get(&q) == Some(VisitationState::Walkable) && board.cell_at(q).is_walkable() {
            stack.push(q);
        }
    }
}

impl SharedGameState {
    /// Flood fill from the player's position, boxes blocking.
    pub fn reachable_positions_visitation(&self, game_state: &GameState) -> (r: BoundedGrid)
        requires
            self.wf(),
            self.spec_in_bounds(game_state.player),
        ensures
            is_reach_mask(r, *self, game_state.environment.box_set(), game_state.player),
    {
        let ghost boxes = game_state.environment.box_set();
        let start = game_state.player;
        // an all-walkable grid of the board's shape
        let h = self.grid.len();
        let mut cells: Vec<Vec<VisitationState>> = Vec::new();
        let mut i: usize = 0;
        while i < h
            invariant
                self.wf(),
                h == self.spec_height(),
                i <= h,
                cells@.len() == i,
                forall|r: int|
                    0 <= r < i ==> (#[trigger] cells@[r])@.len() == self.spec_width() && forall|c: int|
                        0 <= c < self.spec_width() ==> #[trigger] cells@[r]@[c]
                            == VisitationState::Walkable,
            decreases h - i,
        {
            let w = self.grid[i].len();
            let mut row: Vec<VisitationState> = Vec::new();
            let mut j: usize = 0;
            while j < w
                invariant
                    j <= w,
                    row@.len() == j,
                    forall|c: int| 0 <= c < j ==> #[trigger] row@[c] == VisitationState::Walkable,
                decreases w - j,
            {
                row.push(VisitationState::Walkable);
                j += 1;
            }
            cells.push(row);
            i += 1;
        }
        let mut mask = BoundedGrid { cells };
        // mark the boxes
        let boxes_vec = game_state.environment.iter_boxes();
        let mut k: usize = 0;
        while k < boxes_vec.len()
            invariant
                self.wf(),
                boxes_vec@ == game_state.environment.boxes@,
                boxes == game_state.environment.box_set(),
                k <= boxes_vec@.len(),
                mask.shaped_like(*self),
                forall|p: Vec2|
                    self.spec_in_bounds(p) ==> (#[trigger] mask.spec_at(p) == VisitationState::Blocked
                        <==> boxes_vec@.subrange(0, k as int).contains(p)) && mask.spec_at(p)
                        != VisitationState::Visited,
            decreases boxes_vec@.len() - k,
        {
            let b = boxes_vec[k];
            if self.in_bounds(b) {
                mask.set(self, b, VisitationState::Blocked);
            }
            proof {
                assert forall|p: Vec2| self.spec_in_bounds(p) implies (#[trigger] mask.spec_at(p)
                    == VisitationState::Blocked <==> boxes_vec@.subrange(0, k + 1).contains(p)) by {
                    let s0 = boxes_vec@.subrange(0, k as int);
                    let s1 = boxes_vec@.subrange(0, k + 1);
                    assert(s1 =~= s0.push(b));
                    if s1.contains(p) && p != b {
                        let m = choose|m: int| 0 <= m < s1.len() && s1[m] == p;
                        assert(s0[m] == p);
                    }
                    if s0.contains(p) {
                        let m = choose|m: int| 0 <= m < s0.len() && s0[m] == p;
                        assert(s1[m] == p);
                    }
                    if p == b {
                        assert(s1[k as int] == b);
                    }
                }
            }
            k += 1;
        }
        proof {
            assert(boxes_vec@.subrange(0, k as int) =~= boxes_vec@);
        }
        // depth-first search from the player
        let mut stack: Vec<Vec2> = Vec::new();
        stack.push(start);
        proof {
            if !boxes.contains(start) {
                let path = seq![start];
                assert(is_walk(*self, boxes, path));
                assert(path.last() == start);
                assert(reachable(*self, boxes, start, start));
            }
            assert(stack@[0] == start);
        }
        while stack.len() > 0
            invariant
                self.wf(),
                self.spec_in_bounds(start),
                boxes == game_state.environment.box_set(),
                mask.shaped_like(*self),
                forall|p: Vec2|
                    self.spec_in_bounds(p) ==> (#[trigger] mask.spec_at(p) == VisitationState::Blocked
                        <==> boxes.contains(p)),
                forall|p: Vec2|
                    self.spec_in_bounds(p) && #[trigger] mask.spec_at(p) == VisitationState::Visited
                        ==> reachable(*self, boxes, start, p),
                forall|k: int|
                    0 <= k < stack@.len() ==> self.spec_in_bounds(#[trigger] stack@[k]) && (boxes.contains(
                        stack@[k],
                    ) || reachable(*self, boxes, start, stack@[k])),
                mask.spec_at(start) == VisitationState::Visited || stack@.contains(start)
                    || boxes.contains(start),
                forall|v: Vec2, q: Vec2|
                    self.spec_in_bounds(v) && #[trigger] mask.spec_at(v) == VisitationState::Visited
                        && #[trigger] adjacent(v, q) && open_cell(*self, boxes, q) ==> mask.spec_at(q)
                        == VisitationState::Visited || stack@.contains(q),
            decreases grid_walkable(mask.cells@), stack@.len(),
        {
            let ghost old_stack = stack@;
            let pos = stack.pop().unwrap();
            let ghost popped = stack@;
            proof {
                assert(old_stack =~= popped.push(pos));
            }
            if mask.get(&pos) != Some(VisitationState::Walkable) {
                proof {
                    assert forall|v: Vec2, q: Vec2|
                        self.spec_in_bounds(v) && #[trigger] mask.spec_at(v) == VisitationState::Visited
                            && #[trigger] adjacent(v, q) && open_cell(*self, boxes, q) implies mask.spec_at(q)
                            == VisitationState::Visited || stack@.contains(q) by {
                        if q != pos && mask.spec_at(q) != VisitationState::Visited {
                            lemma_contains_drop_last(old_stack, q);
                        }
                    }
                    if start != pos && mask.spec_at(start) != VisitationState::Visited && !boxes.contains(start) {
                        lemma_contains_drop_last(old_stack, start);
                    }
                }
                continue;
            }
            let ghost before = mask;
            mask.set(self, pos, VisitationState::Visited);
            let up = Vec2 { i: pos.i - 1, j: pos.j };
            let down = Vec2 { i: pos.i + 1, j: pos.j };
            let left = Vec2 { i: pos.i, j: pos.j - 1 };
            let right = Vec2 { i: pos.i, j: pos.j + 1 };
            push_if_open(self, &mask, &mut stack, up);
            let ghost s1 = stack@;
            push_if_open(self, &mask, &mut stack, down);
            let ghost s2 = stack@;
            push_if_open(self, &mask, &mut stack, left);
            let ghost s3 = stack@;
            push_if_open(self, &mask, &mut stack, right);
            proof {
                assert(reachable(*self, boxes, start, pos));
                assert(adjacent(pos, up) && adjacent(pos, down) && adjacent(pos, left) && adjacent(pos, right));
                lemma_prefix(popped, s1, s2, s3, stack@);
                assert forall|k: int| 0 <= k < stack@.len() implies self.spec_in_bounds(
                    #[trigger] stack@[k],
                ) && (boxes.contains(stack@[k]) || reachable(*self, boxes, start, stack@[k])) by {
                    if k >= popped.len() {
                        let q = stack@[k];
                        assert(q == up || q == down || q == left || q == right);
                        assert(open_cell(*self, boxes, q));
                        lemma_reachable_step(*self, boxes, start, pos, q);
                    } else {
                        assert(stack@[k] == popped[k]);
                    }
                }
                if start != pos && mask.spec_at(start) != VisitationState::Visited && !boxes.contains(start) {
                    lemma_contains_drop_last(old_stack, start);
                    lemma_contains_prefix(popped, stack@, start);
                }
                assert forall|v: Vec2, q: Vec2|
                    self.spec_in_bounds(v) && #[trigger] mask.spec_at(v) == VisitationState::Visited
                        && #[trigger] adjacent(v, q) && open_cell(*self, boxes, q) implies mask.spec_at(q)
                        == VisitationState::Visited || stack@.contains(q) by {
                    if mask.spec_at(q) != VisitationState::Visited {
                        assert(mask.spec_at(q) == VisitationState::Walkable);
                        if v == pos {
                            assert(q == up || q == down || q == left || q == right);
                            if q == up {
                                assert(s1[popped.len() as int] == up);
                                lemma_contains_prefix(s1, stack@, q);
                            } else if q == down {
                                assert(s2[s1.len() as int] == down);
                                lemma_contains_prefix(s2, stack@, q);
                            } else if q == left {
                                assert(s3[s2.len() as int] == left);
                                lemma_contains_prefix(s3, stack@, q);
                            } else {
                                assert(stack@[s3.len() as int] == right);
                            }
                        } else {
                            assert(before.spec_at(v) == VisitationState::Visited);
                            lemma_contains_drop_last(old_stack, q);
                            lemma_contains_prefix(popped, stack@, q);
                        }
                    }
                }
            }
        }
        proof {
            assert forall|p: Vec2| self.spec_in_bounds(p) implies (#[trigger] mask.spec_at(p)
                == VisitationState::Visited) == reachable(*self, boxes, start, p) by {
                if reachable(*self, boxes, start, p) {
                    let path = choose|path: Seq<Vec2>|
                        #![trigger is_walk(*self, boxes, path), path.last()]
                        is_walk(*self, boxes, path) && path[0] == start && path.last() == p;
                    assert forall|k: int| 0 <= k < path.len() implies #[trigger] mask.spec_at(path[k])
                        == VisitationState::Visited && self.spec_in_bounds(path[k]) by {
                        lemma_walk_visited(*self, boxes, mask, start, path, k);
                    }
                    assert(mask.spec_at(path[path.len() - 1]) == VisitationState::Visited);
                }
            }
        }
        mask
    }
}

/// `m` is the least cell, in row-major order, that the player standing on
/// `start` can reach.
pub open spec fn is_min_reachable(board: SharedGameState, boxes: Set<Vec2>, start: Vec2, m: Vec2) -> bool {
    &&& reachable(board, boxes, start, m)
    &&& forall|p: Vec2| #[trigger] reachable(board, boxes, start, p) ==> p == m || pos_lt(m, p)
}

/// The canonical player position: the least reachable cell, or `(127, 127)`
/// when the player stands where nothing is reachable (on a box, or off the
/// board).
pub open spec fn canonical_player(board: SharedGameState, boxes: Set<Vec2>, start: Vec2) -> Vec2 {
    if exists|m: Vec2| is_min_reachable(board, boxes, start, m) {
        choose|m: Vec2| is_min_reachable(board, boxes, start, m)
    } else {
        Vec2 { i: 127, j: 127 }
    }
}

/// Only cells on the board and free of boxes are reachable.
pub proof fn lemma_reachable_open(board: SharedGameState, boxes: Set<Vec2>, start: Vec2, c: Vec2)
    requires
        reachable(board, boxes, start, c),
    ensures
        board.spec_in_bounds(c),
        !boxes.contains(c),
        c == start || open_cell(board, boxes, c),
{
    let path = choose|path: Seq<Vec2>|
        #![trigger is_walk(board, boxes, path), path.last()]
        is_walk(board, boxes, path) && path[0] == start && path.last() == c;
    if path.len() > 1 {
        assert(open_cell(board, boxes, path[path.len() - 1]));
    }
}

proof fn lemma_min_unique(board: SharedGameState, boxes: Set<Vec2>, start: Vec2, m1: Vec2, m2: Vec2)
    requires
        is_min_reachable(board, boxes, start, m1),
        is_min_reachable(board, boxes, start, m2),
    ensures
        m1 == m2,
{
    assert(reachable(board, boxes, start, m2));
    assert(reachable(board, boxes, start, m1));
}

/// Reachability is transitive.
pub proof fn lemma_reachable_trans(board: SharedGameState, boxes: Set<Vec2>, a: Vec2, b: Vec2, c: Vec2)
    requires
        reachable(board, boxes, a, b),
        reachable(board, boxes, b, c),
    ensures
        reachable(board, boxes, a, c),
{
    let p1 = choose|path: Seq<Vec2>|
        #![trigger is_walk(board, boxes, path), path.last()]
        is_walk(board, boxes, path) && path[0] == a && path.last() == b;
    let p2 = choose|path: Seq<Vec2>|
        #![trigger is_walk(board, boxes, path), path.last()]
        is_walk(board, boxes, path) && path[0] == b && path.last() == c;
    let p = p1 + p2.drop_first();
    assert forall|k: int| 1 <= k < p.len() implies open_cell(board, boxes, #[trigger] p[k])
        && adjacent(p[k - 1], p[k]) by {
        if k < p1.len() {
            assert(p[k] == p1[k] && p[k - 1] == p1[k - 1]);
        } else if k == p1.len() {
            assert(p[k] == p2[1]);
            assert(p[k - 1] == p1.last());
            assert(open_cell(board, boxes, p2[1]) && adjacent(p2[0], p2[1]));
        } else {
            let k2 = k - p1.len() + 1;
            assert(p[k] == p2[k2]);
            assert(p[k - 1] == p2[k2 - 1]);
            assert(open_cell(board, boxes, p2[k2]) && adjacent(p2[k2 - 1], p2[k2]));
        }
    }
    assert(is_walk(board, boxes, p));
    if p2.len() == 1 {
        assert(p.last() == p1.last());
    } else {
        assert(p.last() == p2.last());
    }
}

/// Reachability is symmetric when the start is itself an open cell.
pub proof fn lemma_reachable_sym(board: SharedGameState, boxes: Set<Vec2>, a: Vec2, b: Vec2)
    requires
        reachable(board, boxes, a, b),
        open_cell(board, boxes, a),
    ensures
        reachable(board, boxes, b, a),
{
    lemma_reachable_open(board, boxes, a, b);
    let p = choose|path: Seq<Vec2>|
        #![trigger is_walk(board, boxes, path), path.last()]
        is_walk(board, boxes, path) && path[0] == a && path.last() == b;
    let n = p.len();
    let r = Seq::new(n, |k: int| p[n - 1 - k]);
    assert forall|k: int| 1 <= k < r.len() implies open_cell(board, boxes, #[trigger] r[k])
        && adjacent(r[k - 1], r[k]) by {
        let m = n - 1 - k;
        assert(r[k] == p[m]);
        assert(r[k - 1] == p[m + 1]);
        assert(open_cell(board, boxes, p[m + 1]) && adjacent(p[m], p[m + 1]));
        if m >= 1 {
            assert(open_cell(board, boxes, p[m]) && adjacent(p[m - 1], p[m]));
        }
    }
    assert(is_walk(board, boxes, r));
    assert(r[0] == b);
    assert(r.last() == a);
}

/// Canonicalization is idempotent: a player standing on an open cell and
/// one standing anywhere it can walk to, among the same boxes, get the same
/// canonical position.
pub proof fn lemma_canonical_idempotent(board: SharedGameState, boxes: Set<Vec2>, a: Vec2, b: Vec2)
    requires
        open_cell(board, boxes, a),
        reachable(board, boxes, a, b),
    ensures
        canonical_player(board, boxes, b) == canonical_player(board, boxes, a),
{
    lemma_reachable_sym(board, boxes, a, b);
    assert forall|p: Vec2| reachable(board, boxes, a, p) <==> reachable(board, boxes, b, p) by {
        if reachable(board, boxes, a, p) {
            lemma_reachable_trans(board, boxes, b, a, p);
        }
        if reachable(board, boxes, b, p) {
            lemma_reachable_trans(board, boxes, a, b, p);
        }
    }
    assert forall|m: Vec2| is_min_reachable(board, boxes, a, m) <==> is_min_reachable(board, boxes, b, m) by {
        if is_min_reachable(board, boxes, a, m) {
            assert forall|p: Vec2| #[trigger] reachable(board, boxes, b, p) implies p == m || pos_lt(m, p) by {
                assert(reachable(board, boxes, a, p));
            }
        }
        if is_min_reachable(board, boxes, b, m) {
            assert forall|p: Vec2| #[trigger] reachable(board, boxes, a, p) implies p == m || pos_lt(m, p) by {
                assert(reachable(board, boxes, b, p));
            }
        }
    }
    if exists|m: Vec2| is_min_reachable(board, boxes, a, m) {
        let ma = canonical_player(board, boxes, a);
        let mb = canonical_player(board, boxes, b);
        lemma_min_unique(board, boxes, a, ma, mb);
    }
}

impl SharedGameState {
    /// Every cell the player can reach, in row-major order.
    pub fn reachable_positions(&self, game_state: &GameState) -> (r: Vec<Vec2>)
        requires
            self.wf(),
            self.spec_in_bounds(game_state.player),
        ensures
            forall|p: Vec2|
                #[trigger] r@.contains(p) <==> reachable(
                    *self,
                    game_state.environment.box_set(),
                    game_state.player,
                    p,
                ),
            r@.no_duplicates(),
    {
        let ghost boxes = game_state.environment.box_set();
        let mask = self.reachable_positions_visitation(game_state);
        let mut out: Vec<Vec2> = Vec::new();
        let mut i: usize = 0;
        while i < mask.cells.len()
            invariant
                self.wf(),
                is_reach_mask(mask, *self, boxes, game_state.player),
                i <= self.spec_height(),
                forall|p: Vec2|
                    #[trigger] out@.contains(p) <==> (self.spec_in_bounds(p) && p.i < i
                        && mask.spec_at(p) == VisitationState::Visited),
                out@.no_duplicates(),
            decreases self.spec_height() - i,
        {
            let mut j: usize = 0;
            while j < mask.cells[i].len()
                invariant
                    self.wf(),
                    is_reach_mask(mask, *self, boxes, game_state.player),
                    i < self.spec_height(),
                    j <= self.spec_width(),
                    forall|p: Vec2|
                        #[trigger] out@.contains(p) <==> (self.spec_in_bounds(p) && (p.i < i || (p.i
                            == i && p.j < j)) && mask.spec_at(p) == VisitationState::Visited),
                    out@.no_duplicates(),
                decreases self.spec_width() - j,
            {
                let pos = Vec2 { i: i as i8, j: j as i8 };
                let ghost before = out@;
                if mask.cells[i][j].is_reachable() {
                    proof {
                        assert(!before.contains(pos));
                    }
                    out.push(pos);
                    proof {
                        assert forall|a: int, c: int| 0 <= a < out@.len() && 0 <= c < out@.len() && a != c implies out@[a] != out@[c] by {
                            if a == before.len() {
                                assert(before.contains(out@[c]));
                            } else if c == before.len() {
                                assert(before.contains(out@[a]));
                            } else {
                                assert(out@[a] == before[a] && out@[c] == before[c]);
                            }
                        }
                    }
                }
                proof {
                    assert forall|p: Vec2|
                        #[trigger] out@.contains(p) <==> (self.spec_in_bounds(p) && (p.i < i || (p.i
                            == i && p.j < j + 1)) && mask.spec_at(p) == VisitationState::Visited) by {
                        if out@.contains(p) && p != pos {
                            let m = choose|m: int| 0 <= m < out@.len() && out@[m] == p;
                            assert(before[m] == p);
                        }
                        if before.contains(p) {
                            let m = choose|m: int| 0 <= m < before.len() && before[m] == p;
                            assert(out@[m] == p);
                        }
                        if p.i == i && p.j == j {
                            assert(p == pos);
                            if mask.spec_at(p) == VisitationState::Visited {
                                assert(out@[before.len() as int] == p);
                            }
                        }
                    }
                }
                j += 1;
            }
            proof {
                assert forall|p: Vec2| #[trigger] out@.contains(p) <==> (self.spec_in_bounds(p) && p.i < i + 1
                    && mask.spec_at(p) == VisitationState::Visited) by {}
            }
            i += 1;
        }
        proof {
            assert forall|p: Vec2| #[trigger] out@.contains(p) <==> reachable(*self, boxes, game_state.player, p) by {
                if reachable(*self, boxes, game_state.player, p) {
                    lemma_reachable_open(*self, boxes, game_state.player, p);
                }
            }
        }
        out
    }

    /// The least reachable cell in row-major order (the canonical player
    /// position), found without collecting the reachable set.
    pub fn min_reachable_position(&self, game_state: &GameState) -> (r: Vec2)
        requires
            self.wf(),
            self.spec_in_bounds(game_state.player),
        ensures
            r == canonical_player(*self, game_state.environment.box_set(), game_state.player),
            !game_state.environment.box_set().contains(game_state.player) ==> is_min_reachable(
                *self,
                game_state.environment.box_set(),
                game_state.player,
                r,
            ),
    {
        let ghost boxes = game_state.environment.box_set();
        let ghost start = game_state.player;
        let mask = self.reachable_positions_visitation(game_state);
        let mut i: usize = 0;
        while i < mask.cells.len()
            invariant
                self.wf(),
                is_reach_mask(mask, *self, boxes, start),
                boxes == game_state.environment.box_set(),
                start == game_state.player,
                i <= self.spec_height(),
                forall|p: Vec2|
                    self.spec_in_bounds(p) && p.i < i ==> #[trigger] mask.spec_at(p)
                        != VisitationState::Visited,
            decreases self.spec_height() - i,
        {
            let mut j: usize = 0;
            while j < mask.cells[i].len()
                invariant
                    self.wf(),
                    is_reach_mask(mask, *self, boxes, start),
                    boxes == game_state.environment.box_set(),
                    start == game_state.player,
                    i < self.spec_height(),
                    j <= self.spec_width(),
                    forall|p: Vec2|
                        self.spec_in_bounds(p) && (p.i < i || (p.i == i && p.j < j))
                            ==> #[trigger] mask.spec_at(p) != VisitationState::Visited,
                decreases self.spec_width() - j,
            {
                if mask.cells[i][j].is_reachable() {
                    let r = Vec2 { i: i as i8, j: j as i8 };
                    proof {
                        assert(mask.spec_at(r) == VisitationState::Visited);
                        assert forall|p: Vec2| #[trigger] reachable(*self, boxes, start, p) implies p == r
                            || pos_lt(r, p) by {
                            lemma_reachable_open(*self, boxes, start, p);
                            assert(mask.spec_at(p) == VisitationState::Visited);
                            assert(!(p.i < i || (p.i == i && p.j < j)));
                            if p.i == i && p.j == j {
                                assert(p == r);
                            }
                        }
                        assert(is_min_reachable(*self, boxes, start, r));
                        lemma_min_unique(*self, boxes, start, r, canonical_player(*self, boxes, start));
                    }
                    return r;
                }
                j += 1;
            }
            i += 1;
        }
        proof {
            assert forall|m: Vec2| !is_min_reachable(*self, boxes, start, m) by {
                if is_min_reachable(*self, boxes, start, m) {
                    lemma_reachable_open(*self, boxes, start, m);
                    assert(mask.spec_at(m) == VisitationState::Visited);
                }
            }
            if !boxes.contains(start) {
                let path = seq![start];
                assert(is_walk(*self, boxes, path));
                assert(path.last() == start);
                assert(reachable(*self, boxes, start, start));
                assert(mask.spec_at(start) == VisitationState::Visited);
            }
        }
        Vec2 { i: 127, j: 127 }
    }
}

} // verus!
