//! The static board: a rectangular grid of cells shared by every state.

use vstd::prelude::*;
use crate::box_set::{strictly_sorted, GameStateEnvironment};
use crate::model::{mk_pos, pos_lt, Cell, Vec2};
use crate::state::GameState;

verus! {

/// The immutable playfield. Row `i`, column `j` is `grid[i][j]`.
#[derive(Clone, Debug)]
pub struct SharedGameState {
    pub grid: Vec<Vec<Cell>>,
}

/// Number of target cells in row `i` among columns `[0, j)`; with
/// `need_box` only those holding a box of `boxes` count.
pub open spec fn row_targets(
    board: SharedGameState,
    i: int,
    j: int,
    boxes: Set<Vec2>,
    need_box: bool,
) -> nat
    decreases j,
{
    if j <= 0 {
        0
    } else {
        row_targets(board, i, j - 1, boxes, need_box) + if board.spec_cell(mk_pos(i, j - 1))
            == Cell::Target && (!need_box || boxes.contains(mk_pos(i, j - 1))) {
            1nat
        } else {
            0nat
        }
    }
}

/// Number of target cells in rows `[0, i)`, counted as by `row_targets`.
pub open spec fn grid_targets(board: SharedGameState, i: int, boxes: Set<Vec2>, need_box: bool) -> nat
    decreases i,
{
    if i <= 0 {
        0
    } else {
        grid_targets(board, i - 1, boxes, need_box) + row_targets(
            board,
            i - 1,
            board.spec_width(),
            boxes,
            need_box,
        )
    }
}

/// All target cells of the board.
pub open spec fn num_targets(board: SharedGameState) -> nat {
    grid_targets(board, board.spec_height(), Set::empty(), false)
}

/// Target cells of the board that hold a box of `boxes`.
pub open spec fn num_boxes_on_targets(board: SharedGameState, boxes: Set<Vec2>) -> nat {
    grid_targets(board, board.spec_height(), boxes, true)
}

/// Every target cell holds a box.
pub open spec fn all_targets_covered(board: SharedGameState, boxes: Set<Vec2>) -> bool {
    forall|p: Vec2| board.spec_is_target(p) ==> boxes.contains(p)
}

proof fn lemma_row_targets_bound(board: SharedGameState, i: int, j: int, boxes: Set<Vec2>, need_box: bool)
    ensures
        row_targets(board, i, j, boxes, need_box) <= if j < 0 { 0 } else { j },
    decreases j,
{
    if j > 0 {
        lemma_row_targets_bound(board, i, j - 1, boxes, need_box);
    }
}

proof fn lemma_grid_targets_bound(board: SharedGameState, i: int, boxes: Set<Vec2>, need_box: bool)
    requires
        board.wf(),
    ensures
        grid_targets(board, i, boxes, need_box) <= if i < 0 { 0 } else { 127 * i },
    decreases i,
{
    if i > 0 {
        lemma_grid_targets_bound(board, i - 1, boxes, need_box);
        lemma_row_targets_bound(board, i - 1, board.spec_width(), boxes, need_box);
    }
}

/// The target positions of a board, in ascending row-major order.
#[derive(Clone, Debug)]
pub struct WonCheckHelper {
    pub target_positions_sorted: Vec<Vec2>,
}

impl WonCheckHelper {
    /// Whether every recorded target holds a box.
    pub fn is_won(&self, game_state: &GameStateEnvironment) -> (r: bool)
        ensures
            r == (forall|k: int|
                0 <= k < self.target_positions_sorted@.len() ==> game_state.boxes@.contains(
                    #[trigger] self.target_positions_sorted@[k],
                )),
    {
        let mut k: usize = 0;
        while k < self.target_positions_sorted.len()
            invariant
                k <= self.target_positions_sorted@.len(),
                forall|m: int|
                    0 <= m < k ==> game_state.boxes@.contains(
                        #[trigger] self.target_positions_sorted@[m],
                    ),
            decreases self.target_positions_sorted@.len() - k,
        {
            if !game_state.has_box_at(&self.target_positions_sorted[k]) {
                return false;
            }
            k += 1;
        }
        true
    }
}

impl SharedGameState {
    pub open spec fn spec_height(&self) -> int {
        self.grid@.len() as int
    }

    pub open spec fn spec_width(&self) -> int {
        if self.grid@.len() == 0 {
            0
        } else {
            self.grid@[0]@.len() as int
        }
    }

    /// Rectangular, and at most 127 rows and columns.
    pub open spec fn wf(&self) -> bool {
        &&& self.spec_height() <= 127
        &&& self.spec_width() <= 127
        &&& forall|r: int| 0 <= r < self.spec_height() ==> (#[trigger] self.grid@[r])@.len() == self.spec_width()
    }

    pub open spec fn spec_in_bounds(&self, p: Vec2) -> bool {
        0 <= p.i < self.spec_height() && 0 <= p.j < self.spec_width()
    }

    pub open spec fn spec_cell(&self, p: Vec2) -> Cell {
        self.grid@[p.i as int]@[p.j as int]
    }

    pub open spec fn spec_is_target(&self, p: Vec2) -> bool {
        self.spec_in_bounds(p) && self.spec_cell(p) == Cell::Target
    }

    /// In bounds and not a wall.
    pub open spec fn spec_walkable_at(&self, p: Vec2) -> bool {
        self.spec_in_bounds(p) && self.spec_cell(p).spec_is_walkable()
    }

    pub fn height(&self) -> (r: i8)
        requires
            self.wf(),
        ensures
            r == self.spec_height(),
    {
        self.grid.len() as i8
    }

    pub fn width(&self) -> (r: i8)
        requires
            self.wf(),
        ensures
            r == self.spec_width(),
    {
        if self.grid.len() == 0 {
            0
        } else {
            self.grid[0].len() as i8
        }
    }

    /// Height and width as one coordinate.
    pub fn size(&self) -> (r: Vec2)
        requires
            self.wf(),
        ensures
            r.i == self.spec_height(),
            r.j == self.spec_width(),
    {
        Vec2 { i: self.height(), j: self.width() }
    }

    pub fn in_bounds(&self, p: Vec2) -> (r: bool)
        requires
            self.wf(),
        ensures
            r == self.spec_in_bounds(p),
    {
        let h = self.height();
        let w = self.width();
        p.i >= 0 && p.j >= 0 && p.i < h && p.j < w
    }

    /// The cell at an in-bounds position.
    pub fn cell_at(&self, p: Vec2) -> (r: Cell)
        requires
            self.wf(),
            self.spec_in_bounds(p),
        ensures
            r == self.spec_cell(p),
    {
        self.grid[p.i as usize][p.j as usize]
    }

    /// Whether `p` is in bounds and walkable.
    pub fn walkable_at(&self, p: Vec2) -> (r: bool)
        requires
            self.wf(),
        ensures
            r == self.spec_walkable_at(p),
    {
        self.in_bounds(p) && self.cell_at(p).is_walkable()
    }

    /// Counts the target cells, those holding a box of `boxes` only when
    /// `need_box` holds.
    fn count_targets(&self, boxes: &GameStateEnvironment, need_box: bool) -> (r: usize)
        requires
            self.wf(),
        ensures
            r == grid_targets(*self, self.spec_height(), boxes.box_set(), need_box),
    {
        let mut count: usize = 0;
        let mut i: usize = 0;
        while i < self.grid.len()
            invariant
                self.wf(),
                i <= self.spec_height(),
                count == grid_targets(*self, i as int, boxes.box_set(), need_box),
            decreases self.spec_height() - i,
        {
            let row = &self.grid[i];
            let mut j: usize = 0;
            proof {
                lemma_grid_targets_bound(*self, i as int, boxes.box_set(), need_box);
            }
            while j < row.len()
                invariant
                    self.wf(),
                    i < self.spec_height(),
                    *row == self.grid@[i as int],
                    row@.len() == self.spec_width(),
                    j <= row@.len(),
                    count == grid_targets(*self, i as int, boxes.box_set(), need_box) + row_targets(
                        *self,
                        i as int,
                        j as int,
                        boxes.box_set(),
                        need_box,
                    ),
                    grid_targets(*self, i as int, boxes.box_set(), need_box) <= 127 * i,
                decreases row@.len() - j,
            {
                proof {
                    lemma_row_targets_bound(*self, i as int, j as int, boxes.box_set(), need_box);
                }
                if row[j] == Cell::Target {
                    let pos = Vec2 { i: i as i8, j: j as i8 };
                    if !need_box || boxes.has_box_at(&pos) {
                        count += 1;
                    }
                }
                j += 1;
            }
            i += 1;
        }
        count
    }

    /// Number of target cells.
    pub fn total_targets(&self) -> (r: usize)
        requires
            self.wf(),
        ensures
            r == num_targets(*self),
    {
        let empty = GameStateEnvironment::new_empty();
        self.count_targets(&empty, false)
    }

    /// Number of target cells that hold a box.
    pub fn count_boxes_on_goals(&self, environment: &GameStateEnvironment) -> (r: usize)
        requires
            self.wf(),
        ensures
            r == num_boxes_on_targets(*self, environment.box_set()),
    {
        self.count_targets(environment, true)
    }

    /// Whether every target cell holds a box.
    pub fn is_won(&self, game_state: &GameState) -> (r: bool)
        requires
            self.wf(),
        ensures
            r == all_targets_covered(*self, game_state.environment.box_set()),
    {
        let helper = self.get_won_check_helper();
        let r = helper.is_won(&game_state.environment);
        proof {
            if r {
                assert forall|p: Vec2| self.spec_is_target(p) implies game_state.environment.box_set().contains(p) by {
                    assert(helper.target_positions_sorted@.contains(p));
                    let k = choose|k: int| 0 <= k < helper.target_positions_sorted@.len() && helper.target_positions_sorted@[k] == p;
                    assert(game_state.environment.boxes@.contains(helper.target_positions_sorted@[k]));
                }
            } else {
                let k = choose|k: int| 0 <= k < helper.target_positions_sorted@.len() && !game_state.environment.boxes@.contains(
                    #[trigger] helper.target_positions_sorted@[k]);
                assert(self.spec_is_target(helper.target_positions_sorted@[k]));
            }
        }
        r
    }

    /// Collects the target positions in row-major order.
    pub fn get_won_check_helper(&self) -> (r: WonCheckHelper)
        requires
            self.wf(),
        ensures
            forall|p: Vec2| r.target_positions_sorted@.contains(p) <==> self.spec_is_target(p),
            strictly_sorted(r.target_positions_sorted@),
    {
        let mut targets: Vec<Vec2> = Vec::new();
        let mut i: usize = 0;
        while i < self.grid.len()
            invariant
                self.wf(),
                i <= self.spec_height(),
                forall|p: Vec2| #[trigger] targets@.contains(p) <==> (self.spec_is_target(p) && p.i < i),
                strictly_sorted(targets@),
                forall|k: int| 0 <= k < targets@.len() ==> (#[trigger] targets@[k]).i < i,
            decreases self.spec_height() - i,
        {
            let row = &self.grid[i];
            let mut j: usize = 0;
            while j < row.len()
                invariant
                    self.wf(),
                    i < self.spec_height(),
                    *row == self.grid@[i as int],
                    row@.len() == self.spec_width(),
                    j <= row@.len(),
                    forall|p: Vec2| #[trigger] targets@.contains(p) <==> (self.spec_is_target(p) && (p.i < i || (p.i == i && p.j < j))),
                    strictly_sorted(targets@),
                    forall|k: int| 0 <= k < targets@.len() ==> pos_lt(#[trigger] targets@[k], Vec2 { i: i as i8, j: j as i8 }),
                decreases row@.len() - j,
            {
                if row[j] == Cell::Target {
                    let pos = Vec2 { i: i as i8, j: j as i8 };
                    let ghost before = targets@;
                    targets.push(pos);
                    proof {
                        assert forall|a: int, b: int| 0 <= a < b < targets@.len() implies pos_lt(#[trigger] targets@[a], #[trigger] targets@[b]) by {
                            if b == before.len() {
                                assert(targets@[a] == before[a]);
                            } else {
                                assert(targets@[a] == before[a] && targets@[b] == before[b]);
                            }
                        }
                        assert forall|p: Vec2| #[trigger] targets@.contains(p) <==> (self.spec_is_target(p) && (p.i < i || (p.i == i && p.j < j + 1))) by {
                            if targets@.contains(p) {
                                let m = choose|m: int| 0 <= m < targets@.len() && targets@[m] == p;
                                if m < before.len() {
                                    assert(before.contains(p));
                                }
                            }
                            if self.spec_is_target(p) && (p.i < i || (p.i == i && p.j < j)) {
                                assert(before.contains(p));
                                let m = choose|m: int| 0 <= m < before.len() && before[m] == p;
                                assert(targets@[m] == p);
                            }
                            if p.i == i && p.j == j {
                                assert(p == pos);
                                assert(targets@[before.len() as int] == p);
                            }
                        }
                    }
                } else {
                    proof {
                        assert forall|p: Vec2| #[trigger] targets@.contains(p) <==> (self.spec_is_target(p) && (p.i < i || (p.i == i && p.j < j + 1))) by {
                            if p.i == i && p.j == j {
                                assert(self.spec_cell(p) == row@[j as int]);
                                assert(row@[j as int] != Cell::Target);
                                assert(!self.spec_is_target(p));
                            }
                            if targets@.contains(p) {
                                assert(self.spec_is_target(p) && (p.i < i || (p.i == i && p.j < j)));
                            }
                        }
                    }
                }
                j += 1;
            }
            proof {
                assert forall|k: int| 0 <= k < targets@.len() implies (#[trigger] targets@[k]).i < i + 1 by {
                    assert(pos_lt(targets@[k], Vec2 { i: i as i8, j: j as i8 }));
                }
                assert forall|p: Vec2| #[trigger] targets@.contains(p) <==> (self.spec_is_target(p) && p.i < i + 1) by {
                    if self.spec_is_target(p) && p.i == i {
                        assert(p.j < j);
                    }
                }
            }
            i += 1;
        }
        WonCheckHelper { target_positions_sorted: targets }
    }
}

} // verus!
