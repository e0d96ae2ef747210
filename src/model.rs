//! Plain value types of the puzzle: cells, coordinates, directions, actions.

use vstd::prelude::*;

verus! {

/// One square of the static board.
#[derive(Clone, Copy, PartialEq, Eq, Hash, Debug, Structural)]
pub enum Cell {
    Wall,
    Floor,
    Target,
}

impl Cell {
    pub open spec fn spec_is_walkable(self) -> bool {
        self != Cell::Wall
    }

    /// Floor and targets can be walked on; walls cannot.
    pub fn is_walkable(&self) -> (r: bool)
        ensures
            r == self.spec_is_walkable(),
    {
        *self != Cell::Wall
    }
}

/// A board coordinate: `i` is the row, `j` the column.
#[derive(Clone, Copy, PartialEq, Eq, Hash, Debug, Structural)]
pub struct Vec2 {
    pub i: i8,
    pub j: i8,
}

/// Row-major (lexicographic) strict order on coordinates.
pub open spec fn pos_lt(a: Vec2, b: Vec2) -> bool {
    a.i < b.i || (a.i == b.i && a.j < b.j)
}

/// The coordinate with the given row and column (both must fit in `i8`).
pub open spec fn mk_pos(i: int, j: int) -> Vec2 {
    Vec2 { i: i as i8, j: j as i8 }
}

impl Vec2 {
    /// Strict row-major comparison.
    pub fn precedes(&self, other: &Vec2) -> (r: bool)
        ensures
            r == pos_lt(*self, *other),
    {
        self.i < other.i || (self.i == other.i && self.j < other.j)
    }

    /// Whether the coordinate lies in the rectangle `[0, area.i) x [0, area.j)`.
    pub fn inside(&self, area: &Vec2) -> (r: bool)
        ensures
            r == (0 <= self.i < area.i && 0 <= self.j < area.j),
    {
        self.i >= 0 && self.j >= 0 && self.i < area.i && self.j < area.j
    }
}

#[derive(Clone, Copy, PartialEq, Eq, Hash, Debug, Structural)]
pub enum Direction {
    Up,
    Down,
    Left,
    Right,
}

/// Row offset of a direction.
pub open spec fn dir_di(d: Direction) -> int {
    match d {
        Direction::Up => -1,
        Direction::Down => 1,
        Direction::Left => 0,
        Direction::Right => 0,
    }
}

/// Column offset of a direction.
pub open spec fn dir_dj(d: Direction) -> int {
    match d {
        Direction::Up => 0,
        Direction::Down => 0,
        Direction::Left => -1,
        Direction::Right => 1,
    }
}

/// The four directions, in the fixed order used for enumeration.
pub open spec fn all_directions() -> Seq<Direction> {
    seq![Direction::Up, Direction::Down, Direction::Left, Direction::Right]
}

/// The unit offset of a direction.
pub fn vec_from_dir(dir: Direction) -> (r: Vec2)
    ensures
        r.i == dir_di(dir),
        r.j == dir_dj(dir),
{
    match dir {
        Direction::Up => Vec2 { i: -1, j: 0 },
        Direction::Down => Vec2 { i: 1, j: 0 },
        Direction::Left => Vec2 { i: 0, j: -1 },
        Direction::Right => Vec2 { i: 0, j: 1 },
    }
}

#[derive(Clone, Copy, PartialEq, Eq, Hash, Debug, Structural)]
pub enum UserAction {
    Move(Direction),
}

impl UserAction {
    pub open spec fn direction(self) -> Direction {
        match self {
            UserAction::Move(d) => d,
        }
    }

    /// Every move action, in the order Up, Down, Left, Right.
    pub fn all_actions() -> (r: Vec<UserAction>)
        ensures
            r@.len() == 4,
            forall|k: int| 0 <= k < 4 ==> #[trigger] r@[k] == UserAction::Move(all_directions()[k]),
    {
        vec![
            UserAction::Move(Direction::Up),
            UserAction::Move(Direction::Down),
            UserAction::Move(Direction::Left),
            UserAction::Move(Direction::Right),
        ]
    }
}

#[derive(Clone, Copy, PartialEq, Eq, Hash, Debug, Structural)]
pub enum GameChangeType {
    PlayerMove,
    PlayerAndBoxMove,
}

impl GameChangeType {
    /// Whether the change pushed a box.
    pub fn did_box_move(&self) -> (r: bool)
        ensures
            r == (*self == GameChangeType::PlayerAndBoxMove),
    {
        matches!(self, GameChangeType::PlayerAndBoxMove)
    }
}

} // verus!
