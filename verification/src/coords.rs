//! Grid cells and unit steps between them.

use crate::direction::Direction;
use vstd::prelude::*;

verus! {

/// A cell of the unbounded integer grid: the mathematical value of a
/// [`GridCoord`].
pub struct Cell {
    pub x: int,
    pub y: int,
}

impl Cell {
    /// The cell one unit step away in `direction`; `Still` stays in place.
    pub open spec fn step(self, direction: Direction) -> Cell {
        match direction {
            Direction::North => Cell { x: self.x, y: self.y + 1 },
            Direction::East => Cell { x: self.x + 1, y: self.y },
            Direction::South => Cell { x: self.x, y: self.y - 1 },
            Direction::West => Cell { x: self.x - 1, y: self.y },
            Direction::Still => self,
        }
    }

    /// The cell `count` unit steps away in `direction`.
    pub open spec fn steps(self, direction: Direction, count: int) -> Cell {
        match direction {
            Direction::North => Cell { x: self.x, y: self.y + count },
            Direction::East => Cell { x: self.x + count, y: self.y },
            Direction::South => Cell { x: self.x, y: self.y - count },
            Direction::West => Cell { x: self.x - count, y: self.y },
            Direction::Still => self,
        }
    }

    /// Whether both coordinates fit the machine representation.
    pub open spec fn representable(self) -> bool {
        i32::MIN <= self.x <= i32::MAX && i32::MIN <= self.y <= i32::MAX
    }

    /// The position that stands for this cell, where it is representable.
    pub open spec fn coord(self) -> GridCoord {
        GridCoord { x: self.x as i32, y: self.y as i32 }
    }
}

/// The direction of the unit step that leads from `origin` to `neighbor`,
/// or `Still` when the two are not one step apart.
pub open spec fn direction_between(origin: Cell, neighbor: Cell) -> Direction {
    if neighbor == origin.step(Direction::North) {
        Direction::North
    } else if neighbor == origin.step(Direction::East) {
        Direction::East
    } else if neighbor == origin.step(Direction::South) {
        Direction::South
    } else if neighbor == origin.step(Direction::West) {
        Direction::West
    } else {
        Direction::Still
    }
}

/// A position on the grid.
#[derive(Clone, Copy, Debug, PartialEq, Eq, Structural, Hash)]
pub struct GridCoord {
    pub x: i32,
    pub y: i32,
}

impl View for GridCoord {
    type V = Cell;

    open spec fn view(&self) -> Cell {
        Cell { x: self.x as int, y: self.y as int }
    }
}

impl GridCoord {
    /// The position with the given coordinates.
    pub fn new(x: i32, y: i32) -> (r: GridCoord)
        ensures
            r == (GridCoord { x, y }),
    {
        GridCoord { x, y }
    }

    /// The position one step away in `direction`.
    pub fn step(self, direction: Direction) -> (r: GridCoord)
        requires
            self@.step(direction).representable(),
        ensures
            r@ == self@.step(direction),
    {
        match direction {
            Direction::North => GridCoord { x: self.x, y: self.y + 1 },
            Direction::East => GridCoord { x: self.x + 1, y: self.y },
            Direction::South => GridCoord { x: self.x, y: self.y - 1 },
            Direction::West => GridCoord { x: self.x - 1, y: self.y },
            Direction::Still => self,
        }
    }

    /// The position one step away in `direction`, or `None` where that cell
    /// lies beyond what the coordinates can hold.
    pub fn checked_step(self, direction: Direction) -> (r: Option<GridCoord>)
        ensures
            match r {
                Some(p) => p@ == self@.step(direction),
                None => !self@.step(direction).representable(),
            },
    {
        let fits = match direction {
            Direction::North => self.y < i32::MAX,
            Direction::East => self.x < i32::MAX,
            Direction::South => self.y > i32::MIN,
            Direction::West => self.x > i32::MIN,
            Direction::Still => true,
        };
        if fits {
            Some(self.step(direction))
        } else {
            None
        }
    }
}

/// The unit offset of a direction as a coordinate pair, `None` for `Still`.
pub fn get_movement_coords_from_direction(direction: Direction) -> (r: Option<GridCoord>)
    ensures
        match r {
            Some(offset) => direction != Direction::Still && offset@ == (Cell { x: 0, y: 0 }).step(
                direction,
            ),
            None => direction == Direction::Still,
        },
{
    match direction {
        Direction::North => Some(GridCoord { x: 0, y: 1 }),
        Direction::West => Some(GridCoord { x: -1, y: 0 }),
        Direction::South => Some(GridCoord { x: 0, y: -1 }),
        Direction::East => Some(GridCoord { x: 1, y: 0 }),
        Direction::Still => None,
    }
}

/// The unit offset that the held movement keys ask for, `None` when no key
/// is held.
pub fn get_movement_coords_from_input(up: bool, left: bool, down: bool, right: bool) -> (r: Option<
    GridCoord,
>)
    ensures
        match r {
            Some(offset) => {
                let direction = crate::direction::requested_direction(up, left, down, right);
                direction != Direction::Still && offset@ == (Cell { x: 0, y: 0 }).step(direction)
            },
            None => !up && !left && !down && !right,
        },
{
    get_movement_coords_from_direction(
        crate::direction::get_movement_direction_from_input(up, left, down, right),
    )
}

/// Tells in which direction `neighbor` lies one step from `origin`; `Still`
/// when it is not an immediate neighbour.
pub fn get_neighbor_direction(origin: &GridCoord, neighbor: &GridCoord) -> (r: Direction)
    ensures
        r == direction_between(origin@, neighbor@),
{
    let ox: i64 = origin.x as i64;
    let oy: i64 = origin.y as i64;
    let nx: i64 = neighbor.x as i64;
    let ny: i64 = neighbor.y as i64;
    if nx == ox && ny == oy + 1 {
        Direction::North
    } else if nx == ox + 1 && ny == oy {
        Direction::East
    } else if nx == ox && ny == oy - 1 {
        Direction::South
    } else if nx == ox - 1 && ny == oy {
        Direction::West
    } else {
        Direction::Still
    }
}

/// A direction other than `Still` is found between two cells exactly when
/// the second is the first one's neighbour in that direction.
pub proof fn lemma_direction_between(origin: Cell, neighbor: Cell, direction: Direction)
    requires
        direction != Direction::Still,
    ensures
        direction_between(origin, neighbor) == direction <==> neighbor == origin.step(direction),
{
}

} // verus!
