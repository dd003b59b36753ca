//! The four cardinal directions and the idle sentinel.

use vstd::prelude::*;

verus! {

/// A cardinal direction on the grid, or `Still` for a tick without
/// directional input.
///
/// North is towards larger `y`, east towards larger `x`. `Still` is never a
/// direction in which anything moves.
#[derive(Clone, Copy, Debug, PartialEq, Eq, Structural, Hash)]
pub enum Direction {
    North,
    East,
    South,
    West,
    Still,
}

/// The direction pointing the other way. `Still` has no opposite and maps to
/// itself.
pub open spec fn reversed(direction: Direction) -> Direction {
    match direction {
        Direction::North => Direction::South,
        Direction::East => Direction::West,
        Direction::South => Direction::North,
        Direction::West => Direction::East,
        Direction::Still => Direction::Still,
    }
}

/// Whether `direction` runs along the axis of `lock`: it is `lock` itself or
/// its opposite.
pub open spec fn along_axis(lock: Direction, direction: Direction) -> bool {
    direction == lock || direction == reversed(lock)
}

/// The direction that the held keys ask for. When several are held the
/// first of up, left, down, right decides.
pub open spec fn requested_direction(up: bool, left: bool, down: bool, right: bool) -> Direction {
    if up {
        Direction::North
    } else if left {
        Direction::West
    } else if down {
        Direction::South
    } else if right {
        Direction::East
    } else {
        Direction::Still
    }
}

/// Returns the opposite of `direction`.
pub fn get_reversed_direction(direction: Direction) -> (r: Direction)
    ensures
        r == reversed(direction),
{
    match direction {
        Direction::North => Direction::South,
        Direction::East => Direction::West,
        Direction::South => Direction::North,
        Direction::West => Direction::East,
        Direction::Still => Direction::Still,
    }
}

/// Tells whether `direction` is `lock` or its opposite.
pub fn is_along_axis(lock: Direction, direction: Direction) -> (r: bool)
    ensures
        r == along_axis(lock, direction),
{
    direction == lock || direction == get_reversed_direction(lock)
}

/// Reads the requested direction off the four movement keys.
pub fn get_movement_direction_from_input(up: bool, left: bool, down: bool, right: bool) -> (r:
    Direction)
    ensures
        r == requested_direction(up, left, down, right),
{
    if up {
        Direction::North
    } else if left {
        Direction::West
    } else if down {
        Direction::South
    } else if right {
        Direction::East
    } else {
        Direction::Still
    }
}

} // verus!
