//! Whether a body and the row of bodies ahead of it can advance one cell.

use crate::direction::Direction;
use crate::world::{Body, BodyKind, World, WorldView};
use vstd::prelude::*;

verus! {

impl WorldView {
    /// Well formed, with a neighbour cache that agrees with the positions:
    /// the state in which moves are resolved.
    pub open spec fn ready(self) -> bool {
        self.wf() && self.neighbors_current()
    }

    /// The number of cells from body `i` to the edge of the level in
    /// `direction`, its own cell included.
    pub open spec fn room(self, i: int, direction: Direction) -> int {
        match direction {
            Direction::North => self.walls.height - self.cell(i).y,
            Direction::East => self.walls.width - self.cell(i).x,
            Direction::South => self.cell(i).y + 1,
            Direction::West => self.cell(i).x + 1,
            Direction::Still => 0,
        }
    }

    /// Whether body `i` refuses to be pushed: a block that is not pushable
    /// and that nobody holds.
    pub open spec fn obstructs(self, i: int) -> bool {
        &&& self.bodies[i].kind matches BodyKind::Block(block)
        &&& !block.pushable
        &&& block.grabbed is None
    }

    /// Whether the bodies ahead of body `i` let it advance one cell in
    /// `direction`.
    ///
    /// With no neighbour ahead the way is free. Otherwise the neighbour has
    /// to give way: it must not obstruct, the cell beyond it must not be
    /// blocked by the level, and the bodies ahead of it must let it advance
    /// in turn. Whether the cell that body `i` itself would enter is
    /// blocked by the level is not looked at.
    pub open spec fn can_move(self, i: int, direction: Direction) -> bool
        decreases self.room(i, direction),
        when self.ready() && self.is_body(i)
        via Self::can_move_terminates
    {
        match self.neighbor(i, direction) {
            None => true,
            Some(n) => {
                &&& !self.obstructs(n as int)
                &&& !self.walls.blocks(self.cell(n as int).step(direction))
                &&& self.can_move(n as int, direction)
            },
        }
    }

    /// The unbroken row of bodies ahead of body `i` in `direction`, nearest
    /// first.
    pub open spec fn chain(self, i: int, direction: Direction) -> Seq<int>
        decreases self.room(i, direction),
        when self.ready() && self.is_body(i)
        via Self::chain_terminates
    {
        match self.neighbor(i, direction) {
            None => Seq::empty(),
            Some(n) => seq![n as int] + self.chain(n as int, direction),
        }
    }

    #[via_fn]
    proof fn can_move_terminates(self, i: int, direction: Direction) {
        lemma_neighbor_ahead(self, i, direction);
    }

    #[via_fn]
    proof fn chain_terminates(self, i: int, direction: Direction) {
        lemma_neighbor_ahead(self, i, direction);
    }

    /// Whether body `i` is a pushable block.
    pub open spec fn is_pushable_block(self, i: int) -> bool {
        &&& self.is_body(i)
        &&& self.bodies[i].kind matches BodyKind::Block(block)
        &&& block.pushable
    }

    /// Whether a pushable block stands on `cell`.
    pub open spec fn pushable_block_on(self, cell: crate::coords::Cell) -> bool {
        exists|i: int|
            self.is_pushable_block(i) && #[trigger] self.bodies[i].position@ == cell
    }
}

/// In a ready world the neighbour ahead, if any, is a body one step ahead
/// that has strictly less room.
pub proof fn lemma_neighbor_ahead(world: WorldView, i: int, direction: Direction)
    requires
        world.ready(),
        world.is_body(i),
    ensures
        match world.neighbor(i, direction) {
            Some(n) => {
                &&& direction != Direction::Still
                &&& world.is_body(n as int)
                &&& world.cell(n as int) == world.cell(i).step(direction)
                &&& world.walls.in_bounds(world.cell(n as int))
                &&& 0 < world.room(n as int, direction) < world.room(i, direction)
            },
            None => direction != Direction::Still ==> !world.occupied(
                world.cell(i).step(direction),
            ),
        },
{
    assert(world.neighbor_current(i, direction));
    if let Some(n) = world.neighbor(i, direction) {
        assert(!world.walls.blocks(world.bodies[n as int].position@));
    }
}

/// Tells whether a body refuses to be pushed.
pub fn obstructs(body: &Body) -> (r: bool)
    ensures
        r == (body.kind matches BodyKind::Block(block) && !block.pushable && block.grabbed is None),
{
    match body.kind {
        BodyKind::Block(block) => !block.pushable && block.grabbed.is_none(),
        BodyKind::Player(_) => false,
    }
}

/// Decides whether the bodies ahead of `body` let it advance one cell in
/// `direction`: every body in the row ahead gives way and has a cell to
/// move to that the level does not block.
///
/// The cell that `body` itself would enter is the caller's to check.
pub fn can_move(world: &World, body: usize, direction: Direction) -> (r: bool)
    requires
        world@.ready(),
        world@.is_body(body as int),
    ensures
        r == world@.can_move(body as int, direction),
{
    let mut current = body;
    loop
        invariant
            world@.ready(),
            world@.is_body(current as int),
            world@.can_move(body as int, direction) == world@.can_move(current as int, direction),
        decreases world@.room(current as int, direction),
    {
        proof {
            lemma_neighbor_ahead(world@, current as int, direction);
        }
        match world.body(current).movable.neighbor(direction) {
            None => {
                return true;
            },
            Some(next) => {
                let ahead = world.body(next);
                if obstructs(&ahead) {
                    return false;
                }
                let destination = ahead.position.step(direction);
                if world.level_walls().in_wall(&destination) {
                    return false;
                }
                current = next;
            },
        }
    }
}

/// A body facing a row of `count` occupied cells, with the level blocking
/// the cell right behind the row, cannot move: a row of blocks against a
/// wall is stuck as a whole.
pub proof fn lemma_row_against_wall_is_stuck(
    world: WorldView,
    body: int,
    direction: Direction,
    count: int,
)
    requires
        world.ready(),
        world.is_body(body),
        direction != Direction::Still,
        count >= 1,
        forall|k: int|
            1 <= k <= count ==> world.occupied(#[trigger] world.cell(body).steps(direction, k)),
        world.walls.blocks(world.cell(body).steps(direction, count + 1)),
    ensures
        !world.can_move(body, direction),
    decreases count,
{
    lemma_neighbor_ahead(world, body, direction);
    assert(world.cell(body).steps(direction, 1) == world.cell(body).step(direction));
    assert(world.occupied(world.cell(body).steps(direction, 1)));
    let n = world.neighbor(body, direction)->0 as int;
    if count == 1 {
        assert(world.cell(n).step(direction) == world.cell(body).steps(direction, 2));
    } else {
        assert forall|k: int| 1 <= k <= count - 1 implies world.occupied(
            #[trigger] world.cell(n).steps(direction, k),
        ) by {
            assert(world.cell(n).steps(direction, k) == world.cell(body).steps(direction, k + 1));
        }
        assert(world.cell(n).steps(direction, count) == world.cell(body).steps(
            direction,
            count + 1,
        ));
        lemma_row_against_wall_is_stuck(world, n, direction, count - 1);
    }
}

/// A body facing a row of `count` pushable blocks can move when each
/// block has a cell to move to that the level does not block and no body
/// stands behind the last one. With `count` zero this is a step into a
/// cell that is free of bodies.
///
/// So a row that is stuck against a wall comes free when the wall is taken
/// away, and also when the last block is.
pub proof fn lemma_row_before_free_cell_moves(
    world: WorldView,
    body: int,
    direction: Direction,
    count: int,
)
    requires
        world.ready(),
        world.is_body(body),
        direction != Direction::Still,
        count >= 0,
        forall|k: int|
            1 <= k <= count ==> world.pushable_block_on(
                #[trigger] world.cell(body).steps(direction, k),
            ),
        forall|k: int|
            2 <= k <= count + 1 ==> !world.walls.blocks(
                #[trigger] world.cell(body).steps(direction, k),
            ),
        !world.occupied(world.cell(body).steps(direction, count + 1)),
    ensures
        world.can_move(body, direction),
    decreases count,
{
    lemma_neighbor_ahead(world, body, direction);
    assert(world.cell(body).steps(direction, 1) == world.cell(body).step(direction));
    if count == 0 {
        if let Some(n) = world.neighbor(body, direction) {
            assert(world.bodies[n as int].position@ == world.cell(body).step(direction));
        }
    } else {
        let first = world.cell(body).steps(direction, 1);
        assert(world.pushable_block_on(first));
        let j = choose|j: int|
            world.is_pushable_block(j) && #[trigger] world.bodies[j].position@ == first;
        assert(world.occupied(first));
        let n = world.neighbor(body, direction)->0 as int;
        assert(world.bodies[n].position == world.bodies[j].position);
        assert(n == j);
        assert(world.cell(n).step(direction) == world.cell(body).steps(direction, 2));
        assert forall|k: int| 1 <= k <= count - 1 implies world.pushable_block_on(
            #[trigger] world.cell(n).steps(direction, k),
        ) by {
            assert(world.cell(n).steps(direction, k) == world.cell(body).steps(direction, k + 1));
        }
        assert forall|k: int| 2 <= k <= count implies !world.walls.blocks(
            #[trigger] world.cell(n).steps(direction, k),
        ) by {
            assert(world.cell(n).steps(direction, k) == world.cell(body).steps(direction, k + 1));
        }
        assert(world.cell(n).steps(direction, count) == world.cell(body).steps(
            direction,
            count + 1,
        ));
        lemma_row_before_free_cell_moves(world, n, direction, count - 1);
    }
}

} // verus!
