//! Rebuilding the neighbour cache from the positions.

use crate::coords::get_neighbor_direction;
use crate::direction::Direction;
use crate::world::{lemma_same_layout_wf, Body, BodyKind, Movable, World, WorldView};
use vstd::prelude::*;

verus! {

impl WorldView {
    /// This world differs from `before` in the neighbour cache at most.
    pub open spec fn same_but_neighbors(self, before: WorldView) -> bool {
        &&& self.walls == before.walls
        &&& self.goals == before.goals
        &&& self.bodies.len() == before.bodies.len()
        &&& forall|i: int|
            0 <= i < self.bodies.len() ==> #[trigger] self.bodies[i] == (Body {
                movable: self.bodies[i].movable,
                ..before.bodies[i]
            })
    }

    /// `entry` is right about `direction` for body `i` as far as the first
    /// `upto` bodies go.
    pub open spec fn entry_current(
        self,
        i: int,
        entry: Movable,
        direction: Direction,
        upto: int,
    ) -> bool {
        match entry.toward(direction) {
            Some(n) => 0 <= n < upto && self.cell(n as int) == self.cell(i).step(direction),
            None => forall|k: int|
                0 <= k < upto ==> (#[trigger] self.bodies[k]).position@ != self.cell(i).step(
                    direction,
                ),
        }
    }
}

/// Well-formedness does not depend on the neighbour cache.
pub proof fn lemma_wf_ignores_neighbors(before: WorldView, after: WorldView)
    requires
        before.wf(),
        after.same_but_neighbors(before),
    ensures
        after.wf(),
{
    assert forall|i: int| after.is_body(i) implies {
        &&& (#[trigger] after.bodies[i]).position == before.bodies[i].position
        &&& after.bodies[i].kind == before.bodies[i].kind
    } by {}
    assert forall|i: int| after.is_body(i) implies (#[trigger] after.bodies[i].kind matches BodyKind::Player(
        player,
    ) ==> player.face_direction != Direction::Still) by {
        assert(before.bodies[i].kind matches BodyKind::Player(player)
            ==> player.face_direction != Direction::Still);
    }
    lemma_same_layout_wf(before, after);
}

/// Recomputes the neighbours of every body from the positions: for each
/// body and each direction, the body standing on the adjacent cell.
///
/// Every body is compared with every other, so the cost grows with the
/// square of the number of bodies.
pub fn update_moveable_neighbors(world: &mut World)
    requires
        old(world)@.wf(),
    ensures
        final(world)@.wf(),
        final(world)@.neighbors_current(),
        final(world)@.same_but_neighbors(old(world)@),
{
    let n = world.len();
    let mut i: usize = 0;
    while i < n
        invariant
            i <= n,
            n == world@.bodies.len(),
            world@.same_but_neighbors(old(world)@),
            forall|k: int, direction: Direction|
                0 <= k < i ==> #[trigger] world@.neighbor_current(k, direction),
        decreases n - i,
    {
        let me = world.body(i);
        let mut entry = Movable::alone();
        let mut j: usize = 0;
        while j < n
            invariant
                j <= n,
                i < n,
                n == world@.bodies.len(),
                me == world@.bodies[i as int],
                world@.entry_current(i as int, entry, Direction::North, j as int),
                world@.entry_current(i as int, entry, Direction::East, j as int),
                world@.entry_current(i as int, entry, Direction::South, j as int),
                world@.entry_current(i as int, entry, Direction::West, j as int),
            decreases n - j,
        {
            let other = world.body(j);
            match get_neighbor_direction(&me.position, &other.position) {
                Direction::North => {
                    entry.north_neighbor = Some(j);
                },
                Direction::East => {
                    entry.east_neighbor = Some(j);
                },
                Direction::South => {
                    entry.south_neighbor = Some(j);
                },
                Direction::West => {
                    entry.west_neighbor = Some(j);
                },
                Direction::Still => {},
            }
            j = j + 1;
        }
        let ghost before = world@;
        world.put(i, Body { movable: entry, ..me });
        proof {
            let after = world@;
            assert forall|k: int, direction: Direction| 0 <= k < i + 1 implies #[trigger] after.neighbor_current(
                k,
                direction,
            ) by {
                assert forall|m: int| after.is_body(m) implies (#[trigger] after.bodies[m]).position
                    == before.bodies[m].position by {}
                if k < i {
                    assert(before.neighbor_current(k, direction));
                    assert(after.bodies[k] == before.bodies[k]);
                } else {
                    assert(direction != Direction::Still ==> before.entry_current(
                        i as int,
                        entry,
                        direction,
                        n as int,
                    ));
                }
            }
        }
        i = i + 1;
    }
    proof {
        lemma_wf_ignores_neighbors(old(world)@, world@);
    }
}

} // verus!
