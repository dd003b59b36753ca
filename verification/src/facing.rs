//! The way the players face, and the picture that shows it.

use crate::direction::Direction;
use crate::world::{lemma_same_layout_wf, lemma_same_places_current, Body, BodyKind, Player, World, WorldView};
use vstd::prelude::*;

verus! {

impl Body {
    /// This body turned to face `direction` if it is a player.
    pub open spec fn facing_toward(self, direction: Direction) -> Body {
        match self.kind {
            BodyKind::Player(player) => Body {
                kind: BodyKind::Player(Player { face_direction: direction, ..player }),
                ..self
            },
            BodyKind::Block(_) => self,
        }
    }
}

impl WorldView {
    /// Whether any body is still settling from a move.
    pub open spec fn any_moving(self) -> bool {
        exists|i: int| self.is_body(i) && #[trigger] self.bodies[i].is_moving
    }

    /// Whether any player holds a block.
    pub open spec fn any_grab(self) -> bool {
        exists|i: int| #[trigger] self.is_grabbing(i)
    }

    /// Whether the players turn when `direction` is requested: there is a
    /// direction, nothing is moving and nothing is held.
    pub open spec fn turns(self, direction: Direction) -> bool {
        direction != Direction::Still && !self.any_moving() && !self.any_grab()
    }

    /// This world after a request for `direction` has turned the players.
    pub open spec fn turned(self, direction: Direction) -> WorldView {
        if self.turns(direction) {
            WorldView {
                bodies: Seq::new(
                    self.bodies.len(),
                    |i: int| self.bodies[i].facing_toward(direction),
                ),
                ..self
            }
        } else {
            self
        }
    }
}

/// The picture of a player: a frame of its sprite sheet and whether the
/// frame is mirrored.
#[derive(Clone, Copy, Debug, PartialEq, Eq)]
pub struct SpriteFrame {
    pub index: usize,
    pub flip_x: bool,
}

/// The frame that shows a player facing `face_direction`, given the frame
/// shown so far. The frames for north and south keep the mirroring as it
/// is.
pub open spec fn frame_for(face_direction: Direction, shown: SpriteFrame) -> SpriteFrame {
    match face_direction {
        Direction::North => SpriteFrame { index: 2, flip_x: shown.flip_x },
        Direction::East => SpriteFrame { index: 1, flip_x: true },
        Direction::South => SpriteFrame { index: 0, flip_x: shown.flip_x },
        Direction::West => SpriteFrame { index: 1, flip_x: false },
        Direction::Still => SpriteFrame { index: 1, flip_x: true },
    }
}

/// Turning the players keeps the world well formed and leaves positions
/// and neighbours alone.
pub proof fn lemma_turned(world: WorldView, direction: Direction)
    requires
        world.wf(),
    ensures
        world.turned(direction).wf(),
        world.turned(direction).same_places(world),
        world.neighbors_current() ==> world.turned(direction).neighbors_current(),
{
    let after = world.turned(direction);
    if world.turns(direction) {
        assert forall|i: int| after.is_body(i) implies (#[trigger] after.bodies[i].kind matches BodyKind::Player(
            player,
        ) ==> player.face_direction != Direction::Still) by {}
        assert forall|i: int| after.is_body(i) implies {
            &&& (#[trigger] after.bodies[i]).position == world.bodies[i].position
            &&& after.bodies[i].kind is Player <==> world.bodies[i].kind is Player
            &&& after.bodies[i].kind.grabbing() == world.bodies[i].kind.grabbing()
            &&& after.bodies[i].kind.grabbed() == world.bodies[i].kind.grabbed()
        } by {}
        lemma_same_layout_wf(world, after);
    }
    if world.neighbors_current() {
        lemma_same_places_current(world, after);
    }
}

/// Tells whether any body is still settling from a move.
pub fn any_moving(world: &World) -> (r: bool)
    ensures
        r == world@.any_moving(),
{
    let n = world.len();
    let mut i: usize = 0;
    while i < n
        invariant
            i <= n,
            n == world@.bodies.len(),
            forall|j: int| 0 <= j < i ==> !#[trigger] world@.bodies[j].is_moving,
        decreases n - i,
    {
        if world.body(i).is_moving {
            return true;
        }
        i = i + 1;
    }
    false
}

/// Tells whether any player holds a block.
pub fn any_grab(world: &World) -> (r: bool)
    ensures
        r == world@.any_grab(),
{
    let n = world.len();
    let mut i: usize = 0;
    while i < n
        invariant
            i <= n,
            n == world@.bodies.len(),
            forall|j: int| 0 <= j < i ==> !#[trigger] world@.is_grabbing(j),
        decreases n - i,
    {
        match world.body(i).kind {
            BodyKind::Player(player) => {
                if player.grabbing.is_some() {
                    assert(world@.is_grabbing(i as int));
                    return true;
                }
            },
            BodyKind::Block(_) => {},
        }
        i = i + 1;
    }
    false
}

/// Turns every player to face the requested direction.
///
/// Nobody turns while any body is moving, nor while any block is held, so
/// that a grab keeps the direction it was made in. Without a direction the
/// players keep facing as they do.
pub fn turn_player_from_input(world: &mut World, direction: Direction)
    requires
        old(world)@.wf(),
    ensures
        final(world)@ == old(world)@.turned(direction),
        final(world)@.wf(),
        old(world)@.neighbors_current() ==> final(world)@.neighbors_current(),
{
    let ghost before = world@;
    proof {
        lemma_turned(before, direction);
    }
    if direction == Direction::Still || any_moving(world) || any_grab(world) {
        return ;
    }
    let n = world.len();
    let mut i: usize = 0;
    while i < n
        invariant
            i <= n,
            n == before.bodies.len(),
            world@.walls == before.walls,
            world@.goals == before.goals,
            world@.bodies.len() == n,
            forall|j: int|
                0 <= j < i ==> #[trigger] world@.bodies[j] == before.bodies[j].facing_toward(
                    direction,
                ),
            forall|j: int| i <= j < n ==> #[trigger] world@.bodies[j] == before.bodies[j],
        decreases n - i,
    {
        let body = world.body(i);
        match body.kind {
            BodyKind::Player(player) => {
                world.put(
                    i,
                    Body {
                        kind: BodyKind::Player(Player { face_direction: direction, ..player }),
                        ..body
                    },
                );
            },
            BodyKind::Block(_) => {},
        }
        i = i + 1;
    }
    proof {
        assert(world@.bodies =~= before.turned(direction).bodies);
    }
}

/// Chooses the frame that shows a player facing `face_direction` and
/// stores it in `sprite`.
pub fn update_player_facing_direction(face_direction: Direction, sprite: &mut SpriteFrame)
    ensures
        *final(sprite) == frame_for(face_direction, *old(sprite)),
{
    match face_direction {
        Direction::North => {
            sprite.index = 2;
        },
        Direction::East => {
            sprite.index = 1;
            sprite.flip_x = true;
        },
        Direction::South => {
            sprite.index = 0;
        },
        Direction::West => {
            sprite.index = 1;
            sprite.flip_x = false;
        },
        Direction::Still => {
            sprite.index = 1;
            sprite.flip_x = true;
        },
    }
}

} // verus!
