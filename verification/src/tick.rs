//! One tick of the simulation, from input to the moves to show.

use crate::chain::lemma_neighbor_ahead;
use crate::direction::{along_axis, reversed, Direction};
use crate::facing::{lemma_turned, turn_player_from_input};
use crate::goal::{advanced, check_goal, LevelSelection};
use crate::grab::{grab_from_held_input, ungrab_from_release_input};
use crate::world::BodyKind;
use crate::moves::{
    handle_move_player, handle_move_player_event, lemma_commit_keeps_wf,
    lemma_grab_moves_together, lemma_mover, lemma_party_moves, listed, MoveEvent,
};
use crate::neighbors::update_moveable_neighbors;
use crate::world::{lemma_neighbors_determined, World, WorldView};
use vstd::prelude::*;

verus! {

/// What the player asks for in a tick.
#[derive(Clone, Copy, Debug, PartialEq, Eq)]
pub enum InputEvent {
    /// Move in a direction; `Still` when no movement key is held.
    Move(Direction),
    /// Take hold of the block ahead.
    Grab,
    /// Let go of whatever is held.
    Release,
}

impl WorldView {
    /// This world after a request to move in `direction`: the players have
    /// turned and the moves decided are committed. The neighbour cache is
    /// that from before the moves.
    pub open spec fn moved(self, direction: Direction) -> WorldView {
        self.turned(direction).committed(direction)
    }
}

/// A request that is turned down changes nothing: nobody turns and nobody
/// moves.
pub proof fn lemma_rejected_request(world: WorldView, direction: Direction)
    requires
        world.rejects(direction),
    ensures
        world.turned(direction) == world,
        world.movers(direction) == Seq::<int>::empty(),
        world.planned(direction) == Seq::<MoveEvent>::empty(),
        world.committed(direction) == world,
        world.moved(direction) == world,
{
    if world.player_moving() {
        let i = choose|i: int| world.is_player(i) && #[trigger] world.bodies[i].is_moving;
        assert(world.is_body(i) && world.bodies[i].is_moving);
    }
    if !world.grabs_allow(direction) {
        let i = choose|i: int|
            world.is_body(i) && !(#[trigger] world.bodies[i].kind matches BodyKind::Player(
                player,
            ) ==> (player.grabbing matches Some(grab) ==> along_axis(grab.direction, direction)));
        assert(world.is_grabbing(i));
    }
    assert(!world.turns(direction));
    assert(world.planned(direction) =~= Seq::<MoveEvent>::empty());
    assert(world.committed(direction).bodies =~= world.bodies);
}

/// While a player is still moving, a request to move is turned down
/// whatever the direction and whoever would have moved: nothing changes.
pub proof fn lemma_turn_lock(world: WorldView, direction: Direction)
    requires
        world.player_moving(),
    ensures
        world.rejects(direction),
        world.planned(direction) == Seq::<MoveEvent>::empty(),
        world.moved(direction) == world,
{
    lemma_rejected_request(world, direction);
}

/// While a player holds a block, a request to move across the direction
/// of the grab is turned down: nothing changes.
pub proof fn lemma_cross_axis_request(
    world: WorldView,
    player: int,
    block: int,
    lock: Direction,
    direction: Direction,
)
    requires
        world.holds(player, block, lock),
        direction != lock,
        direction != reversed(lock),
    ensures
        world.rejects(direction),
        world.planned(direction) == Seq::<MoveEvent>::empty(),
        world.moved(direction) == world,
{
    assert(world.bodies[player].kind is Player);
    assert(!world.grabs_allow(direction));
    lemma_rejected_request(world, direction);
}

/// A player that holds a block and may step away from it takes the block
/// along: both move, and the block comes to stand where the player stood.
pub proof fn lemma_pull(world: WorldView, player: int, block: int, lock: Direction)
    requires
        world.ready(),
        world.holds(player, block, lock),
        !world.rejects(reversed(lock)),
        world.accepts(player, reversed(lock)),
    ensures
        world.moves(player, reversed(lock)),
        world.moves(block, reversed(lock)),
        world.committed(reversed(lock)).cell(player) == world.cell(player).step(reversed(lock)),
        world.committed(reversed(lock)).cell(block) == world.cell(player),
        world.committed(reversed(lock)).holds(player, block, lock),
{
    let direction = reversed(lock);
    let party = world.party(player, direction);
    assert(party[0] == player);
    assert(listed(party, player));
    lemma_party_moves(world, direction, player, player);
    lemma_grab_moves_together(world, direction, player, block, lock);
    lemma_mover(world, direction, player);
    lemma_mover(world, direction, block);
    lemma_commit_keeps_wf(world, direction);
    let after = world.committed(direction);
    assert(after.bodies[player].kind == world.bodies[player].kind);
    assert(after.bodies[block].kind == world.bodies[block].kind);
}

/// A player that holds a block may step towards it exactly when the block
/// can be displaced: the level does not block the cell behind the block
/// and the bodies behind it give way. Then both move.
pub proof fn lemma_push_while_holding(world: WorldView, player: int, block: int, lock: Direction)
    requires
        world.ready(),
        world.holds(player, block, lock),
        !world.rejects(lock),
    ensures
        world.accepts(player, lock) <==> !world.walls.blocks(world.cell(block).step(lock))
            && world.can_move(block, lock),
        world.accepts(player, lock) ==> world.moves(player, lock) && world.moves(block, lock),
{
    lemma_neighbor_ahead(world, player, lock);
    assert(world.bodies[player].kind is Player);
    assert(!world.walls.blocks(world.bodies[block].position@));
    match world.neighbor(player, lock) {
        Some(n) => {
            assert(world.bodies[n as int].position == world.bodies[block].position);
            assert(n == block);
        },
        None => {
            assert(world.bodies[block].position@ == world.cell(player).step(lock));
            assert(world.occupied(world.cell(player).step(lock)));
        },
    }
    if world.accepts(player, lock) {
        let party = world.party(player, lock);
        assert(party[0] == player);
        assert(listed(party, player));
        lemma_party_moves(world, lock, player, player);
        lemma_grab_moves_together(world, lock, player, block, lock);
    }
}

/// Runs one tick.
///
/// A request to move turns the players, decides and commits the moves,
/// rebuilds the neighbour cache where anything moved, and selects the next
/// level where a player that moved now stands on a goal. The moves are
/// returned for showing; until they are reported complete no player moves
/// again. A request to grab or to let go changes the grabs and moves
/// nothing.
pub fn tick(world: &mut World, input: InputEvent, level_selection: &mut LevelSelection) -> (events:
    Vec<MoveEvent>)
    requires
        old(world)@.ready(),
        *old(level_selection) matches LevelSelection::Indices(indices) && indices.level
            < usize::MAX,
    ensures
        final(world)@.ready(),
        final(world)@.no_overlap(),
        final(world)@.inside_walls(),
        forall|j: int, k: int|
            0 <= j < k < events@.len() ==> events@[j].entity != events@[k].entity,
        match input {
            InputEvent::Move(direction) => {
                &&& events@ == old(world)@.turned(direction).planned(direction)
                &&& final(world)@.same_but_neighbors(old(world)@.moved(direction))
                &&& old(world)@.rejects(direction) ==> final(world)@ == old(world)@
                &&& *final(level_selection) == advanced(
                    old(level_selection)->Indices_0,
                    final(world)@.reached_goal(events@),
                )
            },
            InputEvent::Grab => {
                &&& events@ == Seq::<MoveEvent>::empty()
                &&& final(world)@.released() == old(world)@.released()
                &&& forall|p: int, b: int, d: Direction| #[trigger]
                    final(world)@.holds(p, b, d) <==> old(world)@.holds(p, b, d) || (old(
                        world,
                    )@.grabs(p, b) && d == old(world)@.facing(p))
                &&& *final(level_selection) == *old(level_selection)
            },
            InputEvent::Release => {
                &&& events@ == Seq::<MoveEvent>::empty()
                &&& final(world)@ == old(world)@.released()
                &&& *final(level_selection) == *old(level_selection)
            },
        },
{
    match input {
        InputEvent::Move(direction) => {
            let ghost before = world@;
            proof {
                lemma_turned(before, direction);
                if before.rejects(direction) {
                    lemma_rejected_request(before, direction);
                }
            }
            turn_player_from_input(world, direction);
            let ghost turned = world@;
            let events = handle_move_player(world, direction);
            handle_move_player_event(world, direction, &events);
            if events.len() > 0 {
                update_moveable_neighbors(world);
            } else {
                proof {
                    assert(turned.movers(direction) =~= Seq::<int>::empty());
                    assert(turned.committed(direction).bodies =~= turned.bodies);
                }
            }
            proof {
                if before.rejects(direction) {
                    lemma_neighbors_determined(world@, before);
                }
            }
            check_goal(world, &events, level_selection);
            events
        },
        InputEvent::Grab => {
            grab_from_held_input(world);
            Vec::new()
        },
        InputEvent::Release => {
            ungrab_from_release_input(world);
            Vec::new()
        },
    }
}

} // verus!
