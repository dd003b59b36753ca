//! Deciding which bodies move in a tick, and committing the moves.

use crate::chain::{can_move, lemma_neighbor_ahead};
use crate::coords::GridCoord;
use crate::direction::{
    along_axis, get_reversed_direction, is_along_axis, reversed, Direction,
};
use crate::world::{Body, BodyKind, World, WorldView};
use vstd::prelude::*;

verus! {

/// One committed move: a body and the position it moves to.
#[derive(Clone, Copy, Debug, PartialEq, Eq)]
pub struct MoveEvent {
    pub entity: usize,
    pub destination: GridCoord,
}

/// Whether body `i` occurs in `bodies`.
pub open spec fn listed(bodies: Seq<int>, i: int) -> bool {
    exists|k: int| 0 <= k < bodies.len() && #[trigger] bodies[k] == i
}

/// Whether no body occurs twice in `bodies`.
pub open spec fn distinct(bodies: Seq<int>) -> bool {
    forall|j: int, k: int| 0 <= j < k < bodies.len() ==> bodies[j] != bodies[k]
}

/// `bodies` followed by those of `more` that it does not hold yet, in
/// their order and each once.
pub open spec fn joined(bodies: Seq<int>, more: Seq<int>) -> Seq<int>
    decreases more.len(),
{
    if more.len() == 0 {
        bodies
    } else {
        let before = joined(bodies, more.drop_last());
        if listed(before, more.last()) {
            before
        } else {
            before.push(more.last())
        }
    }
}

/// The bodies that `events` move, in order.
pub open spec fn entities(events: Seq<MoveEvent>) -> Seq<int> {
    Seq::new(events.len(), |k: int| events[k].entity as int)
}

impl WorldView {
    /// Whether a player is still settling from an earlier move. While one
    /// is, no player starts a move.
    pub open spec fn player_moving(self) -> bool {
        exists|i: int| self.is_player(i) && #[trigger] self.bodies[i].is_moving
    }

    /// Whether `direction` runs along the axis of every grab in force.
    pub open spec fn grabs_allow(self, direction: Direction) -> bool {
        forall|i: int|
            self.is_body(i) ==> (#[trigger] self.bodies[i].kind matches BodyKind::Player(player)
                ==> (player.grabbing matches Some(grab) ==> along_axis(grab.direction, direction)))
    }

    /// Whether a request to move in `direction` is turned down for every
    /// player at once: there is no direction, a player is still moving, or
    /// the direction is across the axis of a grab.
    pub open spec fn rejects(self, direction: Direction) -> bool {
        direction == Direction::Still || self.player_moving() || !self.grabs_allow(direction)
    }

    /// Whether player `i` may advance in `direction`: the level does not
    /// block the cell ahead and the bodies ahead give way.
    pub open spec fn accepts(self, i: int, direction: Direction) -> bool {
        &&& self.is_player(i)
        &&& !self.walls.blocks(self.cell(i).step(direction))
        &&& self.can_move(i, direction)
    }

    /// The block that body `i` drags behind it when it moves in
    /// `direction`: the block a player holds, when the player moves away
    /// from it.
    pub open spec fn pulled(self, i: int, direction: Direction) -> Seq<int> {
        match self.bodies[i].kind {
            BodyKind::Player(player) => match player.grabbing {
                Some(grab) => if direction == reversed(grab.direction) {
                    seq![grab.block as int]
                } else {
                    Seq::empty()
                },
                None => Seq::empty(),
            },
            BodyKind::Block(_) => Seq::empty(),
        }
    }

    /// The bodies that move because player `i` does: the player, the row
    /// ahead of it nearest first, then the block it pulls. Empty where the
    /// player may not advance.
    pub open spec fn party(self, i: int, direction: Direction) -> Seq<int> {
        if self.accepts(i, direction) {
            seq![i] + self.chain(i, direction) + self.pulled(i, direction)
        } else {
            Seq::empty()
        }
    }

    /// The parties of the players among the first `upto` bodies, in order.
    /// A body that belongs to the parties of several players is listed
    /// once, with the first of them.
    pub open spec fn parties(self, direction: Direction, upto: int) -> Seq<int>
        decreases upto,
    {
        if upto <= 0 {
            Seq::empty()
        } else {
            joined(self.parties(direction, upto - 1), self.party(upto - 1, direction))
        }
    }

    /// The bodies that move in a tick in which `direction` is requested, in
    /// the order in which they are recorded. No body is recorded twice.
    pub open spec fn movers(self, direction: Direction) -> Seq<int> {
        if self.rejects(direction) {
            Seq::empty()
        } else {
            self.parties(direction, self.bodies.len() as int)
        }
    }

    /// Whether body `i` moves in a tick in which `direction` is requested.
    pub open spec fn moves(self, i: int, direction: Direction) -> bool {
        listed(self.movers(direction), i)
    }

    /// The move of body `i` by one step in `direction`.
    pub open spec fn event(self, i: int, direction: Direction) -> MoveEvent {
        MoveEvent { entity: i as usize, destination: self.cell(i).step(direction).coord() }
    }

    /// The moves of `bodies` by one step in `direction`.
    pub open spec fn events(self, bodies: Seq<int>, direction: Direction) -> Seq<MoveEvent> {
        Seq::new(bodies.len(), |k: int| self.event(bodies[k], direction))
    }

    /// The moves decided for a tick in which `direction` is requested.
    pub open spec fn planned(self, direction: Direction) -> Seq<MoveEvent> {
        self.events(self.movers(direction), direction)
    }

    /// Body `i` after the moves in `direction` of the bodies in `moved`.
    pub open spec fn body_after(self, i: int, direction: Direction, moved: Seq<int>) -> Body {
        if listed(moved, i) {
            Body {
                position: self.cell(i).step(direction).coord(),
                is_moving: true,
                ..self.bodies[i]
            }
        } else {
            self.bodies[i]
        }
    }

    /// This world after the bodies in `moved` have moved one step in
    /// `direction`: each has its new position and is marked as moving.
    pub open spec fn after_moves(self, direction: Direction, moved: Seq<int>) -> WorldView {
        WorldView {
            bodies: Seq::new(
                self.bodies.len(),
                |i: int| self.body_after(i, direction, moved),
            ),
            ..self
        }
    }

    /// `events` and `recorded` are a record of moves in `direction` in the
    /// making: every event is the move of its body, and the marks tell
    /// which bodies have an event.
    pub open spec fn recording(
        self,
        direction: Direction,
        events: Seq<MoveEvent>,
        recorded: Seq<bool>,
    ) -> bool {
        &&& recorded.len() == self.bodies.len()
        &&& events == self.events(entities(events), direction)
        &&& distinct(entities(events))
        &&& forall|i: int|
            0 <= i < self.bodies.len() ==> (#[trigger] recorded[i] <==> listed(entities(events), i))
    }

    /// This world with every body at rest.
    pub open spec fn settled(self) -> WorldView {
        WorldView {
            bodies: Seq::new(
                self.bodies.len(),
                |i: int| Body { is_moving: false, ..self.bodies[i] },
            ),
            ..self
        }
    }

    /// This world after the moves decided for `direction` are committed.
    pub open spec fn committed(self, direction: Direction) -> WorldView {
        self.after_moves(direction, self.movers(direction))
    }
}

/// A body occurs in a concatenation exactly when it occurs in a part.
pub proof fn lemma_listed_concat(s: Seq<int>, t: Seq<int>, i: int)
    ensures
        listed(s + t, i) <==> listed(s, i) || listed(t, i),
{
    if listed(s, i) {
        let k = choose|k: int| 0 <= k < s.len() && #[trigger] s[k] == i;
        assert((s + t)[k] == i);
    }
    if listed(t, i) {
        let k = choose|k: int| 0 <= k < t.len() && #[trigger] t[k] == i;
        assert((s + t)[s.len() + k] == i);
    }
    if listed(s + t, i) {
        let k = choose|k: int| 0 <= k < (s + t).len() && #[trigger] (s + t)[k] == i;
        if k < s.len() {
            assert(s[k] == i);
        } else {
            assert(t[k - s.len()] == i);
        }
    }
}

/// A body occurs in a joined list exactly when it occurs in a part, and
/// joining adds no body twice.
pub proof fn lemma_joined(bodies: Seq<int>, more: Seq<int>, i: int)
    ensures
        listed(joined(bodies, more), i) <==> listed(bodies, i) || listed(more, i),
        distinct(bodies) ==> distinct(joined(bodies, more)),
    decreases more.len(),
{
    if more.len() > 0 {
        let front = more.drop_last();
        let last = more.last();
        let before = joined(bodies, front);
        lemma_joined(bodies, front, i);
        lemma_joined(bodies, front, last);
        assert(more =~= front + seq![last]);
        lemma_listed_concat(front, seq![last], i);
        lemma_listed_concat(before, seq![last], i);
        assert(before.push(last) =~= before + seq![last]);
        assert(listed(seq![last], i) <==> i == last) by {
            if i == last {
                assert(seq![last][0] == i);
            }
        }
        if distinct(bodies) && !listed(before, last) {
            let after = before.push(last);
            assert forall|j: int, k: int| 0 <= j < k < after.len() implies after[j] != after[k] by {
                if k == before.len() {
                    assert(before[j] == after[j]);
                }
            }
        }
    }
}

/// Joining two lists one after the other is joining their concatenation.
pub proof fn lemma_joined_concat(bodies: Seq<int>, s: Seq<int>, t: Seq<int>)
    ensures
        joined(bodies, s + t) == joined(joined(bodies, s), t),
    decreases t.len(),
{
    if t.len() == 0 {
        assert(s + t =~= s);
    } else {
        lemma_joined_concat(bodies, s, t.drop_last());
        assert((s + t).drop_last() =~= s + t.drop_last());
        assert((s + t).last() == t.last());
    }
}

/// Joining a single body adds it at the end unless it is there already.
pub proof fn lemma_joined_one(bodies: Seq<int>, i: int)
    ensures
        joined(bodies, seq![i]) == if listed(bodies, i) {
            bodies
        } else {
            bodies.push(i)
        },
{
    assert(seq![i].drop_last() =~= Seq::<int>::empty());
    assert(joined(bodies, seq![i].drop_last()) == bodies);
}

/// No body is recorded twice in the moves of a tick.
pub proof fn lemma_movers_distinct(world: WorldView, direction: Direction)
    ensures
        distinct(world.movers(direction)),
{
    if !world.rejects(direction) {
        lemma_parties_distinct(world, direction, world.bodies.len() as int);
    }
}

/// No body is listed twice in the parties of the first `upto` bodies.
pub proof fn lemma_parties_distinct(world: WorldView, direction: Direction, upto: int)
    ensures
        distinct(world.parties(direction, upto)),
    decreases upto,
{
    if upto > 0 {
        lemma_parties_distinct(world, direction, upto - 1);
        lemma_joined(world.parties(direction, upto - 1), world.party(upto - 1, direction), 0);
    }
}

/// The `k`-th body of the row ahead of a body that can move stands `k + 1`
/// steps ahead, has a cell to move to and can move itself, and the row
/// ahead of it is the rest of the row.
pub proof fn lemma_chain_member(world: WorldView, i: int, direction: Direction, k: int)
    requires
        world.ready(),
        world.is_body(i),
        world.can_move(i, direction),
        0 <= k < world.chain(i, direction).len(),
    ensures
        ({
            let c = world.chain(i, direction)[k];
            &&& world.is_body(c)
            &&& !world.obstructs(c)
            &&& world.cell(c) == world.cell(i).steps(direction, k + 1)
            &&& !world.walls.blocks(world.cell(c).step(direction))
            &&& world.can_move(c, direction)
            &&& world.chain(c, direction) == world.chain(i, direction).skip(k + 1)
        }),
    decreases k,
{
    lemma_neighbor_ahead(world, i, direction);
    let n = world.neighbor(i, direction)->0 as int;
    assert(world.chain(i, direction) == seq![n] + world.chain(n, direction));
    assert(world.cell(i).steps(direction, 1) == world.cell(i).step(direction));
    if k == 0 {
        assert(world.chain(n, direction) =~= world.chain(i, direction).skip(1));
    } else {
        lemma_chain_member(world, n, direction, k - 1);
        let c = world.chain(n, direction)[k - 1];
        assert(world.chain(i, direction)[k] == c);
        assert(world.cell(n).steps(direction, k) == world.cell(i).steps(direction, k + 1));
        assert(world.chain(n, direction).skip(k) =~= world.chain(i, direction).skip(k + 1));
    }
}

/// A body is in the parties of the first `upto` bodies exactly when it is
/// in the party of one of them.
pub proof fn lemma_parties(world: WorldView, direction: Direction, upto: int, i: int)
    requires
        upto >= 0,
    ensures
        listed(world.parties(direction, upto), i) <==> exists|a: int|
            0 <= a < upto && listed(#[trigger] world.party(a, direction), i),
    decreases upto,
{
    if upto > 0 {
        lemma_parties(world, direction, upto - 1, i);
        lemma_joined(world.parties(direction, upto - 1), world.party(upto - 1, direction), i);
        if listed(world.parties(direction, upto), i) {
            if listed(world.party(upto - 1, direction), i) {
            } else {
                let a = choose|a: int|
                    0 <= a < upto - 1 && listed(#[trigger] world.party(a, direction), i);
                assert(0 <= a < upto && listed(world.party(a, direction), i));
            }
        }
    }
}

/// What holds of every member of a party: it is a body, the level lets it
/// into the cell ahead, and a body standing on that cell is in the party
/// too.
pub proof fn lemma_party_member(world: WorldView, a: int, direction: Direction, i: int)
    requires
        world.ready(),
        direction != Direction::Still,
        listed(world.party(a, direction), i),
    ensures
        world.accepts(a, direction),
        world.is_body(i),
        !world.walls.blocks(world.cell(i).step(direction)),
        world.neighbor(i, direction) matches Some(n) ==> listed(
            world.party(a, direction),
            n as int,
        ),
        world.is_player(i) ==> world.accepts(i, direction),
{
    let head = seq![a];
    let row = world.chain(a, direction);
    let tail = world.pulled(a, direction);
    let party = world.party(a, direction);
    assert(world.accepts(a, direction));
    assert(party == head + row + tail);
    lemma_listed_concat(head + row, tail, i);
    lemma_listed_concat(head, row, i);
    lemma_neighbor_ahead(world, a, direction);
    if listed(head, i) {
        assert(i == a);
        if let Some(n) = world.neighbor(i, direction) {
            assert(row == seq![n as int] + world.chain(n as int, direction));
            assert(row[0] == n);
            assert(listed(row, n as int));
            lemma_listed_concat(head + row, tail, n as int);
            lemma_listed_concat(head, row, n as int);
        }
    } else if listed(row, i) {
        let k = choose|k: int| 0 <= k < row.len() && #[trigger] row[k] == i;
        lemma_chain_member(world, a, direction, k);
        lemma_neighbor_ahead(world, i, direction);
        if let Some(n) = world.neighbor(i, direction) {
            assert(world.chain(i, direction) == seq![n as int] + world.chain(n as int, direction));
            assert(world.chain(i, direction) == row.skip(k + 1));
            assert(row.skip(k + 1)[0] == n);
            assert(row[k + 1] == n);
            assert(listed(row, n as int));
            lemma_listed_concat(head + row, tail, n as int);
            lemma_listed_concat(head, row, n as int);
        }
    } else {
        assert(listed(tail, i));
        let k = choose|k: int| 0 <= k < tail.len() && #[trigger] tail[k] == i;
        assert(world.bodies[a].kind is Player);
        let grab = world.bodies[a].kind->Player_0.grabbing->0;
        assert(tail == seq![grab.block as int]);
        assert(i == grab.block);
        assert(world.holds(a, i, grab.direction));
        assert(world.cell(i).step(direction) == world.cell(a));
        assert(!world.walls.blocks(world.bodies[a].position@));
        lemma_neighbor_ahead(world, i, direction);
        if let Some(n) = world.neighbor(i, direction) {
            assert(world.bodies[n as int].position == world.bodies[a].position);
            assert(n == a);
            assert(head[0] == a);
            assert(listed(head, n as int));
            lemma_listed_concat(head + row, tail, n as int);
            lemma_listed_concat(head, row, n as int);
        } else {
            assert(world.bodies[a].position@ == world.cell(i).step(direction));
            assert(world.occupied(world.cell(i).step(direction)));
        }
    }
}

/// What holds of every body that moves in a tick: the level lets it into
/// the cell ahead, and a body standing on that cell moves too.
pub proof fn lemma_mover(world: WorldView, direction: Direction, i: int)
    requires
        world.ready(),
        world.moves(i, direction),
    ensures
        !world.rejects(direction),
        world.is_body(i),
        !world.walls.blocks(world.cell(i).step(direction)),
        world.cell(i).step(direction).representable(),
        world.neighbor(i, direction) matches Some(n) ==> world.moves(n as int, direction),
        world.is_player(i) ==> world.accepts(i, direction),
{
    let len = world.bodies.len() as int;
    assert(!world.rejects(direction)) by {
        if world.rejects(direction) {
            assert(world.movers(direction).len() == 0);
        }
    }
    lemma_parties(world, direction, len, i);
    let a = choose|a: int| 0 <= a < len && listed(#[trigger] world.party(a, direction), i);
    lemma_party_member(world, a, direction, i);
    if let Some(n) = world.neighbor(i, direction) {
        lemma_parties(world, direction, len, n as int);
    }
}

/// A player that may advance moves, and so does everything in its party.
pub proof fn lemma_party_moves(world: WorldView, direction: Direction, a: int, i: int)
    requires
        world.ready(),
        !world.rejects(direction),
        listed(world.party(a, direction), i),
    ensures
        world.moves(i, direction),
{
    assert(world.accepts(a, direction));
    lemma_parties(world, direction, world.bodies.len() as int, i);
}

/// A player and the block it holds move together or not at all.
pub proof fn lemma_grab_moves_together(
    world: WorldView,
    direction: Direction,
    player: int,
    block: int,
    lock: Direction,
)
    requires
        world.ready(),
        world.holds(player, block, lock),
    ensures
        world.moves(player, direction) <==> world.moves(block, direction),
{
    let len = world.bodies.len() as int;
    if world.moves(player, direction) {
        lemma_mover(world, direction, player);
        assert(world.accepts(player, direction));
        assert(along_axis(lock, direction)) by {
            assert(world.bodies[player].kind is Player);
        }
        let head = seq![player];
        let row = world.chain(player, direction);
        let tail = world.pulled(player, direction);
        lemma_listed_concat(head + row, tail, block);
        lemma_listed_concat(head, row, block);
        if direction == lock {
            lemma_neighbor_ahead(world, player, direction);
            if let Some(n) = world.neighbor(player, direction) {
                assert(world.bodies[n as int].position == world.bodies[block].position);
                assert(n == block);
                assert(row == seq![n as int] + world.chain(n as int, direction));
                assert(row[0] == block);
            } else {
                assert(world.bodies[block].position@ == world.cell(player).step(direction));
                assert(world.occupied(world.cell(player).step(direction)));
            }
        } else {
            assert(tail == seq![block]);
            assert(tail[0] == block);
        }
        lemma_party_moves(world, direction, player, block);
    }
    if world.moves(block, direction) {
        lemma_mover(world, direction, block);
        assert(along_axis(lock, direction)) by {
            assert(world.bodies[player].kind is Player);
        }
        if direction == lock {
            lemma_parties(world, direction, len, block);
            let a = choose|a: int|
                0 <= a < len && listed(#[trigger] world.party(a, direction), block);
            let head = seq![a];
            let row = world.chain(a, direction);
            let tail = world.pulled(a, direction);
            assert(world.accepts(a, direction));
            lemma_listed_concat(head + row, tail, block);
            lemma_listed_concat(head, row, block);
            lemma_listed_concat(head + row, tail, player);
            lemma_listed_concat(head, row, player);
            if listed(head, block) {
                assert(world.bodies[a].kind is Player);
                assert(false);
            } else if listed(row, block) {
                let k = choose|k: int| 0 <= k < row.len() && #[trigger] row[k] == block;
                lemma_chain_member(world, a, direction, k);
                assert(world.cell(player) == world.cell(a).steps(direction, k));
                if k == 0 {
                    assert(world.bodies[player].position == world.bodies[a].position);
                    assert(player == a);
                    assert(head[0] == player);
                } else {
                    lemma_chain_member(world, a, direction, k - 1);
                    let q = row[k - 1];
                    assert(world.bodies[player].position == world.bodies[q].position);
                    assert(player == q);
                }
            } else {
                let grab = world.bodies[a].kind->Player_0.grabbing->0;
                assert(tail == seq![grab.block as int]);
                assert(tail[0] == grab.block);
                assert(world.holds(a, block, grab.direction));
                assert(a == player);
                assert(head[0] == player);
            }
            lemma_party_moves(world, direction, a, player);
        } else {
            lemma_neighbor_ahead(world, block, direction);
            assert(world.cell(block).step(direction) == world.cell(player));
            if let Some(n) = world.neighbor(block, direction) {
                assert(world.bodies[n as int].position == world.bodies[player].position);
                assert(n == player);
            } else {
                assert(world.bodies[player].position@ == world.cell(block).step(direction));
                assert(world.occupied(world.cell(block).step(direction)));
            }
        }
    }
}

/// Committing the moves decided for a tick keeps the world well formed: in
/// particular no two bodies come to stand on one cell, and none comes to
/// stand in a wall or out of bounds.
pub proof fn lemma_commit_keeps_wf(world: WorldView, direction: Direction)
    requires
        world.ready(),
    ensures
        world.committed(direction).wf(),
        world.committed(direction).no_overlap(),
        world.committed(direction).inside_walls(),
{
    let after = world.committed(direction);
    assert forall|i: int| after.is_body(i) implies {
        &&& after.bodies[i].kind == world.bodies[i].kind
        &&& after.cell(i) == if world.moves(i, direction) {
            world.cell(i).step(direction)
        } else {
            world.cell(i)
        }
        &&& !after.walls.blocks(#[trigger] after.bodies[i].position@)
    } by {
        assert(!world.walls.blocks(world.bodies[i].position@));
        if world.moves(i, direction) {
            lemma_mover(world, direction, i);
        }
    }
    assert forall|i: int, j: int|
        after.is_body(i) && after.is_body(j) && i != j implies #[trigger] after.bodies[i].position
        != #[trigger] after.bodies[j].position by {
        assert(world.bodies[i].position != world.bodies[j].position);
        assert(after.cell(i) == after.bodies[i].position@);
        assert(after.cell(j) == after.bodies[j].position@);
        if world.moves(i, direction) {
            lemma_mover(world, direction, i);
            lemma_neighbor_ahead(world, i, direction);
        }
        if world.moves(j, direction) {
            lemma_mover(world, direction, j);
            lemma_neighbor_ahead(world, j, direction);
        }
        if world.moves(i, direction) && !world.moves(j, direction) {
            if world.cell(i).step(direction) == world.cell(j) {
                assert(world.bodies[j].position@ == world.cell(i).step(direction));
                assert(world.occupied(world.cell(i).step(direction)));
                let n = world.neighbor(i, direction)->0 as int;
                assert(world.bodies[n].position == world.bodies[j].position);
            }
        }
        if world.moves(j, direction) && !world.moves(i, direction) {
            if world.cell(j).step(direction) == world.cell(i) {
                assert(world.bodies[i].position@ == world.cell(j).step(direction));
                assert(world.occupied(world.cell(j).step(direction)));
                let n = world.neighbor(j, direction)->0 as int;
                assert(world.bodies[n].position == world.bodies[i].position);
            }
        }
    }
    assert forall|i: int| after.is_body(i) implies (#[trigger] after.bodies[i].kind matches BodyKind::Player(
        player,
    ) ==> player.face_direction != Direction::Still) by {
        assert(after.bodies[i].kind == world.bodies[i].kind);
    }
    assert forall|i: int| after.is_body(i) implies match #[trigger] after.bodies[i].kind {
        BodyKind::Player(player) => match player.grabbing {
            Some(grab) => after.holds(i, grab.block as int, grab.direction),
            None => true,
        },
        BodyKind::Block(block) => match block.grabbed {
            Some(grab) => after.holds(grab.player as int, i, grab.direction),
            None => true,
        },
    } by {
        assert(after.bodies[i].kind == world.bodies[i].kind);
        match world.bodies[i].kind {
            BodyKind::Player(player) => match player.grabbing {
                Some(grab) => {
                    let b = grab.block as int;
                    assert(world.holds(i, b, grab.direction));
                    assert(after.bodies[b].kind == world.bodies[b].kind);
                    lemma_grab_moves_together(world, direction, i, b, grab.direction);
                },
                None => {},
            },
            BodyKind::Block(block) => match block.grabbed {
                Some(grab) => {
                    let p = grab.player as int;
                    assert(world.holds(p, i, grab.direction));
                    assert(after.bodies[p].kind == world.bodies[p].kind);
                    lemma_grab_moves_together(world, direction, p, i, grab.direction);
                },
                None => {},
            },
        }
    }
}

/// Tells whether a player is still settling from an earlier move.
pub fn any_player_moving(world: &World) -> (r: bool)
    ensures
        r == world@.player_moving(),
{
    let n = world.len();
    let mut i: usize = 0;
    while i < n
        invariant
            i <= n,
            n == world@.bodies.len(),
            forall|j: int| 0 <= j < i ==> !(world@.is_player(j) && #[trigger] world@.bodies[j].is_moving),
        decreases n - i,
    {
        let body = world.body(i);
        match body.kind {
            BodyKind::Player(_) => {
                if body.is_moving {
                    assert(world@.is_player(i as int) && world@.bodies[i as int].is_moving);
                    return true;
                }
            },
            BodyKind::Block(_) => {},
        }
        i = i + 1;
    }
    false
}

/// Tells whether `direction` runs along the axis of every grab in force.
pub fn grabs_allow(world: &World, direction: Direction) -> (r: bool)
    ensures
        r == world@.grabs_allow(direction),
{
    let n = world.len();
    let mut i: usize = 0;
    while i < n
        invariant
            i <= n,
            n == world@.bodies.len(),
            forall|j: int|
                0 <= j < i ==> (#[trigger] world@.bodies[j].kind matches BodyKind::Player(player)
                    ==> (player.grabbing matches Some(grab) ==> along_axis(
                    grab.direction,
                    direction,
                ))),
        decreases n - i,
    {
        match world.body(i).kind {
            BodyKind::Player(player) => match player.grabbing {
                Some(grab) => {
                    if !is_along_axis(grab.direction, direction) {
                        assert(world@.bodies[i as int].kind is Player);
                        return false;
                    }
                },
                None => {},
            },
            BodyKind::Block(_) => {},
        }
        i = i + 1;
    }
    true
}

/// Records the move of `entity` by one step in `direction`, unless it is
/// recorded already.
fn record(
    world: &World,
    entity: usize,
    direction: Direction,
    events: &mut Vec<MoveEvent>,
    recorded: &mut Vec<bool>,
)
    requires
        world@.ready(),
        world@.is_body(entity as int),
        world@.cell(entity as int).step(direction).representable(),
        world@.recording(direction, old(events)@, old(recorded)@),
    ensures
        world@.recording(direction, final(events)@, final(recorded)@),
        entities(final(events)@) == joined(entities(old(events)@), seq![entity as int]),
{
    let ghost before = entities(events@);
    proof {
        lemma_joined_one(before, entity as int);
        lemma_joined(before, seq![entity as int], 0);
    }
    if !recorded[entity] {
        let destination = world.body(entity).position.step(direction);
        events.push(MoveEvent { entity, destination });
        recorded.set(entity, true);
        proof {
            let after = entities(events@);
            assert(after =~= before.push(entity as int));
            assert(events@ =~= world@.events(after, direction));
            assert forall|i: int| 0 <= i < world@.bodies.len() implies (#[trigger] recorded@[i]
                <==> listed(after, i)) by {
                lemma_listed_concat(before, seq![entity as int], i);
                assert(before.push(entity as int) =~= before + seq![entity as int]);
                if i == entity {
                    assert(seq![entity as int][0] == i);
                }
            }
        }
    }
}

/// Records the move of every body in the row ahead of `body`.
fn record_chain(
    world: &World,
    body: usize,
    direction: Direction,
    events: &mut Vec<MoveEvent>,
    recorded: &mut Vec<bool>,
)
    requires
        world@.ready(),
        world@.is_body(body as int),
        world@.recording(direction, old(events)@, old(recorded)@),
    ensures
        world@.recording(direction, final(events)@, final(recorded)@),
        entities(final(events)@) == joined(
            entities(old(events)@),
            world@.chain(body as int, direction),
        ),
{
    let ghost start = entities(events@);
    let ghost row = world@.chain(body as int, direction);
    let mut current = body;
    loop
        invariant
            world@.ready(),
            world@.is_body(current as int),
            world@.is_body(body as int),
            start == entities(old(events)@),
            row == world@.chain(body as int, direction),
            world@.recording(direction, events@, recorded@),
            joined(entities(events@), world@.chain(current as int, direction)) == joined(
                start,
                row,
            ),
        decreases world@.room(current as int, direction),
    {
        proof {
            lemma_neighbor_ahead(world@, current as int, direction);
        }
        match world.body(current).movable.neighbor(direction) {
            None => {
                return ;
            },
            Some(next) => {
                let ghost so_far = entities(events@);
                proof {
                    assert(!world@.walls.blocks(world@.bodies[next as int].position@));
                }
                record(world, next, direction, events, recorded);
                proof {
                    let rest = world@.chain(next as int, direction);
                    assert(world@.chain(current as int, direction) == seq![next as int] + rest);
                    lemma_joined_concat(so_far, seq![next as int], rest);
                }
                current = next;
            },
        }
    }
}

/// Records the moves made on behalf of body `entity`: none unless it is a
/// player that may advance.
fn record_party(
    world: &World,
    entity: usize,
    direction: Direction,
    events: &mut Vec<MoveEvent>,
    recorded: &mut Vec<bool>,
)
    requires
        world@.ready(),
        world@.is_body(entity as int),
        world@.recording(direction, old(events)@, old(recorded)@),
    ensures
        world@.recording(direction, final(events)@, final(recorded)@),
        entities(final(events)@) == joined(
            entities(old(events)@),
            world@.party(entity as int, direction),
        ),
{
    let ghost start = entities(events@);
    let me = world.body(entity);
    assert(!world@.walls.blocks(world@.bodies[entity as int].position@));
    match me.kind {
        BodyKind::Block(_) => {},
        BodyKind::Player(player) => {
            let destination = me.position.step(direction);
            if !world.level_walls().in_wall(&destination) && can_move(world, entity, direction) {
                let ghost head = seq![entity as int];
                let ghost row = world@.chain(entity as int, direction);
                let ghost tail = world@.pulled(entity as int, direction);
                record(world, entity, direction, events, recorded);
                record_chain(world, entity, direction, events, recorded);
                proof {
                    lemma_joined_concat(start, head, row);
                }
                match player.grabbing {
                    Some(grab) => {
                        if direction == get_reversed_direction(grab.direction) {
                            assert(world@.holds(
                                entity as int,
                                grab.block as int,
                                grab.direction,
                            ));
                            assert(!world@.walls.blocks(
                                world@.bodies[grab.block as int].position@,
                            ));
                            record(world, grab.block, direction, events, recorded);
                        }
                    },
                    None => {},
                }
                proof {
                    lemma_joined_concat(start, head + row, tail);
                }
            }
        },
    }
}

/// Decides the moves of a tick in which `direction` is requested.
///
/// Nothing moves when there is no direction, when a player is still
/// moving, or when the direction is across the axis of a grab. Otherwise
/// every player is looked at in turn: where the level does not block the
/// cell ahead and the bodies ahead give way, the player moves, with the row
/// ahead of it and with the block it holds. Each body that moves is
/// recorded once, also where several players push it. The world is not
/// changed.
pub fn handle_move_player(world: &World, direction: Direction) -> (events: Vec<MoveEvent>)
    requires
        world@.ready(),
    ensures
        events@ == world@.planned(direction),
        forall|j: int, k: int|
            0 <= j < k < events@.len() ==> events@[j].entity != events@[k].entity,
{
    let mut events: Vec<MoveEvent> = Vec::new();
    if direction == Direction::Still || any_player_moving(world) || !grabs_allow(world, direction) {
        assert(events@ =~= world@.planned(direction));
        return events;
    }
    let n = world.len();
    let mut recorded: Vec<bool> = Vec::new();
    let mut i: usize = 0;
    while i < n
        invariant
            i <= n,
            n == world@.bodies.len(),
            recorded@.len() == i,
            forall|j: int| 0 <= j < i ==> !#[trigger] recorded@[j],
        decreases n - i,
    {
        recorded.push(false);
        i = i + 1;
    }
    assert(entities(events@) =~= world@.parties(direction, 0));
    assert(events@ =~= world@.events(entities(events@), direction));
    i = 0;
    while i < n
        invariant
            i <= n,
            n == world@.bodies.len(),
            world@.ready(),
            world@.recording(direction, events@, recorded@),
            entities(events@) == world@.parties(direction, i as int),
        decreases n - i,
    {
        record_party(world, i, direction, &mut events, &mut recorded);
        i = i + 1;
    }
    proof {
        assert forall|j: int, k: int| 0 <= j < k < events@.len() implies events@[j].entity
            != events@[k].entity by {
            assert(entities(events@)[j] != entities(events@)[k]);
        }
    }
    events
}

/// Commits the moves decided for a tick: every recorded body takes its new
/// position and is marked as moving until the move is reported complete.
///
/// Afterwards the world is well formed, but its neighbour cache is stale
/// until it is rebuilt.
pub fn handle_move_player_event(world: &mut World, direction: Direction, events: &Vec<MoveEvent>)
    requires
        old(world)@.ready(),
        events@ == old(world)@.planned(direction),
    ensures
        final(world)@ == old(world)@.committed(direction),
        final(world)@.wf(),
        final(world)@.no_overlap(),
        final(world)@.inside_walls(),
{
    let ghost before = world@;
    let ghost movers = before.movers(direction);
    let n = world.len();
    let mut k: usize = 0;
    assert(world@.bodies =~= before.after_moves(direction, movers.take(0)).bodies);
    while k < events.len()
        invariant
            k <= events.len(),
            n == before.bodies.len(),
            before.ready(),
            movers == before.movers(direction),
            events@ == before.events(movers, direction),
            world@ == before.after_moves(direction, movers.take(k as int)),
        decreases events.len() - k,
    {
        let event = events[k];
        proof {
            assert(listed(movers, movers[k as int]));
            lemma_mover(before, direction, movers[k as int]);
        }
        let body = world.body(event.entity);
        world.put(event.entity, Body { position: event.destination, is_moving: true, ..body });
        proof {
            let done = movers.take(k as int);
            let next = movers.take(k as int + 1);
            assert(next =~= done + seq![movers[k as int]]);
            assert forall|i: int| 0 <= i < n implies world@.bodies[i] == before.body_after(
                i,
                direction,
                next,
            ) by {
                lemma_listed_concat(done, seq![movers[k as int]], i);
                if i == movers[k as int] {
                    assert(seq![movers[k as int]][0] == i);
                } else if listed(seq![movers[k as int]], i) {
                    let w = choose|w: int|
                        0 <= w < 1 && #[trigger] seq![movers[k as int]][w] == i;
                }
            }
            assert(world@.bodies =~= before.after_moves(direction, next).bodies);
        }
        k = k + 1;
    }
    proof {
        assert(movers.take(events.len() as int) =~= movers);
        lemma_commit_keeps_wf(before, direction);
    }
}

/// Acts on the report that the moves of a tick have been shown: every body
/// is at rest again, and the players may move once more.
pub fn move_complete_listener(world: &mut World)
    requires
        old(world)@.wf(),
    ensures
        final(world)@ == old(world)@.settled(),
        final(world)@.wf(),
        !final(world)@.player_moving(),
        old(world)@.neighbors_current() ==> final(world)@.neighbors_current(),
{
    let ghost before = world@;
    let n = world.len();
    let mut i: usize = 0;
    while i < n
        invariant
            i <= n,
            n == before.bodies.len(),
            world@.walls == before.walls,
            world@.goals == before.goals,
            world@.bodies.len() == n,
            forall|j: int|
                0 <= j < i ==> #[trigger] world@.bodies[j] == (Body {
                    is_moving: false,
                    ..before.bodies[j]
                }),
            forall|j: int| i <= j < n ==> #[trigger] world@.bodies[j] == before.bodies[j],
        decreases n - i,
    {
        let body = world.body(i);
        world.put(i, Body { is_moving: false, ..body });
        i = i + 1;
    }
    proof {
        assert(world@.bodies =~= before.settled().bodies);
        lemma_settled(before);
    }
}

/// Coming to rest keeps the world well formed and leaves positions and
/// neighbours alone.
pub proof fn lemma_settled(world: WorldView)
    requires
        world.wf(),
    ensures
        world.settled().wf(),
        !world.settled().player_moving(),
        world.neighbors_current() ==> world.settled().neighbors_current(),
{
    let after = world.settled();
    assert forall|i: int| after.is_body(i) implies (#[trigger] after.bodies[i].kind matches BodyKind::Player(
        player,
    ) ==> player.face_direction != Direction::Still) by {
        assert(world.bodies[i].kind matches BodyKind::Player(player) ==> player.face_direction
            != Direction::Still);
    }
    assert forall|i: int| after.is_body(i) implies {
        &&& (#[trigger] after.bodies[i]).position == world.bodies[i].position
        &&& after.bodies[i].kind == world.bodies[i].kind
        &&& after.bodies[i].movable == world.bodies[i].movable
    } by {}
    crate::world::lemma_same_layout_wf(world, after);
    if world.neighbors_current() {
        crate::world::lemma_same_places_current(world, after);
    }
}

} // verus!
