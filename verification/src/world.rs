//! The bodies of a level and the invariants that hold of them between
//! ticks.

use crate::coords::{Cell, GridCoord};
use crate::direction::Direction;
use crate::level_walls::{LevelWalls, Walls};
use vstd::prelude::*;

verus! {

/// The cached neighbours of a body: for each cardinal direction the body
/// standing on the adjacent cell, if there is one.
#[derive(Clone, Copy, Debug, PartialEq, Eq)]
pub struct Movable {
    pub north_neighbor: Option<usize>,
    pub east_neighbor: Option<usize>,
    pub south_neighbor: Option<usize>,
    pub west_neighbor: Option<usize>,
}

impl Movable {
    /// The cached neighbour in `direction`; there is none towards `Still`.
    pub open spec fn toward(self, direction: Direction) -> Option<usize> {
        match direction {
            Direction::North => self.north_neighbor,
            Direction::East => self.east_neighbor,
            Direction::South => self.south_neighbor,
            Direction::West => self.west_neighbor,
            Direction::Still => None,
        }
    }

    /// An entry without neighbours.
    pub fn alone() -> (r: Movable)
        ensures
            r == no_neighbors(),
    {
        Movable {
            north_neighbor: None,
            east_neighbor: None,
            south_neighbor: None,
            west_neighbor: None,
        }
    }

    /// Returns the cached neighbour in `direction`.
    pub fn neighbor(&self, direction: Direction) -> (r: Option<usize>)
        ensures
            r == self.toward(direction),
    {
        match direction {
            Direction::North => self.north_neighbor,
            Direction::East => self.east_neighbor,
            Direction::South => self.south_neighbor,
            Direction::West => self.west_neighbor,
            Direction::Still => None,
        }
    }
}

/// The player's half of a grab: the block held and the direction in which
/// it lay when it was grabbed.
#[derive(Clone, Copy, Debug, PartialEq, Eq)]
pub struct Grabbing {
    pub block: usize,
    pub direction: Direction,
}

/// The block's half of a grab: the player holding it and the direction
/// from that player to the block.
#[derive(Clone, Copy, Debug, PartialEq, Eq)]
pub struct Grabbed {
    pub player: usize,
    pub direction: Direction,
}

/// What is particular to a player.
#[derive(Clone, Copy, Debug, PartialEq, Eq)]
pub struct Player {
    pub face_direction: Direction,
    pub grabbing: Option<Grabbing>,
}

/// What is particular to a block. A pushable block gives way to a push; a
/// block that is pushable or pullable can be grabbed.
#[derive(Clone, Copy, Debug, PartialEq, Eq)]
pub struct Block {
    pub pushable: bool,
    pub pullable: bool,
    pub grabbed: Option<Grabbed>,
}

#[derive(Clone, Copy, Debug, PartialEq, Eq)]
pub enum BodyKind {
    Player(Player),
    Block(Block),
}

impl BodyKind {
    /// The player's half of a grab, if this is a player that holds a block.
    pub open spec fn grabbing(self) -> Option<Grabbing> {
        match self {
            BodyKind::Player(player) => player.grabbing,
            BodyKind::Block(_) => None,
        }
    }

    /// The block's half of a grab, if this is a block that is held.
    pub open spec fn grabbed(self) -> Option<Grabbed> {
        match self {
            BodyKind::Player(_) => None,
            BodyKind::Block(block) => block.grabbed,
        }
    }
}

/// Anything that stands on a cell and can be moved. Bodies are known by
/// their index in the world, which never changes.
#[derive(Clone, Copy, Debug, PartialEq, Eq)]
pub struct Body {
    pub position: GridCoord,
    pub kind: BodyKind,
    /// Set when the body's position changed and the change has not been
    /// acknowledged as shown yet.
    pub is_moving: bool,
    pub movable: Movable,
}

/// Why a body could not be placed.
#[derive(Clone, Copy, Debug, PartialEq, Eq)]
pub enum SpawnError {
    /// The position is a wall or out of bounds.
    InWall,
    /// Another body stands there already.
    Occupied,
}

/// The mathematical value of a [`World`].
pub struct WorldView {
    pub walls: Walls,
    pub goals: Seq<GridCoord>,
    pub bodies: Seq<Body>,
}

impl WorldView {
    pub open spec fn is_body(self, i: int) -> bool {
        0 <= i < self.bodies.len()
    }

    pub open spec fn is_player(self, i: int) -> bool {
        self.is_body(i) && self.bodies[i].kind is Player
    }

    /// The cell on which body `i` stands.
    pub open spec fn cell(self, i: int) -> Cell {
        self.bodies[i].position@
    }

    /// Whether some body stands on `cell`.
    pub open spec fn occupied(self, cell: Cell) -> bool {
        exists|i: int| self.is_body(i) && #[trigger] self.bodies[i].position@ == cell
    }

    /// Whether block `i` is held by a player.
    pub open spec fn is_grabbed(self, i: int) -> bool {
        &&& self.is_body(i)
        &&& self.bodies[i].kind matches BodyKind::Block(block)
        &&& block.grabbed is Some
    }

    /// Whether player `i` holds a block.
    pub open spec fn is_grabbing(self, i: int) -> bool {
        &&& self.is_body(i)
        &&& self.bodies[i].kind matches BodyKind::Player(player)
        &&& player.grabbing is Some
    }

    /// No body stands in a wall or out of bounds.
    pub open spec fn inside_walls(self) -> bool {
        forall|i: int| self.is_body(i) ==> !self.walls.blocks(#[trigger] self.bodies[i].position@)
    }

    /// No two bodies stand on the same cell.
    pub open spec fn no_overlap(self) -> bool {
        forall|i: int, j: int|
            self.is_body(i) && self.is_body(j) && i != j ==> #[trigger] self.bodies[i].position
                != #[trigger] self.bodies[j].position
    }

    /// Every player faces one of the four cardinal directions.
    pub open spec fn players_face(self) -> bool {
        forall|i: int|
            self.is_body(i) ==> (#[trigger] self.bodies[i].kind matches BodyKind::Player(player)
                ==> player.face_direction != Direction::Still)
    }

    /// Player `player` holds block `block`, which stands one step from it
    /// in `direction`, and both halves of the grab say so.
    pub open spec fn holds(self, player: int, block: int, direction: Direction) -> bool {
        &&& self.is_body(player)
        &&& self.is_body(block)
        &&& direction != Direction::Still
        &&& self.bodies[player].kind matches BodyKind::Player(p)
        &&& p.grabbing == Some(Grabbing { block: block as usize, direction })
        &&& self.bodies[block].kind matches BodyKind::Block(b)
        &&& b.grabbed == Some(Grabbed { player: player as usize, direction })
        &&& self.cell(block) == self.cell(player).step(direction)
    }

    /// Every half of a grab has its other half: a player holds at most one
    /// block, a block is held by at most one player, and a held block
    /// stands next to its player in the direction of the grab.
    pub open spec fn grabs_paired(self) -> bool {
        forall|i: int|
            self.is_body(i) ==> match #[trigger] self.bodies[i].kind {
                BodyKind::Player(player) => match player.grabbing {
                    Some(grab) => self.holds(i, grab.block as int, grab.direction),
                    None => true,
                },
                BodyKind::Block(block) => match block.grabbed {
                    Some(grab) => self.holds(grab.player as int, i, grab.direction),
                    None => true,
                },
            }
    }

    /// What holds of a world between any two operations.
    pub open spec fn wf(self) -> bool {
        &&& self.walls.representable()
        &&& self.inside_walls()
        &&& self.no_overlap()
        &&& self.players_face()
        &&& self.grabs_paired()
    }

    /// The cached neighbour of body `i` in `direction`.
    pub open spec fn neighbor(self, i: int, direction: Direction) -> Option<usize> {
        self.bodies[i].movable.toward(direction)
    }

    /// The cache entry of body `i` for `direction` agrees with the
    /// positions: it names the body on the adjacent cell, or nothing when
    /// that cell is free of bodies.
    pub open spec fn neighbor_current(self, i: int, direction: Direction) -> bool {
        match self.neighbor(i, direction) {
            Some(n) => self.is_body(n as int) && self.cell(n as int) == self.cell(i).step(
                direction,
            ),
            None => direction == Direction::Still || !self.occupied(self.cell(i).step(direction)),
        }
    }

    /// The whole neighbour cache agrees with the positions.
    pub open spec fn neighbors_current(self) -> bool {
        forall|i: int, direction: Direction|
            self.is_body(i) ==> #[trigger] self.neighbor_current(i, direction)
    }

    /// This world has the level, the positions and the grabs of `before`.
    pub open spec fn same_layout(self, before: WorldView) -> bool {
        &&& self.walls == before.walls
        &&& self.bodies.len() == before.bodies.len()
        &&& forall|i: int|
            self.is_body(i) ==> {
                &&& (#[trigger] self.bodies[i]).position == before.bodies[i].position
                &&& self.bodies[i].kind is Player <==> before.bodies[i].kind is Player
                &&& self.bodies[i].kind.grabbing() == before.bodies[i].kind.grabbing()
                &&& self.bodies[i].kind.grabbed() == before.bodies[i].kind.grabbed()
            }
    }

    /// This world has the level, the positions and the neighbour cache of
    /// `before`.
    pub open spec fn same_places(self, before: WorldView) -> bool {
        &&& self.walls == before.walls
        &&& self.bodies.len() == before.bodies.len()
        &&& forall|i: int|
            self.is_body(i) ==> {
                &&& (#[trigger] self.bodies[i]).position == before.bodies[i].position
                &&& self.bodies[i].movable == before.bodies[i].movable
            }
    }

    /// This world with one more body at the end.
    pub open spec fn with_body(self, body: Body) -> WorldView {
        WorldView { bodies: self.bodies.push(body), ..self }
    }

    /// This world with body `i` replaced.
    pub open spec fn with_body_at(self, i: int, body: Body) -> WorldView {
        WorldView { bodies: self.bodies.update(i, body), ..self }
    }
}

/// A level in play: its geometry, its goals and its bodies.
pub struct World {
    level_walls: LevelWalls,
    goals: Vec<GridCoord>,
    bodies: Vec<Body>,
}

impl View for World {
    type V = WorldView;

    closed spec fn view(&self) -> WorldView {
        WorldView { walls: self.level_walls@, goals: self.goals@, bodies: self.bodies@ }
    }
}

impl World {
    /// A level without bodies.
    pub fn new(level_walls: LevelWalls, goals: Vec<GridCoord>) -> (r: World)
        ensures
            r@.walls == level_walls@,
            r@.goals == goals@,
            r@.bodies == Seq::<Body>::empty(),
            r@.wf(),
            r@.neighbors_current(),
    {
        proof {
            level_walls.lemma_representable();
        }
        World { level_walls, goals, bodies: Vec::new() }
    }

    /// The number of bodies.
    pub fn len(&self) -> (r: usize)
        ensures
            r == self@.bodies.len(),
    {
        self.bodies.len()
    }

    /// The geometry of the level.
    pub fn level_walls(&self) -> (r: &LevelWalls)
        ensures
            r@ == self@.walls,
    {
        &self.level_walls
    }

    /// The goal positions of the level.
    pub fn goals(&self) -> (r: &Vec<GridCoord>)
        ensures
            r@ == self@.goals,
    {
        &self.goals
    }

    /// Body `entity` as it is now.
    pub fn body(&self, entity: usize) -> (r: Body)
        requires
            self@.is_body(entity as int),
        ensures
            r == self@.bodies[entity as int],
    {
        self.bodies[entity]
    }

    /// Body `entity` as it is now, or `None` where there is no such body.
    pub fn get(&self, entity: usize) -> (r: Option<Body>)
        ensures
            match r {
                Some(body) => self@.is_body(entity as int) && body == self@.bodies[entity as int],
                None => !self@.is_body(entity as int),
            },
    {
        if entity < self.bodies.len() {
            Some(self.bodies[entity])
        } else {
            None
        }
    }

    /// Replaces body `entity`. Keeping the world well formed is up to the
    /// caller.
    pub(crate) fn put(&mut self, entity: usize, body: Body)
        requires
            old(self)@.is_body(entity as int),
        ensures
            final(self)@ == old(self)@.with_body_at(entity as int, body),
    {
        self.bodies.set(entity, body);
    }

    /// Tells whether a body stands on `position`.
    pub fn is_occupied(&self, position: &GridCoord) -> (r: bool)
        ensures
            r == self@.occupied(position@),
    {
        let mut i: usize = 0;
        while i < self.bodies.len()
            invariant
                i <= self.bodies.len(),
                forall|j: int| 0 <= j < i ==> (#[trigger] self.bodies[j]).position@ != position@,
            decreases self.bodies.len() - i,
        {
            if self.bodies[i].position == *position {
                return true;
            }
            i = i + 1;
        }
        false
    }

    fn spawn(&mut self, position: GridCoord, kind: BodyKind) -> (r: Result<usize, SpawnError>)
        requires
            old(self)@.wf(),
            kind matches BodyKind::Player(player) ==> player.face_direction != Direction::Still
                && player.grabbing is None,
            kind matches BodyKind::Block(block) ==> block.grabbed is None,
        ensures
            final(self)@.wf(),
            match r {
                Ok(entity) => {
                    &&& !old(self)@.walls.blocks(position@)
                    &&& !old(self)@.occupied(position@)
                    &&& entity == old(self)@.bodies.len()
                    &&& final(self)@ == old(self)@.with_body(
                        Body { position, kind, is_moving: false, movable: no_neighbors() },
                    )
                },
                Err(SpawnError::InWall) => {
                    &&& old(self)@.walls.blocks(position@)
                    &&& final(self)@ == old(self)@
                },
                Err(SpawnError::Occupied) => {
                    &&& !old(self)@.walls.blocks(position@)
                    &&& old(self)@.occupied(position@)
                    &&& final(self)@ == old(self)@
                },
            },
    {
        if self.level_walls.in_wall(&position) {
            return Err(SpawnError::InWall);
        }
        if self.is_occupied(&position) {
            return Err(SpawnError::Occupied);
        }
        let entity = self.bodies.len();
        let body = Body { position, kind, is_moving: false, movable: Movable::alone() };
        self.bodies.push(body);
        proof {
            let before = old(self)@;
            let after = self@;
            assert(after.bodies == before.bodies.push(body));
            assert forall|i: int| after.is_body(i) implies match #[trigger] after.bodies[i].kind {
                BodyKind::Player(player) => match player.grabbing {
                    Some(grab) => after.holds(i, grab.block as int, grab.direction),
                    None => true,
                },
                BodyKind::Block(block) => match block.grabbed {
                    Some(grab) => after.holds(grab.player as int, i, grab.direction),
                    None => true,
                },
            } by {
                if i < before.bodies.len() {
                    assert(after.bodies[i] == before.bodies[i]);
                    match before.bodies[i].kind {
                        BodyKind::Player(player) => match player.grabbing {
                            Some(grab) => {
                                assert(before.holds(i, grab.block as int, grab.direction));
                                assert(after.bodies[grab.block as int] == before.bodies[grab.block as int]);
                            },
                            None => {},
                        },
                        BodyKind::Block(block) => match block.grabbed {
                            Some(grab) => {
                                assert(before.holds(grab.player as int, i, grab.direction));
                                assert(after.bodies[grab.player as int] == before.bodies[grab.player as int]);
                            },
                            None => {},
                        },
                    }
                }
            }
        }
        Ok(entity)
    }

    /// Places a player on `position`, facing east.
    ///
    /// Fails with `InWall` where the position is blocked by the level, and
    /// otherwise with `Occupied` where a body stands there. The neighbour
    /// cache is left as it was and has to be rebuilt before the next move.
    pub fn spawn_player(&mut self, position: GridCoord) -> (r: Result<usize, SpawnError>)
        requires
            old(self)@.wf(),
        ensures
            final(self)@.wf(),
            match r {
                Ok(entity) => {
                    &&& !old(self)@.walls.blocks(position@)
                    &&& !old(self)@.occupied(position@)
                    &&& entity == old(self)@.bodies.len()
                    &&& final(self)@ == old(self)@.with_body(new_player(position))
                },
                Err(SpawnError::InWall) => {
                    &&& old(self)@.walls.blocks(position@)
                    &&& final(self)@ == old(self)@
                },
                Err(SpawnError::Occupied) => {
                    &&& !old(self)@.walls.blocks(position@)
                    &&& old(self)@.occupied(position@)
                    &&& final(self)@ == old(self)@
                },
            },
    {
        let kind = BodyKind::Player(Player { face_direction: Direction::East, grabbing: None });
        self.spawn(position, kind)
    }

    /// Places a block on `position`.
    ///
    /// Fails with `InWall` where the position is blocked by the level, and
    /// otherwise with `Occupied` where a body stands there. The neighbour
    /// cache is left as it was and has to be rebuilt before the next move.
    pub fn spawn_block(&mut self, position: GridCoord, pushable: bool, pullable: bool) -> (r:
        Result<usize, SpawnError>)
        requires
            old(self)@.wf(),
        ensures
            final(self)@.wf(),
            match r {
                Ok(entity) => {
                    &&& !old(self)@.walls.blocks(position@)
                    &&& !old(self)@.occupied(position@)
                    &&& entity == old(self)@.bodies.len()
                    &&& final(self)@ == old(self)@.with_body(
                        new_block(position, pushable, pullable),
                    )
                },
                Err(SpawnError::InWall) => {
                    &&& old(self)@.walls.blocks(position@)
                    &&& final(self)@ == old(self)@
                },
                Err(SpawnError::Occupied) => {
                    &&& !old(self)@.walls.blocks(position@)
                    &&& old(self)@.occupied(position@)
                    &&& final(self)@ == old(self)@
                },
            },
    {
        let kind = BodyKind::Block(Block { pushable, pullable, grabbed: None });
        self.spawn(position, kind)
    }
}

/// Well-formedness rests on the level, the positions, the grabs and the
/// way the players face, and on nothing else.
pub proof fn lemma_same_layout_wf(before: WorldView, after: WorldView)
    requires
        before.wf(),
        after.same_layout(before),
        after.players_face(),
    ensures
        after.wf(),
{
    assert forall|i: int| after.is_body(i) implies !after.walls.blocks(
        #[trigger] after.bodies[i].position@,
    ) by {
        assert(!before.walls.blocks(before.bodies[i].position@));
    }
    assert forall|i: int, j: int|
        after.is_body(i) && after.is_body(j) && i != j implies #[trigger] after.bodies[i].position
        != #[trigger] after.bodies[j].position by {
        assert(before.bodies[i].position != before.bodies[j].position);
    }
    assert forall|i: int| after.is_body(i) implies match #[trigger] after.bodies[i].kind {
        BodyKind::Player(player) => match player.grabbing {
            Some(grab) => after.holds(i, grab.block as int, grab.direction),
            None => true,
        },
        BodyKind::Block(block) => match block.grabbed {
            Some(grab) => after.holds(grab.player as int, i, grab.direction),
            None => true,
        },
    } by {
        assert(after.bodies[i].kind.grabbing() == before.bodies[i].kind.grabbing());
        assert(after.bodies[i].kind.grabbed() == before.bodies[i].kind.grabbed());
        match before.bodies[i].kind {
            BodyKind::Player(player) => match player.grabbing {
                Some(grab) => {
                    let b = grab.block as int;
                    assert(before.holds(i, b, grab.direction));
                    assert(after.bodies[b].kind.grabbed() == before.bodies[b].kind.grabbed());
                    assert(after.bodies[b].position == before.bodies[b].position);
                },
                None => {},
            },
            BodyKind::Block(block) => match block.grabbed {
                Some(grab) => {
                    let p = grab.player as int;
                    assert(before.holds(p, i, grab.direction));
                    assert(after.bodies[p].kind.grabbing() == before.bodies[p].kind.grabbing());
                    assert(after.bodies[p].position == before.bodies[p].position);
                },
                None => {},
            },
        }
    }
}

/// Whether the neighbour cache agrees with the positions rests on the
/// positions and the cache, and on nothing else.
pub proof fn lemma_same_places_current(before: WorldView, after: WorldView)
    requires
        before.neighbors_current(),
        after.same_places(before),
    ensures
        after.neighbors_current(),
{
    assert forall|i: int, direction: Direction| after.is_body(i) implies #[trigger] after.neighbor_current(
        i,
        direction,
    ) by {
        assert(before.neighbor_current(i, direction));
        assert(after.bodies[i].movable == before.bodies[i].movable);
        assert forall|m: int| after.is_body(m) implies (#[trigger] after.bodies[m]).position
            == before.bodies[m].position by {}
        if let Some(n) = before.neighbor(i, direction) {
            assert(after.bodies[n as int].position == before.bodies[n as int].position);
        }
    }
}

/// The positions leave no choice for a neighbour cache that agrees with
/// them: two well-formed worlds that differ in their caches at most, both
/// caches agreeing with the positions, are the same.
pub proof fn lemma_neighbors_determined(a: WorldView, b: WorldView)
    requires
        a.wf(),
        a.neighbors_current(),
        b.neighbors_current(),
        a.walls == b.walls,
        a.goals == b.goals,
        a.bodies.len() == b.bodies.len(),
        forall|i: int|
            a.is_body(i) ==> #[trigger] a.bodies[i] == (Body {
                movable: a.bodies[i].movable,
                ..b.bodies[i]
            }),
    ensures
        a == b,
{
    assert forall|i: int| a.is_body(i) implies a.bodies[i] == b.bodies[i] by {
        assert forall|direction: Direction|
            a.bodies[i].movable.toward(direction) == b.bodies[i].movable.toward(direction) by {
            assert(a.neighbor_current(i, direction));
            assert(b.neighbor_current(i, direction));
            assert forall|m: int| a.is_body(m) implies (#[trigger] a.bodies[m]).position
                == b.bodies[m].position by {}
            let target = a.cell(i).step(direction);
            match (a.neighbor(i, direction), b.neighbor(i, direction)) {
                (Some(n), Some(m)) => {
                    assert(a.bodies[n as int].position == a.bodies[m as int].position);
                },
                (Some(n), None) => {
                    assert(b.bodies[n as int].position@ == target);
                },
                (None, Some(m)) => {
                    assert(a.bodies[m as int].position@ == target);
                },
                (None, None) => {},
            }
        }
        assert(a.bodies[i].movable.toward(Direction::North) == b.bodies[i].movable.toward(
            Direction::North,
        ));
        assert(a.bodies[i].movable.toward(Direction::East) == b.bodies[i].movable.toward(
            Direction::East,
        ));
        assert(a.bodies[i].movable.toward(Direction::South) == b.bodies[i].movable.toward(
            Direction::South,
        ));
        assert(a.bodies[i].movable.toward(Direction::West) == b.bodies[i].movable.toward(
            Direction::West,
        ));
    }
    assert(a.bodies =~= b.bodies);
}

/// A cache entry without neighbours.
pub open spec fn no_neighbors() -> Movable {
    Movable { north_neighbor: None, east_neighbor: None, south_neighbor: None, west_neighbor: None }
}

/// A player as it is spawned: facing east, holding nothing, at rest.
pub open spec fn new_player(position: GridCoord) -> Body {
    Body {
        position,
        kind: BodyKind::Player(Player { face_direction: Direction::East, grabbing: None }),
        is_moving: false,
        movable: no_neighbors(),
    }
}

/// A block as it is spawned: held by nobody, at rest.
pub open spec fn new_block(position: GridCoord, pushable: bool, pullable: bool) -> Body {
    Body {
        position,
        kind: BodyKind::Block(Block { pushable, pullable, grabbed: None }),
        is_moving: false,
        movable: no_neighbors(),
    }
}

} // verus!
