//! Grabbing a block, and letting go.

use crate::coords::{get_neighbor_direction, lemma_direction_between};
use crate::direction::Direction;
use crate::world::{Block, Body, BodyKind, Grabbed, Grabbing, Player, World, WorldView};
use vstd::prelude::*;

verus! {

impl Body {
    /// This body with its half of a grab, if it has one, taken away.
    pub open spec fn without_grab(self) -> Body {
        match self.kind {
            BodyKind::Player(player) => Body {
                kind: BodyKind::Player(Player { grabbing: None, ..player }),
                ..self
            },
            BodyKind::Block(block) => Body {
                kind: BodyKind::Block(Block { grabbed: None, ..block }),
                ..self
            },
        }
    }
}

impl WorldView {
    /// The direction that body `i` faces if it is a player.
    pub open spec fn facing(self, i: int) -> Direction {
        match self.bodies[i].kind {
            BodyKind::Player(player) => player.face_direction,
            BodyKind::Block(_) => Direction::Still,
        }
    }

    /// Whether player `p` is in a position to grab block `b`: both are at
    /// rest, neither is part of a grab, the block is pushable or pullable,
    /// and it stands on the cell that the player faces.
    pub open spec fn can_grab(self, p: int, b: int) -> bool {
        &&& self.is_body(p)
        &&& self.is_body(b)
        &&& self.bodies[p].kind matches BodyKind::Player(player)
        &&& self.bodies[b].kind matches BodyKind::Block(block)
        &&& !self.bodies[p].is_moving
        &&& !self.bodies[b].is_moving
        &&& player.grabbing is None
        &&& block.grabbed is None
        &&& (block.pushable || block.pullable)
        &&& self.cell(b) == self.cell(p).step(player.face_direction)
    }

    /// Whether player `p` grabs block `b` when a grab is asked for: it is
    /// in a position to, and no player before it is.
    pub open spec fn grabs(self, p: int, b: int) -> bool {
        &&& self.can_grab(p, b)
        &&& forall|q: int| 0 <= q < p ==> !#[trigger] self.can_grab(q, b)
    }

    /// This world with all grabs dissolved.
    pub open spec fn released(self) -> WorldView {
        WorldView {
            bodies: Seq::new(self.bodies.len(), |i: int| self.bodies[i].without_grab()),
            ..self
        }
    }

    /// This world with player `p` holding block `b` in the direction that
    /// the player faces.
    pub open spec fn with_grab(self, p: int, b: int) -> WorldView {
        let direction = self.facing(p);
        let player = self.bodies[p].kind->Player_0;
        let block = self.bodies[b].kind->Block_0;
        let holder = Body {
            kind: BodyKind::Player(
                Player { grabbing: Some(Grabbing { block: b as usize, direction }), ..player },
            ),
            ..self.bodies[p]
        };
        let held = Body {
            kind: BodyKind::Block(
                Block { grabbed: Some(Grabbed { player: p as usize, direction }), ..block },
            ),
            ..self.bodies[b]
        };
        WorldView { bodies: self.bodies.update(p, holder).update(b, held), ..self }
    }
}

/// A grab between a player and a block in position for it keeps the world
/// well formed, adds that grab and leaves the others as they were.
pub proof fn lemma_grab(world: WorldView, p: int, b: int)
    requires
        world.wf(),
        world.can_grab(p, b),
        world.bodies.len() <= usize::MAX,
    ensures
        world.with_grab(p, b).wf(),
        world.with_grab(p, b).released() == world.released(),
        world.with_grab(p, b).holds(p, b, world.facing(p)),
        forall|x: int, y: int, d: Direction| #[trigger]
            world.with_grab(p, b).holds(x, y, d) <==> world.holds(x, y, d) || (x == p && y == b
                && d == world.facing(p)),
{
    let after = world.with_grab(p, b);
    let facing = world.facing(p);
    assert(p != b);
    assert(world.bodies[p].kind is Player);
    assert(facing != Direction::Still);
    assert(after.released().bodies =~= world.released().bodies);
    assert forall|i: int| after.is_body(i) implies {
        &&& after.bodies[i].position == world.bodies[i].position
        &&& i != p && i != b ==> after.bodies[i] == world.bodies[i]
    } by {}
    assert(after.holds(p, b, facing));
    assert forall|x: int, y: int, d: Direction| #[trigger]
        after.holds(x, y, d) <==> world.holds(x, y, d) || (x == p && y == b && d == facing) by {
        if world.holds(x, y, d) {
            assert(x != p && y != b);
            assert(x != b && y != p);
        }
        if after.holds(x, y, d) && !(x == p && y == b && d == facing) {
            assert(x != p);
            assert(y != b);
        }
    }
    assert forall|i: int| after.is_body(i) implies !after.walls.blocks(
        #[trigger] after.bodies[i].position@,
    ) by {
        assert(!world.walls.blocks(world.bodies[i].position@));
    }
    assert forall|i: int, j: int|
        after.is_body(i) && after.is_body(j) && i != j implies #[trigger] after.bodies[i].position
        != #[trigger] after.bodies[j].position by {
        assert(world.bodies[i].position != world.bodies[j].position);
    }
    assert forall|i: int| after.is_body(i) implies (#[trigger] after.bodies[i].kind matches BodyKind::Player(
        player,
    ) ==> player.face_direction != Direction::Still) by {
        assert(world.bodies[i].kind matches BodyKind::Player(player) ==> player.face_direction
            != Direction::Still);
    }
    assert forall|i: int| after.is_body(i) implies match #[trigger] after.bodies[i].kind {
        BodyKind::Player(player) => match player.grabbing {
            Some(grab) => after.holds(i, grab.block as int, grab.direction),
            None => true,
        },
        BodyKind::Block(block) => match block.grabbed {
            Some(grab) => after.holds(grab.player as int, i, grab.direction),
            None => true,
        },
    } by {
        if i != p && i != b {
            match world.bodies[i].kind {
                BodyKind::Player(player) => match player.grabbing {
                    Some(grab) => {
                        assert(world.holds(i, grab.block as int, grab.direction));
                    },
                    None => {},
                },
                BodyKind::Block(block) => match block.grabbed {
                    Some(grab) => {
                        assert(world.holds(grab.player as int, i, grab.direction));
                    },
                    None => {},
                },
            }
        }
    }
}

/// Dissolving all grabs keeps the world well formed.
pub proof fn lemma_released_wf(world: WorldView)
    requires
        world.wf(),
    ensures
        world.released().wf(),
        forall|x: int, y: int, d: Direction| !#[trigger] world.released().holds(x, y, d),
{
    let after = world.released();
    assert forall|i: int| after.is_body(i) implies !after.walls.blocks(
        #[trigger] after.bodies[i].position@,
    ) by {
        assert(!world.walls.blocks(world.bodies[i].position@));
    }
    assert forall|i: int, j: int|
        after.is_body(i) && after.is_body(j) && i != j implies #[trigger] after.bodies[i].position
        != #[trigger] after.bodies[j].position by {
        assert(world.bodies[i].position != world.bodies[j].position);
    }
    assert forall|i: int| after.is_body(i) implies (#[trigger] after.bodies[i].kind matches BodyKind::Player(
        player,
    ) ==> player.face_direction != Direction::Still) by {
        assert(world.bodies[i].kind matches BodyKind::Player(player) ==> player.face_direction
            != Direction::Still);
    }
}

/// Acts on a request to grab: every player at rest that holds nothing and
/// faces, on the adjacent cell, a pushable or pullable block at rest that
/// nobody holds takes hold of it. The grab remembers the direction that
/// the player faces. Where two players face the same block the one with
/// the smaller index gets it.
pub fn grab_from_held_input(world: &mut World)
    requires
        old(world)@.wf(),
    ensures
        final(world)@.wf(),
        final(world)@.released() == old(world)@.released(),
        forall|p: int, b: int, d: Direction| #[trigger]
            final(world)@.holds(p, b, d) <==> old(world)@.holds(p, b, d) || (old(world)@.grabs(
                p,
                b,
            ) && d == old(world)@.facing(p)),
        old(world)@.neighbors_current() ==> final(world)@.neighbors_current(),
{
    let ghost before = world@;
    let n = world.len();
    let mut p: usize = 0;
    while p < n
        invariant
            p <= n,
            n == world@.bodies.len(),
            before.wf(),
            before.bodies.len() == n,
            world@.wf(),
            world@.released() == before.released(),
            forall|x: int, y: int, d: Direction| #[trigger]
                world@.holds(x, y, d) <==> before.holds(x, y, d) || (x < p && before.grabs(x, y)
                    && d == before.facing(x)),
            forall|q: int, y: int|
                0 <= q < p && #[trigger] before.can_grab(q, y) ==> world@.is_grabbed(y),
        decreases n - p,
    {
        let ghost entered = world@;
        proof {
            lemma_same_released(before, entered);
        }
        let me = world.body(p);
        let mut grabbed = false;
        match me.kind {
            BodyKind::Player(player) => {
                if !me.is_moving && player.grabbing.is_none() {
                    let mut b: usize = 0;
                    while b < n && !grabbed
                        invariant
                            b <= n,
                            p < n,
                            n == world@.bodies.len(),
                            me == entered.bodies[p as int],
                            me.kind == BodyKind::Player(player),
                            !me.is_moving,
                            player.grabbing is None,
                            entered.wf(),
                            entered.bodies.len() == n,
                            !grabbed ==> world@ == entered,
                            !grabbed ==> forall|j: int| 0 <= j < b ==> !entered.can_grab(p as int, j),
                            grabbed ==> exists|j: int|
                                #[trigger] entered.can_grab(p as int, j) && world@
                                    == entered.with_grab(p as int, j),
                        decreases n - b + if grabbed { 0int } else { 1int },
                    {
                        let other = world.body(b);
                        match other.kind {
                            BodyKind::Block(block) => {
                                proof {
                                    lemma_direction_between(
                                        me.position@,
                                        other.position@,
                                        player.face_direction,
                                    );
                                    assert(entered.bodies[p as int].kind is Player);
                                }
                                if !other.is_moving && block.grabbed.is_none() && (block.pushable
                                    || block.pullable) && get_neighbor_direction(
                                    &me.position,
                                    &other.position,
                                ) == player.face_direction {
                                    let direction = player.face_direction;
                                    assert(entered.can_grab(p as int, b as int));
                                    world.put(
                                        p,
                                        Body {
                                            kind: BodyKind::Player(
                                                Player {
                                                    grabbing: Some(Grabbing { block: b, direction }),
                                                    ..player
                                                },
                                            ),
                                            ..me
                                        },
                                    );
                                    world.put(
                                        b,
                                        Body {
                                            kind: BodyKind::Block(
                                                Block {
                                                    grabbed: Some(Grabbed { player: p, direction }),
                                                    ..block
                                                },
                                            ),
                                            ..other
                                        },
                                    );
                                    grabbed = true;
                                    assert(world@ == entered.with_grab(p as int, b as int));
                                }
                            },
                            BodyKind::Player(_) => {},
                        }
                        if !grabbed {
                            b = b + 1;
                        }
                    }
                }
            },
            BodyKind::Block(_) => {},
        }
        proof {
            lemma_grab_step(before, entered, world@, p as int, grabbed);
        }
        p = p + 1;
    }
    proof {
        assert forall|x: int, y: int, d: Direction| #[trigger]
            world@.holds(x, y, d) <==> before.holds(x, y, d) || (before.grabs(x, y) && d
                == before.facing(x)) by {
            if before.grabs(x, y) {
                assert(before.can_grab(x, y));
            }
        }
        lemma_released_same_places(before, world@);
        if before.neighbors_current() {
            crate::world::lemma_same_places_current(before, world@);
        }
    }
}

/// Two worlds that differ in their grabs at most have the same positions
/// and the same neighbour cache.
pub proof fn lemma_released_same_places(before: WorldView, now: WorldView)
    requires
        now.released() == before.released(),
    ensures
        now.same_places(before),
{
    lemma_same_released(before, now);
    assert forall|i: int| now.is_body(i) implies {
        &&& (#[trigger] now.bodies[i]).position == before.bodies[i].position
        &&& now.bodies[i].movable == before.bodies[i].movable
    } by {
        assert(now.bodies[i].without_grab() == before.bodies[i].without_grab());
    }
}

/// Two worlds that differ in their grabs at most agree on everything that
/// decides who is in a position to grab, the grabs apart.
proof fn lemma_same_released(before: WorldView, now: WorldView)
    requires
        now.released() == before.released(),
    ensures
        now.bodies.len() == before.bodies.len(),
        now.walls == before.walls,
        forall|i: int|
            now.is_body(i) ==> (#[trigger] now.bodies[i]).without_grab()
                == before.bodies[i].without_grab(),
{
    assert(now.released().bodies.len() == now.bodies.len());
    assert(before.released().bodies.len() == before.bodies.len());
    assert forall|i: int| now.is_body(i) implies (#[trigger] now.bodies[i]).without_grab()
        == before.bodies[i].without_grab() by {
        assert(now.released().bodies[i] == now.bodies[i].without_grab());
        assert(before.released().bodies[i] == before.bodies[i].without_grab());
    }
}

/// One round of the grab loop: after player `p` has had its turn the
/// grabs in force are those from before together with those that the
/// players up to `p` make.
proof fn lemma_grab_step(
    before: WorldView,
    entered: WorldView,
    now: WorldView,
    p: int,
    grabbed: bool,
)
    requires
        before.wf(),
        entered.wf(),
        before.bodies.len() <= usize::MAX,
        entered.is_body(p),
        entered.released() == before.released(),
        forall|x: int, y: int, d: Direction| #[trigger]
            entered.holds(x, y, d) <==> before.holds(x, y, d) || (x < p && before.grabs(x, y) && d
                == before.facing(x)),
        forall|q: int, y: int|
            0 <= q < p && #[trigger] before.can_grab(q, y) ==> entered.is_grabbed(y),
        !grabbed ==> now == entered && forall|j: int|
            0 <= j < entered.bodies.len() ==> !entered.can_grab(p, j),
        grabbed ==> exists|j: int|
            #[trigger] entered.can_grab(p, j) && now == entered.with_grab(p, j),
    ensures
        now.wf(),
        now.released() == before.released(),
        forall|x: int, y: int, d: Direction| #[trigger]
            now.holds(x, y, d) <==> before.holds(x, y, d) || (x < p + 1 && before.grabs(x, y) && d
                == before.facing(x)),
        forall|q: int, y: int|
            0 <= q < p + 1 && #[trigger] before.can_grab(q, y) ==> now.is_grabbed(y),
{
    lemma_same_released(before, entered);
    assert(entered.bodies[p].without_grab() == before.bodies[p].without_grab());
    assert(entered.facing(p) == before.facing(p));
    // Being in a position to grab is the same in both worlds but for the
    // grabs made in between.
    assert forall|y: int| #[trigger]
        entered.can_grab(p, y) <==> before.can_grab(p, y) && !entered.is_grabbed(y) by {
        if entered.is_body(y) {
            assert(entered.bodies[y].without_grab() == before.bodies[y].without_grab());
        }
        if before.can_grab(p, y) {
            match entered.bodies[p].kind {
                BodyKind::Player(player) => match player.grabbing {
                    Some(grab) => {
                        assert(entered.holds(p, grab.block as int, grab.direction));
                        assert(before.bodies[p].kind is Player);
                        assert(!before.holds(p, grab.block as int, grab.direction));
                    },
                    None => {},
                },
                BodyKind::Block(_) => {},
            }
        }
        if entered.can_grab(p, y) {
            match before.bodies[y].kind {
                BodyKind::Block(block) => match block.grabbed {
                    Some(grab) => {
                        assert(before.holds(grab.player as int, y, grab.direction));
                        assert(entered.holds(grab.player as int, y, grab.direction));
                    },
                    None => {},
                },
                BodyKind::Player(_) => {},
            }
            match before.bodies[p].kind {
                BodyKind::Player(player) => match player.grabbing {
                    Some(grab) => {
                        assert(before.holds(p, grab.block as int, grab.direction));
                        assert(entered.holds(p, grab.block as int, grab.direction));
                    },
                    None => {},
                },
                BodyKind::Block(_) => {},
            }
        }
    }
    // A block that is held now and was not before was grabbed by an
    // earlier player.
    assert forall|y: int| before.can_grab(p, y) && entered.is_grabbed(y) implies !before.grabs(
        p,
        y,
    ) by {
        let grab = entered.bodies[y].kind->Block_0.grabbed->0;
        assert(entered.holds(grab.player as int, y, grab.direction));
        assert(before.bodies[y].kind is Block);
        assert(!before.holds(grab.player as int, y, grab.direction));
        assert(before.can_grab(grab.player as int, y));
    }
    if grabbed {
        let j = choose|j: int| #[trigger] entered.can_grab(p, j) && now == entered.with_grab(p, j);
        lemma_grab(entered, p, j);
        assert(entered.can_grab(p, j) <==> before.can_grab(p, j) && !entered.is_grabbed(j));
        assert(before.can_grab(p, j));
        assert(before.grabs(p, j)) by {
            assert forall|q: int| 0 <= q < p implies !#[trigger] before.can_grab(q, j) by {
                if before.can_grab(q, j) {
                    assert(entered.is_grabbed(j));
                }
            }
        }
        assert forall|x: int, y: int, d: Direction| #[trigger]
            now.holds(x, y, d) <==> before.holds(x, y, d) || (x < p + 1 && before.grabs(x, y) && d
                == before.facing(x)) by {
            if x == p && before.grabs(x, y) {
                assert(before.can_grab(p, y) && before.can_grab(p, j));
                assert(before.bodies[y].position == before.bodies[j].position);
                assert(y == j);
            }
        }
        assert forall|q: int, y: int|
            0 <= q < p + 1 && #[trigger] before.can_grab(q, y) implies now.is_grabbed(y) by {
            if q < p {
                assert(entered.is_grabbed(y));
                assert(now.bodies[y].kind is Block);
            } else {
                assert(before.can_grab(p, y) && before.can_grab(p, j));
                assert(before.bodies[y].position == before.bodies[j].position);
                assert(y == j);
            }
        }
    } else {
        assert forall|x: int, y: int, d: Direction| #[trigger]
            now.holds(x, y, d) <==> before.holds(x, y, d) || (x < p + 1 && before.grabs(x, y) && d
                == before.facing(x)) by {
            if x == p && before.grabs(x, y) {
                assert(before.can_grab(p, y));
                assert(!entered.can_grab(p, y));
                assert(entered.is_grabbed(y));
            }
        }
        assert forall|q: int, y: int|
            0 <= q < p + 1 && #[trigger] before.can_grab(q, y) implies now.is_grabbed(y) by {
            if q == p {
                assert(!entered.can_grab(p, y));
            }
        }
    }
}

/// Acts on a request to let go: every grab is dissolved, whoever made it.
pub fn ungrab_from_release_input(world: &mut World)
    requires
        old(world)@.wf(),
    ensures
        final(world)@ == old(world)@.released(),
        final(world)@.wf(),
        old(world)@.neighbors_current() ==> final(world)@.neighbors_current(),
{
    let ghost before = world@;
    let n = world.len();
    let mut i: usize = 0;
    while i < n
        invariant
            i <= n,
            n == before.bodies.len(),
            world@.walls == before.walls,
            world@.goals == before.goals,
            world@.bodies.len() == n,
            forall|j: int| 0 <= j < i ==> #[trigger] world@.bodies[j] == before.bodies[j].without_grab(),
            forall|j: int| i <= j < n ==> #[trigger] world@.bodies[j] == before.bodies[j],
        decreases n - i,
    {
        let body = world.body(i);
        let kind = match body.kind {
            BodyKind::Player(player) => BodyKind::Player(Player { grabbing: None, ..player }),
            BodyKind::Block(block) => BodyKind::Block(Block { grabbed: None, ..block }),
        };
        world.put(i, Body { kind, ..body });
        i = i + 1;
    }
    proof {
        assert(world@.bodies =~= before.released().bodies);
        lemma_released_wf(before);
        assert(before.released().released().bodies =~= before.released().bodies);
        lemma_released_same_places(before, world@);
        if before.neighbors_current() {
            crate::world::lemma_same_places_current(before, world@);
        }
    }
}

} // verus!
