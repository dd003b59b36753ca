//! Reaching a goal, which selects the next level.

use crate::moves::MoveEvent;
use crate::world::{BodyKind, World, WorldView};
use vstd::prelude::*;

verus! {

/// A level picked by its place in the list of levels.
#[derive(Clone, Copy, Debug, PartialEq, Eq)]
pub struct LevelIndices {
    /// The world that holds the level, in a project of several worlds.
    pub world: Option<usize>,
    /// The place of the level in its world.
    pub level: usize,
}

/// The ways in which the level to play can be picked. Only a selection by
/// indices can be advanced.
#[derive(Debug, PartialEq, Eq)]
pub enum LevelSelection {
    Identifier(String),
    Indices(LevelIndices),
    Iid(String),
    Uid(i32),
}

impl WorldView {
    /// Whether body `i` is a player standing on a goal.
    pub open spec fn on_goal(self, i: int) -> bool {
        &&& self.is_player(i)
        &&& exists|g: int| 0 <= g < self.goals.len() && #[trigger] self.goals[g] == self.bodies[i].position
    }

    /// Whether one of the bodies moved by `events` is a player standing on
    /// a goal.
    pub open spec fn reached_goal(self, events: Seq<MoveEvent>) -> bool {
        exists|k: int| 0 <= k < events.len() && self.on_goal((#[trigger] events[k]).entity as int)
    }
}

/// The selection that follows `indices` when a goal has been reached, and
/// `indices` itself when none has.
pub open spec fn advanced(indices: LevelIndices, reached: bool) -> LevelSelection {
    LevelSelection::Indices(
        LevelIndices {
            world: indices.world,
            level: if reached {
                (indices.level + 1) as usize
            } else {
                indices.level
            },
        },
    )
}

/// Tells whether body `entity` is a player standing on a goal.
pub fn on_goal(world: &World, entity: usize) -> (r: bool)
    ensures
        r == world@.on_goal(entity as int),
{
    match world.get(entity) {
        Some(body) => match body.kind {
            BodyKind::Player(_) => {
                let goals = world.goals();
                let mut g: usize = 0;
                while g < goals.len()
                    invariant
                        g <= goals.len(),
                        goals@ == world@.goals,
                        world@.is_body(entity as int),
                        body == world@.bodies[entity as int],
                        body.kind is Player,
                        forall|h: int| 0 <= h < g ==> #[trigger] world@.goals[h] != body.position,
                    decreases goals.len() - g,
                {
                    if goals[g] == body.position {
                        assert(world@.goals[g as int] == world@.bodies[entity as int].position);
                        return true;
                    }
                    g = g + 1;
                }
                false
            },
            BodyKind::Block(_) => false,
        },
        None => false,
    }
}

/// Looks at the bodies moved in this tick and selects the next level when
/// one of them is a player that now stands on a goal.
///
/// The level index goes up by one however many players reached a goal
/// in the tick. The selection has to be one by indices.
pub fn check_goal(world: &World, events: &Vec<MoveEvent>, level_selection: &mut LevelSelection)
    requires
        *old(level_selection) matches LevelSelection::Indices(indices) && indices.level
            < usize::MAX,
    ensures
        *final(level_selection) == advanced(
            old(level_selection)->Indices_0,
            world@.reached_goal(events@),
        ),
{
    let indices = match level_selection {
        LevelSelection::Indices(indices) => *indices,
        _ => {
            return ;
        },
    };
    let mut k: usize = 0;
    while k < events.len()
        invariant
            k <= events.len(),
            *level_selection == *old(level_selection),
            *level_selection == LevelSelection::Indices(indices),
            indices.level < usize::MAX,
            forall|j: int| 0 <= j < k ==> !world@.on_goal((#[trigger] events[j]).entity as int),
        decreases events.len() - k,
    {
        if on_goal(world, events[k].entity) {
            *level_selection =
            LevelSelection::Indices(LevelIndices { world: indices.world, level: indices.level + 1 });
            return ;
        }
        k = k + 1;
    }
}

} // verus!
