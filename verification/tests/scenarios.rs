use sokoban_core::coords::GridCoord;
use sokoban_core::direction::Direction;
use sokoban_core::goal::{LevelIndices, LevelSelection};
use sokoban_core::level_walls::LevelWalls;
use sokoban_core::moves::{handle_move_player, handle_move_player_event, MoveEvent};
use sokoban_core::neighbors::update_moveable_neighbors;
use sokoban_core::tick::{tick, InputEvent};
use sokoban_core::world::{BodyKind, World};

fn at(x: i32, y: i32) -> GridCoord {
    GridCoord::new(x, y)
}

fn bottom_row() -> Vec<GridCoord> {
    vec![at(0, 0), at(1, 0), at(2, 0), at(3, 0), at(4, 0)]
}

fn first_level() -> LevelSelection {
    LevelSelection::Indices(LevelIndices { world: None, level: 0 })
}

fn position(world: &World, entity: usize) -> GridCoord {
    world.get(entity).unwrap().position
}

#[test]
fn block_against_wall_row_stops_player() {
    let mut world = World::new(LevelWalls::new(5, 5, &bottom_row()), Vec::new());
    let player = world.spawn_player(at(2, 2)).unwrap();
    let block = world.spawn_block(at(2, 1), true, true).unwrap();
    update_moveable_neighbors(&mut world);
    let mut selection = first_level();
    let events = tick(&mut world, InputEvent::Move(Direction::South), &mut selection);
    assert!(events.is_empty());
    assert_eq!(position(&world, player), at(2, 2));
    assert_eq!(position(&world, block), at(2, 1));
    assert!(!world.get(player).unwrap().is_moving);
    assert!(!world.get(block).unwrap().is_moving);
}

#[test]
fn block_is_pushed_then_stops_at_edge() {
    let mut world = World::new(LevelWalls::new(5, 5, &Vec::new()), Vec::new());
    let player = world.spawn_player(at(2, 2)).unwrap();
    let block = world.spawn_block(at(2, 1), true, true).unwrap();
    update_moveable_neighbors(&mut world);
    let mut selection = first_level();
    let events = tick(&mut world, InputEvent::Move(Direction::South), &mut selection);
    assert_eq!(
        events,
        vec![
            MoveEvent { entity: player, destination: at(2, 1) },
            MoveEvent { entity: block, destination: at(2, 0) },
        ]
    );
    assert_eq!(position(&world, player), at(2, 1));
    assert_eq!(position(&world, block), at(2, 0));
    assert_eq!(world.get(player).unwrap().movable.south_neighbor, Some(block));
    assert_eq!(world.get(block).unwrap().movable.north_neighbor, Some(player));
    assert_eq!(world.get(player).unwrap().movable.north_neighbor, None);
    sokoban_core::moves::move_complete_listener(&mut world);
    let events = tick(&mut world, InputEvent::Move(Direction::South), &mut selection);
    assert!(events.is_empty());
    assert_eq!(position(&world, player), at(2, 1));
    assert_eq!(position(&world, block), at(2, 0));
}

#[test]
fn row_of_blocks_against_wall_is_stuck_and_comes_free() {
    // Three blocks east of the player, a wall behind them.
    let walls = vec![at(5, 0)];
    let mut world = World::new(LevelWalls::new(8, 1, &walls), Vec::new());
    let player = world.spawn_player(at(1, 0)).unwrap();
    for x in 2..5 {
        world.spawn_block(at(x, 0), true, false).unwrap();
    }
    update_moveable_neighbors(&mut world);
    assert!(!sokoban_core::chain::can_move(&world, player, Direction::East));
    assert!(handle_move_player(&world, Direction::East).is_empty());

    // The same row without the wall.
    let mut world = World::new(LevelWalls::new(8, 1, &Vec::new()), Vec::new());
    let player = world.spawn_player(at(1, 0)).unwrap();
    for x in 2..5 {
        world.spawn_block(at(x, 0), true, false).unwrap();
    }
    update_moveable_neighbors(&mut world);
    assert!(sokoban_core::chain::can_move(&world, player, Direction::East));
    let events = handle_move_player(&world, Direction::East);
    assert_eq!(events.len(), 4);
    handle_move_player_event(&mut world, Direction::East, &events);
    for (entity, x) in [(0usize, 2), (1, 3), (2, 4), (3, 5)] {
        assert_eq!(position(&world, entity), at(x, 0));
    }

    // The wall in place, the row one block shorter.
    let mut world = World::new(LevelWalls::new(8, 1, &walls), Vec::new());
    let player = world.spawn_player(at(1, 0)).unwrap();
    for x in 2..4 {
        world.spawn_block(at(x, 0), true, false).unwrap();
    }
    update_moveable_neighbors(&mut world);
    assert!(sokoban_core::chain::can_move(&world, player, Direction::East));
}

#[test]
fn block_that_is_not_pushable_obstructs() {
    let mut world = World::new(LevelWalls::new(5, 1, &Vec::new()), Vec::new());
    let player = world.spawn_player(at(0, 0)).unwrap();
    world.spawn_block(at(1, 0), false, true).unwrap();
    update_moveable_neighbors(&mut world);
    assert!(!sokoban_core::chain::can_move(&world, player, Direction::East));
    // Towards the edge nothing stands ahead, so the row gives way; the
    // level itself stops the player.
    assert!(sokoban_core::chain::can_move(&world, player, Direction::West));
    assert!(handle_move_player(&world, Direction::West).is_empty());
    assert!(handle_move_player(&world, Direction::Still).is_empty());
}

#[test]
fn grab_locks_the_axis_and_pulls() {
    let mut world = World::new(LevelWalls::new(5, 5, &Vec::new()), Vec::new());
    let player = world.spawn_player(at(1, 2)).unwrap();
    let block = world.spawn_block(at(2, 2), false, true).unwrap();
    update_moveable_neighbors(&mut world);
    let mut selection = first_level();
    // A spawned player faces east, towards the block.
    tick(&mut world, InputEvent::Grab, &mut selection);
    match world.get(player).unwrap().kind {
        BodyKind::Player(p) => {
            let grab = p.grabbing.unwrap();
            assert_eq!(grab.block, block);
            assert_eq!(grab.direction, Direction::East);
        }
        BodyKind::Block(_) => panic!("a player was spawned"),
    }
    match world.get(block).unwrap().kind {
        BodyKind::Block(b) => assert_eq!(b.grabbed.unwrap().player, player),
        BodyKind::Player(_) => panic!("a block was spawned"),
    }
    // Across the axis nothing happens.
    let before_player = world.get(player).unwrap();
    let before_block = world.get(block).unwrap();
    assert!(tick(&mut world, InputEvent::Move(Direction::North), &mut selection).is_empty());
    assert!(tick(&mut world, InputEvent::Move(Direction::South), &mut selection).is_empty());
    assert_eq!(world.get(player).unwrap(), before_player);
    assert_eq!(world.get(block).unwrap(), before_block);
    // Away from the block: a pull.
    let events = tick(&mut world, InputEvent::Move(Direction::West), &mut selection);
    assert_eq!(
        events,
        vec![
            MoveEvent { entity: player, destination: at(0, 2) },
            MoveEvent { entity: block, destination: at(1, 2) },
        ]
    );
    assert_eq!(position(&world, player), at(0, 2));
    assert_eq!(position(&world, block), at(1, 2));
    sokoban_core::moves::move_complete_listener(&mut world);
    // Towards the block: the held block gives way though it is not pushable.
    let events = tick(&mut world, InputEvent::Move(Direction::East), &mut selection);
    assert_eq!(events.len(), 2);
    assert_eq!(position(&world, player), at(1, 2));
    assert_eq!(position(&world, block), at(2, 2));
    sokoban_core::moves::move_complete_listener(&mut world);
    // Let go: the block obstructs again, and the player may turn.
    tick(&mut world, InputEvent::Release, &mut selection);
    assert!(tick(&mut world, InputEvent::Move(Direction::East), &mut selection).is_empty());
    let events = tick(&mut world, InputEvent::Move(Direction::North), &mut selection);
    assert_eq!(events, vec![MoveEvent { entity: player, destination: at(1, 3) }]);
}

#[test]
fn second_player_waits_while_first_is_moving() {
    let mut world = World::new(LevelWalls::new(5, 5, &Vec::new()), Vec::new());
    let first = world.spawn_player(at(0, 0)).unwrap();
    let second = world.spawn_player(at(3, 3)).unwrap();
    update_moveable_neighbors(&mut world);
    let mut selection = first_level();
    // West: only the second player has room.
    let events = tick(&mut world, InputEvent::Move(Direction::West), &mut selection);
    assert_eq!(events, vec![MoveEvent { entity: second, destination: at(2, 3) }]);
    assert!(world.get(second).unwrap().is_moving);
    assert!(!world.get(first).unwrap().is_moving);
    // The first player could go north, but a player is still moving.
    let events = tick(&mut world, InputEvent::Move(Direction::North), &mut selection);
    assert!(events.is_empty());
    assert_eq!(position(&world, first), at(0, 0));
    assert_eq!(position(&world, second), at(2, 3));
    sokoban_core::moves::move_complete_listener(&mut world);
    let events = tick(&mut world, InputEvent::Move(Direction::North), &mut selection);
    assert_eq!(events.len(), 2);
    assert_eq!(position(&world, first), at(0, 1));
    assert_eq!(position(&world, second), at(2, 4));
}

#[test]
fn players_in_a_row_are_each_recorded_once() {
    let mut world = World::new(LevelWalls::new(5, 5, &Vec::new()), Vec::new());
    let first = world.spawn_player(at(0, 0)).unwrap();
    let second = world.spawn_player(at(1, 0)).unwrap();
    let block = world.spawn_block(at(2, 0), true, false).unwrap();
    update_moveable_neighbors(&mut world);
    let events = handle_move_player(&world, Direction::East);
    assert_eq!(
        events,
        vec![
            MoveEvent { entity: first, destination: at(1, 0) },
            MoveEvent { entity: second, destination: at(2, 0) },
            MoveEvent { entity: block, destination: at(3, 0) },
        ]
    );
    handle_move_player_event(&mut world, Direction::East, &events);
    assert_eq!(position(&world, first), at(1, 0));
    assert_eq!(position(&world, second), at(2, 0));
    assert_eq!(position(&world, block), at(3, 0));
    // Pushed from the other end the row is recorded in the order in which
    // the players are looked at, each body once.
    sokoban_core::moves::move_complete_listener(&mut world);
    update_moveable_neighbors(&mut world);
    let mut selection = first_level();
    let events = tick(&mut world, InputEvent::Move(Direction::North), &mut selection);
    assert_eq!(
        events,
        vec![
            MoveEvent { entity: first, destination: at(1, 1) },
            MoveEvent { entity: second, destination: at(2, 1) },
        ]
    );
}

#[test]
fn goal_advances_level_once_per_tick() {
    let goals = vec![at(1, 0), at(1, 2)];
    let mut world = World::new(LevelWalls::new(3, 3, &Vec::new()), goals);
    world.spawn_player(at(0, 0)).unwrap();
    world.spawn_player(at(0, 2)).unwrap();
    update_moveable_neighbors(&mut world);
    let mut selection = LevelSelection::Indices(LevelIndices { world: Some(1), level: 4 });
    // Both players reach a goal in the same tick.
    let events = tick(&mut world, InputEvent::Move(Direction::East), &mut selection);
    assert_eq!(events.len(), 2);
    assert_eq!(selection, LevelSelection::Indices(LevelIndices { world: Some(1), level: 5 }));
    // Standing on the goal without moving does not advance again.
    let events = tick(&mut world, InputEvent::Move(Direction::East), &mut selection);
    assert!(events.is_empty());
    assert_eq!(selection, LevelSelection::Indices(LevelIndices { world: Some(1), level: 5 }));
}

#[test]
fn block_on_goal_does_not_advance() {
    let goals = vec![at(2, 0)];
    let mut world = World::new(LevelWalls::new(4, 1, &Vec::new()), goals);
    world.spawn_player(at(0, 0)).unwrap();
    world.spawn_block(at(1, 0), true, false).unwrap();
    update_moveable_neighbors(&mut world);
    let mut selection = first_level();
    let events = tick(&mut world, InputEvent::Move(Direction::East), &mut selection);
    assert_eq!(events.len(), 2);
    assert_eq!(selection, first_level());
    sokoban_core::moves::move_complete_listener(&mut world);
    let events = tick(&mut world, InputEvent::Move(Direction::East), &mut selection);
    assert_eq!(events.len(), 2);
    assert_eq!(selection, LevelSelection::Indices(LevelIndices { world: None, level: 1 }));
}

#[test]
fn no_two_bodies_share_a_cell_after_ticks() {
    let walls = vec![at(3, 3)];
    let mut world = World::new(LevelWalls::new(6, 6, &walls), Vec::new());
    world.spawn_player(at(1, 1)).unwrap();
    world.spawn_player(at(4, 1)).unwrap();
    world.spawn_block(at(2, 1), true, true).unwrap();
    world.spawn_block(at(3, 1), true, false).unwrap();
    world.spawn_block(at(1, 2), false, true).unwrap();
    world.spawn_block(at(4, 4), true, true).unwrap();
    update_moveable_neighbors(&mut world);
    let mut selection = first_level();
    let inputs = [
        InputEvent::Move(Direction::East),
        InputEvent::Move(Direction::North),
        InputEvent::Grab,
        InputEvent::Move(Direction::West),
        InputEvent::Move(Direction::South),
        InputEvent::Release,
        InputEvent::Move(Direction::North),
        InputEvent::Move(Direction::East),
        InputEvent::Move(Direction::East),
        InputEvent::Move(Direction::South),
        InputEvent::Move(Direction::West),
        InputEvent::Move(Direction::West),
    ];
    for input in inputs {
        tick(&mut world, input, &mut selection);
        sokoban_core::moves::move_complete_listener(&mut world);
        for i in 0..world.len() {
            let here = position(&world, i);
            assert!(!world.level_walls().in_wall(&here));
            for j in 0..i {
                assert_ne!(here, position(&world, j));
            }
        }
    }
}
