use sokoban_core::coords::{
    get_movement_coords_from_direction, get_movement_coords_from_input, get_neighbor_direction,
    GridCoord,
};
use sokoban_core::direction::{
    get_movement_direction_from_input, get_reversed_direction, is_along_axis, Direction,
};
use sokoban_core::facing::{turn_player_from_input, update_player_facing_direction, SpriteFrame};
use sokoban_core::grab::{grab_from_held_input, ungrab_from_release_input};
use sokoban_core::level_walls::{cache_wall_locations, LevelWalls, GRID_SIZE};
use sokoban_core::neighbors::update_moveable_neighbors;
use sokoban_core::world::{BodyKind, Movable, SpawnError, World};

fn at(x: i32, y: i32) -> GridCoord {
    GridCoord::new(x, y)
}

fn facing(world: &World, entity: usize) -> Direction {
    match world.get(entity).unwrap().kind {
        BodyKind::Player(p) => p.face_direction,
        BodyKind::Block(_) => panic!("not a player"),
    }
}

#[test]
fn reversed_directions() {
    assert_eq!(get_reversed_direction(Direction::North), Direction::South);
    assert_eq!(get_reversed_direction(Direction::South), Direction::North);
    assert_eq!(get_reversed_direction(Direction::East), Direction::West);
    assert_eq!(get_reversed_direction(Direction::West), Direction::East);
    assert_eq!(get_reversed_direction(Direction::Still), Direction::Still);
    assert!(is_along_axis(Direction::North, Direction::South));
    assert!(is_along_axis(Direction::East, Direction::East));
    assert!(!is_along_axis(Direction::East, Direction::North));
    assert!(!is_along_axis(Direction::North, Direction::Still));
}

#[test]
fn keys_decide_in_order() {
    assert_eq!(get_movement_direction_from_input(true, true, true, true), Direction::North);
    assert_eq!(get_movement_direction_from_input(false, true, true, true), Direction::West);
    assert_eq!(get_movement_direction_from_input(false, false, true, true), Direction::South);
    assert_eq!(get_movement_direction_from_input(false, false, false, true), Direction::East);
    assert_eq!(get_movement_direction_from_input(false, false, false, false), Direction::Still);
    assert_eq!(get_movement_coords_from_input(true, false, false, false), Some(at(0, 1)));
    assert_eq!(get_movement_coords_from_input(false, true, false, true), Some(at(-1, 0)));
    assert_eq!(get_movement_coords_from_input(false, false, false, false), None);
}

#[test]
fn unit_offsets() {
    assert_eq!(get_movement_coords_from_direction(Direction::North), Some(at(0, 1)));
    assert_eq!(get_movement_coords_from_direction(Direction::East), Some(at(1, 0)));
    assert_eq!(get_movement_coords_from_direction(Direction::South), Some(at(0, -1)));
    assert_eq!(get_movement_coords_from_direction(Direction::West), Some(at(-1, 0)));
    assert_eq!(get_movement_coords_from_direction(Direction::Still), None);
    assert_eq!(at(3, 4).step(Direction::North), at(3, 5));
    assert_eq!(at(3, 4).step(Direction::West), at(2, 4));
    assert_eq!(at(3, 4).step(Direction::Still), at(3, 4));
    assert_eq!(at(i32::MAX, 0).checked_step(Direction::East), None);
    assert_eq!(at(0, i32::MIN).checked_step(Direction::South), None);
    assert_eq!(at(0, i32::MIN).checked_step(Direction::North), Some(at(0, i32::MIN + 1)));
}

#[test]
fn neighbor_directions() {
    let origin = at(2, 2);
    assert_eq!(get_neighbor_direction(&origin, &at(2, 3)), Direction::North);
    assert_eq!(get_neighbor_direction(&origin, &at(3, 2)), Direction::East);
    assert_eq!(get_neighbor_direction(&origin, &at(2, 1)), Direction::South);
    assert_eq!(get_neighbor_direction(&origin, &at(1, 2)), Direction::West);
    assert_eq!(get_neighbor_direction(&origin, &at(2, 2)), Direction::Still);
    assert_eq!(get_neighbor_direction(&origin, &at(3, 3)), Direction::Still);
    assert_eq!(get_neighbor_direction(&origin, &at(2, 4)), Direction::Still);
    assert_eq!(
        get_neighbor_direction(&at(0, i32::MAX), &at(0, i32::MIN)),
        Direction::Still
    );
}

#[test]
fn walls_and_bounds_block() {
    let walls = vec![at(1, 1), at(7, 7), at(-3, 2), at(1, 1)];
    let level = LevelWalls::new(3, 2, &walls);
    assert_eq!(level.level_width(), 3);
    assert_eq!(level.level_height(), 2);
    assert!(level.in_wall(&at(1, 1)));
    assert!(!level.in_wall(&at(0, 0)));
    assert!(!level.in_wall(&at(2, 1)));
    assert!(!level.in_wall(&at(1, 0)));
    assert!(level.in_wall(&at(3, 0)));
    assert!(level.in_wall(&at(0, 2)));
    assert!(level.in_wall(&at(-1, 0)));
    assert!(level.in_wall(&at(0, -1)));
    assert!(level.in_wall(&at(i32::MAX, i32::MIN)));
    // Two cells whose coordinates are swapped are kept apart.
    let level = LevelWalls::new(4, 4, &vec![at(1, 2)]);
    assert!(level.in_wall(&at(1, 2)));
    assert!(!level.in_wall(&at(2, 1)));
}

#[test]
fn level_size_from_pixels() {
    assert_eq!(GRID_SIZE, 16);
    let level = cache_wall_locations(80, 47, &vec![at(0, 0)]);
    assert_eq!(level.level_width(), 5);
    assert_eq!(level.level_height(), 2);
    assert!(level.in_wall(&at(0, 0)));
    assert!(!level.in_wall(&at(4, 1)));
    assert!(level.in_wall(&at(4, 2)));
    let level = cache_wall_locations(-17, 15, &Vec::new());
    assert_eq!(level.level_width(), -1);
    assert_eq!(level.level_height(), 0);
    assert!(level.in_wall(&at(0, 0)));
}

#[test]
fn spawning_checks_the_cell() {
    let mut world = World::new(LevelWalls::new(3, 3, &vec![at(1, 1)]), Vec::new());
    assert_eq!(world.len(), 0);
    assert_eq!(world.spawn_player(at(1, 1)), Err(SpawnError::InWall));
    assert_eq!(world.spawn_block(at(3, 0), true, true), Err(SpawnError::InWall));
    assert_eq!(world.spawn_player(at(0, 0)), Ok(0));
    assert_eq!(world.spawn_block(at(0, 0), true, true), Err(SpawnError::Occupied));
    assert_eq!(world.spawn_player(at(0, 0)), Err(SpawnError::Occupied));
    assert_eq!(world.spawn_block(at(0, 1), true, false), Ok(1));
    assert_eq!(world.len(), 2);
    assert!(world.is_occupied(&at(0, 1)));
    assert!(!world.is_occupied(&at(2, 2)));
    assert!(world.get(2).is_none());
    let player = world.get(0).unwrap();
    assert_eq!(player.position, at(0, 0));
    assert!(!player.is_moving);
    assert_eq!(facing(&world, 0), Direction::East);
    assert_eq!(world.body(1).position, at(0, 1));
    assert_eq!(world.goals().len(), 0);
}

#[test]
fn neighbors_are_rebuilt_from_positions() {
    let mut world = World::new(LevelWalls::new(5, 5, &Vec::new()), Vec::new());
    let centre = world.spawn_player(at(2, 2)).unwrap();
    let north = world.spawn_block(at(2, 3), true, true).unwrap();
    let east = world.spawn_block(at(3, 2), true, true).unwrap();
    let south = world.spawn_block(at(2, 1), true, true).unwrap();
    let west = world.spawn_player(at(1, 2)).unwrap();
    let far = world.spawn_block(at(4, 4), true, true).unwrap();
    assert_eq!(world.get(centre).unwrap().movable.neighbor(Direction::North), None);
    update_moveable_neighbors(&mut world);
    assert_eq!(
        world.get(centre).unwrap().movable,
        Movable {
            north_neighbor: Some(north),
            east_neighbor: Some(east),
            south_neighbor: Some(south),
            west_neighbor: Some(west),
        }
    );
    assert_eq!(world.get(north).unwrap().movable.neighbor(Direction::South), Some(centre));
    assert_eq!(world.get(north).unwrap().movable.neighbor(Direction::North), None);
    assert_eq!(world.get(west).unwrap().movable.neighbor(Direction::East), Some(centre));
    assert_eq!(world.get(centre).unwrap().movable.neighbor(Direction::Still), None);
    assert_eq!(world.get(far).unwrap().movable, Movable::alone());
}

#[test]
fn grab_needs_a_facing_player_and_a_free_block() {
    let mut world = World::new(LevelWalls::new(5, 5, &Vec::new()), Vec::new());
    // Two players face the same block from west and from south.
    let west = world.spawn_player(at(1, 2)).unwrap();
    let south = world.spawn_player(at(2, 1)).unwrap();
    let block = world.spawn_block(at(2, 2), true, false).unwrap();
    // A block that is neither pushable nor pullable cannot be grabbed.
    let third = world.spawn_player(at(0, 0)).unwrap();
    let inert = world.spawn_block(at(1, 0), false, false).unwrap();
    update_moveable_neighbors(&mut world);
    grab_from_held_input(&mut world);
    let holder = match world.get(block).unwrap().kind {
        BodyKind::Block(b) => b.grabbed.unwrap(),
        BodyKind::Player(_) => panic!("not a block"),
    };
    assert_eq!(holder.player, west);
    assert_eq!(holder.direction, Direction::East);
    for (entity, expected) in [(west, Some(block)), (south, None), (third, None)] {
        match world.get(entity).unwrap().kind {
            BodyKind::Player(p) => assert_eq!(p.grabbing.map(|g| g.block), expected),
            BodyKind::Block(_) => panic!("not a player"),
        }
    }
    match world.get(inert).unwrap().kind {
        BodyKind::Block(b) => assert!(b.grabbed.is_none()),
        BodyKind::Player(_) => panic!("not a block"),
    }
    // While a block is held nobody turns.
    turn_player_from_input(&mut world, Direction::North);
    assert_eq!(facing(&world, south), Direction::East);
    ungrab_from_release_input(&mut world);
    match world.get(block).unwrap().kind {
        BodyKind::Block(b) => assert!(b.grabbed.is_none()),
        BodyKind::Player(_) => panic!("not a block"),
    }
    turn_player_from_input(&mut world, Direction::North);
    assert_eq!(facing(&world, south), Direction::North);
    assert_eq!(facing(&world, west), Direction::North);
    turn_player_from_input(&mut world, Direction::Still);
    assert_eq!(facing(&world, west), Direction::North);
    // Now the southern player faces the block and takes it.
    grab_from_held_input(&mut world);
    match world.get(block).unwrap().kind {
        BodyKind::Block(b) => {
            assert_eq!(b.grabbed.unwrap().player, south);
            assert_eq!(b.grabbed.unwrap().direction, Direction::North);
        }
        BodyKind::Player(_) => panic!("not a block"),
    }
}

#[test]
fn sprite_frames() {
    let mut sprite = SpriteFrame { index: 9, flip_x: false };
    update_player_facing_direction(Direction::North, &mut sprite);
    assert_eq!(sprite, SpriteFrame { index: 2, flip_x: false });
    update_player_facing_direction(Direction::East, &mut sprite);
    assert_eq!(sprite, SpriteFrame { index: 1, flip_x: true });
    update_player_facing_direction(Direction::South, &mut sprite);
    assert_eq!(sprite, SpriteFrame { index: 0, flip_x: true });
    update_player_facing_direction(Direction::West, &mut sprite);
    assert_eq!(sprite, SpriteFrame { index: 1, flip_x: false });
    update_player_facing_direction(Direction::Still, &mut sprite);
    assert_eq!(sprite, SpriteFrame { index: 1, flip_x: true });
}
