use rust_sokoban::components::{BoxColor, Position};
use rust_sokoban::constants::{MAP_HEIGHT, MAP_WIDTH};
use rust_sokoban::entities::{create_box, create_box_spot, create_floor, create_player, create_wall};
use rust_sokoban::events::{EntityMoved, Event};
use rust_sokoban::resources::{Direction, GameplayState};
use rust_sokoban::systems::input_system::{next_cell, resolve_move, InputSystem};
use rust_sokoban::world::{Components, World};

fn at(x: u8, y: u8) -> Position {
    Position { x, y, z: 0 }
}

fn cell(world: &World, id: usize) -> (u8, u8) {
    let p = world.position(id).unwrap();
    (p.x, p.y)
}

fn moved(id: usize) -> Event {
    Event::EntityMoved(EntityMoved { id })
}

#[test]
fn the_grid_has_its_size() {
    assert_eq!(MAP_WIDTH, 8);
    assert_eq!(MAP_HEIGHT, 9);
}

#[test]
fn next_cell_steps_in_each_direction() {
    assert_eq!(next_cell(Direction::Up, 3, 4), Some((3, 3)));
    assert_eq!(next_cell(Direction::Down, 3, 4), Some((3, 5)));
    assert_eq!(next_cell(Direction::Left, 3, 4), Some((2, 4)));
    assert_eq!(next_cell(Direction::Right, 3, 4), Some((4, 4)));
}

#[test]
fn next_cell_ends_at_the_edges() {
    assert_eq!(next_cell(Direction::Up, 3, 0), None);
    assert_eq!(next_cell(Direction::Left, 0, 4), None);
    assert_eq!(next_cell(Direction::Down, 3, 8), Some((3, 9)));
    assert_eq!(next_cell(Direction::Down, 3, 9), None);
    assert_eq!(next_cell(Direction::Right, 7, 4), Some((8, 4)));
    assert_eq!(next_cell(Direction::Right, 8, 4), None);
    assert_eq!(next_cell(Direction::Right, 200, 4), None);
}

#[test]
fn player_alone_moves_one_cell_each_way() {
    let cases = [
        (Direction::Up, (4, 3)),
        (Direction::Down, (4, 5)),
        (Direction::Left, (3, 4)),
        (Direction::Right, (5, 4)),
    ];
    for (direction, expected) in cases {
        let mut world = World::new();
        create_floor(&mut world, at(4, 4));
        create_player(&mut world, at(4, 4));
        resolve_move(&mut world, direction);
        assert_eq!(cell(&world, 1), expected);
        assert_eq!(cell(&world, 0), (4, 4));
        assert_eq!(world.position(1).unwrap().z, 10);
        assert_eq!(world.event_queue.events, vec![moved(1)]);
        assert_eq!(world.gameplay.moves_count, 1);
    }
}

#[test]
fn box_is_pushed_ahead_of_the_player() {
    let mut world = World::new();
    create_player(&mut world, at(4, 4));
    create_box(&mut world, at(4, 3), BoxColor::Red);
    create_box(&mut world, at(6, 6), BoxColor::Blue);
    resolve_move(&mut world, Direction::Up);
    assert_eq!(cell(&world, 0), (4, 3));
    assert_eq!(cell(&world, 1), (4, 2));
    assert_eq!(cell(&world, 2), (6, 6));
    assert_eq!(world.event_queue.events, vec![moved(0), moved(1)]);
    assert_eq!(world.gameplay.moves_count, 1);
}

#[test]
fn chained_push_moves_player_and_both_boxes() {
    let mut world = World::new();
    create_player(&mut world, at(1, 1));
    create_box(&mut world, at(2, 1), BoxColor::Blue);
    create_box(&mut world, at(3, 1), BoxColor::Red);
    resolve_move(&mut world, Direction::Right);
    assert_eq!(cell(&world, 0), (2, 1));
    assert_eq!(cell(&world, 1), (3, 1));
    assert_eq!(cell(&world, 2), (4, 1));
    assert_eq!(world.event_queue.events, vec![moved(0), moved(1), moved(2)]);
    assert_eq!(world.gameplay.moves_count, 1);
    assert_eq!(world.gameplay.state, GameplayState::Playing);
}

#[test]
fn chained_push_against_a_wall_moves_nothing() {
    let mut world = World::new();
    create_player(&mut world, at(1, 1));
    create_box(&mut world, at(2, 1), BoxColor::Blue);
    create_box(&mut world, at(3, 1), BoxColor::Red);
    create_wall(&mut world, at(4, 1));
    create_box_spot(&mut world, at(6, 6), BoxColor::Red);
    resolve_move(&mut world, Direction::Right);
    assert_eq!(cell(&world, 0), (1, 1));
    assert_eq!(cell(&world, 1), (2, 1));
    assert_eq!(cell(&world, 2), (3, 1));
    assert_eq!(world.event_queue.events, vec![Event::PlayerHitObstacle]);
    assert_eq!(world.gameplay.moves_count, 0);
}

#[test]
fn box_against_a_wall_stays_and_one_obstacle_event_is_queued() {
    let mut world = World::new();
    create_wall(&mut world, at(3, 2));
    create_box(&mut world, at(3, 3), BoxColor::Blue);
    create_player(&mut world, at(3, 4));
    resolve_move(&mut world, Direction::Up);
    assert_eq!(cell(&world, 1), (3, 3));
    assert_eq!(cell(&world, 2), (3, 4));
    assert_eq!(world.event_queue.events, vec![Event::PlayerHitObstacle]);
    assert_eq!(world.gameplay.moves_count, 0);
}

#[test]
fn player_against_a_wall_stays() {
    let mut world = World::new();
    create_player(&mut world, at(1, 1));
    create_wall(&mut world, at(0, 1));
    resolve_move(&mut world, Direction::Left);
    assert_eq!(cell(&world, 0), (1, 1));
    assert_eq!(world.event_queue.events, vec![Event::PlayerHitObstacle]);
    assert_eq!(world.gameplay.moves_count, 0);
}

#[test]
fn scan_stops_at_the_wall() {
    let mut world = World::new();
    create_player(&mut world, at(1, 1));
    create_wall(&mut world, at(2, 1));
    create_box(&mut world, at(3, 1), BoxColor::Blue);
    create_wall(&mut world, at(4, 1));
    resolve_move(&mut world, Direction::Right);
    assert_eq!(cell(&world, 0), (1, 1));
    assert_eq!(cell(&world, 2), (3, 1));
    assert_eq!(world.event_queue.events, vec![Event::PlayerHitObstacle]);
    assert_eq!(world.gameplay.moves_count, 0);
}

#[test]
fn player_on_the_edge_stays_without_an_event() {
    let cases = [
        (Direction::Up, at(3, 0)),
        (Direction::Left, at(0, 3)),
        (Direction::Down, at(3, MAP_HEIGHT)),
        (Direction::Right, at(MAP_WIDTH, 3)),
    ];
    for (direction, start) in cases {
        let mut world = World::new();
        create_player(&mut world, start);
        resolve_move(&mut world, direction);
        assert_eq!(cell(&world, 0), (start.x, start.y));
        assert_eq!(world.event_queue.events, vec![]);
        assert_eq!(world.gameplay.moves_count, 0);
    }
}

#[test]
fn chain_up_to_the_edge_stays_without_an_event() {
    let mut world = World::new();
    create_player(&mut world, at(1, 5));
    create_box(&mut world, at(0, 5), BoxColor::Blue);
    resolve_move(&mut world, Direction::Left);
    assert_eq!(cell(&world, 0), (1, 5));
    assert_eq!(cell(&world, 1), (0, 5));
    assert_eq!(world.event_queue.events, vec![]);
    assert_eq!(world.gameplay.moves_count, 0);
}

#[test]
fn player_moves_onto_the_last_cell_of_the_grid() {
    let mut world = World::new();
    create_player(&mut world, at(7, 8));
    resolve_move(&mut world, Direction::Right);
    assert_eq!(cell(&world, 0), (8, 8));
    resolve_move(&mut world, Direction::Down);
    assert_eq!(cell(&world, 0), (8, 9));
    assert_eq!(world.gameplay.moves_count, 2);
}

#[test]
fn floor_and_spots_do_not_stop_a_push() {
    let mut world = World::new();
    create_floor(&mut world, at(2, 2));
    create_box_spot(&mut world, at(2, 2), BoxColor::Red);
    create_player(&mut world, at(1, 2));
    resolve_move(&mut world, Direction::Right);
    assert_eq!(cell(&world, 2), (2, 2));
    assert_eq!(cell(&world, 0), (2, 2));
    assert_eq!(cell(&world, 1), (2, 2));
    assert_eq!(world.event_queue.events, vec![moved(2)]);
}

#[test]
fn of_two_movables_on_a_cell_the_later_one_is_pushed() {
    let mut world = World::new();
    create_player(&mut world, at(1, 1));
    create_box(&mut world, at(2, 1), BoxColor::Blue);
    create_box(&mut world, at(2, 1), BoxColor::Red);
    resolve_move(&mut world, Direction::Right);
    assert_eq!(cell(&world, 0), (2, 1));
    assert_eq!(cell(&world, 1), (2, 1));
    assert_eq!(cell(&world, 2), (3, 1));
    assert_eq!(world.event_queue.events, vec![moved(0), moved(2)]);
}

#[test]
fn without_a_player_nothing_moves() {
    let mut world = World::new();
    create_box(&mut world, at(2, 1), BoxColor::Blue);
    resolve_move(&mut world, Direction::Right);
    assert_eq!(cell(&world, 0), (2, 1));
    assert_eq!(world.event_queue.events, vec![]);
    assert_eq!(world.gameplay.moves_count, 0);
}

#[test]
fn player_without_a_position_does_not_count() {
    let mut world = World::new();
    let mut ghost = Components::none();
    ghost.player = Some(rust_sokoban::components::Player {});
    world.create_entity(ghost);
    create_player(&mut world, at(5, 5));
    resolve_move(&mut world, Direction::Down);
    assert_eq!(world.position(0), None);
    assert_eq!(cell(&world, 1), (5, 6));
    assert_eq!(world.event_queue.events, vec![moved(1)]);
}

#[test]
fn of_two_players_the_first_is_steered() {
    let mut world = World::new();
    create_player(&mut world, at(1, 1));
    create_player(&mut world, at(5, 5));
    resolve_move(&mut world, Direction::Down);
    assert_eq!(cell(&world, 0), (1, 2));
    assert_eq!(cell(&world, 1), (5, 5));
}

#[test]
fn counter_goes_up_once_for_each_move_that_moved_something() {
    let mut world = World::new();
    create_wall(&mut world, at(0, 1));
    create_player(&mut world, at(1, 1));
    create_box(&mut world, at(2, 1), BoxColor::Blue);
    resolve_move(&mut world, Direction::Left);
    assert_eq!(world.gameplay.moves_count, 0);
    resolve_move(&mut world, Direction::Right);
    assert_eq!(world.gameplay.moves_count, 1);
    resolve_move(&mut world, Direction::Right);
    assert_eq!(world.gameplay.moves_count, 2);
    resolve_move(&mut world, Direction::Up);
    resolve_move(&mut world, Direction::Up);
    assert_eq!(cell(&world, 1), (3, 0));
    assert_eq!(world.gameplay.moves_count, 3);
    resolve_move(&mut world, Direction::Up);
    assert_eq!(world.gameplay.moves_count, 3);
}

#[test]
fn input_pass_takes_the_input_queued_last() {
    let mut world = World::new();
    create_player(&mut world, at(4, 4));
    world.input_queue.keys_pressed.push(Direction::Up);
    world.input_queue.keys_pressed.push(Direction::Left);
    let mut pass = InputSystem {};
    pass.run(&mut world);
    assert_eq!(cell(&world, 0), (3, 4));
    assert_eq!(world.input_queue.keys_pressed, vec![Direction::Up]);
    pass.run(&mut world);
    assert_eq!(cell(&world, 0), (3, 3));
    assert_eq!(world.input_queue.keys_pressed, vec![]);
    pass.run(&mut world);
    assert_eq!(cell(&world, 0), (3, 3));
    assert_eq!(world.gameplay.moves_count, 2);
}

#[test]
fn input_pass_without_a_player_leaves_the_input_queued() {
    let mut world = World::new();
    create_box(&mut world, at(4, 4), BoxColor::Blue);
    world.input_queue.keys_pressed.push(Direction::Up);
    let mut pass = InputSystem {};
    pass.run(&mut world);
    assert_eq!(world.input_queue.keys_pressed, vec![Direction::Up]);
    assert_eq!(cell(&world, 0), (4, 4));
    assert_eq!(world.event_queue.events, vec![]);
}

#[test]
fn a_move_keeps_everything_but_the_movers_as_it_was() {
    let mut world = World::new();
    create_floor(&mut world, at(1, 1));
    create_wall(&mut world, at(1, 0));
    create_player(&mut world, at(1, 1));
    create_box(&mut world, at(1, 2), BoxColor::Red);
    create_box(&mut world, at(5, 2), BoxColor::Red);
    resolve_move(&mut world, Direction::Down);
    assert_eq!(world.entities.len(), 5);
    assert_eq!(cell(&world, 0), (1, 1));
    assert_eq!(cell(&world, 1), (1, 0));
    assert_eq!(cell(&world, 2), (1, 2));
    assert_eq!(cell(&world, 3), (1, 3));
    assert_eq!(cell(&world, 4), (5, 2));
    assert!(world.entities[2].player.is_some());
    assert!(world.entities[2].holds(rust_sokoban::world::Kind::Movable));
    assert_eq!(world.the_box(3).unwrap().color, BoxColor::Red);
    assert_eq!(world.entities[3].renderable.as_ref().unwrap().frame_count(), 2);
    assert_eq!(world.gameplay.state, GameplayState::Playing);
}
