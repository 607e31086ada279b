use rust_sokoban::components::{BoxColor, Position};
use rust_sokoban::entities::{create_box, create_box_spot, create_player};
use rust_sokoban::events::Event;
use rust_sokoban::resources::GameplayState;
use rust_sokoban::systems::game_play_state_system::GameplayStateSystem;
use rust_sokoban::world::World;

fn on(x: u8, y: u8) -> Position {
    Position { x, y, z: 0 }
}

fn judge(world: &mut World) {
    let mut pass = GameplayStateSystem {};
    pass.run(world);
}

#[test]
fn every_spot_under_a_box_of_its_color_wins() {
    let mut world = World::new();
    create_box_spot(&mut world, on(1, 1), BoxColor::Blue);
    create_box_spot(&mut world, on(2, 2), BoxColor::Red);
    create_box(&mut world, on(2, 2), BoxColor::Red);
    create_box(&mut world, on(1, 1), BoxColor::Blue);
    create_player(&mut world, on(5, 5));
    judge(&mut world);
    assert_eq!(world.gameplay.state, GameplayState::Won);
    assert_eq!(world.event_queue.events, vec![Event::GameOver]);
    assert_eq!(world.gameplay.moves_count, 0);
}

#[test]
fn a_world_without_spots_is_won() {
    let mut world = World::new();
    create_box(&mut world, on(2, 2), BoxColor::Red);
    judge(&mut world);
    assert_eq!(world.gameplay.state, GameplayState::Won);
    assert_eq!(world.event_queue.events, vec![Event::GameOver]);
}

#[test]
fn a_bare_spot_means_playing() {
    let mut world = World::new();
    create_box_spot(&mut world, on(1, 1), BoxColor::Blue);
    create_box_spot(&mut world, on(2, 2), BoxColor::Red);
    create_box(&mut world, on(1, 1), BoxColor::Blue);
    create_box(&mut world, on(3, 2), BoxColor::Red);
    world.gameplay.state = GameplayState::Won;
    judge(&mut world);
    assert_eq!(world.gameplay.state, GameplayState::Playing);
    assert_eq!(world.event_queue.events, vec![]);
}

#[test]
fn a_box_of_another_color_leaves_the_phase_as_it_was() {
    for phase in [GameplayState::Playing, GameplayState::Won] {
        let mut world = World::new();
        create_box_spot(&mut world, on(1, 1), BoxColor::Blue);
        create_box(&mut world, on(1, 1), BoxColor::Red);
        world.gameplay.state = phase;
        judge(&mut world);
        assert_eq!(world.gameplay.state, phase);
        assert_eq!(world.event_queue.events, vec![]);
    }
}

#[test]
fn the_first_spot_that_is_not_covered_rightly_decides() {
    let mut world = World::new();
    create_box_spot(&mut world, on(1, 1), BoxColor::Blue);
    create_box_spot(&mut world, on(2, 2), BoxColor::Red);
    create_box(&mut world, on(1, 1), BoxColor::Red);
    world.gameplay.state = GameplayState::Won;
    judge(&mut world);
    assert_eq!(world.gameplay.state, GameplayState::Won);

    let mut world = World::new();
    create_box_spot(&mut world, on(2, 2), BoxColor::Red);
    create_box_spot(&mut world, on(1, 1), BoxColor::Blue);
    create_box(&mut world, on(1, 1), BoxColor::Red);
    world.gameplay.state = GameplayState::Won;
    judge(&mut world);
    assert_eq!(world.gameplay.state, GameplayState::Playing);
}

#[test]
fn of_two_boxes_on_a_spot_the_later_one_counts() {
    let mut world = World::new();
    create_box_spot(&mut world, on(1, 1), BoxColor::Blue);
    create_box(&mut world, on(1, 1), BoxColor::Red);
    create_box(&mut world, on(1, 1), BoxColor::Blue);
    judge(&mut world);
    assert_eq!(world.gameplay.state, GameplayState::Won);
}

#[test]
fn the_win_pass_keeps_waiting_events() {
    let mut world = World::new();
    world.event_queue.events.push(Event::PlayerHitObstacle);
    judge(&mut world);
    assert_eq!(world.event_queue.events, vec![Event::PlayerHitObstacle, Event::GameOver]);
}
