use rust_sokoban::audio::Sound;
use rust_sokoban::components::{BoxColor, Position};
use rust_sokoban::entities::{create_box, create_box_spot, create_player, create_wall};
use rust_sokoban::events::{BoxPlacedOnSpot, EntityMoved, Event};
use rust_sokoban::resources::{Direction, GameplayState};
use rust_sokoban::systems::event_system::{Effect, EventSystem};
use rust_sokoban::systems::game_play_state_system::GameplayStateSystem;
use rust_sokoban::systems::input_system::InputSystem;
use rust_sokoban::world::{Kind, World};
use rust_sokoban::{create_game, Game, MAP};

fn place(x: u8, y: u8) -> Position {
    Position { x, y, z: 0 }
}

fn row_with_one_box() -> Game {
    let mut world = World::new();
    create_wall(&mut world, place(0, 1));
    create_player(&mut world, place(1, 1));
    create_box(&mut world, place(2, 1), BoxColor::Blue);
    create_box_spot(&mut world, place(3, 1), BoxColor::Blue);
    create_wall(&mut world, place(4, 1));
    Game::new(world)
}

fn xy(game: &Game, id: usize) -> (u8, u8) {
    let p = game.world().position(id).unwrap();
    (p.x, p.y)
}

#[test]
fn pushing_the_box_onto_its_spot_wins_the_game() {
    let mut game = row_with_one_box();
    let asked = game.resolve_tick(Some(Direction::Right));
    assert_eq!(xy(&game, 1), (2, 1));
    assert_eq!(xy(&game, 2), (3, 1));
    assert_eq!(game.world().gameplay.state, GameplayState::Won);
    assert_eq!(game.world().gameplay.moves_count, 1);
    assert_eq!(asked, vec![Effect::Quit, Effect::PlaySound(Sound::Correct)]);
    assert_eq!(game.world().event_queue.events, vec![]);
}

#[test]
fn pushing_the_box_onto_a_spot_of_another_color_does_not_win() {
    let mut world = World::new();
    create_player(&mut world, place(1, 1));
    create_box(&mut world, place(2, 1), BoxColor::Red);
    create_box_spot(&mut world, place(3, 1), BoxColor::Blue);
    let mut game = Game::new(world);
    let asked = game.resolve_tick(Some(Direction::Right));
    assert_eq!(xy(&game, 1), (3, 1));
    assert_eq!(game.world().gameplay.state, GameplayState::Playing);
    assert_eq!(asked, vec![Effect::PlaySound(Sound::Incorrect)]);
}

#[test]
fn moving_the_box_off_its_spot_goes_back_to_playing() {
    let mut game = row_with_one_box();
    game.resolve_tick(Some(Direction::Right));
    assert_eq!(game.world().gameplay.state, GameplayState::Won);
    let asked = game.resolve_tick(Some(Direction::Right));
    assert_eq!(asked, vec![Effect::PlaySound(Sound::Wall), Effect::Quit]);
    assert_eq!(game.world().gameplay.state, GameplayState::Won);

    let mut world = World::new();
    create_player(&mut world, place(1, 1));
    create_box(&mut world, place(2, 1), BoxColor::Blue);
    create_box_spot(&mut world, place(2, 1), BoxColor::Blue);
    let mut game = Game::new(world);
    assert_eq!(game.resolve_tick(None), vec![Effect::Quit]);
    assert_eq!(game.world().gameplay.state, GameplayState::Won);
    let asked = game.resolve_tick(Some(Direction::Right));
    assert_eq!(xy(&game, 1), (3, 1));
    assert_eq!(game.world().gameplay.state, GameplayState::Playing);
    assert_eq!(asked, vec![]);
    assert_eq!(game.world().gameplay.moves_count, 1);
}

#[test]
fn a_tick_without_input_changes_nothing() {
    let mut game = row_with_one_box();
    for _ in 0..3 {
        let asked = game.resolve_tick(None);
        assert_eq!(asked, vec![]);
        assert_eq!(xy(&game, 1), (1, 1));
        assert_eq!(xy(&game, 2), (2, 1));
        assert_eq!(game.world().gameplay.state, GameplayState::Playing);
        assert_eq!(game.world().gameplay.moves_count, 0);
        assert_eq!(game.world().event_queue.events, vec![]);
    }
}

#[test]
fn a_tick_without_input_in_a_won_game_asks_to_quit_again() {
    let mut game = row_with_one_box();
    game.resolve_tick(Some(Direction::Right));
    let asked = game.resolve_tick(None);
    assert_eq!(asked, vec![Effect::Quit]);
    assert_eq!(game.world().gameplay.state, GameplayState::Won);
    assert_eq!(game.world().gameplay.moves_count, 1);
    assert_eq!(xy(&game, 2), (3, 1));
}

#[test]
fn a_blocked_push_asks_for_the_wall_sound_once() {
    let mut game = row_with_one_box();
    let asked = game.resolve_tick(Some(Direction::Left));
    assert_eq!(asked, vec![Effect::PlaySound(Sound::Wall)]);
    assert_eq!(xy(&game, 1), (1, 1));
    assert_eq!(game.world().gameplay.moves_count, 0);
}

#[test]
fn update_acts_on_the_input_submitted_last_and_counts_the_time() {
    let mut game = row_with_one_box();
    game.submit_input(Direction::Up);
    game.submit_input(Direction::Down);
    assert_eq!(
        game.world().input_queue.keys_pressed,
        vec![Direction::Up, Direction::Down]
    );
    let asked = game.update(16_000_000);
    assert_eq!(asked, vec![]);
    assert_eq!(xy(&game, 1), (1, 2));
    assert_eq!(game.world().time.delta, 16_000_000);
    assert_eq!(game.world().input_queue.keys_pressed, vec![Direction::Up]);
    game.update(4_000_000);
    assert_eq!(xy(&game, 1), (1, 1));
    assert_eq!(game.world().time.delta, 20_000_000);
    game.update(1);
    assert_eq!(xy(&game, 1), (1, 1));
    assert_eq!(game.world().time.delta, 20_000_001);
    assert_eq!(game.world().gameplay.moves_count, 2);
}

#[test]
fn update_wins_the_game_like_a_tick() {
    let mut game = row_with_one_box();
    game.submit_input(Direction::Right);
    let asked = game.update(5);
    assert_eq!(asked, vec![Effect::Quit, Effect::PlaySound(Sound::Correct)]);
    assert_eq!(game.world().gameplay.state, GameplayState::Won);
    assert_eq!(game.world().event_queue.events, vec![]);
}

#[test]
fn a_new_game_holds_the_first_level() {
    let mut world = World::new();
    world.gameplay.moves_count = 9;
    world.time.delta = 5;
    create_game(&mut world);
    assert_eq!(world.entities.len(), 105);
    assert_eq!(world.gameplay.moves_count, 0);
    assert_eq!(world.gameplay.state, GameplayState::Playing);
    assert_eq!(world.time.delta, 0);
    let players = world.join(Kind::Player);
    assert_eq!(players.len(), 1);
    let p = world.position(players[0]).unwrap();
    assert_eq!((p.x, p.y, p.z), (2, 4, 10));
    assert_eq!(world.join(Kind::Box).len(), 2);
    assert_eq!(world.join(Kind::BoxSpot).len(), 2);
    assert_eq!(world.join(Kind::Wall).len(), 30);
    assert_eq!(world.join(Kind::Immovable).len(), 30);
    assert_eq!(world.join(Kind::Movable).len(), 3);
    assert!(MAP.contains("W . P . . RB . W"));
}

#[test]
fn the_first_level_can_be_played() {
    let mut world = World::new();
    create_game(&mut world);
    let player = world.join(Kind::Player)[0];
    let mut game = Game::new(world);
    assert_eq!(game.resolve_tick(Some(Direction::Left)), vec![]);
    assert_eq!(xy(&game, player), (1, 4));
    assert_eq!(
        game.resolve_tick(Some(Direction::Left)),
        vec![Effect::PlaySound(Sound::Wall)]
    );
    assert_eq!(xy(&game, player), (1, 4));
    assert_eq!(game.world().gameplay.moves_count, 1);
    assert_eq!(game.world().gameplay.state, GameplayState::Playing);
}

#[test]
fn the_passes_of_a_winning_tick_fire_their_events_in_order() {
    let mut world = World::new();
    create_wall(&mut world, place(0, 1));
    create_player(&mut world, place(1, 1));
    create_box(&mut world, place(2, 1), BoxColor::Blue);
    create_box_spot(&mut world, place(3, 1), BoxColor::Blue);
    create_wall(&mut world, place(4, 1));
    world.input_queue.keys_pressed.push(Direction::Right);

    let mut mover = InputSystem {};
    mover.run(&mut world);
    assert_eq!(
        world.event_queue.events,
        vec![
            Event::EntityMoved(EntityMoved { id: 1 }),
            Event::EntityMoved(EntityMoved { id: 2 }),
        ]
    );
    assert_eq!(world.gameplay.state, GameplayState::Playing);

    let mut judge = GameplayStateSystem {};
    judge.run(&mut world);
    assert_eq!(world.gameplay.state, GameplayState::Won);
    assert_eq!(
        world.event_queue.events,
        vec![
            Event::EntityMoved(EntityMoved { id: 1 }),
            Event::EntityMoved(EntityMoved { id: 2 }),
            Event::GameOver,
        ]
    );

    let mut dispatcher = EventSystem {};
    assert_eq!(dispatcher.run(&mut world), vec![Effect::Quit]);
    assert_eq!(
        world.event_queue.events,
        vec![Event::BoxPlacedOnSpot(BoxPlacedOnSpot { is_correct_spot: true })]
    );
    assert_eq!(dispatcher.run(&mut world), vec![Effect::PlaySound(Sound::Correct)]);
    assert_eq!(world.event_queue.events, vec![]);
}
