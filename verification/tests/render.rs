use rust_sokoban::components::{BoxColor, Position, Renderable};
use rust_sokoban::entities::{create_box, create_box_spot, create_floor, create_player, create_wall};
use rust_sokoban::systems::render_system::RenderSystem;
use rust_sokoban::world::{Components, World};

const MS: u128 = 1_000_000;

fn spot_on(x: u8, y: u8) -> Position {
    Position { x, y, z: 0 }
}

fn animation(count: usize) -> Renderable {
    Renderable::new((0..count).map(|i| format!("frame{}", i)).collect())
}

#[test]
fn a_still_picture_has_one_frame_at_all_times() {
    let system = RenderSystem::new();
    let picture = Renderable::new_static("still".to_string());
    for delta in [0, 249 * MS, 250 * MS, 999 * MS, 12_345 * MS, u128::MAX] {
        assert_eq!(system.get_image_path(&picture, delta), "still");
    }
}

#[test]
fn the_frames_change_every_quarter_of_a_second() {
    let system = RenderSystem::new();
    let four = animation(4);
    assert_eq!(system.get_image_path(&four, 0), "frame0");
    assert_eq!(system.get_image_path(&four, 250 * MS - 1), "frame0");
    assert_eq!(system.get_image_path(&four, 250 * MS), "frame1");
    assert_eq!(system.get_image_path(&four, 499 * MS), "frame1");
    assert_eq!(system.get_image_path(&four, 500 * MS), "frame2");
    assert_eq!(system.get_image_path(&four, 750 * MS), "frame3");
    assert_eq!(system.get_image_path(&four, 999 * MS), "frame3");
    assert_eq!(system.get_image_path(&four, 1000 * MS), "frame0");
    assert_eq!(system.get_image_path(&four, 61_600 * MS), "frame2");
}

#[test]
fn an_animation_with_fewer_frames_starts_again() {
    let system = RenderSystem::new();
    let three = animation(3);
    assert_eq!(system.get_image_path(&three, 500 * MS), "frame2");
    assert_eq!(system.get_image_path(&three, 750 * MS), "frame0");
    let two = animation(2);
    assert_eq!(system.get_image_path(&two, 0), "frame0");
    assert_eq!(system.get_image_path(&two, 250 * MS), "frame1");
    assert_eq!(system.get_image_path(&two, 500 * MS), "frame0");
    assert_eq!(system.get_image_path(&two, 750 * MS), "frame1");
    let five = animation(5);
    assert_eq!(system.get_image_path(&five, 750 * MS), "frame3");
    assert_eq!(system.get_image_path(&five, 999 * MS), "frame3");
}

#[test]
fn entities_are_drawn_layer_by_layer_in_the_order_of_insertion() {
    let mut world = World::new();
    create_player(&mut world, spot_on(1, 1));
    create_floor(&mut world, spot_on(1, 1));
    create_box_spot(&mut world, spot_on(2, 1), BoxColor::Red);
    create_wall(&mut world, spot_on(0, 1));
    create_floor(&mut world, spot_on(2, 1));
    create_box(&mut world, spot_on(2, 1), BoxColor::Red);
    let system = RenderSystem::new();
    assert_eq!(system.draw_order(&world), vec![1, 4, 2, 0, 3, 5]);
}

#[test]
fn only_entities_with_position_and_renderable_are_drawn() {
    let mut world = World::new();
    let mut unseen = Components::none();
    unseen.position = Some(spot_on(1, 1));
    world.create_entity(unseen);
    let mut nowhere = Components::none();
    nowhere.renderable = Some(Renderable::new_static("x".to_string()));
    world.create_entity(nowhere);
    let mut top = Components::none();
    top.position = Some(Position { x: 4, y: 5, z: 255 });
    top.renderable = Some(Renderable::new_static("top".to_string()));
    world.create_entity(top);
    let mut bottom = Components::none();
    bottom.position = Some(Position { x: 6, y: 7, z: 0 });
    bottom.renderable = Some(Renderable::new_static("bottom".to_string()));
    world.create_entity(bottom);
    let mut system = RenderSystem::new();
    assert_eq!(system.draw_order(&world), vec![3, 2]);
    let sprites = system.run(&world);
    assert_eq!(sprites.len(), 2);
    assert_eq!((sprites[0].entity, sprites[0].x, sprites[0].y), (3, 6, 7));
    assert_eq!(sprites[0].image_path, "bottom");
    assert_eq!((sprites[1].entity, sprites[1].x, sprites[1].y), (2, 4, 5));
    assert_eq!(sprites[1].image_path, "top");
}

#[test]
fn a_frame_shows_each_entity_at_its_cell_with_the_image_of_the_moment() {
    let mut world = World::new();
    create_player(&mut world, spot_on(1, 2));
    create_floor(&mut world, spot_on(1, 2));
    create_box(&mut world, spot_on(3, 4), BoxColor::Blue);
    world.time.delta = 10 * 1000 * MS + 510 * MS;
    let mut system = RenderSystem::new();
    let sprites = system.run(&world);
    let seen: Vec<(usize, u8, u8, &str)> =
        sprites.iter().map(|s| (s.entity, s.x, s.y, s.image_path.as_str())).collect();
    assert_eq!(
        seen,
        vec![
            (1, 1, 2, "/images/floor.png"),
            (0, 1, 2, "/images/player_3.png"),
            (2, 3, 4, "/images/box_blue_1.png"),
        ]
    );
    world.time.delta += 250 * MS;
    let sprites = system.run(&world);
    assert_eq!(sprites[1].image_path, "/images/player_1.png");
    assert_eq!(sprites[2].image_path, "/images/box_blue_2.png");
}

#[test]
fn an_empty_world_has_an_empty_frame() {
    let mut system = RenderSystem::new();
    let world = World::new();
    assert_eq!(system.draw_order(&world), vec![]);
    assert_eq!(system.run(&world).len(), 0);
}
