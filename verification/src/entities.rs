use vstd::prelude::*;
use crate::components::{
    Box, BoxColor, BoxSpot, Immovable, Movability, Movable, Player, Position, Renderable, Wall,
};
use crate::world::{extends, views, Components, ComponentsView, World};

verus! {

/// A wall at the given cell: drawn on layer 10, immovable.
pub open spec fn wall_at(position: Position) -> ComponentsView {
    ComponentsView {
        position: Some(Position { z: 10, ..position }),
        renderable: Some(seq!["/images/wall.png"@]),
        wall: Some(Wall {  }),
        player: None,
        the_box: None,
        box_spot: None,
        movability: Some(Movability::Immovable(Immovable)),
    }
}

/// A piece of floor at the given cell: drawn on layer 5, and nothing else.
pub open spec fn floor_at(position: Position) -> ComponentsView {
    ComponentsView {
        position: Some(Position { z: 5, ..position }),
        renderable: Some(seq!["/images/floor.png"@]),
        wall: None,
        player: None,
        the_box: None,
        box_spot: None,
        movability: None,
    }
}

/// The player at the given cell: drawn on layer 10 in three frames, movable.
pub open spec fn player_at(position: Position) -> ComponentsView {
    ComponentsView {
        position: Some(Position { z: 10, ..position }),
        renderable: Some(
            seq!["/images/player_1.png"@, "/images/player_2.png"@, "/images/player_3.png"@],
        ),
        wall: None,
        player: Some(Player {  }),
        the_box: None,
        box_spot: None,
        movability: Some(Movability::Movable(Movable)),
    }
}

/// A box of the given color at the given cell: drawn on layer 10 in two
/// frames, movable.
pub open spec fn box_at(position: Position, color: BoxColor) -> ComponentsView {
    ComponentsView {
        position: Some(Position { z: 10, ..position }),
        renderable: Some(
            seq![
                "/images/box_"@ + color.name() + "_1.png"@,
                "/images/box_"@ + color.name() + "_2.png"@,
            ],
        ),
        wall: None,
        player: None,
        the_box: Some(Box { color }),
        box_spot: None,
        movability: Some(Movability::Movable(Movable)),
    }
}

/// A spot for a box of the given color at the given cell: drawn on layer 9,
/// below what stands on it.
pub open spec fn box_spot_at(position: Position, color: BoxColor) -> ComponentsView {
    ComponentsView {
        position: Some(Position { z: 9, ..position }),
        renderable: Some(seq!["/images/box_spot_"@ + color.name() + ".png"@]),
        wall: None,
        player: None,
        the_box: None,
        box_spot: Some(BoxSpot { color }),
        movability: None,
    }
}

/// Adds one entity to the world.
fn spawn(world: &mut World, components: Components)
    ensures
        extends(old(world)@, final(world)@, seq![components@]),
{
    let ghost before = world@;
    world.create_entity(components);
    assert(world@.entities.take(before.entities.len() as int) =~= before.entities);
    assert(views(world@.entities.skip(before.entities.len() as int)) =~= seq![components@]);
}

/// Adds a wall at the given cell.
pub fn create_wall(world: &mut World, position: Position)
    ensures
        extends(old(world)@, final(world)@, seq![wall_at(position)]),
{
    let mut components = Components::none();
    components.position = Some(Position { x: position.x, y: position.y, z: 10 });
    components.renderable = Some(Renderable::new_static("/images/wall.png".to_owned()));
    components.movability = Some(Movability::Immovable(Immovable {  }));
    components.wall = Some(Wall {  });
    spawn(world, components);
}

/// Adds a piece of floor at the given cell.
pub fn create_floor(world: &mut World, position: Position)
    ensures
        extends(old(world)@, final(world)@, seq![floor_at(position)]),
{
    let mut components = Components::none();
    components.position = Some(Position { x: position.x, y: position.y, z: 5 });
    components.renderable = Some(Renderable::new_static("/images/floor.png".to_owned()));
    spawn(world, components);
}

/// Adds the player at the given cell.
pub fn create_player(world: &mut World, position: Position)
    ensures
        extends(old(world)@, final(world)@, seq![player_at(position)]),
{
    let mut paths: Vec<String> = Vec::new();
    paths.push("/images/player_1.png".to_owned());
    paths.push("/images/player_2.png".to_owned());
    paths.push("/images/player_3.png".to_owned());
    let renderable = Renderable::new(paths);
    assert(renderable@ =~= seq![
        "/images/player_1.png"@,
        "/images/player_2.png"@,
        "/images/player_3.png"@,
    ]);
    let mut components = Components::none();
    components.position = Some(Position { x: position.x, y: position.y, z: 10 });
    components.renderable = Some(renderable);
    components.movability = Some(Movability::Movable(Movable {  }));
    components.player = Some(Player {  });
    spawn(world, components);
}

/// The path of an image whose name holds a color: `head`, the color's name,
/// `tail`.
fn colored_path(head: &str, color: BoxColor, tail: &str) -> (path: String)
    ensures
        path@ == head@ + color.name() + tail@,
{
    let mut path = head.to_owned();
    path.append(color.to_string().as_str());
    path.append(tail);
    path
}

/// Adds a box of the given color at the given cell.
pub fn create_box(world: &mut World, position: Position, box_color: BoxColor)
    ensures
        extends(old(world)@, final(world)@, seq![box_at(position, box_color)]),
{
    let mut paths: Vec<String> = Vec::new();
    paths.push(colored_path("/images/box_", box_color, "_1.png"));
    paths.push(colored_path("/images/box_", box_color, "_2.png"));
    let renderable = Renderable::new(paths);
    assert(renderable@ =~= seq![
        "/images/box_"@ + box_color.name() + "_1.png"@,
        "/images/box_"@ + box_color.name() + "_2.png"@,
    ]);
    let mut components = Components::none();
    components.position = Some(Position { x: position.x, y: position.y, z: 10 });
    components.renderable = Some(renderable);
    components.movability = Some(Movability::Movable(Movable {  }));
    components.the_box = Some(Box { color: box_color });
    spawn(world, components);
}

/// Adds a spot for a box of the given color at the given cell.
pub fn create_box_spot(world: &mut World, position: Position, box_color: BoxColor)
    ensures
        extends(old(world)@, final(world)@, seq![box_spot_at(position, box_color)]),
{
    let mut components = Components::none();
    components.position = Some(Position { x: position.x, y: position.y, z: 9 });
    components.renderable = Some(
        Renderable::new_static(colored_path("/images/box_spot_", box_color, ".png")),
    );
    components.box_spot = Some(BoxSpot { color: box_color });
    spawn(world, components);
}

} // verus!
