use rust_sokoban::components::{BoxColor, Position};
use rust_sokoban::maps::{
    build_level, chars_of, initialize_level, is_blank_char, parse_map, read_tile, split_at_each,
    trim, Cell, MapError, Tile,
};
use rust_sokoban::world::{Kind, World};

fn text(s: &str) -> Vec<char> {
    s.chars().collect()
}

fn tile_at(x: u8, y: u8, tile: Tile) -> Cell {
    Cell { position: Position { x, y, z: 0 }, tile }
}

#[test]
fn blank_characters_are_those_of_unicode() {
    let mut code: u32 = 0;
    while code <= 0x10FFFF {
        if let Some(c) = char::from_u32(code) {
            assert_eq!(is_blank_char(c), c.is_whitespace());
        }
        code += 1;
    }
}

#[test]
fn chars_of_gives_each_character() {
    assert_eq!(chars_of("W .\nBB"), vec!['W', ' ', '.', '\n', 'B', 'B']);
    assert_eq!(chars_of(""), Vec::<char>::new());
    assert_eq!(chars_of("é\u{3000}x"), vec!['é', '\u{3000}', 'x']);
}

#[test]
fn trim_drops_the_blanks_at_both_ends() {
    assert_eq!(trim(&text("  \n W . W \t\r\n")), text("W . W"));
    assert_eq!(trim(&text("W")), text("W"));
    assert_eq!(trim(&text("   ")), text(""));
    assert_eq!(trim(&text("")), text(""));
    assert_eq!(trim(&text("\u{a0}a b\u{2003}")), text("a b"));
}

#[test]
fn split_cuts_at_each_separator() {
    assert_eq!(split_at_each(&text("W . BB"), ' '), vec![text("W"), text("."), text("BB")]);
    assert_eq!(split_at_each(&text(""), ' '), vec![text("")]);
    assert_eq!(split_at_each(&text("a  b"), ' '), vec![text("a"), text(""), text("b")]);
    assert_eq!(split_at_each(&text(" a "), ' '), vec![text(""), text("a"), text("")]);
    assert_eq!(split_at_each(&text("a\nb"), ' '), vec![text("a\nb")]);
}

#[test]
fn each_item_stands_for_its_tile() {
    assert_eq!(read_tile(&text(".")), Some(Tile::Floor));
    assert_eq!(read_tile(&text("W")), Some(Tile::Wall));
    assert_eq!(read_tile(&text("P")), Some(Tile::Player));
    assert_eq!(read_tile(&text("BB")), Some(Tile::Box(BoxColor::Blue)));
    assert_eq!(read_tile(&text("RB")), Some(Tile::Box(BoxColor::Red)));
    assert_eq!(read_tile(&text("BS")), Some(Tile::BoxSpot(BoxColor::Blue)));
    assert_eq!(read_tile(&text("RS")), Some(Tile::BoxSpot(BoxColor::Red)));
    assert_eq!(read_tile(&text("N")), Some(Tile::Void));
}

#[test]
fn other_items_stand_for_no_tile() {
    for item in ["", "w", "X", "B", "SB", "BR", "BBB", " ", "..", "NN", "PB"] {
        assert_eq!(read_tile(&text(item)), None);
    }
}

#[test]
fn a_map_is_read_row_by_row() {
    let parsed = parse_map("\n   N W\n   P BB   \n RS .\n  ");
    assert_eq!(
        parsed,
        Ok(vec![
            tile_at(0, 0, Tile::Void),
            tile_at(1, 0, Tile::Wall),
            tile_at(0, 1, Tile::Player),
            tile_at(1, 1, Tile::Box(BoxColor::Blue)),
            tile_at(0, 2, Tile::BoxSpot(BoxColor::Red)),
            tile_at(1, 2, Tile::Floor),
        ])
    );
}

#[test]
fn rows_may_differ_in_length() {
    let parsed = parse_map("W\r\nW . W");
    assert_eq!(
        parsed,
        Ok(vec![
            tile_at(0, 0, Tile::Wall),
            tile_at(0, 1, Tile::Wall),
            tile_at(1, 1, Tile::Floor),
            tile_at(2, 1, Tile::Wall),
        ])
    );
}

#[test]
fn the_first_unknown_item_is_reported() {
    assert_eq!(parse_map("W . Q\nZ ."), Err(MapError { item: text("Q") }));
    assert_eq!(parse_map("W .\nZ Q"), Err(MapError { item: text("Z") }));
    assert_eq!(parse_map("W  ."), Err(MapError { item: text("") }));
    assert_eq!(parse_map(""), Err(MapError { item: text("") }));
    assert_eq!(parse_map("W\n\nW"), Err(MapError { item: text("") }));
    assert_eq!(parse_map("W\t."), Err(MapError { item: text("W\t.") }));
}

#[test]
fn columns_past_255_start_again_at_0() {
    let mut map = String::new();
    for _ in 0..256 {
        map.push_str(". ");
    }
    map.push('W');
    let cells = parse_map(&map).unwrap();
    assert_eq!(cells.len(), 257);
    assert_eq!(cells[255], tile_at(255, 0, Tile::Floor));
    assert_eq!(cells[256], tile_at(0, 0, Tile::Wall));
}

#[test]
fn rows_past_255_start_again_at_0() {
    let mut map = String::new();
    for _ in 0..256 {
        map.push_str(".\n");
    }
    map.push('W');
    let cells = parse_map(&map).unwrap();
    assert_eq!(cells.len(), 257);
    assert_eq!(cells[255], tile_at(0, 255, Tile::Floor));
    assert_eq!(cells[256], tile_at(0, 0, Tile::Wall));
}

#[test]
fn a_level_has_floor_under_everything_but_the_void() {
    let mut world = World::new();
    let cells = vec![
        tile_at(0, 0, Tile::Void),
        tile_at(1, 0, Tile::Floor),
        tile_at(2, 0, Tile::Wall),
        tile_at(3, 0, Tile::Player),
        tile_at(4, 0, Tile::Box(BoxColor::Red)),
        tile_at(5, 0, Tile::BoxSpot(BoxColor::Blue)),
    ];
    build_level(&mut world, &cells);
    assert_eq!(world.entities.len(), 9);
    let layers: Vec<u8> = world.entities.iter().map(|c| c.position.unwrap().z).collect();
    assert_eq!(layers, vec![5, 5, 10, 5, 10, 5, 10, 5, 9]);
    let columns: Vec<u8> = world.entities.iter().map(|c| c.position.unwrap().x).collect();
    assert_eq!(columns, vec![1, 2, 2, 3, 3, 4, 4, 5, 5]);
    assert_eq!(world.join(Kind::Renderable).len(), 9);
    assert_eq!(world.join(Kind::Wall), vec![2]);
    assert_eq!(world.join(Kind::Immovable), vec![2]);
    assert_eq!(world.join(Kind::Player), vec![4]);
    assert_eq!(world.join(Kind::Movable), vec![4, 6]);
    assert_eq!(world.join(Kind::Box), vec![6]);
    assert_eq!(world.join(Kind::BoxSpot), vec![8]);
    assert_eq!(world.the_box(6).unwrap().color, BoxColor::Red);
    assert_eq!(world.entities[8].box_spot.unwrap().color, BoxColor::Blue);
}

#[test]
fn initialize_level_adds_to_what_is_there() {
    let mut world = World::new();
    assert_eq!(initialize_level(&mut world, "P"), Ok(()));
    assert_eq!(initialize_level(&mut world, " W BB "), Ok(()));
    assert_eq!(world.entities.len(), 6);
    assert_eq!(world.join(Kind::Player), vec![1]);
    assert_eq!(world.join(Kind::Wall), vec![3]);
    assert_eq!(world.join(Kind::Box), vec![5]);
}

#[test]
fn a_map_with_an_unknown_item_leaves_the_world_as_it_was() {
    let mut world = World::new();
    initialize_level(&mut world, "P").unwrap();
    world.gameplay.moves_count = 3;
    let loaded = initialize_level(&mut world, "W W\nW ? W");
    assert_eq!(loaded, Err(MapError { item: text("?") }));
    assert_eq!(world.entities.len(), 2);
    assert_eq!(world.gameplay.moves_count, 3);
}

#[test]
fn the_map_of_the_first_level_is_read_in_full() {
    let cells = parse_map(rust_sokoban::MAP).unwrap();
    assert_eq!(cells.len(), 72);
    assert_eq!(cells[0], tile_at(0, 0, Tile::Void));
    assert_eq!(cells[2], tile_at(2, 0, Tile::Wall));
    assert_eq!(cells[8 * 2 + 4], tile_at(4, 2, Tile::Box(BoxColor::Blue)));
    assert_eq!(cells[8 * 3 + 7], tile_at(7, 3, Tile::Wall));
    assert_eq!(cells[8 * 4 + 2], tile_at(2, 4, Tile::Player));
    assert_eq!(cells[8 * 4 + 5], tile_at(5, 4, Tile::Box(BoxColor::Red)));
    assert_eq!(cells[8 * 6 + 3], tile_at(3, 6, Tile::BoxSpot(BoxColor::Blue)));
    assert_eq!(cells[8 * 7 + 5], tile_at(5, 7, Tile::BoxSpot(BoxColor::Red)));
    assert_eq!(cells[71], tile_at(7, 8, Tile::Wall));
}
