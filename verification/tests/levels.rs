use engine::geom::Vec2;
use engine::level::{EntityType, Level, LevelError};
use engine::tile::SheetRegion;

const SMALL: &str = "\
lvl 3 2
===
G s 0 0 4 4
. o 4 0 4 4
===
G G .
. . G
===
";

#[test]
fn parses_grid_and_tileset_in_first_seen_order() {
    let lvl = Level::from_str(SMALL).expect("level should parse");
    assert_eq!(lvl.width(), 3);
    assert_eq!(lvl.height(), 2);
    let grid = lvl.grid();
    let expected: [u8; 6] = [0, 0, 1, 1, 1, 0];
    for row in 0..2usize {
        for col in 0..3usize {
            assert_eq!(*grid.get(col, row), expected[row * 3 + col]);
        }
    }
    assert!(lvl.tileset().get(0).solid);
    assert!(!lvl.tileset().get(1).solid);
    assert_eq!(
        lvl.tileset().get(0).sheet_region,
        SheetRegion { x: 0, y: 0, w: 4, h: 4 }
    );
    assert_eq!(
        lvl.tileset().get(1).sheet_region,
        SheetRegion { x: 4, y: 0, w: 4, h: 4 }
    );
    assert_eq!(lvl.name().as_slice(), b"lvl");
}

#[test]
fn legend_ids_follow_declaration_order() {
    let text = "\
m 4 1
===
A o 0 0 1 1
B o 1 0 1 1
C o 2 0 1 1
===
C A B A
";
    let lvl = Level::from_str(text).expect("level should parse");
    assert_eq!(lvl.symbols().len(), 3);
    assert_eq!(lvl.symbols()[0].as_slice(), b"A");
    assert_eq!(lvl.symbols()[1].as_slice(), b"B");
    assert_eq!(lvl.symbols()[2].as_slice(), b"C");
    let grid = lvl.grid();
    assert_eq!(*grid.get(0, 0), 2);
    assert_eq!(*grid.get(1, 0), 0);
    assert_eq!(*grid.get(2, 0), 1);
    assert_eq!(*grid.get(3, 0), 0);
}

#[test]
fn spawn_positions_flip_the_vertical_axis() {
    let mut text = String::from("m 1 10\n===\nG o 0 0 1 1\n===\n");
    for _ in 0..10 {
        text.push_str("G\n");
    }
    text.push_str("===\napple 5 3\nsnake 0 10\n");
    let lvl = Level::from_str(&text).expect("level should parse");
    let starts = lvl.starts();
    assert_eq!(starts.len(), 2);
    assert_eq!(starts[0].0, EntityType::Food);
    assert_eq!(starts[0].1, Vec2 { x: 22, y: 26 });
    assert_eq!(starts[1].0, EntityType::Snake);
    assert_eq!(starts[1].1, Vec2 { x: 2, y: -2 });
}

#[test]
fn background_declaration_is_kept() {
    let text = "\
bg 1 2 3 4
m 1 1
===
G s 0 0 4 4
===
G
";
    let lvl = Level::from_str(text).expect("level should parse");
    assert_eq!(lvl.bg(), SheetRegion { x: 1, y: 2, w: 3, h: 4 });
}

#[test]
fn background_defaults_to_zero() {
    let lvl = Level::from_str(SMALL).expect("level should parse");
    assert_eq!(lvl.bg(), SheetRegion { x: 0, y: 0, w: 0, h: 0 });
}

#[test]
fn flags_are_case_insensitive_and_regions_may_be_negative() {
    let text = "\
m 2 1
===
G S 0 0 -4 -4
. O 4 0 4 4
===
G .
";
    let lvl = Level::from_str(text).expect("level should parse");
    assert!(lvl.tileset().get(0).solid);
    assert!(!lvl.tileset().get(1).solid);
    assert_eq!(
        lvl.tileset().get(0).sheet_region,
        SheetRegion { x: 0, y: 0, w: -4, h: -4 }
    );
}

#[test]
fn windows_line_endings_and_blank_lines_are_accepted() {
    let text = "lvl 1 1\r\n\r\n===\r\nG s 0 0 4 4\r\n===\r\nG\r\n";
    let lvl = Level::from_str(text).expect("level should parse");
    assert_eq!(lvl.width(), 1);
    assert_eq!(*lvl.grid().get(0, 0), 0);
}

#[test]
fn serialized_level_reparses_to_the_same_grid_and_tileset() {
    let lvl = Level::from_str(SMALL).expect("level should parse");
    let text = lvl.serialize();
    let again = Level::from_bytes(&text).expect("serialized level should parse");
    assert_eq!(again.width(), lvl.width());
    assert_eq!(again.height(), lvl.height());
    for row in 0..2usize {
        for col in 0..3usize {
            assert_eq!(again.grid().get(col, row), lvl.grid().get(col, row));
        }
    }
    assert_eq!(again.tileset().len(), lvl.tileset().len());
    for i in 0..lvl.tileset().len() {
        assert_eq!(again.tileset().get(i), lvl.tileset().get(i));
    }
    assert_eq!(again.name(), lvl.name());
}

#[test]
fn serialization_writes_the_documented_format() {
    let lvl = Level::from_str(SMALL).expect("level should parse");
    let text = lvl.serialize();
    assert_eq!(
        std::str::from_utf8(&text).unwrap(),
        "lvl 3 2\n===\nG s 0 0 4 4\n. o 4 0 4 4\n===\nG G .\n. . G\n"
    );
}

#[test]
fn duplicate_name_is_fatal() {
    let text = "a 1 1\nb 1 1\n===\nG o 0 0 1 1\n===\nG\n";
    assert_eq!(Level::from_str(text).err(), Some(LevelError::DuplicateName));
}

#[test]
fn duplicate_background_is_fatal() {
    let text = "bg 0 0 0 0\nbg 1 1 1 1\n";
    assert_eq!(Level::from_str(text).err(), Some(LevelError::DuplicateBg));
}

#[test]
fn duplicate_symbol_is_fatal() {
    let text = "a 1 1\n===\nG o 0 0 1 1\nG s 0 0 1 1\n===\nG\n";
    assert_eq!(Level::from_str(text).err(), Some(LevelError::DuplicateSymbol));
}

#[test]
fn bad_flag_is_fatal() {
    let text = "a 1 1\n===\nG x 0 0 1 1\n===\nG\n";
    assert_eq!(Level::from_str(text).err(), Some(LevelError::BadFlag));
}

#[test]
fn unparseable_number_is_fatal() {
    assert_eq!(Level::from_str("a one 1\n").err(), Some(LevelError::BadNumber));
    assert_eq!(Level::from_str("a 99999 1\n").err(), Some(LevelError::BadNumber));
}

#[test]
fn missing_fields_are_fatal() {
    assert_eq!(Level::from_str("a 1\n").err(), Some(LevelError::MissingToken));
    assert_eq!(
        Level::from_str("a 1 1\n===\nG o 0 0 1\n").err(),
        Some(LevelError::MissingToken)
    );
}

#[test]
fn unknown_map_symbol_is_fatal() {
    let text = "a 1 1\n===\nG o 0 0 1 1\n===\nX\n";
    assert_eq!(Level::from_str(text).err(), Some(LevelError::UnknownSymbol));
}

#[test]
fn wrong_row_length_is_fatal() {
    let text = "a 3 1\n===\nG o 0 0 1 1\n===\nG G\n";
    assert_eq!(Level::from_str(text).err(), Some(LevelError::WrongRowLength));
}

#[test]
fn map_row_before_dimensions_is_fatal() {
    let text = "bg 0 0 1 1\n===\nG o 0 0 1 1\n===\nG\n";
    assert_eq!(Level::from_str(text).err(), Some(LevelError::DimsNotSet));
}

#[test]
fn unknown_entity_is_fatal() {
    let text = "a 1 1\n===\nG o 0 0 1 1\n===\nG\n===\ndog 0 0\n";
    assert_eq!(Level::from_str(text).err(), Some(LevelError::UnknownEntity));
}

#[test]
fn spawn_row_below_the_map_is_fatal() {
    let text = "a 1 2\n===\nG o 0 0 1 1\n===\nG\nG\n===\napple 0 3\n";
    assert_eq!(Level::from_str(text).err(), Some(LevelError::StartOutOfRange));
}

#[test]
fn content_after_the_last_section_is_fatal() {
    let text = "a 1 1\n===\nG o 0 0 1 1\n===\nG\n===\n===\nstray\n";
    assert_eq!(Level::from_str(text).err(), Some(LevelError::ContentAfterEnd));
}

#[test]
fn missing_name_is_fatal() {
    let text = "bg 0 0 1 1\n===\nG o 0 0 1 1\n===\n";
    assert_eq!(Level::from_str(text).err(), Some(LevelError::MissingName));
}

#[test]
fn empty_legend_is_fatal() {
    let text = "a 0 0\n===\n===\n";
    assert_eq!(Level::from_str(text).err(), Some(LevelError::EmptyLegend));
}

#[test]
fn short_grid_is_fatal() {
    let text = "a 2 2\n===\nG o 0 0 1 1\n===\nG G\n";
    assert_eq!(Level::from_str(text).err(), Some(LevelError::WrongGridSize));
}

#[test]
fn overfull_legend_is_fatal() {
    let mut text = String::from("a 1 1\n===\n");
    for i in 0..=256 {
        text.push_str(&format!("s{} o 0 0 1 1\n", i));
    }
    text.push_str("===\ns0\n");
    assert_eq!(Level::from_str(&text).err(), Some(LevelError::TooManyTiles));
}

#[test]
fn empty_text_is_missing_its_name() {
    assert_eq!(Level::from_str("").err(), Some(LevelError::MissingName));
}

#[test]
fn tile_rects_cover_the_map_with_flipped_rows() {
    let lvl = Level::from_str(SMALL).expect("level should parse");
    let tiles = lvl.tile_rects();
    assert_eq!(tiles.len(), 6);
    // text row 0 is the top of the 2-row map: its world y is 4
    let (top_left, top_left_data) = tiles[0];
    assert_eq!((top_left.x, top_left.y, top_left.w, top_left.h), (0, 4, 4, 4));
    assert!(top_left_data.solid);
    let (bottom_right, bottom_right_data) = tiles[5];
    assert_eq!((bottom_right.x, bottom_right.y), (8, 0));
    assert!(bottom_right_data.solid);
    let (bottom_left, bottom_left_data) = tiles[3];
    assert_eq!((bottom_left.x, bottom_left.y), (0, 0));
    assert!(!bottom_left_data.solid);
}
