use engine::contact::{gather_contact, gather_tile_contacts, sort_contacts, Contact};
use engine::geom::{Rect, Vec2};
use engine::tile::{SheetRegion, TileData};

fn square(x: i32, y: i32, side: u16) -> Rect {
    Rect { x, y, w: side, h: side }
}

#[test]
fn gather_against_empty_sets_yields_empty() {
    let some = [square(0, 0, 4)];
    let none: [Rect; 0] = [];
    let mut contacts: Vec<Contact> = Vec::new();
    gather_contact(&none, &some, &mut contacts);
    assert!(contacts.is_empty());
    gather_contact(&some, &none, &mut contacts);
    assert!(contacts.is_empty());
    gather_contact(&none, &none, &mut contacts);
    assert!(contacts.is_empty());
}

#[test]
fn gather_emits_one_contact_per_overlapping_pair_in_index_order() {
    let a = [square(0, 0, 4), square(100, 100, 4)];
    let b = [square(2, 2, 4), square(101, 99, 4)];
    let mut contacts: Vec<Contact> = Vec::new();
    gather_contact(&a, &b, &mut contacts);
    assert_eq!(contacts.len(), 2);
    assert_eq!(contacts[0].index_a, 0);
    assert_eq!(contacts[0].index_b, 0);
    assert_eq!(contacts[0].overlap, Vec2 { x: 2, y: 2 });
    assert_eq!(contacts[1].index_a, 1);
    assert_eq!(contacts[1].index_b, 1);
    assert_eq!(contacts[1].overlap, Vec2 { x: 3, y: 3 });
}

#[test]
fn gather_appends_to_existing_contacts() {
    let a = [square(0, 0, 4)];
    let b = [square(1, 1, 4)];
    let mut contacts: Vec<Contact> = Vec::new();
    gather_contact(&a, &b, &mut contacts);
    gather_contact(&a, &b, &mut contacts);
    assert_eq!(contacts.len(), 2);
}

#[test]
fn tile_gathering_skips_open_tiles() {
    let region = SheetRegion { x: 0, y: 0, w: 4, h: 4 };
    let rects = [square(0, 0, 4)];
    let tiles = [
        (square(1, 1, 4), TileData { solid: false, sheet_region: region }),
        (square(2, 2, 4), TileData { solid: true, sheet_region: region }),
    ];
    let mut contacts: Vec<Contact> = Vec::new();
    gather_tile_contacts(&rects, &tiles, &mut contacts);
    assert_eq!(contacts.len(), 1);
    assert_eq!(contacts[0].index_b, 1);
    assert_eq!(contacts[0].overlap, Vec2 { x: 2, y: 2 });
}

#[test]
fn tile_gathering_against_no_tiles_yields_empty() {
    let rects = [square(0, 0, 4)];
    let tiles: [(Rect, TileData); 0] = [];
    let mut contacts: Vec<Contact> = Vec::new();
    gather_tile_contacts(&rects, &tiles, &mut contacts);
    assert!(contacts.is_empty());
}

#[test]
fn contacts_sort_by_descending_overlap_magnitude() {
    let mk = |x: i32, y: i32| Contact {
        rect_a: square(0, 0, 4),
        index_a: 0,
        rect_b: square(0, 0, 4),
        index_b: 0,
        overlap: Vec2 { x, y },
    };
    let mut contacts = vec![mk(1, 0), mk(3, 0), mk(2, 2)];
    sort_contacts(&mut contacts);
    // squared magnitudes 9, 8, 1
    assert_eq!(contacts[0].overlap, Vec2 { x: 3, y: 0 });
    assert_eq!(contacts[1].overlap, Vec2 { x: 2, y: 2 });
    assert_eq!(contacts[2].overlap, Vec2 { x: 1, y: 0 });
}

#[test]
fn sorting_keeps_every_contact() {
    let mk = |i: usize, x: i32| Contact {
        rect_a: square(0, 0, 4),
        index_a: i,
        rect_b: square(0, 0, 4),
        index_b: 0,
        overlap: Vec2 { x, y: 0 },
    };
    let mut contacts = vec![mk(0, 1), mk(1, 1), mk(2, 5)];
    sort_contacts(&mut contacts);
    assert_eq!(contacts.len(), 3);
    assert_eq!(contacts[0].index_a, 2);
    let mut seen: Vec<usize> = contacts.iter().map(|c| c.index_a).collect();
    seen.sort();
    assert_eq!(seen, vec![0, 1, 2]);
}
