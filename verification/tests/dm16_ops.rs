use smwe_editor::dm16_editor::Dm16Placement;
use smwe_editor::dm16_ops::{
    dm16_add_objects, dm16_at, dm16_fill_objects, dm16_pattern_tiles, dm16_placed_object, dm16_select_at, dm16_stamps,
    dm16_update_object,
};
use smwe_editor::object_layer::EditableDm16Object;

fn dm16(x: u32, y: u32, w: u32, h: u32, pw: u32, ph: u32, tiles: Vec<u16>) -> EditableDm16Object {
    EditableDm16Object { x, y, w, h, pw, ph, tiles, condition: None }
}

#[test]
fn the_topmost_dm16_object_is_hit() {
    let objs = vec![dm16(0, 0, 4, 4, 1, 1, vec![1]), dm16(2, 2, 2, 2, 1, 1, vec![2])];
    assert_eq!(dm16_at(&objs, 3, 3), Some(1));
    assert_eq!(dm16_at(&objs, 1, 3), Some(0));
    assert_eq!(dm16_at(&objs, 4, 0), None);
    assert_eq!(dm16_select_at(&objs, 3, 3, 10, 10), Some(1));
    assert_eq!(dm16_select_at(&objs, -1, 3, 10, 10), None);
    assert_eq!(dm16_select_at(&objs, 3, 3, 3, 10), None);
}

#[test]
fn the_pattern_comes_from_the_picker_or_the_draw_block() {
    assert_eq!(dm16_pattern_tiles(Some((2, 1, 2, 2)), 0x130), (2, 2, vec![0x12, 0x13, 0x22, 0x23]));
    assert_eq!(dm16_pattern_tiles(None, 0x130), (1, 1, vec![0x130]));
}

#[test]
fn placing_cuts_the_object_at_the_level_edge() {
    let p = Dm16Placement { pw: 3, ph: 2, tiles: vec![1, 2, 3, 4, 5, 6] };
    let o = dm16_placed_object(&p, 8, 4, 10, 5).unwrap();
    assert_eq!((o.x, o.y, o.w, o.h, o.pw, o.ph), (8, 4, 2, 1, 3, 2));
    assert_eq!(o.tiles, vec![1, 2, 3, 4, 5, 6]);
    assert!(dm16_placed_object(&p, 10, 4, 10, 5).is_none());
    let empty = Dm16Placement { pw: 0, ph: 0, tiles: vec![] };
    let o = dm16_placed_object(&empty, 0, 0, 10, 5).unwrap();
    assert_eq!((o.w, o.h), (1, 1));
}

#[test]
fn added_objects_are_sanitized_and_appended() {
    let mut objs = vec![dm16(0, 0, 1, 1, 1, 1, vec![7])];
    let fills = dm16_fill_objects(&vec![(1, 1, 2, 3), (5, 0, 100, 1)], 2, 1, &vec![9]);
    assert_eq!(fills.len(), 2);
    assert_eq!(fills[0], dm16(1, 1, 2, 3, 2, 1, vec![9]));
    let base = dm16_add_objects(&mut objs, fills);
    assert_eq!(base, 1);
    assert_eq!(objs.len(), 3);
    assert_eq!(objs[0], dm16(0, 0, 1, 1, 1, 1, vec![7]));
    assert_eq!(objs[1], dm16(1, 1, 2, 3, 2, 1, vec![9, 0x25]));
    assert_eq!(objs[2], dm16(5, 0, 64, 1, 2, 1, vec![9, 0x25]));
}

#[test]
fn later_objects_stamp_over_earlier_ones() {
    let objs = vec![dm16(0, 0, 3, 2, 2, 1, vec![1, 2]), dm16(1, 1, 2, 2, 1, 1, vec![9])];
    let stamps = dm16_stamps(&objs, 3, 2);
    assert_eq!(stamps, vec![(0, 0, 1), (1, 0, 2), (2, 0, 1), (0, 1, 1), (1, 1, 2), (2, 1, 1), (1, 1, 9), (2, 1, 9)]);
}

#[test]
fn updating_an_object_sanitizes_it() {
    let mut objs = vec![dm16(0, 0, 1, 1, 1, 1, vec![7]), dm16(2, 2, 1, 1, 1, 1, vec![8])];
    assert!(dm16_update_object(&mut objs, 1, dm16(3, 3, 0, 70, 1, 1, vec![])));
    assert_eq!(objs[1], dm16(3, 3, 1, 64, 1, 1, vec![0x25]));
    assert_eq!(objs[0], dm16(0, 0, 1, 1, 1, 1, vec![7]));
    assert!(!dm16_update_object(&mut objs, 2, dm16(0, 0, 1, 1, 1, 1, vec![1])));
    assert_eq!(objs.len(), 2);
}
