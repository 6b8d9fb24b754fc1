use smwe_editor::auto_screens::{auto_set_applies, axis_screen, screens_used, scroll_ext_installs};
use smwe_editor::object_layer::{EditableExit, EditableObject, EditableObjectLayer};
use smwe_editor::sprite_layer::{EditableSprite, EditableSpriteLayer};

fn obj(x: u32, y: u32) -> EditableObject {
    EditableObject { x, y, id: 0x2F, settings: 0, is_extended: false, extended_id: 0 }
}

fn spr(x: u32, y: u32) -> EditableSprite {
    EditableSprite { x, y, sprite_id: 0x35, extra_bits: 0 }
}

fn l1(objects: Vec<EditableObject>, exits: Vec<EditableExit>) -> EditableObjectLayer {
    EditableObjectLayer { objects, exits }
}

fn sprites(sprites: Vec<EditableSprite>) -> EditableSpriteLayer {
    EditableSpriteLayer { sprites }
}

#[test]
fn empty_level_keeps_one_screen() {
    assert_eq!(screens_used(&l1(vec![], vec![]), None, &sprites(vec![]), false), 1);
    assert_eq!(screens_used(&l1(vec![], vec![]), None, &sprites(vec![]), true), 1);
}

#[test]
fn horizontal_uses_x_axis() {
    let l = l1(vec![obj(35, 20)], vec![]);
    assert_eq!(screens_used(&l, None, &sprites(vec![]), false), 3);
    let l = l1(vec![obj(3, 400)], vec![]);
    assert_eq!(screens_used(&l, None, &sprites(vec![]), false), 1);
}

#[test]
fn vertical_uses_y_axis() {
    let l = l1(vec![obj(500, 49)], vec![]);
    assert_eq!(screens_used(&l, None, &sprites(vec![]), true), 4);
}

#[test]
fn sprites_and_exits_count() {
    let l = l1(vec![], vec![EditableExit { screen: 5, midway: false, secondary: false, id: 0 }]);
    let s = sprites(vec![spr(7 * 16 + 2, 10)]);
    assert_eq!(screens_used(&l, None, &s, false), 8);
}

#[test]
fn layer2_objects_count() {
    let l1l = l1(vec![obj(5, 5)], vec![]);
    let l2l = l1(vec![obj(9 * 16, 3)], vec![]);
    assert_eq!(screens_used(&l1l, Some(&l2l), &sprites(vec![]), false), 10);
}

#[test]
fn clamps_to_header_field_range() {
    let l = l1(vec![obj(100 * 16, 0)], vec![]);
    assert_eq!(screens_used(&l, None, &sprites(vec![]), false), 32);
}

#[test]
fn anchor_tile_decides_not_extent() {
    let l = l1(vec![obj(15, 10)], vec![]);
    assert_eq!(screens_used(&l, None, &sprites(vec![]), false), 1);
    let l = l1(vec![obj(16, 10)], vec![]);
    assert_eq!(screens_used(&l, None, &sprites(vec![]), false), 2);
}

#[test]
fn gate_never_resizes_untouched_vanilla_rom() {
    assert!(!auto_set_applies(0xFF, false, true));
    assert!(!scroll_ext_installs(0xFF, false, false));
}

#[test]
fn gate_touching_controls_installs_and_applies() {
    assert!(auto_set_applies(0xFF, true, true));
    assert!(scroll_ext_installs(0xFF, false, true));
    assert!(scroll_ext_installs(0xFF, true, false));
}

#[test]
fn gate_installed_table_applies_without_touch() {
    assert!(auto_set_applies(0x20, false, true));
    assert!(scroll_ext_installs(0x20, false, false));
    assert!(!auto_set_applies(0x00, false, false));
    assert!(auto_set_applies(0x00, false, true));
}

#[test]
fn axis_screen_picks_long_axis() {
    assert_eq!(axis_screen(47, 100, false), 2);
    assert_eq!(axis_screen(47, 100, true), 6);
}

#[test]
fn exit_alone_sets_screen_count_and_max_wins() {
    let l = l1(vec![obj(2 * 16, 0), obj(0, 0)], vec![EditableExit { screen: 0, midway: true, secondary: true, id: 1 }]);
    assert_eq!(screens_used(&l, None, &sprites(vec![spr(16, 0)]), false), 3);
    let e = l1(vec![], vec![EditableExit { screen: 31, midway: false, secondary: false, id: 0 }]);
    assert_eq!(screens_used(&e, None, &sprites(vec![]), false), 32);
}
