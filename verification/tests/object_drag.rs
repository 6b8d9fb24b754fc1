use smwe_editor::editing::DragHandle;
use smwe_editor::object_drag::{
    commit_object_drag, object_at_tile, remove_selected, selected_footprints, stretched_footprint, ObjectDrag,
};
use smwe_editor::object_layer::EditableObject;

fn obj(x: u32, y: u32, id: u8, settings: u8) -> EditableObject {
    EditableObject { x, y, id, settings, is_extended: false, extended_id: 0 }
}

fn drag(handle: Option<DragHandle>, orig: (u32, u32, u32, u32), grab: (i32, i32)) -> ObjectDrag {
    ObjectDrag {
        index: 0,
        check_id: 7,
        handle,
        is_extended: false,
        orig_x: orig.0,
        orig_y: orig.1,
        orig_w: orig.2,
        orig_h: orig.3,
        grab_dx: grab.0,
        grab_dy: grab.1,
        cur_x: orig.0,
        cur_y: orig.1,
        cur_w: orig.2,
        cur_h: orig.3,
    }
}

#[test]
fn the_topmost_object_is_hit_first() {
    let objects = vec![obj(0, 0, 1, 0x11), obj(1, 1, 2, 0x00)];
    assert_eq!(object_at_tile(&objects, 1, 1), Some(1));
    assert_eq!(object_at_tile(&objects, 0, 1), Some(0));
    assert_eq!(object_at_tile(&objects, 2, 0), None);
    assert_eq!(object_at_tile(&objects, -1, 0), None);
    let ext = EditableObject { x: 4, y: 4, id: 0, settings: 0xFF, is_extended: true, extended_id: 3 };
    assert_eq!(object_at_tile(&vec![ext], 5, 4), None);
    assert_eq!(object_at_tile(&vec![ext], 4, 4), Some(0));
}

#[test]
fn deleting_keeps_the_rest_in_order() {
    let objects = vec![obj(0, 0, 1, 0), obj(1, 0, 2, 0), obj(2, 0, 3, 0), obj(3, 0, 4, 0x21)];
    let kept = remove_selected(objects.clone(), &vec![3, 1]);
    assert_eq!(kept, vec![obj(0, 0, 1, 0), obj(2, 0, 3, 0)]);
    assert_eq!(remove_selected(objects.clone(), &vec![9]), objects);
    assert_eq!(selected_footprints(&objects, &vec![3, 9, 0]), vec![(3, 0, 2, 3), (0, 0, 1, 1)]);
}

#[test]
fn a_move_follows_the_pointer_inside_the_level() {
    let mut d = drag(None, (5, 5, 3, 2), (1, 0));
    d.drag_to(10, 3, 12, 10);
    assert_eq!((d.cur_x, d.cur_y, d.cur_w, d.cur_h), (9, 3, 3, 2));
    d.drag_to(0, -4, 12, 10);
    assert_eq!((d.cur_x, d.cur_y), (0, 0));
    assert!(d.changed());
    d.drag_to(6, 5, 12, 10);
    assert!(!d.changed());
}

#[test]
fn a_resize_follows_the_handle_inside_the_level() {
    let mut d = drag(Some(DragHandle::E), (5, 5, 3, 2), (0, 0));
    d.drag_to(9, 5, 20, 20);
    assert_eq!((d.cur_x, d.cur_y, d.cur_w, d.cur_h), (5, 5, 5, 2));
    d.drag_to(9, 5, 8, 20);
    assert_eq!((d.cur_x, d.cur_y, d.cur_w, d.cur_h), (3, 5, 5, 2));
}

#[test]
fn commit_writes_the_dragged_object_once() {
    let mut objects = vec![obj(5, 5, 7, 0x12), obj(0, 0, 1, 0)];
    let mut d = drag(Some(DragHandle::Se), (5, 5, 3, 2), (0, 0));
    d.cur_x = 6;
    d.cur_w = 4;
    d.cur_h = 5;
    assert!(commit_object_drag(&mut objects, &d));
    assert_eq!(objects[0], obj(6, 5, 7, 0x43));
    assert_eq!(objects[1], obj(0, 0, 1, 0));

    d.check_id = 9;
    let before = objects.clone();
    assert!(!commit_object_drag(&mut objects, &d));
    assert_eq!(objects, before);
    d.index = 5;
    d.check_id = 7;
    assert!(!commit_object_drag(&mut objects, &d));
}

#[test]
fn grown_cells_repeat_the_old_edge() {
    let mut d = drag(Some(DragHandle::Se), (0, 0, 2, 2), (0, 0));
    d.cur_w = 3;
    d.cur_h = 3;
    assert_eq!(stretched_footprint(&vec![1, 2, 3, 4], &d), vec![1, 2, 2, 3, 4, 4, 3, 4, 4]);
    let mut m = drag(None, (0, 0, 2, 1), (0, 0));
    m.cur_x = 1;
    assert_eq!(stretched_footprint(&vec![7, 8], &m), vec![8, 8]);
    let mut w = drag(Some(DragHandle::W), (2, 0, 2, 1), (0, 0));
    w.cur_x = 0;
    w.cur_w = 4;
    assert_eq!(stretched_footprint(&vec![7, 8], &w), vec![7, 7, 7, 8]);
}
