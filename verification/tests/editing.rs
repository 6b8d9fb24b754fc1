use smwe_editor::editing::{apply_resize, object_dims, settings_for_dims, DragHandle};

#[test]
fn dims_from_settings() {
    assert_eq!(object_dims(0x00, false), (1, 1));
    assert_eq!(object_dims(0x32, false), (3, 4));
    assert_eq!(object_dims(0xFF, false), (16, 16));
    assert_eq!(object_dims(0xFF, true), (1, 1));
}

#[test]
fn settings_roundtrip() {
    for w in 1..=16 {
        for h in 1..=16 {
            let s = settings_for_dims(w, h);
            assert_eq!(object_dims(s, false), (w, h));
        }
    }
    assert_eq!(settings_for_dims(0, 99), settings_for_dims(1, 16));
}

#[test]
fn resize_east_grows_width() {
    assert_eq!(apply_resize(5, 5, 3, 2, DragHandle::E, 9, 5), (5, 5, 5, 2));
}

#[test]
fn resize_west_moves_left_edge() {
    assert_eq!(apply_resize(5, 5, 3, 2, DragHandle::W, 3, 5), (3, 5, 5, 2));
    assert_eq!(apply_resize(5, 5, 3, 2, DragHandle::W, 99, 5), (7, 5, 1, 2));
}

#[test]
fn resize_north_moves_top_edge() {
    assert_eq!(apply_resize(5, 5, 3, 4, DragHandle::N, 5, 2), (5, 2, 3, 7));
}

#[test]
fn resize_south_grows_height() {
    assert_eq!(apply_resize(5, 5, 3, 2, DragHandle::S, 5, 12), (5, 5, 3, 8));
}

#[test]
fn resize_corner_does_both_axes() {
    assert_eq!(apply_resize(5, 5, 3, 2, DragHandle::Se, 9, 8), (5, 5, 5, 4));
    assert_eq!(apply_resize(5, 5, 3, 4, DragHandle::Nw, 3, 3), (3, 3, 5, 6));
}

#[test]
fn resize_clamps_to_16_and_nonnegative() {
    assert_eq!(apply_resize(0, 0, 3, 2, DragHandle::E, 100, 0), (0, 0, 16, 2));
    assert_eq!(apply_resize(5, 5, 3, 2, DragHandle::W, -50, 5), (0, 5, 8, 2));
}

#[test]
fn resize_west_clamps_width_to_16_far_from_origin() {
    assert_eq!(apply_resize(100, 5, 3, 2, DragHandle::W, 0, 5), (87, 5, 16, 2));
    assert_eq!(apply_resize(5, 100, 3, 2, DragHandle::N, 5, 0), (5, 86, 3, 16));
}

#[test]
fn resize_other_corners_and_keeps_fixed_edges() {
    assert_eq!(apply_resize(5, 5, 3, 2, DragHandle::Ne, 6, 1), (5, 1, 2, 6));
    assert_eq!(apply_resize(5, 5, 3, 2, DragHandle::Sw, 4, 5), (4, 5, 4, 1));
    // East drag to the left of the object clamps to width 1.
    assert_eq!(apply_resize(5, 5, 3, 2, DragHandle::E, 0, 0), (5, 5, 1, 2));
}

#[test]
fn settings_for_dims_packs_nibbles() {
    assert_eq!(settings_for_dims(3, 4), 0x32);
    assert_eq!(settings_for_dims(16, 16), 0xFF);
    assert_eq!(settings_for_dims(1, 1), 0x00);
}
