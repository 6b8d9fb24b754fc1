use smwe_editor::bg_tilemap::{apply_bg_resize, normalize_rect};
use smwe_editor::editing::DragHandle;

#[test]
fn normalize_rect_orders_and_clamps_corners() {
    assert_eq!(normalize_rect((5, 7), (2, 3)), (2, 3, 4, 5));
    assert_eq!(normalize_rect((40, 30), (30, 20)), (30, 20, 2, 7));
    assert_eq!(normalize_rect((100, 100), (100, 100)), (31, 26, 1, 1));
}

#[test]
fn bg_resize_stays_inside_tilemap() {
    // East edge follows the pointer but stops at column 31.
    assert_eq!(apply_bg_resize(28, 0, 2, 2, DragHandle::E, 50, 0), (28, 0, 4, 2));
    // West edge clamps at column 0, right edge fixed.
    assert_eq!(apply_bg_resize(5, 5, 3, 2, DragHandle::W, -10, 5), (0, 5, 8, 2));
    assert_eq!(apply_bg_resize(5, 5, 3, 2, DragHandle::W, 20, 5), (7, 5, 1, 2));
    // South edge stops at row 26; north edge at row 0.
    assert_eq!(apply_bg_resize(0, 20, 1, 2, DragHandle::S, 0, 40), (0, 20, 1, 7));
    assert_eq!(apply_bg_resize(0, 20, 1, 2, DragHandle::Nw, 0, -3), (0, 0, 1, 22));
    // Corner handles do both axes.
    assert_eq!(apply_bg_resize(2, 2, 2, 2, DragHandle::Se, 5, 6), (2, 2, 4, 5));
}
