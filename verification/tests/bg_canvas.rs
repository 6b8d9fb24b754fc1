use smwe_editor::bg_canvas::{
    bg_drag_move, bg_drag_release, bg_press, selection_in_tilemap, BgPress, BgRelease, BgTileTool,
};
use smwe_editor::bg_edits::{BgDrag, BG_TILEMAP_LEN};
use smwe_editor::editing::DragHandle;

fn tiles() -> Vec<u8> {
    (0..BG_TILEMAP_LEN).map(|i| (i % 7) as u8).collect()
}

#[test]
fn press_during_a_drag_does_nothing() {
    let t = tiles();
    assert!(matches!(
        bg_press(true, Some((0, 0, 2, 2)), Some(DragHandle::E), BgTileTool::Paint, Some((1, 1)), &t),
        BgPress::Nothing
    ));
}

#[test]
fn press_on_a_handle_starts_a_resize_with_the_selection_content() {
    let t = tiles();
    match bg_press(false, Some((1, 0, 2, 2)), Some(DragHandle::Se), BgTileTool::Eyedropper, None, &t) {
        BgPress::Drag(BgDrag::Resize { handle, orig, cur, content, cw, ch }) => {
            assert_eq!(handle, DragHandle::Se);
            assert_eq!(orig, (1, 0, 2, 2));
            assert_eq!(cur, (1, 0, 2, 2));
            assert_eq!((cw, ch), (2, 2));
            assert_eq!(content, vec![t[1], t[2], t[33], t[34]]);
        },
        _ => panic!("expected a resize"),
    }
}

#[test]
fn press_without_a_handle_follows_the_tool() {
    let t = tiles();
    match bg_press(false, Some((0, 0, 2, 2)), None, BgTileTool::Paint, Some((3, 4)), &t) {
        BgPress::Drag(BgDrag::Paint { cells }) => assert_eq!(cells, vec![(3, 4)]),
        _ => panic!("expected a stroke"),
    }
    match bg_press(false, None, None, BgTileTool::Select, Some((5, 6)), &t) {
        BgPress::Drag(BgDrag::Select { start, cur }) => assert_eq!((start, cur), ((5, 6), (5, 6))),
        _ => panic!("expected a selection drag"),
    }
    assert!(matches!(bg_press(false, None, None, BgTileTool::Eyedropper, Some((7, 8)), &t), BgPress::Pick(7, 8)));
    assert!(matches!(bg_press(false, None, None, BgTileTool::Paint, None, &t), BgPress::Nothing));
}

#[test]
fn a_stroke_skips_repeated_cells_and_commits_changed_tiles() {
    let t = tiles();
    let d = BgDrag::Paint { cells: vec![(0, 0)] };
    let (d, dirty) = bg_drag_move(d, (0, 0));
    assert!(!dirty);
    let (d, dirty) = bg_drag_move(d, (1, 0));
    assert!(dirty);
    let (d, _) = bg_drag_move(d, (0, 0));
    match &d {
        BgDrag::Paint { cells } => assert_eq!(cells, &vec![(0, 0), (1, 0), (0, 0)]),
        _ => panic!(),
    }
    match bg_drag_release(d, &t, 1) {
        BgRelease::Painted(e) => assert_eq!(e, vec![(0, 1)]),
        _ => panic!("expected paint edits"),
    }
}

#[test]
fn a_selection_drag_ends_in_a_normalized_rectangle() {
    let t = tiles();
    let (d, dirty) = bg_drag_move(BgDrag::Select { start: (5, 6), cur: (5, 6) }, (2, 9));
    assert!(!dirty);
    match bg_drag_release(d, &t, 0) {
        BgRelease::Selected(sel) => assert_eq!(sel, (2, 6, 4, 4)),
        _ => panic!("expected a selection"),
    }
}

#[test]
fn a_resize_drag_moves_the_handle_and_commits_the_tiling() {
    let t = tiles();
    let d = BgDrag::Resize { handle: DragHandle::E, orig: (0, 0, 1, 1), cur: (0, 0, 1, 1), content: vec![9], cw: 1, ch: 1 };
    let (d, dirty) = bg_drag_move(d, (2, 5));
    assert!(dirty);
    match &d {
        BgDrag::Resize { cur, .. } => assert_eq!(*cur, (0, 0, 3, 1)),
        _ => panic!(),
    }
    match bg_drag_release(d, &t, 0) {
        BgRelease::Resized(Some(e), sel) => {
            assert_eq!(sel, (0, 0, 3, 1));
            assert_eq!(e, vec![(0, 9), (1, 9), (2, 9)]);
        },
        _ => panic!("expected resize edits"),
    }
    let same = BgDrag::Resize { handle: DragHandle::W, orig: (3, 3, 2, 2), cur: (3, 3, 2, 2), content: vec![1, 2, 3, 4], cw: 2, ch: 2 };
    assert!(matches!(bg_drag_release(same, &t, 0), BgRelease::Resized(None, (3, 3, 2, 2))));
}

#[test]
fn selections_in_the_tilemap() {
    assert!(selection_in_tilemap((0, 0, 32, 27)));
    assert!(selection_in_tilemap((31, 26, 1, 1)));
    assert!(!selection_in_tilemap((31, 0, 2, 1)));
    assert!(!selection_in_tilemap((0, 0, 0, 1)));
    assert!(!selection_in_tilemap((u32::MAX, 0, 1, 1)));
}
