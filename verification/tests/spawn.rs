use smwe_editor::level::{entrance_to_tiles, tiles_to_entrance, SpawnEditor, DEFAULT_SPAWN_X, DEFAULT_SPAWN_Y};

#[test]
fn entrance_converts_to_tiles_and_back() {
    assert_eq!(entrance_to_tiles(0, 0, 11, false), (0, 22));
    assert_eq!(entrance_to_tiles(3, 5, 2, false), (3 * 16 + 10, 4));
    assert_eq!(entrance_to_tiles(3, 5, 2, true), (16 + 10, 32 + 4));
    assert_eq!(tiles_to_entrance(3 * 16 + 10, 4, false), (3, 5, 2));
    assert_eq!(tiles_to_entrance(16 + 10, 32 + 4, true), (3, 5, 2));
    // Odd tiles round down; positions past the header fields are capped.
    assert_eq!(tiles_to_entrance(15, 40, false), (0, 7, 15));
}

#[test]
fn set_spawn_is_one_step_and_skips_no_change() {
    let mut s = SpawnEditor::new(1, 2);
    s.set_spawn(1, 2);
    assert!(!s.spawn.can_undo());
    assert!(!s.has_edits);
    s.set_spawn(9, 9);
    assert_eq!(s.spawn_pos(), (9, 9));
    assert!(s.undo_pending && s.has_edits);
    s.spawn.undo();
    assert_eq!(s.spawn_pos(), (1, 2));
    s.spawn.redo();
    s.reset_spawn_to_default();
    assert_eq!(s.spawn_pos(), (DEFAULT_SPAWN_X, DEFAULT_SPAWN_Y));
}

#[test]
fn drag_commits_once_and_click_commits_nothing() {
    let mut s = SpawnEditor::new(4, 4);
    s.begin_spawn_drag();
    s.drag_spawn_to(5, 4);
    s.drag_spawn_to(6, 5);
    s.end_spawn_drag();
    assert_eq!(s.spawn_pos(), (6, 5));
    assert!(s.undo_pending);
    s.spawn.undo();
    assert_eq!(s.spawn_pos(), (4, 4));
    assert!(!s.spawn.can_undo());

    let mut c = SpawnEditor::new(4, 4);
    c.begin_spawn_drag();
    c.end_spawn_drag();
    assert!(!c.spawn.can_undo());
    assert!(c.drag_before.is_none());
    c.mark_edited();
    assert!(c.has_edits && !c.undo_pending);
}
