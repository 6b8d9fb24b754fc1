use smwe_editor::clipboard::ClipboardPayload;
use smwe_editor::map16_editor::{map16_paste_action, parse_hex_range, parse_hex_u16, EditableMap16Edits, Map16Paste};
use smwe_editor::undo::{Undo, UndoableData};

#[test]
fn map16_undo_redo_round_trip() {
    let mut edits = UndoableData::new(EditableMap16Edits::default());
    edits.write(|e| {
        e.edits.insert(0x101, [0x0123, 0x4567, 0x89AB, 0xCDEF]);
    });
    edits.write(|e| {
        e.edits.insert(0x102, [0x0001, 0x0002, 0x0003, 0x0004]);
    });

    edits.undo();
    assert!(edits.read(|e| e.edits.get(&0x102).is_none()));
    assert_eq!(edits.read(|e| e.edits[&0x101]), [0x0123, 0x4567, 0x89AB, 0xCDEF]);

    edits.write(|e| {
        e.edits.remove(&0x101);
    });
    assert!(edits.read(|e| e.edits.get(&0x101).is_none()));
    edits.undo();
    assert_eq!(edits.read(|e| e.edits[&0x101]), [0x0123, 0x4567, 0x89AB, 0xCDEF]);

    edits.redo();
    assert!(edits.read(|e| e.edits.get(&0x101).is_none()));
}

#[test]
fn map16_serialization_is_deterministic() {
    let mut a = EditableMap16Edits::default();
    a.edits.insert(0x200, [1, 2, 3, 4]);
    a.edits.insert(0x101, [5, 6, 7, 8]);
    let mut b = EditableMap16Edits::default();
    b.edits.insert(0x101, [5, 6, 7, 8]);
    b.edits.insert(0x200, [1, 2, 3, 4]);
    assert_eq!(a.to_bytes(), b.to_bytes());
    assert_eq!(a.to_bytes().len(), 20);
    let back = EditableMap16Edits::from_bytes(a.to_bytes());
    assert_eq!(back.to_bytes(), a.to_bytes());
}

#[test]
fn map16_gesture_commit_is_single_step() {
    let mut edits = UndoableData::new(EditableMap16Edits::default());
    let before = edits.read(|e| e.clone());
    for tile in [0x0100u16, 0x0101, 0x0102] {
        edits.data_mut().edits.insert(0x101, [tile, 0, 0, 0]);
    }
    edits.commit_change(&before);
    edits.undo();
    assert!(edits.read(|e| e.edits.get(&0x101).is_none()));
    assert!(!edits.can_undo());
}

#[test]
fn map16_record_layout_is_little_endian_by_block() {
    let mut a = EditableMap16Edits::default();
    a.edits.insert(0x0203, [0x1122, 0, 0, 0xFFFF]);
    a.edits.insert(0x0001, [1, 2, 3, 4]);
    assert_eq!(a.size_bytes(), 20);
    assert_eq!(a.to_bytes(), vec![
        0x01, 0x00, 0x01, 0x00, 0x02, 0x00, 0x03, 0x00, 0x04, 0x00, 0x03, 0x02, 0x22, 0x11, 0, 0, 0, 0, 0xFF, 0xFF
    ]);
    // A trailing partial record is ignored; a repeated block keeps the later record.
    let back = EditableMap16Edits::from_bytes(vec![5, 0, 1, 0, 0, 0, 0, 0, 0, 0, 5, 0, 9, 0, 0, 0, 0, 0, 0, 0, 7]);
    assert_eq!(back.edits.len(), 1);
    assert_eq!(back.edits[&5], [9, 0, 0, 0]);
}

#[test]
fn hex_u16_accepts_prefix_and_whitespace() {
    assert_eq!(parse_hex_u16(" 0x1F "), Some(0x1F));
    assert_eq!(parse_hex_u16("0X2a"), Some(0x2A));
    assert_eq!(parse_hex_u16("ffff"), Some(0xFFFF));
    assert_eq!(parse_hex_u16("10000"), None);
    assert_eq!(parse_hex_u16("0x"), None);
    assert_eq!(parse_hex_u16(""), None);
    assert_eq!(parse_hex_u16("zz"), None);
}

#[test]
fn hex_range_orders_and_strips_markers() {
    assert_eq!(parse_hex_range("G100-101"), Some((0x100, 0x101)));
    assert_eq!(parse_hex_range("r200-1f0"), Some((0x1F0, 0x200)));
    assert_eq!(parse_hex_range(" 25 "), Some((0x25, 0x25)));
    assert_eq!(parse_hex_range("1-"), None);
    assert_eq!(parse_hex_range("x-1"), None);
}

#[test]
fn pasting_into_the_block_editor() {
    let words = ClipboardPayload::Map16BlockWords { words: [1, 2, 3, 4] }.encode();
    assert_eq!(map16_paste_action(&words), Map16Paste::Words([1, 2, 3, 4]));
    let one = ClipboardPayload::Map16Blocks { cols: 1, rows: 1, ids: vec![0x130] }.encode();
    assert_eq!(map16_paste_action(&one), Map16Paste::JumpTo(0x130));
    let two = ClipboardPayload::Map16Blocks { cols: 2, rows: 1, ids: vec![1, 2] }.encode();
    assert_eq!(map16_paste_action(&two), Map16Paste::OtherKind);
    let ow = ClipboardPayload::OverworldTiles { cols: 1, rows: 1, ids: vec![7] }.encode();
    assert_eq!(map16_paste_action(&ow), Map16Paste::OtherKind);
    assert_eq!(map16_paste_action("hello"), Map16Paste::NotOurs);
}
