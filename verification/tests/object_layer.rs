use smwe_editor::object_layer::{
    EditableDirectMap16, EditableDm16Object, EditableExit, EditableObject, EditableObjectLayer, LayoutError,
};
use smwe_editor::undo::Undo;

fn obj(x: u32, y: u32, id: u8, settings: u8) -> EditableObject {
    EditableObject { x, y, id, settings, is_extended: false, extended_id: 0 }
}

#[test]
fn stream_bytes_for_index_matches_serialized_stream() {
    let layer = EditableObjectLayer {
        objects: vec![
            EditableObject { x: 0, y: 0, id: 0x12, settings: 0x34, is_extended: false, extended_id: 0 },
            EditableObject { x: 17, y: 5, id: 0x2F, settings: 0x56, is_extended: false, extended_id: 0 },
            EditableObject { x: 3, y: 2, id: 0, settings: 0, is_extended: true, extended_id: 0x7F },
        ],
        exits: vec![],
    };
    assert_eq!(layer.stream_bytes_for_index(0, false), Some([0x20, 0x20, 0x34]));
    assert_eq!(layer.stream_bytes_for_index(1, false), Some([0xC5, 0xF1, 0x56]));
    assert_eq!(layer.stream_bytes_for_index(2, false), Some([0x02, 0x03, 0x7F]));
    assert_eq!(layer.stream_bytes_for_index(3, false), None);
    assert_eq!(layer.serialize_layer1_bytes(false).unwrap(), vec![
        0x20, 0x20, 0x34, 0xC5, 0xF1, 0x56, 0x00, 0x00, 0x01, 0x02, 0x03, 0x7F, 0xFF
    ]);
}

#[test]
fn serializes_horizontal_objects_and_exits() {
    let layer = EditableObjectLayer {
        objects: vec![
            EditableObject { x: 0, y: 0, id: 0x12, settings: 0x34, is_extended: false, extended_id: 0 },
            EditableObject { x: 17, y: 5, id: 0x2F, settings: 0x56, is_extended: false, extended_id: 0 },
        ],
        exits: vec![EditableExit { screen: 3, midway: false, secondary: false, id: 0x0123 }],
    };
    let bytes = layer.serialize_layer1_bytes(false).unwrap();
    assert_eq!(bytes, vec![0x20, 0x20, 0x34, 0xC5, 0xF1, 0x56, 0x03, 0x01, 0x00, 0x23, 0xFF]);
}

#[test]
fn serializes_vertical_objects_with_screen_jump() {
    let layer = EditableObjectLayer {
        objects: vec![
            EditableObject { x: 7, y: 18, id: 0x11, settings: 0xAA, is_extended: false, extended_id: 0 },
            EditableObject { x: 9, y: 64, id: 0x22, settings: 0xBB, is_extended: false, extended_id: 0 },
        ],
        exits: vec![],
    };
    let bytes = layer.serialize_layer1_bytes(true).unwrap();
    assert_eq!(bytes, vec![0xA7, 0x12, 0xAA, 0x04, 0x00, 0x01, 0x49, 0x20, 0xBB, 0xFF]);
}

#[test]
fn dm16_undo_round_trip() {
    let layer = EditableDirectMap16 {
        objects: vec![
            EditableDm16Object {
                x: 10,
                y: 20,
                w: 4,
                h: 3,
                pw: 2,
                ph: 2,
                tiles: vec![0x25, 0x26, 0x2B, 0x2C],
                condition: Some((0x14AF, 0)),
            },
            EditableDm16Object { x: 0, y: 0, w: 1, h: 1, pw: 1, ph: 1, tiles: vec![0x130], condition: None },
        ],
    };
    let bytes = layer.to_bytes();
    assert_eq!(bytes.len(), layer.size_bytes());
    let back = EditableDirectMap16::from_bytes(bytes);
    assert_eq!(back, layer);
    assert_eq!(back.objects[0].tile_at(2, 0), 0x25);
    assert_eq!(back.objects[0].tile_at(3, 2), 0x26);
}

#[test]
fn dm16_from_bytes_tolerates_truncation() {
    let back = EditableDirectMap16::from_bytes(vec![0x02, 0x00, 0xFF]);
    assert!(back.objects.is_empty());
}

#[test]
fn empty_layer_serializes_to_terminator() {
    let layer = EditableObjectLayer::default();
    assert_eq!(layer.serialize_layer1_bytes(false).unwrap(), vec![0xFF]);
}

#[test]
fn next_screen_uses_new_screen_flag() {
    let layer = EditableObjectLayer { objects: vec![obj(0, 1, 0x01, 0x00), obj(16, 1, 0x01, 0x00)], exits: vec![] };
    assert_eq!(layer.serialize_layer1_bytes(false).unwrap(), vec![0x01, 0x10, 0x00, 0x81, 0x10, 0x00, 0xFF]);
    assert_eq!(layer.stream_bytes_for_index(1, false), Some([0x81, 0x10, 0x00]));
}

#[test]
fn layout_errors_name_the_offending_value() {
    let too_far = EditableObjectLayer { objects: vec![obj(16 * 256, 0, 1, 0)], exits: vec![] };
    let e = too_far.serialize_layer1_bytes(false).unwrap_err();
    assert_eq!(e, LayoutError::ScreenOutOfRange { vertical: false, screen: 256 });
    assert_eq!(e.message(), "horizontal object screen out of range: 256");

    let too_low = EditableObjectLayer { objects: vec![obj(0, 300, 1, 0)], exits: vec![] };
    let e = too_low.serialize_layer1_bytes(false).unwrap_err();
    assert_eq!(e.message(), "horizontal object y out of range: 300");

    let raw = EditableObjectLayer { objects: vec![obj(0, 0x20, 1, 0)], exits: vec![] };
    let e = raw.serialize_layer1_bytes(false).unwrap_err();
    assert_eq!(e, LayoutError::RowOutOfRawRange { vertical: false, value: 0x20 });
    assert_eq!(e.message(), "horizontal object y out of range for raw format: 32");

    let vertical = EditableObjectLayer { objects: vec![obj(40, 0, 1, 0)], exits: vec![] };
    assert_eq!(vertical.serialize_layer1_bytes(true).unwrap_err().message(), "vertical object x out of range for raw format: 40");
    assert_eq!(vertical.stream_bytes_for_index(0, true), None);
}

#[test]
fn screen_and_local_coords_splits_the_axis() {
    let o = obj(37, 9, 0, 0);
    assert_eq!(o.screen_and_local_coords(false), Ok((2, 5, 9)));
    let v = obj(9, 37, 0, 0);
    assert_eq!(v.screen_and_local_coords(true), Ok((2, 5, 9)));
}

#[test]
fn raw_words_pack_fields() {
    let o = obj(0x13, 0x05, 0x2F, 0x56);
    assert_eq!(o.to_raw(true), 0x85F3_0056);
    let e = EditableObject { x: 3, y: 2, id: 0, settings: 0, is_extended: true, extended_id: 0x7F };
    assert_eq!(e.to_raw(false), 0x0203_007F);
    let exit = EditableExit { screen: 3, midway: true, secondary: true, id: 0x0123 };
    assert_eq!(exit.to_raw(), 0x030A_0123);
}

#[test]
fn object_layer_undo_round_trip() {
    let layer = EditableObjectLayer {
        objects: vec![obj(0x1234_5678, 7, 0x12, 0x34), EditableObject {
            x: 3,
            y: 2,
            id: 0,
            settings: 0,
            is_extended: true,
            extended_id: 0x7F,
        }],
        exits: vec![EditableExit { screen: 3, midway: true, secondary: false, id: 0x0123 }],
    };
    let bytes = layer.to_bytes();
    assert_eq!(bytes.len(), layer.size_bytes());
    assert_eq!(&bytes[0..4], &[2, 0, 1, 0]);
    assert_eq!(&bytes[4..8], &[0x78, 0x56, 0x34, 0x12]);
    assert_eq!(EditableObjectLayer::from_bytes(bytes), layer);
}

#[test]
fn object_layer_from_short_bytes_is_empty() {
    assert_eq!(EditableObjectLayer::from_bytes(vec![1, 0, 0]), EditableObjectLayer::default());
    // Counts announce more records than there are: only whole records are read.
    let back = EditableObjectLayer::from_bytes(vec![5, 0, 0, 0, 1, 0, 0, 0, 2, 0, 0, 0, 3, 4, 1, 5, 9]);
    assert_eq!(back.objects, vec![EditableObject { x: 1, y: 2, id: 3, settings: 4, is_extended: true, extended_id: 5 }]);
    assert!(back.exits.is_empty());
}

#[test]
fn dm16_sanitize_clamps_and_pads() {
    let mut o = EditableDm16Object { x: 1, y: 1, w: 0, h: 99, pw: 2, ph: 1, tiles: vec![7], condition: Some((0x10, 12)) };
    o.sanitize();
    assert_eq!((o.w, o.h, o.pw, o.ph), (1, 64, 2, 1));
    assert_eq!(o.tiles, vec![7, 0x25]);
    assert_eq!(o.condition, Some((0x10, 8)));
    assert!(o.covers(1, 1));
    assert!(!o.covers(2, 1));
    assert!(o.covers(1, 64));
    assert!(!o.covers(1, 65));
}

#[test]
fn dm16_tile_at_without_pattern_is_fill() {
    let o = EditableDm16Object { x: 0, y: 0, w: 2, h: 2, pw: 0, ph: 0, tiles: vec![], condition: None };
    assert_eq!(o.tile_at(5, 5), 0x25);
}

#[test]
fn objects_on_the_last_screen_match_the_stream() {
    let layer = EditableObjectLayer { objects: vec![obj(4080, 0, 0, 0), obj(4081, 0, 0, 0)], exits: vec![] };
    let bytes = layer.serialize_layer1_bytes(false).unwrap();
    assert_eq!(bytes, vec![0x1F, 0x00, 0x01, 0x00, 0x00, 0x00, 0x00, 0x01, 0x00, 0xFF]);
    assert_eq!(layer.stream_bytes_for_index(0, false), Some([0x00, 0x00, 0x00]));
    assert_eq!(layer.stream_bytes_for_index(1, false), Some([0x00, 0x01, 0x00]));
}
