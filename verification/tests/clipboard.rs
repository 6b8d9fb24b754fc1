use smwe_editor::clipboard::{place_footprint, ClipObject, ClipSprite, ClipboardPayload};

fn sample_objects() -> ClipboardPayload {
    ClipboardPayload::LevelObjects {
        objects: vec![
            ClipObject {
                dx:          0,
                dy:          0,
                id:          0x12,
                settings:    0x34,
                is_extended: false,
                extended_id: 0,
                w:           2,
                h:           1,
                blocks:      vec![0x0100, 0x0101],
            },
            ClipObject {
                dx:          3,
                dy:          -1,
                id:          0x2F,
                settings:    0x00,
                is_extended: true,
                extended_id: 0x2A,
                w:           1,
                h:           1,
                blocks:      vec![0x25],
            },
        ],
        sprites: vec![ClipSprite { dx: 1, dy: 2, sprite_id: 0x0F, extra_bits: 2 }],
    }
}

#[test]
fn objects_roundtrip() {
    let p = sample_objects();
    let text = p.encode();
    assert!(text.starts_with("smwclip:1:objects:"));
    assert_eq!(ClipboardPayload::decode(&text), Some(p));
}

#[test]
fn objects_only_sprites_roundtrip() {
    let p = ClipboardPayload::LevelObjects {
        objects: vec![],
        sprites: vec![ClipSprite { dx: 0, dy: 0, sprite_id: 1, extra_bits: 0 }],
    };
    assert_eq!(ClipboardPayload::decode(&p.encode()), Some(p));
}

#[test]
fn map16_roundtrip() {
    let p = ClipboardPayload::Map16Blocks { cols: 2, rows: 2, ids: vec![0x0102, 0x00FF, 0x1234, 0x0000] };
    let text = p.encode();
    assert_eq!(text, "smwclip:1:map16:2,2:0102,00FF,1234,0000");
    assert_eq!(ClipboardPayload::decode(&text), Some(p));
}

#[test]
fn map16words_roundtrip() {
    let p = ClipboardPayload::Map16BlockWords { words: [0x0027, 0x4027, 0x8000, 0xC123] };
    assert_eq!(ClipboardPayload::decode(&p.encode()), Some(p));
}

#[test]
fn tile8x8_roundtrip() {
    let mut pixels = [0u8; 64];
    for (i, p) in pixels.iter_mut().enumerate() {
        *p = (i % 16) as u8;
    }
    let p = ClipboardPayload::Tile8x8 { file: 0x14, pixels };
    let text = p.encode();
    assert!(text.starts_with("smwclip:1:tile8x8:20:"));
    assert_eq!(text.len(), "smwclip:1:tile8x8:20:".len() + 128);
    assert_eq!(ClipboardPayload::decode(&text), Some(p));
}

#[test]
fn owtiles_roundtrip() {
    let p = ClipboardPayload::OverworldTiles { cols: 3, rows: 1, ids: vec![5, 0, 255] };
    assert_eq!(ClipboardPayload::decode(&p.encode()), Some(p));
}

#[test]
fn decode_rejects_non_payloads() {
    for bad in [
        "",
        "hello world",
        "smwclip:2:objects:o,0,0,1,2,0,0,1,1,0025|",
        "smwclip:1:nope:x",
        "smwclip:1:map16:2,2:0102",
        "smwclip:1:map16words:0102,00FF",
        "smwclip:1:tile8x8:20:ZZ",
        "smwclip:1:owtiles:2,2:1,2,3",
        // Empty selections carry nothing.
        "smwclip:1:objects:|",
    ] {
        assert_eq!(ClipboardPayload::decode(bad), None, "should reject {bad:?}");
    }
}

#[test]
fn decode_tolerates_surrounding_whitespace() {
    let p = ClipboardPayload::Map16Blocks { cols: 1, rows: 1, ids: vec![0x25] };
    assert_eq!(ClipboardPayload::decode(&format!("  {}\n", p.encode())), Some(p));
}

#[test]
fn objects_text_is_human_readable_hex() {
    // LM copies "tile hex values as text": the payload must read as hex.
    let p = ClipboardPayload::Map16Blocks { cols: 1, rows: 1, ids: vec![0x0102] };
    assert!(p.encode().contains("0102"));
}

#[test]
fn place_footprint_clamps_into_level() {
    assert_eq!(place_footprint((10, 10), 0, 0, 2, 2, 32, 32), (10, 10));
    assert_eq!(place_footprint((10, 10), 3, -4, 2, 2, 32, 32), (13, 6));
    // Footprint stays fully inside: clamped to level - size.
    assert_eq!(place_footprint((30, 30), 0, 0, 4, 4, 32, 32), (28, 28));
    // Negative offsets clamp to 0.
    assert_eq!(place_footprint((0, 0), -5, -5, 1, 1, 32, 32), (0, 0));
    // Degenerate level dims don't underflow.
    assert_eq!(place_footprint((5, 5), 0, 0, 1, 1, 0, 0), (0, 0));
}

// ── Further cases ────────────────────────────────────────────────────────

#[test]
fn objects_text_is_exact() {
    let text = sample_objects().encode();
    assert_eq!(text, "smwclip:1:objects:o,0,0,18,52,0,0,2,1,01000101;o,3,-1,47,0,1,42,1,1,0025|s,1,2,15,2");
}

#[test]
fn decode_accepts_padded_and_signed_fields() {
    // Each field is trimmed and parsed as Rust's integer parsers do.
    let got = ClipboardPayload::decode("smwclip:1:objects:o, +1 ,-2,3,4,0,0,1,1, +25|s,0,0,1,0");
    let want = ClipboardPayload::LevelObjects {
        objects: vec![ClipObject {
            dx:          1,
            dy:          -2,
            id:          3,
            settings:    4,
            is_extended: false,
            extended_id: 0,
            w:           1,
            h:           1,
            blocks:      vec![0x25],
        }],
        sprites: vec![ClipSprite { dx: 0, dy: 0, sprite_id: 1, extra_bits: 0 }],
    };
    assert_eq!(got, Some(want));
}

#[test]
fn decode_block_chunks_are_byte_aligned() {
    // A non-breaking space (two UTF-8 bytes) plus two hex digits fills one
    // 4-byte chunk and is trimmed away.
    let got = ClipboardPayload::decode("smwclip:1:objects:o,0,0,1,2,0,0,1,1,\u{a0}25|");
    match got {
        Some(ClipboardPayload::LevelObjects { objects, .. }) => assert_eq!(objects[0].blocks, vec![0x25]),
        other => panic!("unexpected {other:?}"),
    }
    // A three-byte character straddles the chunk boundary: rejected.
    assert_eq!(ClipboardPayload::decode("smwclip:1:objects:o,0,0,1,2,0,0,1,1,\u{3000}25|"), None);
}

#[test]
fn decode_rejects_out_of_range_numbers() {
    assert_eq!(ClipboardPayload::decode("smwclip:1:owtiles:1,1:256"), None);
    assert_eq!(ClipboardPayload::decode("smwclip:1:map16:1,1:10000"), None);
    assert_eq!(ClipboardPayload::decode("smwclip:1:objects:o,2147483648,0,1,2,0,0,0,0,|"), None);
    assert!(ClipboardPayload::decode("smwclip:1:objects:o,-2147483648,0,1,2,0,0,0,0,|").is_some());
}

#[test]
fn decode_requires_all_header_parts() {
    assert_eq!(ClipboardPayload::decode("smwclip"), None);
    assert_eq!(ClipboardPayload::decode("smwclip:1"), None);
    assert_eq!(ClipboardPayload::decode("smwclip:1:map16"), None);
    assert_eq!(ClipboardPayload::decode("smwclip:1:map16words:1,2,3,4:5"), None);
}

#[test]
fn tile8x8_accepts_plus_signed_pairs() {
    let mut text = String::from("smwclip:1:tile8x8:3:");
    for _ in 0..64 {
        text.push_str("+F");
    }
    assert_eq!(ClipboardPayload::decode(&text), Some(ClipboardPayload::Tile8x8 { file: 3, pixels: [15; 64] }));
}

#[test]
fn place_footprint_wide_footprint_pins_to_origin() {
    // A footprint wider than the level is pinned at 0.
    assert_eq!(place_footprint((7, 7), 2, 2, 50, 50, 32, 32), (0, 0));
}
