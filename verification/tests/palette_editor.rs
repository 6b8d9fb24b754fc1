use smwe_editor::palette_editor::{
    parse_hex_rgb, rgb8_to_snes555, snes_to_hex_rgb, EditablePalettes, EDITABLE_PALETTES_BYTES,
};
use smwe_editor::palette_files::SharedPaletteTables;
use smwe_editor::undo::{Undo, UndoableData};

#[test]
fn palette_undo_redo_round_trip() {
    let mut palettes = UndoableData::new(EditablePalettes::default());
    palettes.write(|p| p.bg[3] = 0x7FFF);
    palettes.write(|p| p.sprite[0] = 0x001F);
    assert!(palettes.can_undo());
    assert!(!palettes.can_redo());

    palettes.undo();
    assert_eq!(palettes.read(|p| p.sprite[0]), 0);
    assert_eq!(palettes.read(|p| p.bg[3]), 0x7FFF);
    assert!(palettes.can_redo());

    palettes.undo();
    assert_eq!(palettes.read(|p| p.bg[3]), 0);
    assert!(!palettes.can_undo());

    palettes.redo();
    palettes.redo();
    assert_eq!(palettes.read(|p| p.bg[3]), 0x7FFF);
    assert_eq!(palettes.read(|p| p.sprite[0]), 0x001F);
    assert!(!palettes.can_redo());
}

#[test]
fn palette_gesture_commit_is_single_step() {
    let mut palettes = UndoableData::new(EditablePalettes::default());
    let before = palettes.read(|p| p.clone());
    for v in [0x1111u16, 0x2222, 0x3333] {
        palettes.data_mut().fg[7] = v;
    }
    palettes.commit_change(&before);
    assert!(palettes.can_undo());
    palettes.undo();
    assert_eq!(palettes.read(|p| p.fg[7]), 0);
    assert!(!palettes.can_undo());
}

#[test]
fn palette_serialization_is_stable() {
    let mut p = EditablePalettes::default();
    p.bg[0] = 0x1234;
    p.sprite[11] = 0x7FFF;
    p.shared.bg[3][5] = 0x03E0;
    p.shared.sprite[7][11] = 0x001F;
    let bytes = p.to_bytes();
    assert_eq!(bytes.len(), EDITABLE_PALETTES_BYTES);
    let back = EditablePalettes::from_bytes(bytes);
    assert_eq!(back.to_bytes(), p.to_bytes());
    assert_eq!(back.shared.bg[3][5], 0x03E0);
    assert_eq!(back.shared.sprite[7][11], 0x001F);
}

#[test]
fn palette_from_bytes_keeps_shared_tables_after_undo_round_trip() {
    let mut palettes = UndoableData::new(EditablePalettes::default());
    let mut tables = SharedPaletteTables::default();
    tables.bg[0] = [0x001F; 12];
    tables.fg[1] = [0x03E0; 12];
    palettes.write(|p| {
        p.shared = tables.clone();
        p.bg = tables.bg[0];
    });
    palettes.undo();
    let (bg0, shared_bg0) = palettes.read(|p| (p.bg[0], p.shared.bg[0][0]));
    assert_eq!(bg0, 0);
    assert_eq!(shared_bg0, 0);
    palettes.redo();
    let (bg0, shared_bg0) = palettes.read(|p| (p.bg[0], p.shared.bg[0][0]));
    assert_eq!(bg0, 0x001F);
    assert_eq!(shared_bg0, 0x001F);
}

#[test]
fn palette_from_bytes_tolerates_truncated_tail() {
    let mut p = EditablePalettes::default();
    p.bg[0] = 0x1234;
    let mut bytes = p.to_bytes();
    bytes.truncate(72);
    let back = EditablePalettes::from_bytes(bytes);
    assert_eq!(back.bg[0], 0x1234);
    assert_eq!(back.shared.bg[0][0], 0);
}

#[test]
fn hex_rgb_parses_six_digits_with_optional_hash() {
    assert_eq!(parse_hex_rgb("FF0000"), Some((255, 0, 0)));
    assert_eq!(parse_hex_rgb("00ff00"), Some((0, 255, 0)));
    assert_eq!(parse_hex_rgb("#0000FF"), Some((0, 0, 255)));
    assert_eq!(parse_hex_rgb("#aBcDeF"), Some((0xAB, 0xCD, 0xEF)));
}

#[test]
fn hex_rgb_rejects_anything_else() {
    for bad in ["", "#", "FFF", "#FFF", "FFFFFFF", "GGGGGG", "FF00 0", "0xFF0000", "#FF000G", "red"] {
        assert_eq!(parse_hex_rgb(bad), None, "must reject {bad:?}");
    }
}

#[test]
fn snes_to_hex_rgb_formats_known_colors() {
    assert_eq!(snes_to_hex_rgb(0x0000), "000000");
    assert_eq!(snes_to_hex_rgb(0x7FFF), "FFFFFF");
    assert_eq!(snes_to_hex_rgb(0x001F), "FF0000");
    assert_eq!(snes_to_hex_rgb(0x03E0), "00FF00");
    assert_eq!(snes_to_hex_rgb(0x7C00), "0000FF");
}

#[test]
fn hex_entry_apply_is_one_undo_step() {
    let mut palettes = UndoableData::new(EditablePalettes::default());
    let (r, g, b) = parse_hex_rgb("#FF0000").unwrap();
    let new_raw = ((r as u16 * 31 / 255) & 0x1F)
        | (((g as u16 * 31 / 255) & 0x1F) << 5)
        | (((b as u16 * 31 / 255) & 0x1F) << 10);
    palettes.write(|p| p.bg[3] = new_raw);
    assert_eq!(palettes.read(|p| p.bg[3]), 0x001F);
    palettes.undo();
    assert_eq!(palettes.read(|p| p.bg[3]), 0);
    assert!(!palettes.can_undo(), "hex apply must be a single undo step");
}

#[test]
fn rgb8_conversion_matches_entry_formula() {
    assert_eq!(rgb8_to_snes555(255, 0, 0), 0x001F);
    assert_eq!(rgb8_to_snes555(0, 255, 0), 0x03E0);
    assert_eq!(rgb8_to_snes555(0, 0, 255), 0x7C00);
    assert_eq!(rgb8_to_snes555(0x80, 0x40, 0x10), 15 | (7 << 5) | (1 << 10));
}

#[test]
fn group_access_picks_the_row() {
    let mut p = EditablePalettes::default();
    p.group_mut(1)[2] = 0x0102;
    p.group_mut(9)[0] = 0x0303;
    p.shared_group_mut(2)[7][11] = 0x7C00;
    assert_eq!(p.fg[2], 0x0102);
    assert_eq!(p.sprite[0], 0x0303);
    assert_eq!(p.group(1)[2], 0x0102);
    assert_eq!(p.shared.sprite[7][11], 0x7C00);
    // The snapshot holds the on-screen colors first, then the shared tables.
    let bytes = p.to_bytes();
    assert_eq!(&bytes[28..30], &[0x02, 0x01]);
    assert_eq!(&bytes[646..648], &[0x00, 0x7C]);
}

#[test]
fn shared_palette_file_must_be_exact_size() {
    assert!(SharedPaletteTables::from_bytes(&vec![0u8; 575]).is_err());
    let mut bytes = vec![0u8; 576];
    bytes[2] = 0x1F;
    let t = SharedPaletteTables::from_bytes(&bytes).unwrap();
    assert_eq!(t.bg[0][1], 0x001F);
    assert_eq!(t.to_bytes(), bytes);
}

#[test]
fn color_edits_keep_the_shared_rows_in_step() {
    let mut p = EditablePalettes::default();
    p.set_color(1, 3, 0x7FFF, false, 5);
    assert_eq!(p.fg[3], 0x7FFF);
    assert_eq!(p.shared.fg[5][3], 0x7FFF);
    assert_eq!(p.shared.fg[4][3], 0);
    p.set_color(2, 0, 0x001F, true, 5);
    assert_eq!(p.sprite[0], 0x001F);
    assert_eq!(p.shared.sprite[5][0], 0);

    let mut tables = SharedPaletteTables::zeroed();
    tables.bg[2][1] = 0x1234;
    tables.sprite[7][11] = 0x0421;
    let mut q = EditablePalettes::default();
    q.insert_shared(tables, false, 2, 0, 7);
    assert_eq!(q.bg[1], 0x1234);
    assert_eq!(q.sprite[11], 0x0421);
    let mut c = EditablePalettes::default();
    c.insert_shared(tables, true, 2, 0, 7);
    assert_eq!(c.bg[1], 0);
    assert_eq!(c.shared.bg[2][1], 0x1234);

    let mut a = EditablePalettes::default();
    a.bg[0] = 0x0001;
    a.adopt_on_screen(6, 0, 0);
    assert_eq!(a.shared.bg[6][0], 0x0001);
    assert_eq!(a.shared.bg[5][0], 0);
}
