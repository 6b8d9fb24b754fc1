use smwe_editor::xref_search::{parse_query_value, XrefQueryKind};

#[test]
fn query_kinds_have_labels_and_bounds() {
    let all = XrefQueryKind::all();
    assert_eq!(all.len(), 6);
    assert_eq!(all[0], XrefQueryKind::Sprite);
    assert_eq!(XrefQueryKind::Music.label(), "Music track");
    assert_eq!(XrefQueryKind::BackgroundTile.label(), "Layer-2 BG tile ID");
    assert_eq!(XrefQueryKind::Music.max_value(), 7);
    assert_eq!(XrefQueryKind::ExitDestination.max_value(), 0x1FF);
    assert_eq!(XrefQueryKind::Sprite.max_value(), 0xFF);
    assert_eq!(XrefQueryKind::default(), XrefQueryKind::Sprite);
}

#[test]
fn query_value_accepts_hex_and_decimal() {
    assert_eq!(parse_query_value(" 0x3F ", 0xFF), Ok(0x3F));
    assert_eq!(parse_query_value("0XfF", 0xFF), Ok(0xFF));
    assert_eq!(parse_query_value("42", 0xFF), Ok(42));
    assert_eq!(parse_query_value("+7", 7), Ok(7));
}

#[test]
fn query_value_errors_name_the_problem() {
    assert_eq!(parse_query_value("  abc ", 0xFF), Err("\"abc\" is not a valid number (use 0x3F hex or decimal)".to_string()));
    assert_eq!(parse_query_value("0x", 0xFF), Err("\"0x\" is not a valid number (use 0x3F hex or decimal)".to_string()));
    assert_eq!(parse_query_value("0x200", 0x1FF), Err("Value 0x200 out of range (max 0x1FF)".to_string()));
    assert_eq!(parse_query_value("8", 7), Err("Value 0x8 out of range (max 0x7)".to_string()));
}
