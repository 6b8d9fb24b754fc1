use std::collections::BTreeMap;

use smwe_editor::act_remap::{
    act_as_of, effective_acts_table, parse_remap_request, remap_changes, remap_error_message, remap_preview_text,
    RemapError, RemapOp,
};

#[test]
fn reference_mode_reads_deltas_and_bases() {
    assert_eq!(parse_remap_request(true, "G100-101", "+25"), Ok(RemapOp::ShiftRefs { lo: 0x100, hi: 0x101, delta: 0x25 }));
    assert_eq!(parse_remap_request(true, "100-101", " -25 "), Ok(RemapOp::ShiftRefs { lo: 0x100, hi: 0x101, delta: -0x25 }));
    assert_eq!(parse_remap_request(true, "101-100", "M125"), Ok(RemapOp::RefsOnto { lo: 0x100, hi: 0x101, base: 0x125 }));
    assert_eq!(parse_remap_request(true, "100", "125"), Ok(RemapOp::RefsOnto { lo: 0x100, hi: 0x100, base: 0x125 }));
}

#[test]
fn assignment_mode_reads_a_base() {
    assert_eq!(
        parse_remap_request(false, "R200-211", "S25"),
        Ok(RemapOp::AssignFromBase { lo: 0x200, hi: 0x211, base: 0x25 })
    );
    assert_eq!(parse_remap_request(false, "200", "s0x25"), Ok(RemapOp::AssignFromBase { lo: 0x200, hi: 0x200, base: 0x25 }));
}

#[test]
fn each_refusal_names_its_field() {
    let cases: Vec<(bool, &str, &str, RemapError, &str)> = vec![
        (true, "zz", "+1", RemapError::BadSourceRange, "bad source range 'zz'"),
        (true, "8000-8001", "+1", RemapError::SourceNotForeground, "source range must be FG act-as values (< 0x8000)"),
        (true, "1-2", " +zz", RemapError::BadDelta, "bad delta 'zz'"),
        (true, "1-2", "Mq", RemapError::BadReference, "bad reference 'Mq'"),
        (true, "1-2", "8000", RemapError::ReferenceTooHigh, "reference must be < 0x8000"),
        (false, "x", "1", RemapError::BadTileRange, "bad tile range 'x'"),
        (false, "7FFF-8000", "1", RemapError::TilesNotForeground, "tile range must be FG tiles (< 0x8000)"),
        (false, "1-2", "Sq", RemapError::BadBase, "bad base 'Sq'"),
        (false, "1-2", "8000", RemapError::BaseTooHigh, "base must be < 0x8000"),
    ];
    for (mode, src, reference, err, text) in cases {
        assert_eq!(parse_remap_request(mode, src, reference), Err(err));
        assert_eq!(remap_error_message(err, src, reference), text);
    }
}

#[test]
fn changes_compare_both_tables_tile_by_tile() {
    let before: BTreeMap<u16, u16> = [(0x100, 0x25), (0x101, 0x101)].into_iter().collect();
    let after: BTreeMap<u16, u16> = [(0x100, 0x30), (0x200, 0x200), (0x300, 0x10)].into_iter().collect();
    let changes = remap_changes(&before, &after);
    assert_eq!(changes, vec![(0x100, 0x25, 0x30), (0x300, 0x300, 0x10)]);
    assert_eq!(remap_preview_text(&changes), "2 tile(s) would change:\n  0100: 0025 → 0030\n  0300: 0300 → 0010\n");
    assert_eq!(remap_preview_text(&vec![]), "No tiles would change.");
    assert!(remap_changes(&after, &after).is_empty());
}

#[test]
fn preview_lists_twelve_changes_at_most() {
    let changes: Vec<(u16, u16, u16)> = (0..13u16).map(|t| (t, t, t + 1)).collect();
    let text = remap_preview_text(&changes);
    assert!(text.starts_with("13 tile(s) would change:\n  0000: 0000 → 0001\n"));
    assert!(text.ends_with("  000B: 000B → 000C\n  … and 1 more"));
    assert_eq!(text.lines().count(), 14);
}

#[test]
fn pending_edits_lay_over_the_rom_table() {
    let table: BTreeMap<u16, u16> = [(1, 5), (2, 6)].into_iter().collect();
    let edits: BTreeMap<u16, u16> = [(1, 1), (3, 9)].into_iter().collect();
    let expected: BTreeMap<u16, u16> = [(2, 6), (3, 9)].into_iter().collect();
    assert_eq!(effective_acts_table(table, &edits), expected);
    assert_eq!(act_as_of(0x8001, &edits, 7), 0x8001);
    assert_eq!(act_as_of(3, &edits, 7), 9);
    assert_eq!(act_as_of(4, &edits, 7), 7);
}
