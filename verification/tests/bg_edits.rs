use smwe_editor::bg_edits::{
    apply_tile_edits, bg_cell_index, bg_clear_edits, bg_paint_edits, bg_pattern, bg_pattern_fill,
    bg_preview_tiles, bg_remap_tiles, bg_resize_edits, BgDrag, BgFill, BG_TILEMAP_LEN,
};
use smwe_editor::editing::DragHandle;

fn blank() -> Vec<u8> {
    vec![0u8; BG_TILEMAP_LEN]
}

#[test]
fn cell_index_is_row_major_inside_the_map() {
    assert_eq!(bg_cell_index(0, 0), Some(0));
    assert_eq!(bg_cell_index(5, 1), Some(37));
    assert_eq!(bg_cell_index(31, 26), Some(863));
    assert_eq!(bg_cell_index(32, 0), None);
    assert_eq!(bg_cell_index(0, 27), None);
}

#[test]
fn pattern_fill_stays_inside_the_area() {
    let mut tiles = blank();
    for row in 0..27 {
        tiles[row * 32 + 2] = 9;
    }
    match bg_pattern_fill(&tiles, 0, 0, 1, 1, &vec![7]) {
        BgFill::Edits(e) => {
            assert_eq!(e.len(), 54);
            assert_eq!(e[0], (0, 7));
            assert_eq!(e[1], (1, 7));
            assert_eq!(e[2], (32, 7));
            assert!(e.iter().all(|&(i, v)| i % 32 < 2 && v == 7));
            let mut after = tiles.clone();
            apply_tile_edits(&mut after, &e);
            assert_eq!(after[0], 7);
            assert_eq!(after[2], 9);
            assert_eq!(after[3], 0);
        }
        _ => panic!("expected edits"),
    }
}

#[test]
fn pattern_fill_tiles_from_the_clicked_cell() {
    let mut tiles = blank();
    // Only cells (0,0) and (1,0) hold 0; the rest hold 5.
    for t in tiles.iter_mut().skip(2) {
        *t = 5;
    }
    match bg_pattern_fill(&tiles, 1, 0, 2, 1, &vec![1, 2]) {
        BgFill::Edits(e) => assert_eq!(e, vec![(0, 2), (1, 1)]),
        _ => panic!("expected edits"),
    }
}

#[test]
fn pattern_fill_reports_a_matching_pattern_and_clicks_outside() {
    let tiles = blank();
    assert!(matches!(bg_pattern_fill(&tiles, 3, 3, 1, 1, &vec![0]), BgFill::PatternMatches));
    assert!(matches!(bg_pattern_fill(&tiles, 32, 3, 1, 1, &vec![4]), BgFill::OutsideMap));
    assert!(matches!(bg_pattern_fill(&tiles, 3, 27, 1, 1, &vec![4]), BgFill::OutsideMap));
}

#[test]
fn pattern_fill_skips_cells_that_already_match() {
    let tiles = blank();
    match bg_pattern_fill(&tiles, 0, 0, 2, 1, &vec![0, 3]) {
        BgFill::Edits(e) => {
            assert_eq!(e.len(), 16 * 27);
            assert!(e.iter().all(|&(i, v)| i % 2 == 1 && v == 3));
        }
        _ => panic!("expected edits"),
    }
}

#[test]
fn edits_past_the_end_are_skipped() {
    let mut tiles = vec![1u8, 2, 3];
    apply_tile_edits(&mut tiles, &vec![(1, 9), (7, 4), (1, 8), (0, 5)]);
    assert_eq!(tiles, vec![5, 8, 3]);
}

#[test]
fn pattern_comes_from_the_selection_or_the_selected_tile() {
    let mut tiles = blank();
    tiles[32 + 1] = 4;
    tiles[32 + 2] = 5;
    tiles[64 + 1] = 6;
    assert_eq!(bg_pattern(&tiles, Some((1, 1, 2, 2)), 9), (2, 2, vec![4, 5, 6, 0]));
    assert_eq!(bg_pattern(&tiles, None, 9), (1, 1, vec![9]));
    // A cell past the right edge reads as the first cell.
    tiles[0] = 3;
    assert_eq!(bg_pattern(&tiles, Some((31, 0, 2, 1)), 9), (2, 1, vec![0, 3]));
}

#[test]
fn clearing_a_selection_empties_non_empty_cells() {
    let mut tiles = blank();
    tiles[33] = 4;
    tiles[35] = 7;
    assert_eq!(bg_clear_edits(&tiles, 1, 1, 3, 1), vec![(33, 0), (35, 0)]);
    assert_eq!(bg_clear_edits(&tiles, 5, 5, 2, 2), vec![]);
}

#[test]
fn resize_vacates_and_tiles_the_content() {
    let e = bg_resize_edits((0, 0, 2, 1), (1, 0, 3, 1), &vec![3, 4], 2, 1).unwrap();
    assert_eq!(e, vec![(0, 0), (1, 3), (2, 4), (3, 3)]);
    assert!(bg_resize_edits((0, 0, 2, 1), (0, 0, 2, 1), &vec![3, 4], 2, 1).is_none());
}

#[test]
fn paint_writes_each_cell_once_where_it_changes() {
    let mut tiles = blank();
    tiles[1] = 6;
    let cells = vec![(0, 0), (1, 0), (0, 0), (40, 0), (2, 0)];
    assert_eq!(bg_paint_edits(&tiles, &cells, 6), vec![(0, 6), (2, 6)]);
}

#[test]
fn remap_matches_blocks_by_their_tile_words() {
    let mut words = vec![[0u16; 4]; 512];
    words[5] = [1, 2, 3, 4];
    words[6] = [9, 9, 9, 9];
    words[256 + 3] = [1, 2, 3, 4];
    words[256 + 9] = [1, 2, 3, 4];
    words[7] = [0, 0, 0, 0];
    let tiles = vec![0u8, 5, 6, 7, 0];
    let (edits, unmatched) = bg_remap_tiles(&tiles, &words, 1, 0);
    // Tile 7's words are zeros, like block 0 of the new bank.
    assert_eq!(edits, vec![(1, 3), (3, 0)]);
    assert_eq!(unmatched, 1);
    // A second run against the same bank changes nothing.
    let (again, _) = bg_remap_tiles(&vec![0u8, 3], &words, 1, 1);
    assert_eq!(again, vec![]);
}

#[test]
fn preview_shows_what_the_drag_commits() {
    let mut tiles = blank();
    tiles[0] = 1;
    tiles[1] = 2;
    let drag = BgDrag::Resize { handle: DragHandle::E, orig: (0, 0, 2, 1), cur: (1, 0, 3, 1), content: vec![1, 2], cw: 2, ch: 1 };
    let preview = bg_preview_tiles(&tiles, &drag, 0).unwrap();
    let mut committed = tiles.clone();
    apply_tile_edits(&mut committed, &bg_resize_edits((0, 0, 2, 1), (1, 0, 3, 1), &vec![1, 2], 2, 1).unwrap());
    assert_eq!(preview, committed);
    assert_eq!(&preview[0..5], &[0, 1, 2, 1, 0]);

    let stroke = BgDrag::Paint { cells: vec![(0, 0), (3, 0), (0, 0)] };
    let painted = bg_preview_tiles(&tiles, &stroke, 8).unwrap();
    assert_eq!(&painted[0..5], &[8, 2, 0, 8, 0]);
    let select = BgDrag::Select { start: (0, 0), cur: (1, 1) };
    assert!(bg_preview_tiles(&tiles, &select, 8).is_none());
}
