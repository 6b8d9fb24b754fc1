use std::collections::HashSet;

use smwe_editor::dm16_editor::flood_fill_runs;

/// The fillable grid of a set of (x, y) tiles, row by row.
fn mask_of(set: &HashSet<(u32, u32)>, w: u32, h: u32) -> Vec<bool> {
    let mut m = Vec::new();
    for y in 0..h {
        for x in 0..w {
            m.push(set.contains(&(x, y)));
        }
    }
    m
}

fn full_rect(w: u32, h: u32) -> HashSet<(u32, u32)> {
    (0..w).flat_map(|x| (0..h).map(move |y| (x, y))).collect()
}

#[test]
fn flood_fill_single_run_merges_rows() {
    let set = full_rect(4, 3);
    let rects = flood_fill_runs(&mask_of(&set, 4, 3), 1, 1, 4, 3);
    assert_eq!(rects, vec![(0, 0, 4, 3)]);
}

#[test]
fn flood_fill_respects_enclosure() {
    let mut set = HashSet::new();
    for x in 0..5u32 {
        for y in 0..5u32 {
            if x != 2 {
                set.insert((x, y));
            }
        }
    }
    let rects = flood_fill_runs(&mask_of(&set, 5, 5), 0, 0, 5, 5);
    assert_eq!(rects, vec![(0, 0, 2, 5)]);
}

#[test]
fn flood_fill_l_shape_decomposes_to_runs() {
    let mut set = HashSet::new();
    for x in 0..3u32 {
        set.insert((x, 0));
    }
    set.insert((0, 1));
    set.insert((0, 2));
    let mut rects = flood_fill_runs(&mask_of(&set, 3, 3), 0, 0, 3, 3);
    rects.sort();
    assert_eq!(rects, vec![(0, 0, 3, 1), (0, 1, 1, 2)]);
}

#[test]
fn flood_fill_empty_and_out_of_bounds() {
    let set = HashSet::new();
    assert!(flood_fill_runs(&mask_of(&set, 8, 8), 0, 0, 8, 8).is_empty());
    let full = full_rect(8, 8);
    assert!(flood_fill_runs(&mask_of(&full, 8, 8), 9, 9, 8, 8).is_empty());
    assert!(flood_fill_runs(&mask_of(&full, 0, 0), 0, 0, 0, 0).is_empty());
}

#[test]
fn flood_fill_4_connected_not_diagonal() {
    let set = HashSet::from([(0, 0), (1, 1)]);
    let rects = flood_fill_runs(&mask_of(&set, 4, 4), 0, 0, 4, 4);
    assert_eq!(rects, vec![(0, 0, 1, 1)]);
}

#[test]
fn flood_fill_orders_by_x_width_then_y() {
    // A U shape: columns 0 and 2 of rows 0..3 plus the bottom row.
    let mut set = HashSet::new();
    for y in 0..3u32 {
        set.insert((0, y));
        set.insert((2, y));
    }
    set.insert((1, 2));
    let rects = flood_fill_runs(&mask_of(&set, 3, 3), 2, 0, 3, 3);
    assert_eq!(rects, vec![(0, 0, 1, 2), (0, 2, 3, 1), (2, 0, 1, 2)]);
}
