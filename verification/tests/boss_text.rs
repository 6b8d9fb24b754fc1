use smwe_editor::boss_text::{byte_hash_msg, rasterize_tiles_strip};

#[test]
fn message_hash_runs_over_all_tiles() {
    let msg = vec![vec![1u8, 2], vec![3u8]];
    assert_eq!(byte_hash_msg(&msg), (1 * 31 + 2) * 31 + 3);
    assert_eq!(byte_hash_msg(&vec![]), 0);
    assert_eq!(byte_hash_msg(&vec![vec![], vec![7u8]]), 7);
}

#[test]
fn message_hash_wraps() {
    let msg = vec![vec![255u8; 40]];
    let mut h: u64 = 0;
    for _ in 0..40 {
        h = h.wrapping_mul(31).wrapping_add(255);
    }
    assert_eq!(byte_hash_msg(&msg), h);
}

#[test]
fn strip_of_no_tiles_is_one_black_tile() {
    let font = vec![vec![1u8; 64]];
    let (w, img) = rasterize_tiles_strip(&vec![], &font);
    assert_eq!(w, 8);
    assert_eq!(img.len(), 8 * 8 * 3);
    assert!(img.iter().all(|&b| b == 0));
}

#[test]
fn strip_shades_and_wraps_tile_numbers() {
    let mut tile0 = vec![0u8; 64];
    tile0[1] = 1;
    tile0[8 + 2] = 2;
    tile0[63] = 9;
    let tile1 = vec![3u8; 64];
    let font = vec![tile0, tile1];
    // 0x81 drops its top bit and lands on tile 1; 2 wraps to tile 0.
    let (w, img) = rasterize_tiles_strip(&vec![2u8, 0x81], &font);
    assert_eq!(w, 16);
    let px = |x: usize, y: usize| &img[(y * 16 + x) * 3..(y * 16 + x) * 3 + 3];
    assert_eq!(px(0, 0), &[0, 0, 0]);
    assert_eq!(px(1, 0), &[255, 255, 255]);
    assert_eq!(px(2, 1), &[128, 128, 128]);
    assert_eq!(px(7, 7), &[192, 192, 192]);
    assert_eq!(px(8, 0), &[192, 192, 192]);
    assert_eq!(px(15, 7), &[192, 192, 192]);
}
