use smwe_editor::block_map::{block_id_bytes, block_id_from_bytes, block_map_base, block_map_index};

#[test]
fn horizontal_block_index_goes_screen_by_screen() {
    assert_eq!(block_map_index(0, 0, false, 1, false), 0);
    assert_eq!(block_map_index(5, 3, false, 1, false), 3 * 16 + 5);
    assert_eq!(block_map_index(17, 2, false, 1, false), 432 + 2 * 16 + 1);
}

#[test]
fn vertical_block_index_has_two_screens_per_row() {
    assert_eq!(block_map_index(3, 4, true, 1, true), 4 * 16 + 3);
    assert_eq!(block_map_index(18, 4, true, 1, true), 512 + 4 * 16 + 2);
    assert_eq!(block_map_index(18, 33, true, 1, true), 3 * 512 + 16 + 2);
}

#[test]
fn layer2_background_wraps_in_two_screens() {
    assert_eq!(block_map_index(32, 0, false, 2, false), (2 * 432) % 864);
    assert_eq!(block_map_index(33, 1, false, 2, false), 17);
    assert_eq!(block_map_index(33, 1, false, 2, true), 2 * 432 + 17);
}

#[test]
fn block_map_bases_per_layer() {
    assert_eq!(block_map_base(1, true, false), (0x7EC800, 0x7FC800));
    assert_eq!(block_map_base(2, false, false), (0x7EB900, 0x7EBD00));
    assert_eq!(block_map_base(2, true, false), (0x7EC800 + 0x10 * 432, 0x7FC800 + 0x10 * 432));
    assert_eq!(block_map_base(2, true, true), (0x7EC800 + 0x0E * 512, 0x7FC800 + 0x0E * 512));
}

#[test]
fn block_ids_split_into_low_byte_and_high_bit() {
    assert_eq!(block_id_bytes(0x1AB), (0xAB, 1));
    assert_eq!(block_id_bytes(0x2AB), (0xAB, 0));
    assert_eq!(block_id_from_bytes(0xAB, 0xFF), 0x1AB);
    let (lo, hi) = block_id_bytes(0x0125);
    assert_eq!(block_id_from_bytes(lo, hi), 0x0125);
}
