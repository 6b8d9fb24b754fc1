use smwe_editor::color::{color32_to_snes555, snes555_to_color32, Rgb};
use smwe_editor::tile_editor::{cgram_palette_row, gfx_slot_for_tile, max_color_index, tile_rgba8, TileFormat};

const BLACK: Rgb = Rgb { r: 0, g: 0, b: 0 };

fn rgb(r: u8, g: u8, b: u8) -> Rgb {
    Rgb { r, g, b }
}

#[test]
fn max_color_index_matches_bit_depth() {
    assert_eq!(max_color_index(TileFormat::Tile2bpp), 3);
    assert_eq!(max_color_index(TileFormat::Tile3bpp), 7);
    assert_eq!(max_color_index(TileFormat::Tile3bppMode7), 7);
    assert_eq!(max_color_index(TileFormat::Tile4bpp), 15);
    assert_eq!(max_color_index(TileFormat::Tile8bpp), 255);
}

#[test]
fn cgram_palette_row_decodes_bgr555() {
    let mut cgram = vec![0u8; 512];
    cgram[0] = 0xFF;
    cgram[1] = 0x7F;
    cgram[2] = 0x1F;
    cgram[3] = 0x00;
    let pal = cgram_palette_row(&cgram, 0);
    assert_eq!(pal[0], rgb(0xF8, 0xF8, 0xF8));
    assert_eq!(pal[1], rgb(0xF8, 0x00, 0x00));
    let pal1 = cgram_palette_row(&cgram, 1);
    assert_eq!(pal1[0], BLACK);
}

#[test]
fn tile_rgba8_maps_indices_through_palette() {
    let mut indices = [0u8; 64];
    indices[0] = 1;
    indices[9] = 5;
    let mut palette = [BLACK; 16];
    palette[1] = rgb(10, 20, 30);
    palette[5] = rgb(200, 100, 50);
    let mut out = vec![0u8; 8 * 8 * 4];
    tile_rgba8(&indices.to_vec(), &palette, false, &mut out);
    assert_eq!(&out[0..4], &[10, 20, 30, 255]);
    assert_eq!(&out[9 * 4..9 * 4 + 4], &[200, 100, 50, 255]);
    assert_eq!(&out[1 * 4..1 * 4 + 4], &[0, 0, 0, 255]);
}

#[test]
fn tile_rgba8_checkerboard_replaces_transparent_index() {
    let palette = [rgb(255, 0, 0); 16];
    let mut out = vec![0u8; 8 * 8 * 4];
    tile_rgba8(&[0u8; 64].to_vec(), &palette, true, &mut out);
    assert_eq!(&out[0..3], &[46, 46, 46]);
    assert_eq!(&out[1 * 4..1 * 4 + 3], &[74, 74, 74]);
    assert_eq!(&out[9 * 4..9 * 4 + 3], &[46, 46, 46]);
}

#[test]
fn gfx_slot_for_tile_matches_upload_layout() {
    assert_eq!(gfx_slot_for_tile(0x00), Some(0));
    assert_eq!(gfx_slot_for_tile(0x7F), Some(0));
    assert_eq!(gfx_slot_for_tile(0x80), Some(1));
    assert_eq!(gfx_slot_for_tile(0xFF), Some(1));
    assert_eq!(gfx_slot_for_tile(0x100), Some(2));
    assert_eq!(gfx_slot_for_tile(0x17F), Some(2));
    assert_eq!(gfx_slot_for_tile(0x180), Some(3));
    assert_eq!(gfx_slot_for_tile(0x1FF), Some(3));
    assert_eq!(gfx_slot_for_tile(0x200), None);
    assert_eq!(gfx_slot_for_tile(0x3FF), None);
}

#[test]
fn tile_index_within_file_is_tile_mod_0x80() {
    for tile_num in [0x00u16, 0x45, 0x80, 0x123, 0x180, 0x1FF] {
        let slot = gfx_slot_for_tile(tile_num).unwrap();
        assert_eq!(tile_num as usize % 0x80, tile_num as usize - slot * 0x80);
    }
}

#[test]
fn tile_rgba8_clamps_large_indices_and_short_tiles() {
    let mut palette = [BLACK; 16];
    palette[15] = rgb(1, 2, 3);
    let mut out = vec![9u8; 260];
    tile_rgba8(&vec![200u8], &palette, true, &mut out);
    assert_eq!(&out[0..4], &[1, 2, 3, 255]);
    // Missing indices count as 0: checkerboard at (1, 0).
    assert_eq!(&out[4..8], &[74, 74, 74, 255]);
    assert_eq!(&out[256..260], &[9, 9, 9, 9]);
}

#[test]
fn snes555_round_trips_through_rgb() {
    assert_eq!(snes555_to_color32(0x7FFF), rgb(255, 255, 255));
    assert_eq!(snes555_to_color32(0x0001), rgb(8, 0, 0));
    assert_eq!(color32_to_snes555(rgb(255, 0, 128)), 0x001F | (16 << 10));
    for c in [0u16, 1, 0x1F, 0x3E0, 0x7C00, 0x1234, 0x7FFF, 0xFFFF] {
        assert_eq!(color32_to_snes555(snes555_to_color32(c)), c & 0x7FFF);
    }
}
