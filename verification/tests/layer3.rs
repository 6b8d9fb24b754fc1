use smwe_editor::color::Rgb;
use smwe_editor::layer3::{preview_row_range, render_layer3_preview};

const EMPTY: u16 = 0x38FC;

fn grid() -> [[u16; 64]; 64] {
    [[EMPTY; 64]; 64]
}

#[test]
fn preview_keeps_painted_rows_with_a_margin() {
    let mut g = grid();
    assert_eq!(preview_row_range(&g, EMPTY), (0, 64));
    g[5][3] = 0x0001;
    assert_eq!(preview_row_range(&g, EMPTY), (4, 7));
    g[9][0] = 0x0002;
    assert_eq!(preview_row_range(&g, EMPTY), (4, 11));
    let mut top = grid();
    top[0][63] = 1;
    assert_eq!(preview_row_range(&top, EMPTY), (0, 2));
    let mut tide = grid();
    for row in tide.iter_mut().skip(32) {
        row[10] = 7;
    }
    assert_eq!(preview_row_range(&tide, EMPTY), (31, 64));
}

#[test]
fn preview_draws_4bpp_tiles_with_cgram_colors() {
    let mut g = grid();
    g[0][0] = 0x0001;
    g[0][1] = 0x4001;
    let mut vram = vec![0u8; 64];
    vram[32] = 0x80; // tile 1, row 0, plane 0: leftmost pixel
    let mut cgram = vec![0u8; 512];
    cgram[2] = 0x1F; // color 1 = full red
    let (w, h, px) = render_layer3_preview(&g, &vram, &cgram, 0, EMPTY);
    assert_eq!((w, h), (512, 16));
    assert_eq!(px.len(), 512 * 16);
    let red = Some(Rgb { r: 255, g: 0, b: 0 });
    assert_eq!(px[0], red);
    assert_eq!(px[1], None);
    // The flipped copy shows the pixel at its right edge.
    assert_eq!(px[8 + 7], red);
    assert_eq!(px[8], None);
    assert_eq!(px[512], None);
    assert!(px[16..512].iter().all(|p| p.is_none()));
}
