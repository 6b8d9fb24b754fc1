//! The preview of a level's layer 3 tilemap: the 64x64 grid of tile words
//! cropped to its painted rows, drawn with 4bpp tiles from VRAM and colors
//! from CGRAM.
use vstd::prelude::*;
use crate::color::Rgb;
use crate::le_bytes::le16;

verus! {

/// Row `y` of the grid holds a tile other than the empty word.
pub open spec fn row_painted(grid: [[u16; 64]; 64], y: int, empty: u16) -> bool {
    exists|x: int| 0 <= x < 64 && #[trigger] grid@[y]@[x] != empty
}

/// The first painted row from `y` on.
pub open spec fn first_painted_from(grid: [[u16; 64]; 64], y: int, empty: u16) -> Option<int>
    decreases 64 - y,
{
    if y >= 64 {
        None
    } else if row_painted(grid, y, empty) {
        Some(y)
    } else {
        first_painted_from(grid, y + 1, empty)
    }
}

/// The last painted row below `n`.
pub open spec fn last_painted_below(grid: [[u16; 64]; 64], n: int, empty: u16) -> Option<int>
    decreases n,
{
    if n <= 0 {
        None
    } else if row_painted(grid, n - 1, empty) {
        Some(n - 1)
    } else {
        last_painted_below(grid, n - 1, empty)
    }
}

/// The rows `y0..y1` that the preview shows: the painted rows with one row
/// of margin above and below (kept in the grid), or the whole grid when no
/// row is painted.
pub open spec fn preview_rows_spec(grid: [[u16; 64]; 64], empty: u16) -> (usize, usize) {
    match (first_painted_from(grid, 0, empty), last_painted_below(grid, 64, empty)) {
        (Some(lo), Some(hi)) => (
            (if lo >= 1 { lo - 1 } else { 0 }) as usize,
            (if hi + 2 <= 64 { hi + 2 } else { 64 }) as usize,
        ),
        _ => (0, 64),
    }
}

proof fn lemma_first_last_painted(grid: [[u16; 64]; 64], empty: u16, y: int, n: int)
    requires
        0 <= y <= 64,
        0 <= n <= 64,
    ensures
        first_painted_from(grid, y, empty) matches Some(lo) ==> y <= lo < 64 && row_painted(grid, lo, empty),
        last_painted_below(grid, n, empty) matches Some(hi) ==> 0 <= hi < n && row_painted(grid, hi, empty),
        first_painted_from(grid, y, empty) is None ==> forall|r: int| y <= r < 64 ==> !row_painted(grid, r, empty),
        last_painted_below(grid, n, empty) is None ==> forall|r: int| 0 <= r < n ==> !row_painted(grid, r, empty),
    decreases 64 - y + n,
{
    if y < 64 {
        lemma_first_last_painted(grid, empty, y + 1, n);
    }
    if n > 0 {
        lemma_first_last_painted(grid, empty, y, n - 1);
    }
}

fn row_has_tiles(grid: &[[u16; 64]; 64], y: usize, empty: u16) -> (r: bool)
    requires
        y < 64,
    ensures
        r == row_painted(*grid, y as int, empty),
{
    let mut x: usize = 0;
    while x < 64
        invariant
            x <= 64,
            y < 64,
            forall|k: int| 0 <= k < x ==> grid@[y as int]@[k] == empty,
        decreases 64 - x,
    {
        if grid[y][x] != empty {
            assert(grid@[y as int]@[x as int] != empty);
            return true;
        }
        x = x + 1;
    }
    false
}

/// The rows `(y0, y1)` of the 64x64 layer 3 tilemap that the preview shows:
/// the rows holding a tile other than `empty`, with a row of margin on each
/// side, or all 64 rows when none does (tides fill only rows 32 to 63).
pub fn preview_row_range(grid: &[[u16; 64]; 64], empty: u16) -> (r: (usize, usize))
    ensures
        r == preview_rows_spec(*grid, empty),
        r.0 < r.1 <= 64,
{
    let mut min: usize = 64;
    let mut max: usize = 0;
    let mut found = false;
    let mut y: usize = 0;
    while y < 64
        invariant
            y <= 64,
            found <==> last_painted_below(*grid, y as int, empty) is Some,
            found ==> last_painted_below(*grid, y as int, empty) == Some(max as int),
            found ==> first_painted_from(*grid, 0, empty) == Some(min as int),
            found ==> min <= max < y,
            !found ==> first_painted_from(*grid, 0, empty) == first_painted_from(*grid, y as int, empty),
        decreases 64 - y,
    {
        if row_has_tiles(grid, y, empty) {
            if !found {
                min = y;
            }
            max = y;
            found = true;
        }
        y = y + 1;
    }
    proof {
        lemma_first_last_painted(*grid, empty, 0, 64);
    }
    if !found {
        return (0, 64);
    }
    let lo = if min >= 1 { min - 1 } else { 0 };
    let hi = if max + 2 <= 64 { max + 2 } else { 64 };
    (lo, hi)
}

/// Byte `i` of VRAM, or 0 past its end.
pub open spec fn vram_byte(vram: Seq<u8>, i: int) -> u8 {
    if 0 <= i < vram.len() {
        vram[i]
    } else {
        0
    }
}

/// The color index of pixel `(sx, sy)` of 4bpp tile `tile` in VRAM: one bit
/// from each of the four bitplanes.
pub open spec fn pixel_index(vram: Seq<u8>, tile: int, sx: int, sy: int) -> u8 {
    let bit = (7 - sx) as u8;
    let base = tile * 32;
    let b0 = (vram_byte(vram, base + sy * 2) >> bit) & 1;
    let b1 = (vram_byte(vram, base + sy * 2 + 1) >> bit) & 1;
    let b2 = (vram_byte(vram, base + 16 + sy * 2) >> bit) & 1;
    let b3 = (vram_byte(vram, base + 16 + sy * 2 + 1) >> bit) & 1;
    b0 | (b1 << 1u8) | (b2 << 2u8) | (b3 << 3u8)
}

/// CGRAM word `i`, or 0 past CGRAM's end.
pub open spec fn cgram_word(cgram: Seq<u8>, i: int) -> int {
    if 2 * i + 1 < cgram.len() {
        le16(cgram, 2 * i)
    } else {
        0
    }
}

/// A 5-bit channel scaled to 8 bits, rounding to nearest.
pub open spec fn round5(c: int) -> u8 {
    ((c * 255 + 15) / 31) as u8
}

/// The 8-bit color of an SNES BGR555 word.
pub open spec fn bgr555_color(cw: int) -> Rgb {
    Rgb { r: round5(cw % 32), g: round5((cw / 32) % 32), b: round5((cw / 1024) % 32) }
}

/// Pixel `(px, py)` of the preview whose first row is tilemap row `y0`: the
/// tile word there (number, palette in bits 10-12, flips in bits 14 and 15)
/// drawn from VRAM tiles counted from `base_tile`; `None` for an empty word
/// or for color 0, which is transparent.
pub open spec fn layer3_pixel(
    grid: [[u16; 64]; 64],
    vram: Seq<u8>,
    cgram: Seq<u8>,
    base_tile: int,
    empty: u16,
    y0: int,
    px: int,
    py: int,
) -> Option<Rgb> {
    let word = grid@[y0 + py / 8]@[px / 8];
    if word == empty {
        None
    } else {
        let tile = base_tile + (word & 0x3FF) as int;
        let pal = ((word >> 10u16) & 7) as int;
        let sx = if word & 0x4000 != 0 { 7 - px % 8 } else { px % 8 };
        let sy = if word & 0x8000 != 0 { 7 - (py % 8) } else { py % 8 };
        let idx = pixel_index(vram, tile, sx, sy);
        if idx == 0 {
            None
        } else {
            Some(bgr555_color(cgram_word(cgram, pal * 16 + idx as int)))
        }
    }
}

/// The preview's pixels, row by row, 512 per row.
pub open spec fn layer3_image(
    grid: [[u16; 64]; 64],
    vram: Seq<u8>,
    cgram: Seq<u8>,
    base_tile: int,
    empty: u16,
    y0: int,
    h: int,
) -> Seq<Option<Rgb>> {
    Seq::new(
        (512 * h) as nat,
        |k: int| layer3_pixel(grid, vram, cgram, base_tile, empty, y0, k % 512, k / 512),
    )
}

fn vram_byte_exec(vram: &Vec<u8>, i: usize) -> (r: u8)
    ensures
        r == vram_byte(vram@, i as int),
{
    if i < vram.len() {
        vram[i]
    } else {
        0
    }
}

fn preview_pixel(
    grid: &[[u16; 64]; 64],
    vram: &Vec<u8>,
    cgram: &Vec<u8>,
    base_tile: usize,
    empty: u16,
    y0: usize,
    px: usize,
    py: usize,
) -> (r: Option<Rgb>)
    requires
        px < 512,
        y0 + py / 8 < 64,
        base_tile <= 0x0100_0000,
    ensures
        r == layer3_pixel(*grid, vram@, cgram@, base_tile as int, empty, y0 as int, px as int, py as int),
{
    let word = grid[y0 + py / 8][px / 8];
    if word == empty {
        return None;
    }
    let tile = base_tile + (word & 0x3FF) as usize;
    let pal = ((word >> 10u16) & 7) as usize;
    let sx = if word & 0x4000 != 0 { 7 - px % 8 } else { px % 8 };
    let sy = if word & 0x8000 != 0 { 7 - (py % 8) } else { py % 8 };
    proof {
        assert(word & 0x3FF <= 0x3FF) by (bit_vector);
        assert((word >> 10u16) & 7 <= 7) by (bit_vector);
    }
    let bit = (7 - sx) as u8;
    let base = tile * 32;
    let b0 = (vram_byte_exec(vram, base + sy * 2) >> bit) & 1;
    let b1 = (vram_byte_exec(vram, base + sy * 2 + 1) >> bit) & 1;
    let b2 = (vram_byte_exec(vram, base + 16 + sy * 2) >> bit) & 1;
    let b3 = (vram_byte_exec(vram, base + 16 + sy * 2 + 1) >> bit) & 1;
    let idx = b0 | (b1 << 1u8) | (b2 << 2u8) | (b3 << 3u8);
    if idx == 0 {
        return None;
    }
    let i = pal * 16 + idx as usize;
    let cw: u16 = if 2 * i + 1 < cgram.len() {
        cgram[2 * i] as u16 + 256 * (cgram[2 * i + 1] as u16)
    } else {
        0
    };
    let r = ((cw % 32) * 255 + 15) / 31;
    let g = (((cw / 32) % 32) * 255 + 15) / 31;
    let b = (((cw / 1024) % 32) * 255 + 15) / 31;
    Some(Rgb { r: r as u8, g: g as u8, b: b as u8 })
}

/// The preview image of a layer 3 tilemap: `(width, height, pixels)`, 512
/// pixels wide (64 tiles of 8), as high as the rows that
/// [`preview_row_range`] keeps, pixels row by row; `None` is transparent.
/// Tile numbers count from VRAM tile `base_tile`; `empty` is the word of an
/// empty cell.
pub fn render_layer3_preview(
    grid: &[[u16; 64]; 64],
    vram: &Vec<u8>,
    cgram: &Vec<u8>,
    base_tile: usize,
    empty: u16,
) -> (r: (usize, usize, Vec<Option<Rgb>>))
    requires
        base_tile <= 0x0100_0000,
    ensures
        r.0 == 512,
        r.1 == (preview_rows_spec(*grid, empty).1 - preview_rows_spec(*grid, empty).0) * 8,
        r.2@ == layer3_image(
            *grid,
            vram@,
            cgram@,
            base_tile as int,
            empty,
            preview_rows_spec(*grid, empty).0 as int,
            r.1 as int,
        ),
{
    let (y0, y1) = preview_row_range(grid, empty);
    let h = (y1 - y0) * 8;
    let ghost target = layer3_image(*grid, vram@, cgram@, base_tile as int, empty, y0 as int, h as int);
    let mut pixels: Vec<Option<Rgb>> = Vec::new();
    let mut py: usize = 0;
    while py < h
        invariant
            py <= h,
            h == (y1 - y0) * 8,
            y0 < y1 <= 64,
            base_tile <= 0x0100_0000,
            target == layer3_image(*grid, vram@, cgram@, base_tile as int, empty, y0 as int, h as int),
            pixels@.len() == py * 512,
            pixels@ =~= target.take(py * 512),
        decreases h - py,
    {
        let mut px: usize = 0;
        while px < 512
            invariant
                px <= 512,
                py < h,
                h == (y1 - y0) * 8,
                y0 < y1 <= 64,
                base_tile <= 0x0100_0000,
                target == layer3_image(*grid, vram@, cgram@, base_tile as int, empty, y0 as int, h as int),
                pixels@.len() == py * 512 + px,
                pixels@ =~= target.take(py * 512 + px),
            decreases 512 - px,
        {
            proof {
                vstd::arithmetic::div_mod::lemma_fundamental_div_mod_converse(
                    py * 512 + px,
                    512,
                    py as int,
                    px as int,
                );
                assert(py / 8 < y1 - y0) by {
                    vstd::arithmetic::div_mod::lemma_div_is_ordered(py as int, h - 1, 8);
                    vstd::arithmetic::div_mod::lemma_fundamental_div_mod_converse(h - 1, 8, (y1 - y0 - 1) as int, 7);
                }
            }
            let p = preview_pixel(grid, vram, cgram, base_tile, empty, y0, px, py);
            pixels.push(p);
            px = px + 1;
        }
        py = py + 1;
    }
    (512, h, pixels)
}

} // verus!
