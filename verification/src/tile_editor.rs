//! 8x8 tile editing: color depths, CGRAM palette rows, tile previews and
//! the GFX slot of a VRAM tile.
use vstd::prelude::*;
use crate::color::{black, Rgb};

verus! {

/// Bit depth of a GFX file's tiles.
#[derive(Clone, Copy, Debug, PartialEq, Eq)]
pub enum TileFormat {
    Tile2bpp,
    Tile3bpp,
    Tile3bppMode7,
    Tile4bpp,
    Tile8bpp,
}

/// Highest color index a tile format can store.
pub open spec fn max_color_index_spec(format: TileFormat) -> u8 {
    match format {
        TileFormat::Tile2bpp => 3,
        TileFormat::Tile3bpp | TileFormat::Tile3bppMode7 => 7,
        TileFormat::Tile4bpp => 15,
        TileFormat::Tile8bpp => 255,
    }
}

/// Highest color index a tile format can store (2/3/4/8 bpp).
pub fn max_color_index(format: TileFormat) -> (r: u8)
    ensures
        r == max_color_index_spec(format),
{
    match format {
        TileFormat::Tile2bpp => 3,
        TileFormat::Tile3bpp | TileFormat::Tile3bppMode7 => 7,
        TileFormat::Tile4bpp => 15,
        TileFormat::Tile8bpp => 255,
    }
}

/// The color of a CGRAM BGR555 word, each 5-bit channel shifted up by 3.
pub open spec fn cgram_color(c: int) -> Rgb {
    Rgb { r: ((c % 32) * 8) as u8, g: (((c / 32) % 32) * 8) as u8, b: (((c / 1024) % 32) * 8) as u8 }
}

/// Color `i` of 16-color palette row `row` of CGRAM; black where the CGRAM
/// bytes end.
pub open spec fn cgram_entry(cgram: Seq<u8>, row: int, i: int) -> Rgb {
    let off = row * 32 + i * 2;
    if off + 1 < cgram.len() {
        cgram_color(cgram[off] + 256 * cgram[off + 1])
    } else {
        black()
    }
}

/// One 16-color CGRAM palette row (SNES BGR555).
pub fn cgram_palette_row(cgram: &Vec<u8>, row: usize) -> (out: [Rgb; 16])
    requires
        row * 32 + 32 <= usize::MAX,
    ensures
        forall|i: int| 0 <= i < 16 ==> #[trigger] out[i] == cgram_entry(cgram@, row as int, i),
{
    let mut out = [Rgb { r: 0, g: 0, b: 0 }; 16];
    let mut i: usize = 0;
    while i < 16
        invariant
            i <= 16,
            row * 32 + 32 <= usize::MAX,
            forall|k: int| 0 <= k < i ==> #[trigger] out[k] == cgram_entry(cgram@, row as int, k),
            forall|k: int| i <= k < 16 ==> #[trigger] out[k] == black(),
        decreases 16 - i,
    {
        let off = row * 32 + i * 2;
        if off + 1 < cgram.len() {
            let c = cgram[off] as u16 + (cgram[off + 1] as u16) * 256;
            out[i] = Rgb { r: ((c % 32) * 8) as u8, g: (((c / 32) % 32) * 8) as u8, b: (((c / 1024) % 32) * 8) as u8 };
        }
        i = i + 1;
    }
    out
}

/// The checkerboard shade of preview pixel `(px, py)`.
pub open spec fn checker_shade(px: int, py: int) -> u8 {
    if (px + py) % 2 == 0 { 46 } else { 74 }
}

/// The RGBA bytes of preview pixel `p` (0..64) of a tile: its palette
/// color, or with `checker` a checkerboard shade for color index 0; a
/// missing index counts as 0 and indices above 15 use color 15.
pub open spec fn pixel_rgba(indices: Seq<u8>, palette: [Rgb; 16], checker: bool, p: int) -> Seq<u8> {
    let idx = if p < indices.len() { indices[p] } else { 0u8 };
    if idx == 0 && checker {
        let s = checker_shade(p % 8, p / 8);
        seq![s, s, s, 255u8]
    } else {
        let c = palette[if idx > 15 { 15int } else { idx as int }];
        seq![c.r, c.g, c.b, 255u8]
    }
}

/// Renders a tile's 64 color indices (row-major) into the first 256 bytes of
/// `out` as RGBA through `palette`.
pub fn tile_rgba8(indices: &Vec<u8>, palette: &[Rgb; 16], checker: bool, out: &mut Vec<u8>)
    requires
        old(out)@.len() >= 256,
    ensures
        final(out)@.len() == old(out)@.len(),
        forall|p: int| 0 <= p < 64 ==> #[trigger] final(out)@.subrange(4 * p, 4 * p + 4) == pixel_rgba(indices@, *palette, checker, p),
        forall|k: int| 256 <= k < old(out)@.len() ==> final(out)@[k] == old(out)@[k],
{
    let ghost o0 = out@;
    let mut p: usize = 0;
    while p < 64
        invariant
            p <= 64,
            out@.len() == o0.len(),
            o0.len() >= 256,
            forall|q: int| 0 <= q < p ==> #[trigger] out@.subrange(4 * q, 4 * q + 4) == pixel_rgba(indices@, *palette, checker, q),
            forall|k: int| 4 * p <= k < o0.len() ==> out@[k] == o0[k],
        decreases 64 - p,
    {
        let px = p % 8;
        let py = p / 8;
        let idx = if p < indices.len() { indices[p] } else { 0 };
        let off = p * 4;
        let ghost before = out@;
        if idx == 0 && checker {
            let shade: u8 = if (px + py) % 2 == 0 { 46 } else { 74 };
            out.set(off, shade);
            out.set(off + 1, shade);
            out.set(off + 2, shade);
            out.set(off + 3, 255);
        } else {
            let c = palette[if idx > 15 { 15 } else { idx as usize }];
            out.set(off, c.r);
            out.set(off + 1, c.g);
            out.set(off + 2, c.b);
            out.set(off + 3, 255);
        }
        proof {
            assert(out@.subrange(4 * p, 4 * p + 4) =~= pixel_rgba(indices@, *palette, checker, p as int));
            assert forall|q: int| 0 <= q < p + 1 implies #[trigger] out@.subrange(4 * q, 4 * q + 4) == pixel_rgba(indices@, *palette, checker, q) by {
                if q < p {
                    assert(out@.subrange(4 * q, 4 * q + 4) =~= before.subrange(4 * q, 4 * q + 4));
                }
            }
        }
        p = p + 1;
    }
}

/// Which of the four FG/BG GFX slots (FG1/FG2/FG3/BG1) a VRAM tile belongs
/// to: `tile / 0x80` for tiles below 0x200, none above (outside the level's
/// uploaded GFX).
pub fn gfx_slot_for_tile(tile_num: u16) -> (r: Option<usize>)
    ensures
        r == (if tile_num >= 0x200 { None } else { Some((tile_num / 0x80) as usize) }),
{
    if tile_num >= 0x200 {
        return None;
    }
    Some((tile_num / 0x80) as usize)
}

} // verus!
