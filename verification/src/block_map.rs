//! Where a level block lives in the WRAM block map the game renders from.
//!
//! Layer-1 (and layer-2 object) blocks are stored screen by screen: a
//! horizontal level's screen is 16 columns by 27 rows, a vertical level's
//! 16 by 32 with two screens side by side per row of screens. Each block is
//! a low byte in one table and its 9th bit in a second table.
use vstd::prelude::*;

verus! {

/// Bytes of one screen of the block map.
pub open spec fn screen_size(vertical: bool) -> int {
    if vertical { 512int } else { 432int }
}

/// (screen, index within the screen) of block `(bx, by)`.
pub open spec fn block_slot(bx: int, by: int, vertical: bool) -> (int, int) {
    if vertical {
        ((by / 32) * 2 + bx / 16, (by % 32) * 16 + bx % 16)
    } else {
        (bx / 16, by * 16 + bx % 16)
    }
}

/// Index of block `(bx, by)` in the block map of the edited layer; a
/// level without a layer-2 object map keeps layer-2 edits inside its
/// two-screen background area.
pub open spec fn block_index_spec(bx: u32, by: u32, vertical: bool, edit_layer: u8, has_layer2: bool) -> int {
    let (screen, sidx) = block_slot(bx as int, by as int, vertical);
    let idx = screen * screen_size(vertical) + sidx;
    if edit_layer == 2 && !has_layer2 {
        idx % 864int
    } else {
        idx
    }
}

/// The `u32` arithmetic of the index stays in range.
pub open spec fn block_index_fits(bx: u32, by: u32, vertical: bool) -> bool {
    let (screen, sidx) = block_slot(bx as int, by as int, vertical);
    &&& bx * 16 <= u32::MAX
    &&& by * 16 <= u32::MAX
    &&& screen * screen_size(vertical) + sidx <= u32::MAX
}

/// Index of block `(block_x, block_y)` in the block map of the edited layer.
pub fn block_map_index(block_x: u32, block_y: u32, vertical: bool, edit_layer: u8, has_layer2: bool) -> (r: u32)
    requires
        block_index_fits(block_x, block_y, vertical),
    ensures
        r == block_index_spec(block_x, block_y, vertical, edit_layer, has_layer2),
{
    let scr_size: u32 = if vertical { 16 * 32 } else { 16 * 27 };
    let block_x_px = block_x * 16;
    let block_y_px = block_y * 16;
    let (screen, sidx) = if vertical {
        let sub_y = block_y_px / 512;
        let sub_x = block_x_px / 256;
        assert(sub_y == block_y / 32 && sub_x == block_x / 16) by (nonlinear_arith)
            requires
                block_y_px == block_y * 16,
                block_x_px == block_x * 16,
                sub_y == block_y_px / 512,
                sub_x == block_x_px / 256,
        ;
        let col = (block_x_px / 16) % 16;
        let row = (block_y_px / 16) % 32;
        (sub_y * 2 + sub_x, row * 16 + col)
    } else {
        let screen = block_x / 16;
        let col = block_x % 16;
        let row = block_y;
        (screen, row * 16 + col)
    };
    assert(screen * scr_size <= u32::MAX) by (nonlinear_arith)
        requires
            screen * scr_size + sidx <= u32::MAX,
            sidx >= 0,
    ;
    let idx = screen * scr_size + sidx;
    if edit_layer == 2 && !has_layer2 {
        idx % (16 * 27 * 2)
    } else {
        idx
    }
}

/// WRAM addresses of the low-byte and high-bit tables of the edited layer.
pub open spec fn block_map_base_spec(edit_layer: u8, has_layer2: bool, vertical: bool) -> (u32, u32) {
    if edit_layer == 2 {
        if has_layer2 {
            let offset: u32 = if vertical { (0x0E * 16 * 32) as u32 } else { (0x10 * 16 * 27) as u32 };
            ((0x7EC800 + offset) as u32, (0x7FC800 + offset) as u32)
        } else {
            (0x7EB900, 0x7EBD00)
        }
    } else {
        (0x7EC800, 0x7FC800)
    }
}

/// WRAM addresses of the low-byte and high-bit tables of the edited layer.
pub fn block_map_base(edit_layer: u8, has_layer2: bool, vertical: bool) -> (r: (u32, u32))
    ensures
        r == block_map_base_spec(edit_layer, has_layer2, vertical),
{
    if edit_layer == 2 {
        if has_layer2 {
            let scr_len: u32 = if vertical { 0x0E } else { 0x10 };
            let scr_size: u32 = if vertical { 16 * 32 } else { 16 * 27 };
            let offset = scr_len * scr_size;
            (0x7EC800 + offset, 0x7FC800 + offset)
        } else {
            (0x7EB900, 0x7EBD00)
        }
    } else {
        (0x7EC800, 0x7FC800)
    }
}

/// The low byte and the 9th bit a block id is stored as.
pub fn block_id_bytes(block_id: u16) -> (r: (u8, u8))
    ensures
        r == ((block_id % 256) as u8, ((block_id / 256) % 2) as u8),
{
    ((block_id % 256) as u8, ((block_id / 256) % 2) as u8)
}

/// The block id stored as a low byte and a high-bit byte (only its lowest
/// bit counts).
pub fn block_id_from_bytes(lo: u8, hi: u8) -> (r: u16)
    ensures
        r == lo + 256 * (hi % 2),
{
    lo as u16 + 256 * (hi % 2) as u16
}

/// Storing a block id and reading it back gives its 9 bits.
pub proof fn lemma_block_id_round_trip(block_id: u16)
    ensures
        ({
            let (lo, hi) = ((block_id % 256) as u8, ((block_id / 256) % 2) as u8);
            lo + 256 * (hi % 2) == block_id % 512
        }),
{
}

} // verus!
