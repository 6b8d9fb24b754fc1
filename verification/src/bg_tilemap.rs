//! Selection rectangles of the 32x27 layer-2 background tilemap editor.
use vstd::prelude::*;
use crate::clipboard::{clamp, u32_as_i32};
use crate::editing::{moves_bottom, moves_left, moves_right, moves_top, DragHandle};

verus! {

/// Width of the background tilemap, in cells.
pub const BG_TILEMAP_WIDTH: u32 = 32;

/// Height of the background tilemap, in cells.
pub const BG_TILEMAP_HEIGHT: u32 = 27;

pub open spec fn min_u(a: int, b: int) -> int {
    if a <= b { a } else { b }
}

pub open spec fn max_u(a: int, b: int) -> int {
    if a >= b { a } else { b }
}

/// The rectangle `(x, y, w, h)` spanned by two corner cells, its corner
/// kept inside the tilemap and its size cut at the tilemap's edge.
pub open spec fn normalize_rect_spec(a: (u32, u32), b: (u32, u32)) -> (u32, u32, u32, u32) {
    let x = min_u(min_u(a.0 as int, b.0 as int), 31);
    let y = min_u(min_u(a.1 as int, b.1 as int), 26);
    let w = min_u(max_u(a.0 as int, b.0 as int) - x + 1, 32 - x);
    let h = min_u(max_u(a.1 as int, b.1 as int) - y + 1, 27 - y);
    (x as u32, y as u32, w as u32, h as u32)
}

/// Normalizes two corner cells into `(x, y, w, h)`, clamped to the tilemap.
pub fn normalize_rect(a: (u32, u32), b: (u32, u32)) -> (r: (u32, u32, u32, u32))
    requires
        max_u(a.0 as int, b.0 as int) - min_u(min_u(a.0 as int, b.0 as int), 31) < u32::MAX,
        max_u(a.1 as int, b.1 as int) - min_u(min_u(a.1 as int, b.1 as int), 26) < u32::MAX,
    ensures
        r == normalize_rect_spec(a, b),
        r.0 + r.2 <= BG_TILEMAP_WIDTH,
        r.1 + r.3 <= BG_TILEMAP_HEIGHT,
        r.2 >= 1,
        r.3 >= 1,
{
    let lo_x = if a.0 < b.0 { a.0 } else { b.0 };
    let hi_x = if a.0 < b.0 { b.0 } else { a.0 };
    let lo_y = if a.1 < b.1 { a.1 } else { b.1 };
    let hi_y = if a.1 < b.1 { b.1 } else { a.1 };
    let x = if lo_x < BG_TILEMAP_WIDTH - 1 { lo_x } else { BG_TILEMAP_WIDTH - 1 };
    let y = if lo_y < BG_TILEMAP_HEIGHT - 1 { lo_y } else { BG_TILEMAP_HEIGHT - 1 };
    let w0 = hi_x - x + 1;
    let h0 = hi_y - y + 1;
    let w = if w0 < BG_TILEMAP_WIDTH - x { w0 } else { BG_TILEMAP_WIDTH - x };
    let h = if h0 < BG_TILEMAP_HEIGHT - y { h0 } else { BG_TILEMAP_HEIGHT - y };
    (x, y, w, h)
}

/// `(x, y, w, h)` after dragging `handle` of a background selection to
/// cell `(tile_x, tile_y)`: a moved right or bottom edge stays inside the
/// tilemap, a moved left or top edge stays at or right of cell 0, every
/// side at least one cell.
pub open spec fn bg_resize_spec(ox: u32, oy: u32, ow: u32, oh: u32, handle: DragHandle, tile_x: i32, tile_y: i32) -> (
    u32,
    u32,
    u32,
    u32,
) {
    let far_x = u32_as_i32(ox) + u32_as_i32(ow);
    let far_y = u32_as_i32(oy) + u32_as_i32(oh);
    let nl = clamp(tile_x as int, 0, far_x - 1);
    let nt = clamp(tile_y as int, 0, far_y - 1);
    let (nx, nw) = if moves_right(handle) {
        (ox, clamp(tile_x - u32_as_i32(ox) + 1, 1, 32 - u32_as_i32(ox)) as u32)
    } else if moves_left(handle) {
        (nl as u32, (far_x - nl) as u32)
    } else {
        (ox, ow)
    };
    let (ny, nh) = if moves_bottom(handle) {
        (oy, clamp(tile_y - u32_as_i32(oy) + 1, 1, 27 - u32_as_i32(oy)) as u32)
    } else if moves_top(handle) {
        (nt as u32, (far_y - nt) as u32)
    } else {
        (oy, oh)
    };
    (nx, ny, nw, nh)
}

/// The `i32` arithmetic stays in range and every clamp has a non-empty
/// range.
pub open spec fn bg_resize_fits(ox: u32, oy: u32, ow: u32, oh: u32, handle: DragHandle, tile_x: i32, tile_y: i32) -> bool {
    &&& moves_right(handle) ==> i32::MIN <= tile_x - u32_as_i32(ox) && tile_x - u32_as_i32(ox) + 1 <= i32::MAX
        && 32 - i32::MAX <= u32_as_i32(ox) <= 31
    &&& moves_left(handle) ==> 1 <= u32_as_i32(ox) + u32_as_i32(ow) <= i32::MAX
    &&& moves_bottom(handle) ==> i32::MIN <= tile_y - u32_as_i32(oy) && tile_y - u32_as_i32(oy) + 1 <= i32::MAX
        && 27 - i32::MAX <= u32_as_i32(oy) <= 26
    &&& moves_top(handle) ==> 1 <= u32_as_i32(oy) + u32_as_i32(oh) <= i32::MAX
}

fn as_i32(x: u32) -> (r: i32)
    ensures
        r == u32_as_i32(x),
{
    if x <= 0x7FFF_FFFF {
        x as i32
    } else {
        (x as i64 - 0x1_0000_0000i64) as i32
    }
}

fn clamp_i32(v: i32, lo: i32, hi: i32) -> (r: i32)
    requires
        lo <= hi,
    ensures
        r == clamp(v as int, lo as int, hi as int),
{
    if v < lo {
        lo
    } else if v > hi {
        hi
    } else {
        v
    }
}

fn to_u32(v: i32) -> (r: u32)
    ensures
        r == v as u32,
{
    v as u32
}

/// Resizes a background selection by dragging `handle` to cell
/// `(tile_x, tile_y)`, clamped to the 32x27 tilemap and at least 1x1.
pub fn apply_bg_resize(ox: u32, oy: u32, ow: u32, oh: u32, handle: DragHandle, tile_x: i32, tile_y: i32) -> (r: (
    u32,
    u32,
    u32,
    u32,
))
    requires
        bg_resize_fits(ox, oy, ow, oh, handle, tile_x, tile_y),
    ensures
        r == bg_resize_spec(ox, oy, ow, oh, handle, tile_x, tile_y),
{
    let (mut nx, mut ny, mut nw, mut nh) = (ox, oy, ow, oh);
    match handle {
        DragHandle::E | DragHandle::Ne | DragHandle::Se => {
            let ox_i = as_i32(ox);
            nw = to_u32(clamp_i32(tile_x - ox_i + 1, 1, BG_TILEMAP_WIDTH as i32 - ox_i));
        },
        DragHandle::W | DragHandle::Nw | DragHandle::Sw => {
            let right = as_i32(ox) + as_i32(ow);
            let nl = clamp_i32(tile_x, 0, right - 1);
            nw = to_u32(right - nl);
            nx = to_u32(nl);
        },
        _ => {},
    }
    match handle {
        DragHandle::S | DragHandle::Se | DragHandle::Sw => {
            let oy_i = as_i32(oy);
            nh = to_u32(clamp_i32(tile_y - oy_i + 1, 1, BG_TILEMAP_HEIGHT as i32 - oy_i));
        },
        DragHandle::N | DragHandle::Ne | DragHandle::Nw => {
            let bottom = as_i32(oy) + as_i32(oh);
            let nt = clamp_i32(tile_y, 0, bottom - 1);
            nh = to_u32(bottom - nt);
            ny = to_u32(nt);
        },
        _ => {},
    }
    (nx, ny, nw, nh)
}

/// Dragging a handle of a background selection that lies in the tilemap:
/// the edges the handle carries follow the pointer's cell, clamped so the
/// selection keeps at least one cell and stays in the tilemap, and the
/// opposite edges stay where they were. A top handle (N, NE, NW) puts the
/// top edge at the pointer's row (within `0..bottom`); a bottom handle
/// (S, SE, SW) puts the bottom edge just below it (within `top+1..=27`);
/// a left handle (W, NW, SW) puts the left edge at the pointer's column
/// (within `0..right`); a right handle (E, NE, SE) puts the right edge just
/// right of it (within `left+1..=32`). Edges no handle carries stay.
pub proof fn lemma_bg_resize_edges(
    ox: u32,
    oy: u32,
    ow: u32,
    oh: u32,
    handle: DragHandle,
    tile_x: i32,
    tile_y: i32,
)
    requires
        ow >= 1,
        oh >= 1,
        ox + ow <= 32,
        oy + oh <= 27,
        bg_resize_fits(ox, oy, ow, oh, handle, tile_x, tile_y),
    ensures
        ({
            let r = bg_resize_spec(ox, oy, ow, oh, handle, tile_x, tile_y);
            let top = handle == DragHandle::N || handle == DragHandle::Ne || handle == DragHandle::Nw;
            let bottom = handle == DragHandle::S || handle == DragHandle::Se || handle == DragHandle::Sw;
            let left = handle == DragHandle::W || handle == DragHandle::Nw || handle == DragHandle::Sw;
            let right = handle == DragHandle::E || handle == DragHandle::Ne || handle == DragHandle::Se;
            &&& r.2 >= 1 && r.3 >= 1 && r.0 + r.2 <= 32 && r.1 + r.3 <= 27
            &&& top ==> r.1 == clamp(tile_y as int, 0, oy + oh - 1) && r.1 + r.3 == oy + oh
            &&& bottom ==> r.1 == oy && r.1 + r.3 == clamp(tile_y + 1, oy + 1, 27)
            &&& !top && !bottom ==> r.1 == oy && r.3 == oh
            &&& left ==> r.0 == clamp(tile_x as int, 0, ox + ow - 1) && r.0 + r.2 == ox + ow
            &&& right ==> r.0 == ox && r.0 + r.2 == clamp(tile_x + 1, ox + 1, 32)
            &&& !left && !right ==> r.0 == ox && r.2 == ow
        }),
{
    assert(u32_as_i32(ox) == ox as int);
    assert(u32_as_i32(oy) == oy as int);
    assert(u32_as_i32(ow) == ow as int);
    assert(u32_as_i32(oh) == oh as int);
}

/// A selection dragged between two cells of the tilemap is the smallest
/// rectangle holding both: its corner is the lesser column and row, and it
/// reaches one past the greater column and row. Any two corners of a
/// rectangle give it, whichever order they come in.
pub proof fn lemma_normalize_rect_spans(a: (u32, u32), b: (u32, u32))
    requires
        a.0 < 32,
        a.1 < 27,
        b.0 < 32,
        b.1 < 27,
    ensures
        ({
            let r = normalize_rect_spec(a, b);
            &&& r.0 as int == (if a.0 <= b.0 { a.0 } else { b.0 })
            &&& r.1 as int == (if a.1 <= b.1 { a.1 } else { b.1 })
            &&& r.0 + r.2 == (if a.0 <= b.0 { b.0 } else { a.0 }) + 1
            &&& r.1 + r.3 == (if a.1 <= b.1 { b.1 } else { a.1 }) + 1
            &&& r == normalize_rect_spec(b, a)
            &&& r == normalize_rect_spec((a.0, b.1), (b.0, a.1))
        }),
{
}

} // verus!
