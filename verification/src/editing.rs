//! Object footprints and Lunar Magic-style drag-handle resizing.
//!
//! A vanilla object's footprint lives in its settings byte: the low nibble
//! is width − 1, the high nibble height − 1, so 1 to 16 tiles per axis.
//! Dragging one of the 8 handles around a selected object moves the dragged
//! edge or corner to the pointer's tile while the opposite edge stays fixed.
use vstd::prelude::*;
use crate::clipboard::{clamp, u32_as_i32};

verus! {

/// The 8 resize handles around a selected object's rectangle.
#[derive(Copy, Clone, Debug, PartialEq, Eq)]
pub enum DragHandle {
    Nw,
    N,
    Ne,
    E,
    Se,
    S,
    Sw,
    W,
}

/// Footprint `(w, h)` in tiles from a settings byte; extended objects are
/// 1x1.
pub open spec fn object_dims_spec(settings: u8, is_extended: bool) -> (u32, u32) {
    if is_extended {
        (1, 1)
    } else {
        ((settings % 16 + 1) as u32, (settings / 16 + 1) as u32)
    }
}

/// The settings byte of a `w`×`h` footprint, each side clamped into 1..=16.
pub open spec fn settings_for_dims_spec(w: u32, h: u32) -> u8 {
    ((clamp(h as int, 1, 16) - 1) * 16 + (clamp(w as int, 1, 16) - 1)) as u8
}

/// Object footprint in tiles from the settings byte (1x1 for extended).
pub fn object_dims(settings: u8, is_extended: bool) -> (r: (u32, u32))
    ensures
        r == object_dims_spec(settings, is_extended),
{
    if is_extended {
        (1, 1)
    } else {
        ((settings % 16) as u32 + 1, (settings / 16) as u32 + 1)
    }
}

fn clamp16(v: u32) -> (r: u32)
    ensures
        r == clamp(v as int, 1, 16),
{
    if v < 1 {
        1
    } else if v > 16 {
        16
    } else {
        v
    }
}

/// Settings byte encoding a `w`×`h` footprint, each side clamped into 1..=16.
pub fn settings_for_dims(w: u32, h: u32) -> (r: u8)
    ensures
        r == settings_for_dims_spec(w, h),
{
    (((clamp16(h) - 1) * 16) + (clamp16(w) - 1)) as u8
}

/// Encoding a footprint and reading it back gives the footprint, for sides
/// in 1..=16; out-of-range sides encode as their clamped value.
pub proof fn lemma_settings_round_trip(w: u32, h: u32)
    ensures
        1 <= w <= 16 && 1 <= h <= 16 ==> object_dims_spec(settings_for_dims_spec(w, h), false) == (w, h),
        settings_for_dims_spec(w, h) == settings_for_dims_spec(clamp(w as int, 1, 16) as u32, clamp(h as int, 1, 16) as u32),
{
}

/// Whether the handle moves the right edge.
pub open spec fn moves_right(h: DragHandle) -> bool {
    h == DragHandle::E || h == DragHandle::Ne || h == DragHandle::Se
}

/// Whether the handle moves the left edge.
pub open spec fn moves_left(h: DragHandle) -> bool {
    h == DragHandle::W || h == DragHandle::Nw || h == DragHandle::Sw
}

/// Whether the handle moves the bottom edge.
pub open spec fn moves_bottom(h: DragHandle) -> bool {
    h == DragHandle::S || h == DragHandle::Se || h == DragHandle::Sw
}

/// Whether the handle moves the top edge.
pub open spec fn moves_top(h: DragHandle) -> bool {
    h == DragHandle::N || h == DragHandle::Ne || h == DragHandle::Nw
}

pub open spec fn max_int(a: int, b: int) -> int {
    if a >= b { a } else { b }
}

pub open spec fn min_int(a: int, b: int) -> int {
    if a <= b { a } else { b }
}

/// New far-edge size when the near edge `o` stays and the far edge follows
/// the pointer tile `t`.
pub open spec fn grow_size(o: u32, t: i32) -> u32 {
    clamp(t - u32_as_i32(o) + 1, 1, 16) as u32
}

/// New near edge when the far edge `o + s` stays fixed and the near edge
/// follows the pointer tile `t`, kept 1..=16 tiles before the far edge.
pub open spec fn near_edge(o: u32, s: u32, t: i32) -> int {
    let far = u32_as_i32(o) + u32_as_i32(s);
    max_int(min_int(max_int(t as int, 0), far - 1), far - 16)
}

/// `(x, y, w, h)` after dragging `handle` to tile `(tile_x, tile_y)`.
pub open spec fn resize_spec(ox: u32, oy: u32, ow: u32, oh: u32, handle: DragHandle, tile_x: i32, tile_y: i32) -> (
    u32,
    u32,
    u32,
    u32,
) {
    let far_x = u32_as_i32(ox) + u32_as_i32(ow);
    let far_y = u32_as_i32(oy) + u32_as_i32(oh);
    let (nx, nw) = if moves_right(handle) {
        (ox, grow_size(ox, tile_x))
    } else if moves_left(handle) {
        (near_edge(ox, ow, tile_x) as u32, (far_x - near_edge(ox, ow, tile_x)) as u32)
    } else {
        (ox, ow)
    };
    let (ny, nh) = if moves_bottom(handle) {
        (oy, grow_size(oy, tile_y))
    } else if moves_top(handle) {
        (near_edge(oy, oh, tile_y) as u32, (far_y - near_edge(oy, oh, tile_y)) as u32)
    } else {
        (oy, oh)
    };
    (nx, ny, nw, nh)
}

/// The `i32` arithmetic of the resize stays in range.
pub open spec fn resize_fits(ox: u32, oy: u32, ow: u32, oh: u32, handle: DragHandle, tile_x: i32, tile_y: i32) -> bool {
    &&& moves_right(handle) ==> i32::MIN <= tile_x - u32_as_i32(ox) && tile_x - u32_as_i32(ox) + 1 <= i32::MAX
    &&& moves_left(handle) ==> i32::MIN + 16 <= u32_as_i32(ox) + u32_as_i32(ow) <= i32::MAX
    &&& moves_bottom(handle) ==> i32::MIN <= tile_y - u32_as_i32(oy) && tile_y - u32_as_i32(oy) + 1 <= i32::MAX
    &&& moves_top(handle) ==> i32::MIN + 16 <= u32_as_i32(oy) + u32_as_i32(oh) <= i32::MAX
}

fn as_i32(x: u32) -> (r: i32)
    ensures
        r == u32_as_i32(x),
{
    if x <= 0x7FFF_FFFF {
        x as i32
    } else {
        (x as i64 - 0x1_0000_0000i64) as i32
    }
}

fn to_u32(v: i32) -> (r: u32)
    ensures
        r == v as u32,
{
    v as u32
}

fn clamp_i32(v: i32) -> (r: i32)
    ensures
        r == clamp(v as int, 1, 16),
{
    if v < 1 {
        1
    } else if v > 16 {
        16
    } else {
        v
    }
}

fn near_edge_exec(o: u32, s: u32, t: i32) -> (r: (i32, i32))
    requires
        i32::MIN + 16 <= u32_as_i32(o) + u32_as_i32(s) <= i32::MAX,
    ensures
        r.0 == near_edge(o, s, t),
        r.1 == u32_as_i32(o) + u32_as_i32(s) - near_edge(o, s, t),
        1 <= r.1 <= 16,
{
    let far = as_i32(o) + as_i32(s);
    let a = if t > 0 { t } else { 0 };
    let b = if a < far - 1 { a } else { far - 1 };
    let nl = if b > far - 16 { b } else { far - 16 };
    (nl, far - nl)
}

/// Resizes the tile rectangle `(ox, oy, ow, oh)` by dragging `handle` to
/// tile `(tile_x, tile_y)`: the dragged edge or corner follows the pointer,
/// the opposite edge stays fixed, and each moved side is kept within 1..=16
/// tiles (a dragged left or top edge also stays at or right of tile 0 as
/// long as that leaves it 1..=16 tiles from the fixed edge).
pub fn apply_resize(ox: u32, oy: u32, ow: u32, oh: u32, handle: DragHandle, tile_x: i32, tile_y: i32) -> (r: (
    u32,
    u32,
    u32,
    u32,
))
    requires
        resize_fits(ox, oy, ow, oh, handle, tile_x, tile_y),
    ensures
        r == resize_spec(ox, oy, ow, oh, handle, tile_x, tile_y),
        moves_right(handle) || moves_left(handle) ==> 1 <= r.2 <= 16,
        moves_bottom(handle) || moves_top(handle) ==> 1 <= r.3 <= 16,
{
    let (mut nx, mut ny, mut nw, mut nh) = (ox, oy, ow, oh);
    match handle {
        DragHandle::E | DragHandle::Ne | DragHandle::Se => {
            nw = to_u32(clamp_i32(tile_x - as_i32(ox) + 1));
        },
        DragHandle::W | DragHandle::Nw | DragHandle::Sw => {
            let (nl, width) = near_edge_exec(ox, ow, tile_x);
            nw = to_u32(width);
            nx = to_u32(nl);
        },
        _ => {},
    }
    match handle {
        DragHandle::S | DragHandle::Se | DragHandle::Sw => {
            nh = to_u32(clamp_i32(tile_y - as_i32(oy) + 1));
        },
        DragHandle::N | DragHandle::Ne | DragHandle::Nw => {
            let (nt, height) = near_edge_exec(oy, oh, tile_y);
            nh = to_u32(height);
            ny = to_u32(nt);
        },
        _ => {},
    }
    (nx, ny, nw, nh)
}

/// Dragging keeps the opposite edge fixed: a moved right or bottom edge
/// leaves the left or top edge where it was, and a moved left or top edge
/// leaves the right or bottom edge where it was (for a rectangle whose far
/// edge lies in `1..=i32::MAX`).
pub proof fn lemma_resize_keeps_opposite_edge(
    ox: u32,
    oy: u32,
    ow: u32,
    oh: u32,
    handle: DragHandle,
    tile_x: i32,
    tile_y: i32,
)
    requires
        resize_fits(ox, oy, ow, oh, handle, tile_x, tile_y),
    ensures
        ({
            let r = resize_spec(ox, oy, ow, oh, handle, tile_x, tile_y);
            &&& moves_right(handle) ==> r.0 == ox
            &&& moves_bottom(handle) ==> r.1 == oy
            &&& moves_left(handle) && 1 <= ox + ow <= i32::MAX ==> r.0 + r.2 == ox + ow
            &&& moves_top(handle) && 1 <= oy + oh <= i32::MAX ==> r.1 + r.3 == oy + oh
            &&& !moves_right(handle) && !moves_left(handle) ==> r.0 == ox && r.2 == ow
            &&& !moves_bottom(handle) && !moves_top(handle) ==> r.1 == oy && r.3 == oh
        }),
{
}

/// Dragging a handle of an object's rectangle (far edges in
/// `1..=i32::MAX`): the edges the handle carries follow the pointer's
/// tile, keeping each side 1 to 16 tiles, and the other edges stay. A right
/// handle (E, NE, SE) puts the right edge just right of the pointer's
/// column (width 1 to 16); a left handle (W, NW, SW) puts the left edge at
/// the pointer's column, at least 0 and 1 to 16 tiles before the fixed
/// right edge; likewise bottom (S, SE, SW) and top (N, NE, NW) handles for
/// rows.
pub proof fn lemma_resize_edges_follow_pointer(
    ox: u32,
    oy: u32,
    ow: u32,
    oh: u32,
    handle: DragHandle,
    tile_x: i32,
    tile_y: i32,
)
    requires
        resize_fits(ox, oy, ow, oh, handle, tile_x, tile_y),
        1 <= ox + ow <= i32::MAX,
        1 <= oy + oh <= i32::MAX,
    ensures
        ({
            let r = resize_spec(ox, oy, ow, oh, handle, tile_x, tile_y);
            let top = handle == DragHandle::N || handle == DragHandle::Ne || handle == DragHandle::Nw;
            let bottom = handle == DragHandle::S || handle == DragHandle::Se || handle == DragHandle::Sw;
            let left = handle == DragHandle::W || handle == DragHandle::Nw || handle == DragHandle::Sw;
            let right = handle == DragHandle::E || handle == DragHandle::Ne || handle == DragHandle::Se;
            &&& right ==> r.0 == ox && r.2 == clamp(tile_x - ox + 1, 1, 16)
            &&& left ==> r.0 + r.2 == ox + ow && r.0 == clamp(
                tile_x as int,
                max_int(0, ox + ow - 16),
                ox + ow - 1,
            )
            &&& !left && !right ==> r.0 == ox && r.2 == ow
            &&& bottom ==> r.1 == oy && r.3 == clamp(tile_y - oy + 1, 1, 16)
            &&& top ==> r.1 + r.3 == oy + oh && r.1 == clamp(
                tile_y as int,
                max_int(0, oy + oh - 16),
                oy + oh - 1,
            )
            &&& !top && !bottom ==> r.1 == oy && r.3 == oh
        }),
{
    assert(u32_as_i32(ox) == ox as int);
    assert(u32_as_i32(oy) == oy as int);
    assert(u32_as_i32(ow) == ow as int);
    assert(u32_as_i32(oh) == oh as int);
}

/// A vanilla object's settings byte holds its footprint as nibbles: the low
/// nibble is the width minus one, the high nibble the height minus one
/// (sides 1 to 16), and reading a settings byte gives those sides back.
pub proof fn lemma_settings_nibbles(w: u32, h: u32, settings: u8)
    ensures
        1 <= w <= 16 && 1 <= h <= 16 ==> settings_for_dims_spec(w, h) % 16 == w - 1 && settings_for_dims_spec(w, h)
            / 16 == h - 1,
        object_dims_spec(settings, false).0 == settings % 16 + 1,
        object_dims_spec(settings, false).1 == settings / 16 + 1,
        object_dims_spec(settings, true) == (1u32, 1u32),
{
}

} // verus!
