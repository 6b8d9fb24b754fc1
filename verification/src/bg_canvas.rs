//! The primary-button gestures on the background canvas: what a press
//! starts, what a drag step changes, and what a release commits.
//!
//! The screen side (pixels to cells, which resize handle is under the
//! pointer) stays with the caller; these functions take the cell and the
//! handle it found and give back the next drag state and what to do.
use vstd::prelude::*;
use crate::bg_edits::{
    bg_drag_ok, bg_paint_edits, bg_pattern, bg_resize_edits, paint_edits, selection_pattern,
    tiling_edits, vacate_edits, BgDrag, BG_TILEMAP_LEN,
};
use crate::bg_tilemap::{apply_bg_resize, bg_resize_fits, bg_resize_spec, max_u, min_u, normalize_rect, normalize_rect_spec};
use crate::clipboard::u32_as_i32;
use crate::editing::DragHandle;

verus! {

/// The tool of the background canvas's primary button.
#[derive(Clone, Copy, Debug, PartialEq, Eq, Structural)]
pub enum BgTileTool {
    Paint,
    Select,
    Eyedropper,
}

/// What a primary-button press on the background canvas does.
pub enum BgPress {
    /// Nothing: a drag is already in progress, or the press missed the tilemap.
    Nothing,
    /// A drag starts.
    Drag(BgDrag),
    /// The eyedropper picks the tile of cell `(col, row)`.
    Pick(u32, u32),
}

/// What releasing the primary button ends.
pub enum BgRelease {
    /// A paint stroke: its edits (none: only the preview is cleared).
    Painted(Vec<(usize, u8)>),
    /// A selection drag: the new selection `(x, y, w, h)`.
    Selected((u32, u32, u32, u32)),
    /// A resize: its edits (`None` when the rectangle did not change) and
    /// the selection afterwards.
    Resized(Option<Vec<(usize, u8)>>, (u32, u32, u32, u32)),
}

/// A selection `(x, y, w, h)` of at least one cell that lies in the tilemap.
pub open spec fn rect_in_map(r: (u32, u32, u32, u32)) -> bool {
    r.2 >= 1 && r.3 >= 1 && r.0 + r.2 <= 32 && r.1 + r.3 <= 27
}

/// Whether a selection `(x, y, w, h)` has at least one cell and lies in the tilemap.
pub fn selection_in_tilemap(r: (u32, u32, u32, u32)) -> (b: bool)
    ensures
        b == rect_in_map(r),
{
    r.2 >= 1 && r.3 >= 1 && r.0 <= 32 && r.2 <= 32 - r.0 && r.1 <= 27 && r.3 <= 27 - r.1
}

/// Dragging a handle of a selection that lies in the tilemap to a cell of
/// the tilemap stays in range and gives a selection in the tilemap.
proof fn lemma_resize_in_map(o: (u32, u32, u32, u32), handle: DragHandle, c: (u32, u32))
    requires
        rect_in_map(o),
        c.0 < 32,
        c.1 < 27,
    ensures
        bg_resize_fits(o.0, o.1, o.2, o.3, handle, c.0 as i32, c.1 as i32),
        rect_in_map(bg_resize_spec(o.0, o.1, o.2, o.3, handle, c.0 as i32, c.1 as i32)),
{
    assert(u32_as_i32(o.0) == o.0 as int);
    assert(u32_as_i32(o.1) == o.1 as int);
    assert(u32_as_i32(o.2) == o.2 as int);
    assert(u32_as_i32(o.3) == o.3 as int);
    assert((c.0 as i32) as int == c.0 as int);
    assert((c.1 as i32) as int == c.1 as int);
}

/// A press of the primary button. `drag_active`: a drag is in progress;
/// `handle`: the resize handle of the selection under the pointer, if any;
/// `cell`: the tilemap cell under the pointer, if any. A handle of the
/// selection starts a resize that carries the selection's content;
/// otherwise the tool decides: paint starts a stroke, select a rectangle,
/// the eyedropper picks the cell's tile.
pub fn bg_press(
    drag_active: bool,
    selection: Option<(u32, u32, u32, u32)>,
    handle: Option<DragHandle>,
    tool: BgTileTool,
    cell: Option<(u32, u32)>,
    tiles: &Vec<u8>,
) -> (r: BgPress)
    requires
        tiles@.len() == BG_TILEMAP_LEN,
        selection matches Some((x, y, w, h)) ==> {
            &&& x + w <= u32::MAX
            &&& y + h <= u32::MAX
            &&& w * h <= u32::MAX
        },
    ensures
        drag_active ==> r is Nothing,
        !drag_active && selection is Some && handle is Some ==> {
            let sel = selection->0;
            &&& r matches BgPress::Drag(BgDrag::Resize { handle: hd, orig, cur, content, cw, ch })
            &&& hd == handle->0
            &&& orig == sel
            &&& cur == sel
            &&& cw == sel.2
            &&& ch == sel.3
            &&& content@ == selection_pattern(tiles@, sel.0 as int, sel.1 as int, sel.2 as int, sel.3 as int)
        },
        !drag_active && !(selection is Some && handle is Some) ==> match cell {
            None => r is Nothing,
            Some(c) => match tool {
                BgTileTool::Paint => r matches BgPress::Drag(BgDrag::Paint { cells }) && cells@ == seq![c],
                BgTileTool::Select => r matches BgPress::Drag(BgDrag::Select { start, cur }) && start == c
                    && cur == c,
                BgTileTool::Eyedropper => r matches BgPress::Pick(pc, pr) && pc == c.0 && pr == c.1,
            },
        },
        (selection matches Some(s) ==> s.2 >= 1 && s.3 >= 1) ==> (r matches BgPress::Drag(d) ==> bg_drag_ok(d)),
{
    if drag_active {
        return BgPress::Nothing;
    }
    if let Some(sel) = selection {
        if let Some(hd) = handle {
            let (w, h, content) = bg_pattern(tiles, Some(sel), 0);
            return BgPress::Drag(BgDrag::Resize { handle: hd, orig: sel, cur: sel, content, cw: w, ch: h });
        }
    }
    match cell {
        None => BgPress::Nothing,
        Some(c) => match tool {
            BgTileTool::Paint => BgPress::Drag(BgDrag::Paint { cells: vec![c] }),
            BgTileTool::Select => BgPress::Drag(BgDrag::Select { start: c, cur: c }),
            BgTileTool::Eyedropper => BgPress::Pick(c.0, c.1),
        },
    }
}

/// The pointer, dragging, is over tilemap cell `cell`: a stroke gains the
/// cell unless it is the last one already, a selection rectangle moves its
/// far corner there, a resize moves its handle there. Also returns whether
/// the canvas preview changed.
pub fn bg_drag_move(drag: BgDrag, cell: (u32, u32)) -> (r: (BgDrag, bool))
    requires
        cell.0 < 32,
        cell.1 < 27,
        bg_drag_ok(drag),
        drag matches BgDrag::Resize { orig, .. } ==> rect_in_map(orig),
    ensures
        match drag {
            BgDrag::Paint { cells } => {
                let repeat = cells@.len() > 0 && cells@.last() == cell;
                &&& r.0 matches BgDrag::Paint { cells: c2 }
                &&& c2@ == (if repeat { cells@ } else { cells@.push(cell) })
                &&& r.1 == !repeat
            },
            BgDrag::Select { start, .. } => {
                &&& r.0 matches BgDrag::Select { start: s2, cur: c2 }
                &&& s2 == start
                &&& c2 == cell
                &&& !r.1
            },
            BgDrag::Resize { handle, orig, content, cw, ch, .. } => {
                &&& r.0 matches BgDrag::Resize { handle: h2, orig: o2, cur: c2, content: t2, cw: w2, ch: ch2 }
                &&& h2 == handle
                &&& o2 == orig
                &&& t2@ == content@
                &&& w2 == cw
                &&& ch2 == ch
                &&& c2 == bg_resize_spec(orig.0, orig.1, orig.2, orig.3, handle, cell.0 as i32, cell.1 as i32)
                &&& rect_in_map(c2)
                &&& r.1
            },
        },
        bg_drag_ok(r.0),
{
    match drag {
        BgDrag::Paint { cells } => {
            let mut cells = cells;
            let n = cells.len();
            if n > 0 && cells[n - 1].0 == cell.0 && cells[n - 1].1 == cell.1 {
                (BgDrag::Paint { cells }, false)
            } else {
                cells.push(cell);
                (BgDrag::Paint { cells }, true)
            }
        },
        BgDrag::Select { start, .. } => (BgDrag::Select { start, cur: cell }, false),
        BgDrag::Resize { handle, orig, content, cw, ch, .. } => {
            proof {
                lemma_resize_in_map(orig, handle, cell);
            }
            let cur = apply_bg_resize(orig.0, orig.1, orig.2, orig.3, handle, cell.0 as i32, cell.1 as i32);
            (BgDrag::Resize { handle, orig, cur, content, cw, ch }, true)
        },
    }
}

/// The primary button is released: a stroke gives its paint edits with the
/// selected tile, a selection drag its rectangle, a resize its edits and
/// the resized selection.
pub fn bg_drag_release(drag: BgDrag, tiles: &Vec<u8>, selected_tile: u8) -> (r: BgRelease)
    requires
        tiles@.len() == BG_TILEMAP_LEN,
        bg_drag_ok(drag),
        drag matches BgDrag::Select { start, cur } ==> {
            &&& max_u(start.0 as int, cur.0 as int) - min_u(min_u(start.0 as int, cur.0 as int), 31) < u32::MAX
            &&& max_u(start.1 as int, cur.1 as int) - min_u(min_u(start.1 as int, cur.1 as int), 26) < u32::MAX
        },
    ensures
        match drag {
            BgDrag::Paint { cells } => r matches BgRelease::Painted(e) && e@ == paint_edits(
                tiles@,
                cells@,
                selected_tile,
                cells@.len() as int,
            ),
            BgDrag::Select { start, cur } => r matches BgRelease::Selected(sel) && sel == normalize_rect_spec(
                start,
                cur,
            ),
            BgDrag::Resize { orig, cur, content, cw, ch, .. } => {
                &&& r matches BgRelease::Resized(e, sel)
                &&& sel == cur
                &&& cur == orig ==> e is None
                &&& cur != orig ==> (e matches Some(v) && v@ == vacate_edits(
                    orig.0 as int,
                    orig.1 as int,
                    orig.2 as int,
                    cur.0 as int,
                    cur.1 as int,
                    cur.2 as int,
                    cur.3 as int,
                    orig.2 * orig.3,
                ) + tiling_edits(cur.0 as int, cur.1 as int, cur.2 as int, content@, cw as int, ch as int, cur.2 * cur.3))
            },
        },
{
    match drag {
        BgDrag::Paint { cells } => BgRelease::Painted(bg_paint_edits(tiles, &cells, selected_tile)),
        BgDrag::Select { start, cur } => BgRelease::Selected(normalize_rect(start, cur)),
        BgDrag::Resize { orig, cur, content, cw, ch, .. } => {
            BgRelease::Resized(bg_resize_edits(orig, cur, &content, cw, ch), cur)
        },
    }
}

} // verus!
