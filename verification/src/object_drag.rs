//! Editing the objects of a level layer: hit-testing, deleting a selection,
//! and the drag of a selected object (move or resize) from its live
//! feedback to the single write committed on release.
use vstd::prelude::*;
use crate::clipboard::{clamp, sat_sub, u32_as_i32};
use crate::editing::{
    apply_resize, object_dims, object_dims_spec, resize_fits, resize_spec, settings_for_dims,
    settings_for_dims_spec, DragHandle,
};
use crate::object_layer::EditableObject;

verus! {

// ---------------------------------------------------------------------------
// Hit-testing and deleting
// ---------------------------------------------------------------------------

/// The object's footprint covers tile `(tx, ty)`.
pub open spec fn covers_tile(o: EditableObject, tx: int, ty: int) -> bool {
    let (w, h) = object_dims_spec(o.settings, o.is_extended);
    o.x <= tx < o.x + w && o.y <= ty < o.y + h
}

/// The topmost (last placed) of the first `n` objects that covers tile
/// `(tx, ty)`.
pub open spec fn topmost_below(objs: Seq<EditableObject>, tx: int, ty: int, n: int) -> Option<int>
    decreases n,
{
    if n <= 0 {
        None
    } else if covers_tile(objs[n - 1], tx, ty) {
        Some(n - 1)
    } else {
        topmost_below(objs, tx, ty, n - 1)
    }
}

/// The index of the topmost object covering tile `(tx, ty)`: the last one
/// in the layer, as later objects draw over earlier ones.
pub fn object_at_tile(objects: &Vec<EditableObject>, tx: i64, ty: i64) -> (r: Option<usize>)
    ensures
        match r {
            Some(i) => topmost_below(objects@, tx as int, ty as int, objects@.len() as int) == Some(i as int),
            None => topmost_below(objects@, tx as int, ty as int, objects@.len() as int) is None,
        },
{
    let mut i = objects.len();
    while i > 0
        invariant
            i <= objects@.len(),
            topmost_below(objects@, tx as int, ty as int, objects@.len() as int) == topmost_below(
                objects@,
                tx as int,
                ty as int,
                i as int,
            ),
        decreases i,
    {
        let o = objects[i - 1];
        let (w, h) = object_dims(o.settings, o.is_extended);
        let x = o.x as i64;
        let y = o.y as i64;
        if x <= tx && tx < x + w as i64 && y <= ty && ty < y + h as i64 {
            return Some(i - 1);
        }
        i = i - 1;
    }
    None
}

/// Index `i` is among the selected indices.
pub open spec fn is_selected(selected: Seq<usize>, i: int) -> bool {
    exists|j: int| 0 <= j < selected.len() && selected[j] as int == i
}

/// The first `n` items without the selected ones, in order.
pub open spec fn kept_below<T>(items: Seq<T>, selected: Seq<usize>, n: int) -> Seq<T>
    decreases n,
{
    if n <= 0 {
        Seq::empty()
    } else if is_selected(selected, n - 1) {
        kept_below(items, selected, n - 1)
    } else {
        kept_below(items, selected, n - 1).push(items[n - 1])
    }
}

fn contains_index(selected: &Vec<usize>, i: usize) -> (r: bool)
    ensures
        r == is_selected(selected@, i as int),
{
    let mut j: usize = 0;
    while j < selected.len()
        invariant
            j <= selected@.len(),
            forall|k: int| 0 <= k < j ==> selected@[k] != i,
        decreases selected.len() - j,
    {
        if selected[j] == i {
            return true;
        }
        j = j + 1;
    }
    false
}

/// The items (objects or sprites of a layer) without the selected indices,
/// in their order.
pub fn remove_selected<T>(items: Vec<T>, selected: &Vec<usize>) -> (r: Vec<T>)
    ensures
        r@ == kept_below(items@, selected@, items@.len() as int),
{
    let ghost all = items@;
    let n = items.len();
    let mut rest = items;
    let mut keep: Vec<T> = Vec::new();
    let mut i: usize = 0;
    assert(rest@ =~= all.skip(0));
    while i < n
        invariant
            n == all.len(),
            i <= n,
            rest@ == all.skip(i as int),
            keep@ == kept_below(all, selected@, i as int),
        decreases n - i,
    {
        let item = rest.remove(0);
        assert(all.skip(i as int).remove(0) =~= all.skip(i + 1));
        if !contains_index(selected, i) {
            keep.push(item);
        }
        i = i + 1;
    }
    keep
}

/// The footprint `(x, y, w, h)` of an object.
pub open spec fn footprint(o: EditableObject) -> (u32, u32, u32, u32) {
    let (w, h) = object_dims_spec(o.settings, o.is_extended);
    (o.x, o.y, w, h)
}

/// The footprints of the first `n` selected indices that name an object.
pub open spec fn footprints_below(objs: Seq<EditableObject>, selected: Seq<usize>, n: int) -> Seq<
    (u32, u32, u32, u32),
>
    decreases n,
{
    if n <= 0 {
        Seq::empty()
    } else {
        let prev = footprints_below(objs, selected, n - 1);
        let i = selected[n - 1] as int;
        if i < objs.len() {
            prev.push(footprint(objs[i]))
        } else {
            prev
        }
    }
}

/// The footprints of the selected objects, to be blanked when they are
/// deleted; an index past the layer is skipped.
pub fn selected_footprints(objects: &Vec<EditableObject>, selected: &Vec<usize>) -> (r: Vec<(u32, u32, u32, u32)>)
    ensures
        r@ == footprints_below(objects@, selected@, selected@.len() as int),
{
    let mut out: Vec<(u32, u32, u32, u32)> = Vec::new();
    let mut k: usize = 0;
    while k < selected.len()
        invariant
            k <= selected@.len(),
            out@ == footprints_below(objects@, selected@, k as int),
        decreases selected.len() - k,
    {
        let i = selected[k];
        if i < objects.len() {
            let o = objects[i];
            let (w, h) = object_dims(o.settings, o.is_extended);
            out.push((o.x, o.y, w, h));
        }
        k = k + 1;
    }
    out
}

// ---------------------------------------------------------------------------
// Dragging a selected object
// ---------------------------------------------------------------------------

/// An object drag in progress; `handle` is `None` for a move of the body.
#[derive(Clone, Copy, Debug)]
pub struct ObjectDrag {
    pub index: usize,
    /// The object's id when it was grabbed: the commit is skipped if the
    /// object at `index` no longer has it (deleted or undone mid-drag).
    pub check_id: u8,
    pub handle: Option<DragHandle>,
    pub is_extended: bool,
    pub orig_x: u32,
    pub orig_y: u32,
    pub orig_w: u32,
    pub orig_h: u32,
    /// The grabbed tile minus the object's corner, so a move does not jump.
    pub grab_dx: i32,
    pub grab_dy: i32,
    pub cur_x: u32,
    pub cur_y: u32,
    pub cur_w: u32,
    pub cur_h: u32,
}

/// A body move along one axis: the pointer tile `t` minus the grab offset,
/// kept at or after 0 and at or before `level - size` (as the `i32` that
/// value wraps to).
pub open spec fn body_axis(t: i32, grab: i32, level: u32, size: u32) -> u32 {
    let lim = u32_as_i32(sat_sub(level, size) as u32);
    let v = if t - grab > 0 { t - grab } else { 0 };
    (if v < lim { v } else { lim }) as u32
}

fn body_axis_exec(t: i32, grab: i32, level: u32, size: u32) -> (r: u32)
    requires
        i32::MIN <= t - grab <= i32::MAX,
    ensures
        r == body_axis(t, grab, level, size),
{
    let room: u32 = if level >= size { level - size } else { 0 };
    let lim: i32 = room as i32;
    assert(lim == u32_as_i32(room)) by (bit_vector)
        requires
            lim == room as i32,
    ;
    let v = t - grab;
    let v = if v > 0 { v } else { 0 };
    let m = if v < lim { v } else { lim };
    m as u32
}

/// The drag after the pointer reached tile `(tx, ty)`.
pub open spec fn drag_to_spec(d: ObjectDrag, tx: i32, ty: i32, level_w: u32, level_h: u32) -> ObjectDrag {
    match d.handle {
        None => ObjectDrag {
            cur_x: body_axis(tx, d.grab_dx, level_w, d.cur_w),
            cur_y: body_axis(ty, d.grab_dy, level_h, d.cur_h),
            ..d
        },
        Some(handle) => {
            let (nx, ny, nw, nh) = resize_spec(d.orig_x, d.orig_y, d.orig_w, d.orig_h, handle, tx, ty);
            ObjectDrag {
                cur_x: if nx <= sat_sub(level_w, nw) { nx } else { sat_sub(level_w, nw) as u32 },
                cur_y: if ny <= sat_sub(level_h, nh) { ny } else { sat_sub(level_h, nh) as u32 },
                cur_w: if nw <= level_w { nw } else { level_w },
                cur_h: if nh <= level_h { nh } else { level_h },
                ..d
            }
        },
    }
}

/// The pointer may reach tile `(tx, ty)`: the `i32` arithmetic of the move
/// or the resize stays in range.
pub open spec fn drag_fits(d: ObjectDrag, tx: i32, ty: i32) -> bool {
    match d.handle {
        None => i32::MIN <= tx - d.grab_dx <= i32::MAX && i32::MIN <= ty - d.grab_dy <= i32::MAX,
        Some(handle) => resize_fits(d.orig_x, d.orig_y, d.orig_w, d.orig_h, handle, tx, ty),
    }
}

impl ObjectDrag {
    /// The drag has moved or resized the object.
    pub fn changed(&self) -> (r: bool)
        ensures
            r == (self.cur_x != self.orig_x || self.cur_y != self.orig_y || self.cur_w != self.orig_w || self.cur_h
                != self.orig_h),
    {
        self.cur_x != self.orig_x || self.cur_y != self.orig_y || self.cur_w != self.orig_w || self.cur_h != self.orig_h
    }

    /// Live feedback as the pointer reaches tile `(tx, ty)` of a level
    /// `level_w` x `level_h` tiles: a move follows the pointer, snapped to
    /// tiles and kept in the level; a resize follows the dragged handle and
    /// is kept in the level too.
    pub fn drag_to(&mut self, tx: i32, ty: i32, level_w: u32, level_h: u32)
        requires
            drag_fits(*old(self), tx, ty),
        ensures
            *final(self) == drag_to_spec(*old(self), tx, ty, level_w, level_h),
    {
        match self.handle {
            None => {
                self.cur_x = body_axis_exec(tx, self.grab_dx, level_w, self.cur_w);
                self.cur_y = body_axis_exec(ty, self.grab_dy, level_h, self.cur_h);
            },
            Some(handle) => {
                let (nx, ny, nw, nh) = apply_resize(self.orig_x, self.orig_y, self.orig_w, self.orig_h, handle, tx, ty);
                let room_x: u32 = if level_w >= nw { level_w - nw } else { 0 };
                let room_y: u32 = if level_h >= nh { level_h - nh } else { 0 };
                self.cur_x = if nx <= room_x { nx } else { room_x };
                self.cur_y = if ny <= room_y { ny } else { room_y };
                self.cur_w = if nw <= level_w { nw } else { level_w };
                self.cur_h = if nh <= level_h { nh } else { level_h };
            },
        }
    }
}

/// Moving an object by its body keeps the grabbed tile under the pointer:
/// the drag's corner becomes the pointer's tile minus the grab offset,
/// `(tx - grab_dx, ty - grab_dy)`, kept within `0..=level - size` on each
/// axis (so exactly that corner whenever it leaves the object in the
/// level). The size, the original rectangle, the grab offset and the
/// object dragged stay as they were. (Levels are far narrower than
/// `i32::MAX` tiles.)
pub proof fn lemma_body_move_follows_pointer(d: ObjectDrag, tx: i32, ty: i32, level_w: u32, level_h: u32)
    requires
        d.handle is None,
        drag_fits(d, tx, ty),
        sat_sub(level_w, d.cur_w) <= i32::MAX,
        sat_sub(level_h, d.cur_h) <= i32::MAX,
    ensures
        ({
            let n = drag_to_spec(d, tx, ty, level_w, level_h);
            &&& n.cur_x == clamp(tx - d.grab_dx, 0, sat_sub(level_w, d.cur_w))
            &&& n.cur_y == clamp(ty - d.grab_dy, 0, sat_sub(level_h, d.cur_h))
            &&& 0 <= tx - d.grab_dx <= sat_sub(level_w, d.cur_w) ==> n.cur_x == tx - d.grab_dx
            &&& 0 <= ty - d.grab_dy <= sat_sub(level_h, d.cur_h) ==> n.cur_y == ty - d.grab_dy
            &&& n.cur_w == d.cur_w && n.cur_h == d.cur_h
            &&& n.orig_x == d.orig_x && n.orig_y == d.orig_y && n.orig_w == d.orig_w && n.orig_h == d.orig_h
            &&& n.grab_dx == d.grab_dx && n.grab_dy == d.grab_dy
            &&& n.index == d.index && n.check_id == d.check_id && n.handle == d.handle
            &&& n.is_extended == d.is_extended
        }),
{
    let lw = sat_sub(level_w, d.cur_w) as u32;
    let lh = sat_sub(level_h, d.cur_h) as u32;
    assert(u32_as_i32(lw) == lw as int);
    assert(u32_as_i32(lh) == lh as int);
}

/// Resizing an object by a handle: the drag takes the rectangle the handle
/// gives (`apply_resize` from the original rectangle to the pointer's tile)
/// whenever it lies in the level, and in any case stays in the level: a
/// side longer than the level is cut to it and the corner moved back so the
/// far edge is at the level's edge. Only the current rectangle changes.
pub proof fn lemma_handle_drag_stays_in_level(d: ObjectDrag, tx: i32, ty: i32, level_w: u32, level_h: u32)
    requires
        d.handle is Some,
        drag_fits(d, tx, ty),
    ensures
        ({
            let n = drag_to_spec(d, tx, ty, level_w, level_h);
            let r = resize_spec(d.orig_x, d.orig_y, d.orig_w, d.orig_h, d.handle->0, tx, ty);
            &&& r.0 + r.2 <= level_w && r.1 + r.3 <= level_h ==> (n.cur_x, n.cur_y, n.cur_w, n.cur_h) == r
            &&& n.cur_x + n.cur_w <= level_w
            &&& n.cur_y + n.cur_h <= level_h
            &&& n.cur_w == (if r.2 <= level_w { r.2 } else { level_w })
            &&& n.cur_h == (if r.3 <= level_h { r.3 } else { level_h })
            &&& n.orig_x == d.orig_x && n.orig_y == d.orig_y && n.orig_w == d.orig_w && n.orig_h == d.orig_h
            &&& n.grab_dx == d.grab_dx && n.grab_dy == d.grab_dy
            &&& n.index == d.index && n.check_id == d.check_id && n.handle == d.handle
            &&& n.is_extended == d.is_extended
        }),
{
}

/// The object after a committed drag: moved to the drag's corner and, for
/// a vanilla object, resized to its size.
pub open spec fn dragged_object(o: EditableObject, d: ObjectDrag) -> EditableObject {
    EditableObject {
        x: d.cur_x,
        y: d.cur_y,
        settings: if d.is_extended { o.settings } else { settings_for_dims_spec(d.cur_w, d.cur_h) },
        ..o
    }
}

/// Commits a finished drag to the layer's objects, as one write: the object
/// at the drag's index takes the new corner and size, unless it is gone or
/// is another object now (then nothing changes and `false` comes back).
pub fn commit_object_drag(objects: &mut Vec<EditableObject>, d: &ObjectDrag) -> (r: bool)
    ensures
        r == (d.index < old(objects)@.len() && old(objects)@[d.index as int].id == d.check_id),
        r ==> final(objects)@ == old(objects)@.update(d.index as int, dragged_object(old(objects)@[d.index as int], *d)),
        !r ==> final(objects)@ == old(objects)@,
{
    if d.index >= objects.len() || objects[d.index].id != d.check_id {
        return false;
    }
    let mut o = objects[d.index];
    o.x = d.cur_x;
    o.y = d.cur_y;
    if !d.is_extended {
        o.settings = settings_for_dims(d.cur_w, d.cur_h);
    }
    objects.set(d.index, o);
    true
}

/// A committed drag puts the object's corner at the drag's corner; a
/// vanilla object's settings then hold the drag's size (low nibble width
/// minus one, high nibble height minus one, for sides 1 to 16), an extended
/// object keeps its settings; the id and kind of the object stay.
pub proof fn lemma_committed_object(o: EditableObject, d: ObjectDrag)
    ensures
        ({
            let n = dragged_object(o, d);
            &&& n.x == d.cur_x && n.y == d.cur_y
            &&& n.id == o.id && n.is_extended == o.is_extended && n.extended_id == o.extended_id
            &&& d.is_extended ==> n.settings == o.settings
            &&& !d.is_extended && 1 <= d.cur_w <= 16 && 1 <= d.cur_h <= 16 ==> n.settings % 16 == d.cur_w - 1
                && n.settings / 16 == d.cur_h - 1
        }),
{
}

/// Where tile `(dx, dy)` of the new footprint takes its block from in the
/// old one: the same level tile, or the nearest edge tile of the old
/// footprint (row-major index).
pub open spec fn stretch_source(d: ObjectDrag, dx: int, dy: int) -> int {
    let sx = clamp(dx + d.cur_x - d.orig_x, 0, d.orig_w - 1);
    let sy = clamp(dy + d.cur_y - d.orig_y, 0, d.orig_h - 1);
    sy * d.orig_w + sx
}

/// The blocks of the new footprint, row by row.
pub open spec fn stretched_blocks(old_blocks: Seq<u16>, d: ObjectDrag) -> Seq<u16> {
    Seq::new(
        (d.cur_w * d.cur_h) as nat,
        |k: int| old_blocks[stretch_source(d, k % (d.cur_w as int), k / (d.cur_w as int))],
    )
}

/// The coordinates of the drag stay in `i32` range.
pub open spec fn stretch_fits(d: ObjectDrag) -> bool {
    &&& d.cur_x + d.cur_w <= i32::MAX
    &&& d.cur_y + d.cur_h <= i32::MAX
    &&& d.orig_x <= i32::MAX
    &&& d.orig_y <= i32::MAX
    &&& 1 <= d.orig_w <= i32::MAX
    &&& 1 <= d.orig_h <= i32::MAX
}

proof fn lemma_stretch_source_bound(d: ObjectDrag, dx: int, dy: int)
    requires
        d.orig_w >= 1,
        d.orig_h >= 1,
    ensures
        0 <= stretch_source(d, dx, dy) < d.orig_w * d.orig_h,
{
    let sx = clamp(dx + d.cur_x - d.orig_x, 0, d.orig_w - 1);
    let sy = clamp(dy + d.cur_y - d.orig_y, 0, d.orig_h - 1);
    let w = d.orig_w as int;
    let h = d.orig_h as int;
    assert(0 <= sy * w + sx < w * h) by (nonlinear_arith)
        requires
            0 <= sx < w,
            0 <= sy < h,
    ;
}

/// The blocks that a committed drag stamps into the new footprint, row by
/// row, from the `orig_w` x `orig_h` blocks of the old one: each tile keeps
/// the block under it where the footprints overlap, and grown tiles repeat
/// the nearest edge of the old footprint.
pub fn stretched_footprint(old_blocks: &Vec<u16>, d: &ObjectDrag) -> (r: Vec<u16>)
    requires
        stretch_fits(*d),
        old_blocks@.len() == d.orig_w * d.orig_h,
    ensures
        r@ == stretched_blocks(old_blocks@, *d),
{
    let ghost target = stretched_blocks(old_blocks@, *d);
    let ow = d.orig_w as i32;
    let oh = d.orig_h as i32;
    let n = old_blocks.len();
    let mut out: Vec<u16> = Vec::new();
    let mut dy: u32 = 0;
    while dy < d.cur_h
        invariant
            dy <= d.cur_h,
            stretch_fits(*d),
            old_blocks@.len() == d.orig_w * d.orig_h,
            n == old_blocks@.len(),
            ow == d.orig_w,
            oh == d.orig_h,
            target == stretched_blocks(old_blocks@, *d),
            out@.len() == dy * d.cur_w,
            out@ =~= target.take(dy * d.cur_w),
        decreases d.cur_h - dy,
    {
        let mut dx: u32 = 0;
        while dx < d.cur_w
            invariant
                dx <= d.cur_w,
                dy < d.cur_h,
                stretch_fits(*d),
                old_blocks@.len() == d.orig_w * d.orig_h,
                n == old_blocks@.len(),
                ow == d.orig_w,
                oh == d.orig_h,
                target == stretched_blocks(old_blocks@, *d),
                out@.len() == dy * d.cur_w + dx,
                out@ =~= target.take(dy * d.cur_w + dx),
            decreases d.cur_w - dx,
        {
            let rx = dx as i32 + d.cur_x as i32 - d.orig_x as i32;
            let ry = dy as i32 + d.cur_y as i32 - d.orig_y as i32;
            let sx = if rx < 0 { 0 } else if rx > ow - 1 { ow - 1 } else { rx };
            let sy = if ry < 0 { 0 } else if ry > oh - 1 { oh - 1 } else { ry };
            proof {
                lemma_stretch_source_bound(*d, dx as int, dy as int);
                vstd::arithmetic::div_mod::lemma_fundamental_div_mod_converse(
                    dy * d.cur_w + dx,
                    d.cur_w as int,
                    dy as int,
                    dx as int,
                );
                assert((dy * d.cur_w + dx) < d.cur_w * d.cur_h) by (nonlinear_arith)
                    requires
                        dx < d.cur_w,
                        dy < d.cur_h,
                ;
                assert(sy * ow + sx == stretch_source(*d, dx as int, dy as int));
                assert((sy as int) * (d.orig_w as int) + (sx as int) < n);
                assert((sy as int) * (d.orig_w as int) <= (sy as int) * (d.orig_w as int) + (sx as int));
            }
            let src = (sy as usize) * (d.orig_w as usize) + sx as usize;
            out.push(old_blocks[src]);
            dx = dx + 1;
        }
        proof {
            assert((dy + 1) * d.cur_w == dy * d.cur_w + d.cur_w) by (nonlinear_arith);
        }
        dy = dy + 1;
    }
    proof {
        assert(dy * d.cur_w == d.cur_w * d.cur_h) by (nonlinear_arith)
            requires
                dy == d.cur_h,
        ;
    }
    out
}

} // verus!
