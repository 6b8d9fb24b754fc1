//! Operations on the level's Direct Map16 objects: hit-testing, the pattern
//! to place or fill with, placing, adding and deleting objects, and the
//! blocks that the objects stamp into the level (later objects win).
use vstd::prelude::*;
use crate::dm16_editor::Dm16Placement;
use crate::object_layer::{dm16_views, dm16_wf, sanitized, tile_at_spec, Dm16View, EditableDm16Object};

verus! {

/// The object covers absolute tile `(tx, ty)`.
pub open spec fn dm16_covers(o: Dm16View, tx: int, ty: int) -> bool {
    o.x <= tx < o.x + o.w && o.y <= ty < o.y + o.h
}

/// The topmost of the first `n` objects that covers tile `(tx, ty)`.
pub open spec fn dm16_topmost_below(objs: Seq<Dm16View>, tx: int, ty: int, n: int) -> Option<int>
    decreases n,
{
    if n <= 0 {
        None
    } else if dm16_covers(objs[n - 1], tx, ty) {
        Some(n - 1)
    } else {
        dm16_topmost_below(objs, tx, ty, n - 1)
    }
}

/// The index of the topmost (last) Direct Map16 object covering absolute
/// tile `(tx, ty)`.
pub fn dm16_at(objects: &Vec<EditableDm16Object>, tx: u32, ty: u32) -> (r: Option<usize>)
    ensures
        match r {
            Some(i) => dm16_topmost_below(dm16_views(objects@), tx as int, ty as int, objects@.len() as int) == Some(
                i as int,
            ),
            None => dm16_topmost_below(dm16_views(objects@), tx as int, ty as int, objects@.len() as int) is None,
        },
{
    let ghost views = dm16_views(objects@);
    let mut i = objects.len();
    while i > 0
        invariant
            i <= objects@.len(),
            views == dm16_views(objects@),
            dm16_topmost_below(views, tx as int, ty as int, objects@.len() as int) == dm16_topmost_below(
                views,
                tx as int,
                ty as int,
                i as int,
            ),
        decreases i,
    {
        let o = &objects[i - 1];
        assert(views[i - 1] == o@);
        if tx >= o.x && ty >= o.y && tx - o.x < o.w && ty - o.y < o.h {
            return Some(i - 1);
        }
        i = i - 1;
    }
    None
}

/// Click-selection of a Direct Map16 object at tile `(tx, ty)` (which may
/// lie left of or above the level): the topmost object there, if the tile
/// lies in the `level_w` x `level_h` level.
pub fn dm16_select_at(objects: &Vec<EditableDm16Object>, tx: i32, ty: i32, level_w: u32, level_h: u32) -> (r: Option<
    usize,
>)
    ensures
        !(0 <= tx && 0 <= ty && tx < level_w && ty < level_h) ==> r is None,
        0 <= tx && 0 <= ty && tx < level_w && ty < level_h ==> match r {
            Some(i) => dm16_topmost_below(dm16_views(objects@), tx as int, ty as int, objects@.len() as int) == Some(
                i as int,
            ),
            None => dm16_topmost_below(dm16_views(objects@), tx as int, ty as int, objects@.len() as int) is None,
        },
{
    if tx < 0 || ty < 0 || tx as u32 >= level_w || ty as u32 >= level_h {
        return None;
    }
    dm16_at(objects, tx as u32, ty as u32)
}

/// The blocks of the `w` x `h` selection at `(sx, sy)` of the 16-wide
/// Map16 picker, row by row.
pub open spec fn picker_pattern(sx: u32, sy: u32, w: u32, h: u32) -> Seq<u16> {
    Seq::new((w * h) as nat, |k: int| ((sy + k / (w as int)) * 16 + sx + k % (w as int)) as u16)
}

/// The pattern `(pw, ph, blocks)` to place or fill with: the picker
/// selection `(sx, sy, w, h)` when there is one, else the draw block alone.
pub fn dm16_pattern_tiles(selection: Option<(u32, u32, u32, u32)>, draw_block: u16) -> (r: (u32, u32, Vec<u16>))
    requires
        selection matches Some((sx, sy, w, h)) ==> (sy + h) * 16 + sx + w <= u32::MAX && w * h <= u32::MAX,
    ensures
        match selection {
            Some((sx, sy, w, h)) => r.0 == w && r.1 == h && r.2@ == picker_pattern(sx, sy, w, h),
            None => r.0 == 1 && r.1 == 1 && r.2@ == seq![draw_block],
        },
{
    match selection {
        None => (1, 1, vec![draw_block]),
        Some((sx, sy, w, h)) => {
            let ghost target = picker_pattern(sx, sy, w, h);
            let mut tiles: Vec<u16> = Vec::new();
            let mut by: u32 = 0;
            while by < h
                invariant
                    by <= h,
                    (sy + h) * 16 + sx + w <= u32::MAX,
                    w * h <= u32::MAX,
                    target == picker_pattern(sx, sy, w, h),
                    tiles@.len() == by * w,
                    tiles@ =~= target.take(by * w),
                decreases h - by,
            {
                let mut bx: u32 = 0;
                while bx < w
                    invariant
                        bx <= w,
                        by < h,
                        (sy + h) * 16 + sx + w <= u32::MAX,
                        w * h <= u32::MAX,
                        target == picker_pattern(sx, sy, w, h),
                        tiles@.len() == by * w + bx,
                        tiles@ =~= target.take(by * w + bx),
                    decreases w - bx,
                {
                    proof {
                        vstd::arithmetic::div_mod::lemma_fundamental_div_mod_converse(
                            by * w + bx,
                            w as int,
                            by as int,
                            bx as int,
                        );
                        assert(by * w + bx < w * h) by (nonlinear_arith)
                            requires
                                bx < w,
                                by < h,
                        ;
                        assert((sy + by) * 16 + sx + bx <= (sy + h) * 16 + sx + w) by (nonlinear_arith)
                            requires
                                bx < w,
                                by < h,
                        ;
                    }
                    tiles.push(((sy + by) * 16 + (sx + bx)) as u16);
                    bx = bx + 1;
                }
                proof {
                    assert((by + 1) * w == by * w + w) by (nonlinear_arith);
                }
                by = by + 1;
            }
            proof {
                assert(by * w == w * h) by (nonlinear_arith)
                    requires
                        by == h,
                ;
            }
            (w, h, tiles)
        },
    }
}

/// The object that placing the armed pattern at tile `(tx, ty)` drops: as
/// large as the pattern, cut at the level's edge, at least one tile; none
/// when the tile lies outside the level.
pub fn dm16_placed_object(placement: &Dm16Placement, tx: u32, ty: u32, level_w: u32, level_h: u32) -> (r: Option<
    EditableDm16Object,
>)
    ensures
        !(tx < level_w && ty < level_h) ==> r is None,
        tx < level_w && ty < level_h ==> (r matches Some(o) && o@ == (Dm16View {
            x: tx,
            y: ty,
            w: if placement.pw > level_w - tx {
                (level_w - tx) as u32
            } else if placement.pw < 1 {
                1
            } else {
                placement.pw
            },
            h: if placement.ph > level_h - ty {
                (level_h - ty) as u32
            } else if placement.ph < 1 {
                1
            } else {
                placement.ph
            },
            pw: placement.pw,
            ph: placement.ph,
            tiles: placement.tiles@,
            condition: None,
        })),
{
    if tx >= level_w || ty >= level_h {
        return None;
    }
    let w0 = if placement.pw < level_w - tx { placement.pw } else { level_w - tx };
    let w = if w0 > 1 { w0 } else { 1 };
    let h0 = if placement.ph < level_h - ty { placement.ph } else { level_h - ty };
    let h = if h0 > 1 { h0 } else { 1 };
    let tiles = placement.tiles.clone();
    assert(tiles@ =~= placement.tiles@);
    Some(EditableDm16Object { x: tx, y: ty, w, h, pw: placement.pw, ph: placement.ph, tiles, condition: None })
}

/// The objects of a flood fill: one per rectangle `(x, y, w, h)`, each
/// filled with the `pw` x `ph` pattern.
pub fn dm16_fill_objects(rects: &Vec<(u32, u32, u32, u32)>, pw: u32, ph: u32, pattern: &Vec<u16>) -> (r: Vec<
    EditableDm16Object,
>)
    ensures
        r@.len() == rects@.len(),
        forall|i: int|
            0 <= i < rects@.len() ==> (#[trigger] r@[i])@ == (Dm16View {
                x: rects@[i].0,
                y: rects@[i].1,
                w: rects@[i].2,
                h: rects@[i].3,
                pw,
                ph,
                tiles: pattern@,
                condition: None,
            }),
{
    let mut out: Vec<EditableDm16Object> = Vec::new();
    let mut i: usize = 0;
    while i < rects.len()
        invariant
            i <= rects@.len(),
            out@.len() == i,
            forall|j: int|
                0 <= j < i ==> (#[trigger] out@[j])@ == (Dm16View {
                    x: rects@[j].0,
                    y: rects@[j].1,
                    w: rects@[j].2,
                    h: rects@[j].3,
                    pw,
                    ph,
                    tiles: pattern@,
                    condition: None,
                }),
        decreases rects.len() - i,
    {
        let (x, y, w, h) = rects[i];
        let tiles = pattern.clone();
        assert(tiles@ =~= pattern@);
        out.push(EditableDm16Object { x, y, w, h, pw, ph, tiles, condition: None });
        i = i + 1;
    }
    out
}

/// Adds objects to the layer as one write, each sanitized first; returns
/// the index of the first one added (they take the indices from there).
pub fn dm16_add_objects(objects: &mut Vec<EditableDm16Object>, added: Vec<EditableDm16Object>) -> (base: usize)
    ensures
        base == old(objects)@.len(),
        final(objects)@.len() == old(objects)@.len() + added@.len(),
        forall|i: int| 0 <= i < old(objects)@.len() ==> #[trigger] final(objects)@[i] == old(objects)@[i],
        forall|i: int|
            0 <= i < added@.len() ==> #[trigger] final(objects)@[base + i]@ == sanitized(added@[i]@),
{
    let base = objects.len();
    let ghost start = objects@;
    let ghost all = added@;
    let n = added.len();
    let mut rest = added;
    let mut k: usize = 0;
    assert(rest@ =~= all.skip(0));
    while k < n
        invariant
            n == all.len(),
            k <= n,
            base == start.len(),
            rest@ == all.skip(k as int),
            objects@.len() == base + k,
            forall|i: int| 0 <= i < base ==> #[trigger] objects@[i] == start[i],
            forall|i: int| 0 <= i < k ==> #[trigger] objects@[base + i]@ == sanitized(all[i]@),
        decreases n - k,
    {
        let mut o = rest.remove(0);
        assert(all.skip(k as int).remove(0) =~= all.skip(k + 1));
        o.sanitize();
        objects.push(o);
        k = k + 1;
    }
    base
}

/// Replaces object `i` with `updated`, sanitized, as one write; nothing
/// changes (and `false` comes back) when there is no object `i`.
pub fn dm16_update_object(objects: &mut Vec<EditableDm16Object>, i: usize, updated: EditableDm16Object) -> (r: bool)
    ensures
        r == (i < old(objects)@.len()),
        final(objects)@.len() == old(objects)@.len(),
        forall|j: int| 0 <= j < old(objects)@.len() && j != i ==> #[trigger] final(objects)@[j] == old(objects)@[j],
        r ==> final(objects)@[i as int]@ == sanitized(updated@),
{
    if i >= objects.len() {
        return false;
    }
    let mut o = updated;
    o.sanitize();
    objects.set(i, o);
    true
}

// ---------------------------------------------------------------------------
// Stamping the objects into the level
// ---------------------------------------------------------------------------

/// The stamps `(tx, ty, block)` of one object over its first `n` tiles, row
/// by row, for the tiles inside the `level_w` x `level_h` level.
pub open spec fn object_stamps(o: Dm16View, level_w: u32, level_h: u32, n: int) -> Seq<(u32, u32, u16)>
    decreases n,
{
    if n <= 0 {
        Seq::empty()
    } else {
        let prev = object_stamps(o, level_w, level_h, n - 1);
        let lx = (n - 1) % (o.w as int);
        let ly = (n - 1) / (o.w as int);
        let tx = o.x + lx;
        let ty = o.y + ly;
        if tx < level_w && ty < level_h {
            prev.push((tx as u32, ty as u32, tile_at_spec(o, lx as u32, ly as u32)))
        } else {
            prev
        }
    }
}

/// The stamps of the first `n` objects, object by object.
pub open spec fn layer_stamps(objs: Seq<Dm16View>, level_w: u32, level_h: u32, n: int) -> Seq<(u32, u32, u16)>
    decreases n,
{
    if n <= 0 {
        Seq::empty()
    } else {
        layer_stamps(objs, level_w, level_h, n - 1) + object_stamps(
            objs[n - 1],
            level_w,
            level_h,
            objs[n - 1].w * objs[n - 1].h,
        )
    }
}

/// The objects are sanitized and lie in `u32` range.
pub open spec fn stampable(objs: Seq<Dm16View>) -> bool {
    forall|i: int|
        0 <= i < objs.len() ==> dm16_wf(#[trigger] objs[i]) && objs[i].x + objs[i].w <= u32::MAX && objs[i].y
            + objs[i].h <= u32::MAX
}

/// The blocks that the Direct Map16 objects stamp into the level, in order
/// (a later object's stamp wins where objects overlap): for each object,
/// each of its tiles inside the level, row by row, with the pattern block
/// shown there.
pub fn dm16_stamps(objects: &Vec<EditableDm16Object>, level_w: u32, level_h: u32) -> (r: Vec<(u32, u32, u16)>)
    requires
        stampable(dm16_views(objects@)),
    ensures
        r@ == layer_stamps(dm16_views(objects@), level_w, level_h, objects@.len() as int),
{
    let ghost views = dm16_views(objects@);
    let mut out: Vec<(u32, u32, u16)> = Vec::new();
    let mut i: usize = 0;
    while i < objects.len()
        invariant
            i <= objects@.len(),
            views == dm16_views(objects@),
            stampable(views),
            out@ == layer_stamps(views, level_w, level_h, i as int),
        decreases objects.len() - i,
    {
        let o = &objects[i];
        let ghost ov = o@;
        assert(views[i as int] == ov);
        assert(dm16_wf(ov));
        let ghost prefix = out@;
        let mut ly: u32 = 0;
        while ly < o.h
            invariant
                ly <= ov.h,
                ov == o@,
                dm16_wf(ov),
                ov.x + ov.w <= u32::MAX,
                ov.y + ov.h <= u32::MAX,
                out@ == prefix + object_stamps(ov, level_w, level_h, ly * ov.w),
            decreases o.h - ly,
        {
            let mut lx: u32 = 0;
            while lx < o.w
                invariant
                    lx <= ov.w,
                    ly < ov.h,
                    ov == o@,
                    dm16_wf(ov),
                    ov.x + ov.w <= u32::MAX,
                    ov.y + ov.h <= u32::MAX,
                    out@ == prefix + object_stamps(ov, level_w, level_h, ly * ov.w + lx),
                decreases o.w - lx,
            {
                proof {
                    vstd::arithmetic::div_mod::lemma_fundamental_div_mod_converse(
                        ly * ov.w + lx,
                        ov.w as int,
                        ly as int,
                        lx as int,
                    );
                    assert(ov.tiles.len() == ov.pw * ov.ph);
                    let row = ly % ov.ph;
                    let col = lx % ov.pw;
                    assert(row * ov.pw + col < ov.pw * ov.ph) by (nonlinear_arith)
                        requires
                            0 <= row < ov.ph,
                            0 <= col < ov.pw,
                    ;
                    assert(ov.pw * ov.ph <= 4096) by (nonlinear_arith)
                        requires
                            1 <= ov.pw <= 64,
                            1 <= ov.ph <= 64,
                    ;
                }
                let tx = o.x + lx;
                let ty = o.y + ly;
                if tx < level_w && ty < level_h {
                    let block = o.tile_at(lx, ly);
                    out.push((tx, ty, block));
                }
                proof {
                    let prev = object_stamps(ov, level_w, level_h, ly * ov.w + lx);
                    assert(prefix + object_stamps(ov, level_w, level_h, ly * ov.w + lx + 1) =~= out@);
                }
                lx = lx + 1;
            }
            proof {
                assert((ly + 1) * ov.w == ly * ov.w + ov.w) by (nonlinear_arith);
            }
            ly = ly + 1;
        }
        proof {
            assert(ly * ov.w == ov.w * ov.h) by (nonlinear_arith)
                requires
                    ly == ov.h,
            ;
        }
        i = i + 1;
    }
    out
}

/// The block of the last stamp at tile `(tx, ty)`, if any.
pub open spec fn last_stamp(s: Seq<(u32, u32, u16)>, tx: int, ty: int) -> Option<u16>
    decreases s.len(),
{
    if s.len() == 0 {
        None
    } else if s.last().0 as int == tx && s.last().1 as int == ty {
        Some(s.last().2)
    } else {
        last_stamp(s.drop_last(), tx, ty)
    }
}

proof fn lemma_last_stamp_concat(a: Seq<(u32, u32, u16)>, b: Seq<(u32, u32, u16)>, tx: int, ty: int)
    ensures
        last_stamp(a + b, tx, ty) == if last_stamp(b, tx, ty) is Some {
            last_stamp(b, tx, ty)
        } else {
            last_stamp(a, tx, ty)
        },
    decreases b.len(),
{
    if b.len() == 0 {
        assert(a + b =~= a);
    } else {
        assert((a + b).drop_last() =~= a + b.drop_last());
        lemma_last_stamp_concat(a, b.drop_last(), tx, ty);
    }
}

proof fn lemma_object_last_stamp(o: Dm16View, level_w: u32, level_h: u32, n: int, tx: int, ty: int)
    requires
        dm16_wf(o),
        0 <= n <= o.w * o.h,
        0 <= tx < level_w,
        0 <= ty < level_h,
    ensures
        last_stamp(object_stamps(o, level_w, level_h, n), tx, ty) == if dm16_covers(o, tx, ty) && (ty - o.y) * o.w + (
        tx - o.x) < n {
            Some(tile_at_spec(o, (tx - o.x) as u32, (ty - o.y) as u32))
        } else {
            None
        },
    decreases n,
{
    if n > 0 {
        lemma_object_last_stamp(o, level_w, level_h, n - 1, tx, ty);
        let k = n - 1;
        let w = o.w as int;
        vstd::arithmetic::div_mod::lemma_fundamental_div_mod(k, w);
        let lx = k % w;
        let ly = k / w;
        assert(ly >= 0) by {
            vstd::arithmetic::div_mod::lemma_div_pos_is_pos(k, w);
        }
        assert(k == ly * w + lx) by (nonlinear_arith)
            requires
                k == w * ly + lx,
        ;
        if o.x + lx == tx && o.y + ly == ty {
            assert(dm16_covers(o, tx, ty)) by {
                assert(ly < o.h) by (nonlinear_arith)
                    requires
                        k == ly * w + lx,
                        k < w * o.h,
                        0 <= lx,
                        w >= 1,
                        ly >= 0,
                ;
            }
        }
        if dm16_covers(o, tx, ty) && (ty - o.y) * w + (tx - o.x) == k {
            vstd::arithmetic::div_mod::lemma_fundamental_div_mod_converse(k, w, ty - o.y, tx - o.x);
        }
        let prev = object_stamps(o, level_w, level_h, k);
        let cx = o.x + lx;
        let cy = o.y + ly;
        if cx < level_w && cy < level_h {
            let st = ((cx as u32), (cy as u32), tile_at_spec(o, lx as u32, ly as u32));
            assert(prev.push(st).drop_last() =~= prev);
        }
    }
}

/// Stamping the objects in order leaves at each level tile the block of the
/// topmost object covering it, the object that a click on that tile
/// selects; a tile that no object covers gets no stamp.
pub proof fn lemma_topmost_stamp_wins(objs: Seq<Dm16View>, level_w: u32, level_h: u32, n: int, tx: int, ty: int)
    requires
        stampable(objs),
        0 <= n <= objs.len(),
        0 <= tx < level_w,
        0 <= ty < level_h,
    ensures
        last_stamp(layer_stamps(objs, level_w, level_h, n), tx, ty) == match dm16_topmost_below(objs, tx, ty, n) {
            Some(i) => Some(tile_at_spec(objs[i], (tx - objs[i].x) as u32, (ty - objs[i].y) as u32)),
            None => None,
        },
    decreases n,
{
    if n > 0 {
        lemma_topmost_stamp_wins(objs, level_w, level_h, n - 1, tx, ty);
        let o = objs[n - 1];
        assert(dm16_wf(o));
        let full = o.w * o.h;
        lemma_object_last_stamp(o, level_w, level_h, full, tx, ty);
        lemma_last_stamp_concat(
            layer_stamps(objs, level_w, level_h, n - 1),
            object_stamps(o, level_w, level_h, full),
            tx,
            ty,
        );
        if dm16_covers(o, tx, ty) {
            let a = ty - o.y;
            let b = tx - o.x;
            assert(a * o.w + b < o.w * o.h) by (nonlinear_arith)
                requires
                    0 <= a < o.h,
                    0 <= b < o.w,
            ;
        }
    }
}

} // verus!
