//! Tile edits of the 32x27 layer-2 background tilemap: the pattern fill of
//! a contiguous area, and a batch of edits applied as one step.
use vstd::prelude::*;
use crate::dm16_editor::{cell, fill_region, in_region, is_walk, open_tile, region_grid};
use crate::editing::DragHandle;

verus! {

/// Number of cells of the background tilemap (32 x 27, row by row).
pub const BG_TILEMAP_LEN: usize = 864;

/// The index of cell `(col, row)` in the tilemap, if the cell lies in it.
pub open spec fn bg_cell_spec(col: int, row: int) -> Option<int> {
    if 0 <= col < 32 && 0 <= row < 27 {
        Some(row * 32 + col)
    } else {
        None
    }
}

/// The index of cell `(col, row)` in the tilemap, if the cell lies in it.
pub fn bg_cell_index(col: u32, row: u32) -> (r: Option<usize>)
    ensures
        r is Some <==> bg_cell_spec(col as int, row as int) is Some,
        r matches Some(i) ==> bg_cell_spec(col as int, row as int) == Some(i as int),
{
    if col < 32 && row < 27 {
        Some((row * 32 + col) as usize)
    } else {
        None
    }
}

/// Which cells hold the value `t`.
pub open spec fn cells_holding(tiles: Seq<u8>, t: u8) -> Seq<bool> {
    Seq::new(tiles.len(), |i: int| tiles[i] == t)
}

/// The area of cell `(col, row)`: the cells reachable from it by steps
/// left, right, up and down through cells holding its value, as a
/// row-major grid.
pub open spec fn bg_region(tiles: Seq<u8>, col: int, row: int) -> Seq<bool> {
    let mask = cells_holding(tiles, tiles[row * 32 + col]);
    Seq::new(864, |i: int| in_region(mask, 32, 27, (col, row), (i % 32, i / 32)))
}

/// The value that the `pw` x `ph` pattern, tiled from cell `(col, row)`,
/// puts in cell `i`.
pub open spec fn pattern_value(pat: Seq<u8>, pw: int, ph: int, col: int, row: int, i: int) -> u8 {
    pat[((i / 32 - row) % ph) * pw + (i % 32 - col) % pw]
}

/// The edits of a pattern fill over the cells below `n`, in cell order: a
/// cell of the area whose pattern value differs from its tile.
pub open spec fn fill_edits(
    tiles: Seq<u8>,
    region: Seq<bool>,
    pat: Seq<u8>,
    pw: int,
    ph: int,
    col: int,
    row: int,
    n: int,
) -> Seq<(usize, u8)>
    decreases n,
{
    if n <= 0 {
        Seq::empty()
    } else {
        let prev = fill_edits(tiles, region, pat, pw, ph, col, row, n - 1);
        let v = pattern_value(pat, pw, ph, col, row, n - 1);
        if region[n - 1] && v != tiles[n - 1] {
            prev.push(((n - 1) as usize, v))
        } else {
            prev
        }
    }
}

/// What a pattern fill comes to.
pub enum BgFill {
    /// The clicked cell lies outside the tilemap.
    OutsideMap,
    /// Every tile of the pattern already equals the clicked cell's tile.
    PatternMatches,
    /// The `(cell, tile)` edits to make, possibly none.
    Edits(Vec<(usize, u8)>),
}

/// `(a - origin)` modulo `m`, in `0..m`.
fn wrap_offset(a: u32, origin: u32, m: u32) -> (r: u32)
    requires
        m >= 1,
    ensures
        r as int == (a as int - origin as int) % (m as int),
        r < m,
{
    if a >= origin {
        (a - origin) % m
    } else {
        let d = origin - a;
        let k = d % m;
        proof {
            vstd::arithmetic::div_mod::lemma_fundamental_div_mod(d as int, m as int);
        }
        let ghost q = d as int / m as int;
        if k == 0 {
            proof {
                assert(a as int - origin as int == (-q) * m + 0) by (nonlinear_arith)
                    requires
                        d as int == m * q + k,
                        k == 0,
                        d == origin - a,
                ;
                vstd::arithmetic::div_mod::lemma_fundamental_div_mod_converse(a as int - origin as int, m as int, -q, 0);
            }
            0
        } else {
            proof {
                assert(a as int - origin as int == (-q - 1) * m + (m - k)) by (nonlinear_arith)
                    requires
                        d as int == m * q + k,
                        d == origin - a,
                ;
                vstd::arithmetic::div_mod::lemma_fundamental_div_mod_converse(
                    a as int - origin as int,
                    m as int,
                    -q - 1,
                    m - k,
                );
            }
            m - k
        }
    }
}

proof fn lemma_cell_of_index(i: int)
    requires
        0 <= i < 864,
    ensures
        0 <= i % 32 < 32,
        0 <= i / 32 < 27,
        cell(32, i % 32, i / 32) == i,
{
    vstd::arithmetic::div_mod::lemma_fundamental_div_mod(i, 32);
}

proof fn lemma_index_of_cell(col: int, row: int)
    requires
        0 <= col < 32,
        0 <= row < 27,
    ensures
        (row * 32 + col) % 32 == col,
        (row * 32 + col) / 32 == row,
        0 <= row * 32 + col < 864,
{
    vstd::arithmetic::div_mod::lemma_fundamental_div_mod_converse(row * 32 + col, 32, row, col);
}

/// Lunar Magic's pattern fill (Shift+Right-click) of the background: the
/// area of the clicked cell `(col, row)` gets the `pw` x `ph` pattern `pat`
/// tiled from the clicked cell. The edits come in cell order, one for each
/// cell of the area whose tile changes.
pub fn bg_pattern_fill(tiles: &Vec<u8>, col: u32, row: u32, pw: u32, ph: u32, pat: &Vec<u8>) -> (r: BgFill)
    requires
        tiles@.len() == BG_TILEMAP_LEN,
        pw >= 1,
        ph >= 1,
        pw <= i32::MAX,
        ph <= i32::MAX,
        pat@.len() == pw * ph,
    ensures
        r is OutsideMap <==> !(col < 32 && row < 27),
        col < 32 && row < 27 ==> (r is PatternMatches <==> (forall|k: int|
            0 <= k < pat@.len() ==> #[trigger] pat@[k] == tiles@[row * 32 + col])),
        r matches BgFill::Edits(e) ==> e@ == fill_edits(
            tiles@,
            bg_region(tiles@, col as int, row as int),
            pat@,
            pw as int,
            ph as int,
            col as int,
            row as int,
            864,
        ),
{
    if col >= 32 || row >= 27 {
        return BgFill::OutsideMap;
    }
    let start = (row * 32 + col) as usize;
    let target = tiles[start];
    let mut all_same = true;
    let mut k: usize = 0;
    while k < pat.len()
        invariant
            k <= pat@.len(),
            all_same <==> (forall|j: int| 0 <= j < k ==> #[trigger] pat@[j] == target),
        decreases pat.len() - k,
    {
        if pat[k] != target {
            all_same = false;
        }
        k = k + 1;
    }
    if all_same {
        return BgFill::PatternMatches;
    }
    let mut mask: Vec<bool> = Vec::new();
    let mut i: usize = 0;
    while i < BG_TILEMAP_LEN
        invariant
            i <= BG_TILEMAP_LEN,
            tiles@.len() == BG_TILEMAP_LEN,
            mask@ =~= cells_holding(tiles@, target).take(i as int),
        decreases BG_TILEMAP_LEN - i,
    {
        mask.push(tiles[i] == target);
        i = i + 1;
    }
    let ghost s = (col as int, row as int);
    proof {
        assert(mask@ =~= cells_holding(tiles@, target));
        lemma_index_of_cell(col as int, row as int);
    }
    let g = fill_region(&mask, col, row, 32, 27);
    let ghost region = bg_region(tiles@, col as int, row as int);
    proof {
        assert forall|j: int| 0 <= j < 864 implies g@[j] == region[j] by {
            lemma_cell_of_index(j);
        }
        assert(g@ =~= region);
    }
    let plen = pat.len();
    let mut edits: Vec<(usize, u8)> = Vec::new();
    let mut i: usize = 0;
    while i < BG_TILEMAP_LEN
        invariant
            i <= BG_TILEMAP_LEN,
            tiles@.len() == BG_TILEMAP_LEN,
            g@ == region,
            g@.len() == BG_TILEMAP_LEN,
            plen == pat@.len(),
            col < 32,
            row < 27,
            pw >= 1,
            ph >= 1,
            pat@.len() == pw * ph,
            edits@ == fill_edits(tiles@, region, pat@, pw as int, ph as int, col as int, row as int, i as int),
        decreases BG_TILEMAP_LEN - i,
    {
        if g[i] {
            let c = (i % 32) as u32;
            let r = (i / 32) as u32;
            let dx = wrap_offset(c, col, pw);
            let dy = wrap_offset(r, row, ph);
            proof {
                assert((dy as int) * (pw as int) + (dx as int) < (pw as int) * (ph as int)) by (nonlinear_arith)
                    requires
                        dy < ph,
                        dx < pw,
                ;
                assert((dy as int) * (pw as int) <= (pw as int) * (ph as int)) by (nonlinear_arith)
                    requires
                        dy < ph,
                ;
                assert((dy as int) * (pw as int) + (dx as int) < plen);
            }
            let idx = (dy as usize) * (pw as usize) + dx as usize;
            let v = pat[idx];
            if v != tiles[i] {
                edits.push((i, v));
            }
        }
        i = i + 1;
    }
    BgFill::Edits(edits)
}

/// The tiles after the `(cell, tile)` edits, in order; an edit past the
/// end is skipped.
pub open spec fn apply_edits(t: Seq<u8>, e: Seq<(usize, u8)>) -> Seq<u8>
    decreases e.len(),
{
    if e.len() == 0 {
        t
    } else {
        let p = apply_edits(t, e.drop_last());
        let (i, v) = e.last();
        if (i as int) < p.len() {
            p.update(i as int, v)
        } else {
            p
        }
    }
}

/// Writes the `(cell, tile)` edits into the tiles, in order, skipping an
/// edit past the end.
pub fn apply_tile_edits(tiles: &mut Vec<u8>, edits: &Vec<(usize, u8)>)
    ensures
        final(tiles)@ == apply_edits(old(tiles)@, edits@),
{
    let mut k: usize = 0;
    while k < edits.len()
        invariant
            k <= edits@.len(),
            tiles@ == apply_edits(old(tiles)@, edits@.take(k as int)),
        decreases edits.len() - k,
    {
        let (idx, val) = edits[k];
        proof {
            assert(edits@.take(k + 1).drop_last() =~= edits@.take(k as int));
        }
        if idx < tiles.len() {
            tiles.set(idx, val);
        }
        k = k + 1;
    }
    assert(edits@.take(edits@.len() as int) =~= edits@);
}

/// The tile that the edits leave in cell `i`, were it `d` before: the last
/// edit of the cell, if any.
pub open spec fn edit_value(e: Seq<(usize, u8)>, i: int, d: u8) -> u8
    decreases e.len(),
{
    if e.len() == 0 {
        d
    } else if e.last().0 as int == i {
        e.last().1
    } else {
        edit_value(e.drop_last(), i, d)
    }
}

proof fn lemma_apply_edits(t: Seq<u8>, e: Seq<(usize, u8)>)
    ensures
        apply_edits(t, e).len() == t.len(),
        forall|i: int| 0 <= i < t.len() ==> #[trigger] apply_edits(t, e)[i] == edit_value(e, i, t[i]),
    decreases e.len(),
{
    if e.len() > 0 {
        lemma_apply_edits(t, e.drop_last());
    }
}

proof fn lemma_fill_edits_value(
    tiles: Seq<u8>,
    region: Seq<bool>,
    pat: Seq<u8>,
    pw: int,
    ph: int,
    col: int,
    row: int,
    n: int,
    i: int,
)
    requires
        0 <= i < 864,
        n <= 864,
    ensures
        edit_value(fill_edits(tiles, region, pat, pw, ph, col, row, n), i, tiles[i]) == if i < n && region[i] {
            pattern_value(pat, pw, ph, col, row, i)
        } else {
            tiles[i]
        },
    decreases n,
{
    if n > 0 {
        lemma_fill_edits_value(tiles, region, pat, pw, ph, col, row, n - 1, i);
        let prev = fill_edits(tiles, region, pat, pw, ph, col, row, n - 1);
        let v = pattern_value(pat, pw, ph, col, row, n - 1);
        if region[n - 1] && v != tiles[n - 1] {
            assert(((n - 1) as usize) as int == n - 1);
            assert(prev.push(((n - 1) as usize, v)).drop_last() =~= prev);
        }
    }
}

/// After the edits of a pattern fill, each cell of the clicked cell's area
/// holds the pattern tiled from the clicked cell, the clicked cell holds the
/// pattern's first tile, and every other cell keeps its tile.
pub proof fn lemma_pattern_fill_result(tiles: Seq<u8>, col: int, row: int, pat: Seq<u8>, pw: int, ph: int)
    requires
        tiles.len() == 864,
        0 <= col < 32,
        0 <= row < 27,
        pw >= 1,
        ph >= 1,
        pat.len() == pw * ph,
    ensures
        ({
            let region = bg_region(tiles, col, row);
            let after = apply_edits(tiles, fill_edits(tiles, region, pat, pw, ph, col, row, 864));
            &&& region[row * 32 + col]
            &&& after.len() == 864
            &&& after[row * 32 + col] == pat[0]
            &&& forall|i: int|
                0 <= i < 864 ==> #[trigger] after[i] == if region[i] {
                    pattern_value(pat, pw, ph, col, row, i)
                } else {
                    tiles[i]
                }
        }),
{
    let region = bg_region(tiles, col, row);
    let e = fill_edits(tiles, region, pat, pw, ph, col, row, 864);
    lemma_apply_edits(tiles, e);
    assert forall|i: int| 0 <= i < 864 implies #[trigger] apply_edits(tiles, e)[i] == if region[i] {
        pattern_value(pat, pw, ph, col, row, i)
    } else {
        tiles[i]
    } by {
        lemma_fill_edits_value(tiles, region, pat, pw, ph, col, row, 864, i);
    }
    let start = row * 32 + col;
    lemma_index_of_cell(col, row);
    let mask = cells_holding(tiles, tiles[start]);
    let s = (col, row);
    let p = seq![s];
    assert(open_tile(mask, 32, 27, p[0]));
    assert(is_walk(mask, 32, 27, p));
    assert(in_region(mask, 32, 27, s, (start % 32, start / 32)));
    assert(region[start]);
    assert(pattern_value(pat, pw, ph, col, row, start) == pat[0]) by {
        assert(start / 32 - row == 0);
        assert(start % 32 - col == 0);
        assert(0int % ph == 0);
        assert(0int % pw == 0);
        assert(0 * pw + 0 == 0);
    }
}

// ---------------------------------------------------------------------------
// Rectangles of cells
// ---------------------------------------------------------------------------

/// The tilemap index of a cell, or 0 for a cell outside the tilemap.
pub open spec fn cell_or_first(col: int, row: int) -> int {
    match bg_cell_spec(col, row) {
        Some(i) => i,
        None => 0,
    }
}

proof fn lemma_rect_position(w: int, c: int, r: int)
    requires
        0 <= c < w,
        0 <= r,
    ensures
        (r * w + c) % w == c,
        (r * w + c) / w == r,
{
    vstd::arithmetic::div_mod::lemma_fundamental_div_mod_converse(r * w + c, w, r, c);
}

proof fn lemma_rect_next(w: int, h: int, c: int, r: int)
    requires
        0 <= c < w,
        0 <= r < h,
    ensures
        r * w + c < w * h,
        (r + 1) * w == r * w + w,
        w * h - (r * w + c) > 0,
{
    assert(r * w + c < w * h) by (nonlinear_arith)
        requires
            0 <= c < w,
            0 <= r < h,
    ;
    assert((r + 1) * w == r * w + w) by (nonlinear_arith);
}

/// The tiles of the `w` x `h` selection at `(x, y)`, row by row; a cell
/// outside the tilemap reads as the first cell.
pub open spec fn selection_pattern(tiles: Seq<u8>, x: int, y: int, w: int, h: int) -> Seq<u8> {
    Seq::new((w * h) as nat, |k: int| tiles[cell_or_first(x + k % w, y + k / w)])
}

/// The fill pattern `(w, h, tiles)`: the content of the selection
/// `(x, y, w, h)` when there is one, else the single selected tile.
pub fn bg_pattern(tiles: &Vec<u8>, selection: Option<(u32, u32, u32, u32)>, selected_tile: u8) -> (r: (
    u32,
    u32,
    Vec<u8>,
))
    requires
        selection matches Some((x, y, w, h)) ==> {
            &&& tiles@.len() == BG_TILEMAP_LEN
            &&& x + w <= u32::MAX
            &&& y + h <= u32::MAX
            &&& w * h <= u32::MAX
        },
    ensures
        match selection {
            Some((x, y, w, h)) => r.0 == w && r.1 == h && r.2@ == selection_pattern(
                tiles@,
                x as int,
                y as int,
                w as int,
                h as int,
            ),
            None => r.0 == 1 && r.1 == 1 && r.2@ == seq![selected_tile],
        },
{
    match selection {
        None => (1, 1, vec![selected_tile]),
        Some((x, y, w, h)) => {
            let ghost target = selection_pattern(tiles@, x as int, y as int, w as int, h as int);
            let mut pat: Vec<u8> = Vec::new();
            let mut r: u32 = 0;
            while r < h
                invariant
                    r <= h,
                    tiles@.len() == BG_TILEMAP_LEN,
                    x + w <= u32::MAX,
                    y + h <= u32::MAX,
                    w * h <= u32::MAX,
                    target == selection_pattern(tiles@, x as int, y as int, w as int, h as int),
                    pat@.len() == r * w,
                    pat@ =~= target.take(r * w),
                decreases h - r,
            {
                let mut c: u32 = 0;
                while c < w
                    invariant
                        c <= w,
                        r < h,
                        tiles@.len() == BG_TILEMAP_LEN,
                        x + w <= u32::MAX,
                        y + h <= u32::MAX,
                        w * h <= u32::MAX,
                        target == selection_pattern(tiles@, x as int, y as int, w as int, h as int),
                        pat@.len() == r * w + c,
                        pat@ =~= target.take(r * w + c),
                    decreases w - c,
                {
                    proof {
                        lemma_rect_position(w as int, c as int, r as int);
                        lemma_rect_next(w as int, h as int, c as int, r as int);
                    }
                    let idx = match bg_cell_index(x + c, y + r) {
                        Some(i) => i,
                        None => 0,
                    };
                    pat.push(tiles[idx]);
                    c = c + 1;
                }
                proof {
                    assert((r + 1) * w == r * w + w) by (nonlinear_arith);
                }
                r = r + 1;
            }
            proof {
                assert(pat@.len() == w * h) by (nonlinear_arith)
                    requires
                        pat@.len() == r * w,
                        r == h,
                ;
            }
            (w, h, pat)
        },
    }
}

/// The edits that empty the `w`-wide selection at `(x, y)`, over its first
/// `n` cells row by row: tile 0 for each cell of the tilemap not empty yet.
pub open spec fn clear_edits(tiles: Seq<u8>, x: int, y: int, w: int, n: int) -> Seq<(usize, u8)>
    decreases n,
{
    if n <= 0 {
        Seq::empty()
    } else {
        let prev = clear_edits(tiles, x, y, w, n - 1);
        match bg_cell_spec(x + (n - 1) % w, y + (n - 1) / w) {
            Some(i) => if tiles[i] != 0 {
                prev.push((i as usize, 0u8))
            } else {
                prev
            },
            None => prev,
        }
    }
}

/// The edits that empty the `w` x `h` selection at `(x, y)`, row by row;
/// empty when the selection is empty already.
pub fn bg_clear_edits(tiles: &Vec<u8>, x: u32, y: u32, w: u32, h: u32) -> (r: Vec<(usize, u8)>)
    requires
        tiles@.len() == BG_TILEMAP_LEN,
        x + w <= u32::MAX,
        y + h <= u32::MAX,
    ensures
        r@ == clear_edits(tiles@, x as int, y as int, w as int, w * h),
{
    let mut edits: Vec<(usize, u8)> = Vec::new();
    let mut r: u32 = 0;
    while r < h
        invariant
            r <= h,
            tiles@.len() == BG_TILEMAP_LEN,
            x + w <= u32::MAX,
            y + h <= u32::MAX,
            edits@ == clear_edits(tiles@, x as int, y as int, w as int, r * w),
        decreases h - r,
    {
        let mut c: u32 = 0;
        while c < w
            invariant
                c <= w,
                r < h,
                tiles@.len() == BG_TILEMAP_LEN,
                x + w <= u32::MAX,
                y + h <= u32::MAX,
                edits@ == clear_edits(tiles@, x as int, y as int, w as int, r * w + c),
            decreases w - c,
        {
            proof {
                lemma_rect_position(w as int, c as int, r as int);
            }
            if let Some(idx) = bg_cell_index(x + c, y + r) {
                if tiles[idx] != 0 {
                    edits.push((idx, 0));
                }
            }
            c = c + 1;
        }
        proof {
            assert((r + 1) * w == r * w + w) by (nonlinear_arith);
        }
        r = r + 1;
    }
    proof {
        assert(r * w == w * h) by (nonlinear_arith)
            requires
                r == h,
        ;
    }
    edits
}

/// Cell `(c, r)` lies in the `w` x `h` rectangle at `(x, y)`.
pub open spec fn in_rect(c: int, r: int, x: int, y: int, w: int, h: int) -> bool {
    x <= c < x + w && y <= r < y + h
}

/// Over the first `n` cells of the `ow`-wide old rectangle at `(ox, oy)`,
/// row by row: tile 0 for each cell of the tilemap outside the new
/// rectangle `(nx, ny, nw, nh)`.
pub open spec fn vacate_edits(ox: int, oy: int, ow: int, nx: int, ny: int, nw: int, nh: int, n: int) -> Seq<
    (usize, u8),
>
    decreases n,
{
    if n <= 0 {
        Seq::empty()
    } else {
        let prev = vacate_edits(ox, oy, ow, nx, ny, nw, nh, n - 1);
        let cc = ox + (n - 1) % ow;
        let rr = oy + (n - 1) / ow;
        if !in_rect(cc, rr, nx, ny, nw, nh) {
            match bg_cell_spec(cc, rr) {
                Some(i) => prev.push((i as usize, 0u8)),
                None => prev,
            }
        } else {
            prev
        }
    }
}

/// Over the first `n` cells of the `nw`-wide rectangle at `(nx, ny)`, row
/// by row: the `cw` x `ch` content tiled from the rectangle's corner, for
/// each cell of the tilemap.
pub open spec fn tiling_edits(nx: int, ny: int, nw: int, content: Seq<u8>, cw: int, ch: int, n: int) -> Seq<
    (usize, u8),
>
    decreases n,
{
    if n <= 0 {
        Seq::empty()
    } else {
        let prev = tiling_edits(nx, ny, nw, content, cw, ch, n - 1);
        let c = (n - 1) % nw;
        let r = (n - 1) / nw;
        match bg_cell_spec(nx + c, ny + r) {
            Some(i) => prev.push((i as usize, content[(r % ch) * cw + c % cw])),
            None => prev,
        }
    }
}

proof fn lemma_content_index(r: int, c: int, cw: int, ch: int)
    requires
        cw >= 1,
        ch >= 1,
        r >= 0,
        c >= 0,
    ensures
        0 <= (r % ch) * cw + c % cw < cw * ch,
{
    let a = r % ch;
    let b = c % cw;
    assert(0 <= a * cw + b < cw * ch) by (nonlinear_arith)
        requires
            0 <= a < ch,
            0 <= b < cw,
    ;
}

/// The edits that finish a resize of the selection `orig` to `cur`: the
/// cells of the old rectangle left outside the new one are emptied, then
/// the new rectangle is filled with the `cw` x `ch` content of the old
/// selection tiled as a pattern. `None` when the rectangle did not change.
pub fn bg_resize_edits(
    orig: (u32, u32, u32, u32),
    cur: (u32, u32, u32, u32),
    content: &Vec<u8>,
    cw: u32,
    ch: u32,
) -> (r: Option<Vec<(usize, u8)>>)
    requires
        orig.0 + orig.2 <= u32::MAX,
        orig.1 + orig.3 <= u32::MAX,
        cur.0 + cur.2 <= u32::MAX,
        cur.1 + cur.3 <= u32::MAX,
        cw >= 1,
        ch >= 1,
        cw * ch <= u32::MAX,
        content@.len() == cw * ch,
    ensures
        cur == orig ==> r is None,
        cur != orig ==> (r matches Some(e) && e@ == vacate_edits(
            orig.0 as int,
            orig.1 as int,
            orig.2 as int,
            cur.0 as int,
            cur.1 as int,
            cur.2 as int,
            cur.3 as int,
            orig.2 * orig.3,
        ) + tiling_edits(cur.0 as int, cur.1 as int, cur.2 as int, content@, cw as int, ch as int, cur.2 * cur.3)),
{
    let (ox, oy, ow, oh) = orig;
    let (nx, ny, nw, nh) = cur;
    if nx == ox && ny == oy && nw == ow && nh == oh {
        return None;
    }
    let mut edits: Vec<(usize, u8)> = Vec::new();
    let mut r: u32 = 0;
    while r < oh
        invariant
            r <= oh,
            ox + ow <= u32::MAX,
            oy + oh <= u32::MAX,
            nx + nw <= u32::MAX,
            ny + nh <= u32::MAX,
            edits@ == vacate_edits(ox as int, oy as int, ow as int, nx as int, ny as int, nw as int, nh as int, r * ow),
        decreases oh - r,
    {
        let mut c: u32 = 0;
        while c < ow
            invariant
                c <= ow,
                r < oh,
                ox + ow <= u32::MAX,
                oy + oh <= u32::MAX,
                nx + nw <= u32::MAX,
                ny + nh <= u32::MAX,
                edits@ == vacate_edits(
                    ox as int,
                    oy as int,
                    ow as int,
                    nx as int,
                    ny as int,
                    nw as int,
                    nh as int,
                    r * ow + c,
                ),
            decreases ow - c,
        {
            proof {
                lemma_rect_position(ow as int, c as int, r as int);
            }
            let cc = ox + c;
            let rr = oy + r;
            if cc < nx || cc >= nx + nw || rr < ny || rr >= ny + nh {
                if let Some(idx) = bg_cell_index(cc, rr) {
                    edits.push((idx, 0));
                }
            }
            c = c + 1;
        }
        proof {
            assert((r + 1) * ow == r * ow + ow) by (nonlinear_arith);
        }
        r = r + 1;
    }
    proof {
        assert(r * ow == ow * oh) by (nonlinear_arith)
            requires
                r == oh,
        ;
    }
    let ghost vacated = edits@;
    let mut r: u32 = 0;
    while r < nh
        invariant
            r <= nh,
            nx + nw <= u32::MAX,
            ny + nh <= u32::MAX,
            cw >= 1,
            ch >= 1,
            cw * ch <= u32::MAX,
            content@.len() == cw * ch,
            edits@ == vacated + tiling_edits(nx as int, ny as int, nw as int, content@, cw as int, ch as int, r * nw),
        decreases nh - r,
    {
        let mut c: u32 = 0;
        while c < nw
            invariant
                c <= nw,
                r < nh,
                nx + nw <= u32::MAX,
                ny + nh <= u32::MAX,
                cw >= 1,
                ch >= 1,
                cw * ch <= u32::MAX,
                content@.len() == cw * ch,
                edits@ == vacated + tiling_edits(
                    nx as int,
                    ny as int,
                    nw as int,
                    content@,
                    cw as int,
                    ch as int,
                    r * nw + c,
                ),
            decreases nw - c,
        {
            proof {
                lemma_rect_position(nw as int, c as int, r as int);
                lemma_content_index(r as int, c as int, cw as int, ch as int);
            }
            let v = content[((r % ch) * cw + (c % cw)) as usize];
            if let Some(idx) = bg_cell_index(nx + c, ny + r) {
                edits.push((idx, v));
            }
            c = c + 1;
        }
        proof {
            assert((r + 1) * nw == r * nw + nw) by (nonlinear_arith);
        }
        r = r + 1;
    }
    proof {
        assert(r * nw == nw * nh) by (nonlinear_arith)
            requires
                r == nh,
        ;
    }
    Some(edits)
}

/// Some cell among the first `k` of the stroke is cell `i` of the tilemap.
pub open spec fn painted_before(cells: Seq<(u32, u32)>, k: int, i: int) -> bool {
    exists|j: int| 0 <= j < k && bg_cell_spec(#[trigger] cells[j].0 as int, cells[j].1 as int) == Some(i)
}

/// The edits of a paint stroke over its first `n` cells: the painted tile
/// for each cell of the tilemap met for the first time whose tile differs.
pub open spec fn paint_edits(tiles: Seq<u8>, cells: Seq<(u32, u32)>, tile: u8, n: int) -> Seq<(usize, u8)>
    decreases n,
{
    if n <= 0 {
        Seq::empty()
    } else {
        let prev = paint_edits(tiles, cells, tile, n - 1);
        match bg_cell_spec(cells[n - 1].0 as int, cells[n - 1].1 as int) {
            Some(i) => if !painted_before(cells, n - 1, i) && tiles[i] != tile {
                prev.push((i as usize, tile))
            } else {
                prev
            },
            None => prev,
        }
    }
}

proof fn lemma_painted_step(cells: Seq<(u32, u32)>, k: int, i: int)
    requires
        0 <= k < cells.len(),
    ensures
        painted_before(cells, k + 1, i) <==> (painted_before(cells, k, i) || bg_cell_spec(
            cells[k].0 as int,
            cells[k].1 as int,
        ) == Some(i)),
{
    if painted_before(cells, k + 1, i) {
        let j = choose|j: int| 0 <= j < k + 1 && bg_cell_spec(#[trigger] cells[j].0 as int, cells[j].1 as int) == Some(i);
        if j < k {
            assert(painted_before(cells, k, i));
        }
    }
    if painted_before(cells, k, i) {
        let j = choose|j: int| 0 <= j < k && bg_cell_spec(#[trigger] cells[j].0 as int, cells[j].1 as int) == Some(i);
        assert(0 <= j < k + 1 && bg_cell_spec(cells[j].0 as int, cells[j].1 as int) == Some(i));
    }
    if bg_cell_spec(cells[k].0 as int, cells[k].1 as int) == Some(i) {
        assert(0 <= k < k + 1 && bg_cell_spec(cells[k].0 as int, cells[k].1 as int) == Some(i));
    }
}

/// The edits of a finished paint stroke over `cells`: each cell of the
/// tilemap once, in stroke order, where its tile differs from `tile`.
pub fn bg_paint_edits(tiles: &Vec<u8>, cells: &Vec<(u32, u32)>, tile: u8) -> (r: Vec<(usize, u8)>)
    requires
        tiles@.len() == BG_TILEMAP_LEN,
    ensures
        r@ == paint_edits(tiles@, cells@, tile, cells@.len() as int),
{
    let mut seen: Vec<bool> = Vec::new();
    let mut i: usize = 0;
    while i < BG_TILEMAP_LEN
        invariant
            i <= BG_TILEMAP_LEN,
            seen@.len() == i,
            forall|j: int| 0 <= j < i ==> !seen@[j],
        decreases BG_TILEMAP_LEN - i,
    {
        seen.push(false);
        i = i + 1;
    }
    let mut edits: Vec<(usize, u8)> = Vec::new();
    let mut k: usize = 0;
    while k < cells.len()
        invariant
            k <= cells@.len(),
            tiles@.len() == BG_TILEMAP_LEN,
            seen@.len() == BG_TILEMAP_LEN,
            forall|j: int| 0 <= j < BG_TILEMAP_LEN ==> (#[trigger] seen@[j] <==> painted_before(cells@, k as int, j)),
            edits@ == paint_edits(tiles@, cells@, tile, k as int),
        decreases cells.len() - k,
    {
        let (c, r) = cells[k];
        proof {
            assert forall|j: int| 0 <= j < BG_TILEMAP_LEN implies (painted_before(cells@, k + 1, j) <==> (
            painted_before(cells@, k as int, j) || bg_cell_spec(c as int, r as int) == Some(j))) by {
                lemma_painted_step(cells@, k as int, j);
            }
        }
        if let Some(idx) = bg_cell_index(c, r) {
            let fresh = !seen[idx];
            if fresh {
                seen.set(idx, true);
                if tiles[idx] != tile {
                    edits.push((idx, tile));
                }
            }
        }
        k = k + 1;
    }
    edits
}

// ---------------------------------------------------------------------------
// Remapping to another Map16 bank
// ---------------------------------------------------------------------------

/// The four tile words of block `b` of background Map16 page `page`; a
/// block past the table reads as zeros.
pub open spec fn block_words_at(words: Seq<[u16; 4]>, page: int, b: int) -> Seq<u16> {
    if 0 <= page * 256 + b < words.len() {
        words[page * 256 + b]@
    } else {
        seq![0u16, 0u16, 0u16, 0u16]
    }
}

/// The first block from `b` on, among the 256 of page `page`, whose tile
/// words are `want`.
pub open spec fn first_block_from(words: Seq<[u16; 4]>, page: int, want: Seq<u16>, b: int) -> Option<int>
    decreases 256 - b,
{
    if b >= 256 {
        None
    } else if block_words_at(words, page, b) == want {
        Some(b)
    } else {
        first_block_from(words, page, want, b + 1)
    }
}

/// The block of page `page` that looks like block `t` of page `src`: the
/// first one with the same tile words.
pub open spec fn twin_block(words: Seq<[u16; 4]>, page: int, src: int, t: int) -> Option<int> {
    first_block_from(words, page, block_words_at(words, src, t), 0)
}

/// The remap edits over the first `n` cells: each non-empty tile whose twin
/// block in `page` has another number gets that number.
pub open spec fn remap_edits(tiles: Seq<u8>, words: Seq<[u16; 4]>, page: int, src: int, n: int) -> Seq<
    (usize, u8),
>
    decreases n,
{
    if n <= 0 {
        Seq::empty()
    } else {
        let prev = remap_edits(tiles, words, page, src, n - 1);
        let t = tiles[n - 1];
        if t == 0 {
            prev
        } else {
            match twin_block(words, page, src, t as int) {
                Some(b) => if b != t {
                    prev.push(((n - 1) as usize, b as u8))
                } else {
                    prev
                },
                None => prev,
            }
        }
    }
}

/// How many of the first `n` cells hold a non-empty tile with no twin block
/// in `page`.
pub open spec fn unmatched_count(tiles: Seq<u8>, words: Seq<[u16; 4]>, page: int, src: int, n: int) -> nat
    decreases n,
{
    if n <= 0 {
        0
    } else {
        let prev = unmatched_count(tiles, words, page, src, n - 1);
        if tiles[n - 1] != 0 && twin_block(words, page, src, tiles[n - 1] as int) is None {
            prev + 1
        } else {
            prev
        }
    }
}

proof fn lemma_unmatched_bound(tiles: Seq<u8>, words: Seq<[u16; 4]>, page: int, src: int, n: int)
    ensures
        unmatched_count(tiles, words, page, src, n) <= if n > 0 { n } else { 0 },
    decreases n,
{
    if n > 0 {
        lemma_unmatched_bound(tiles, words, page, src, n - 1);
    }
}

fn words_at(words: &Vec<[u16; 4]>, page: u8, b: usize) -> (r: [u16; 4])
    requires
        b < 256,
    ensures
        r@ == block_words_at(words@, page as int, b as int),
{
    let i = (page as usize) * 256 + b;
    if i < words.len() {
        words[i]
    } else {
        let z: [u16; 4] = [0, 0, 0, 0];
        assert(z@ =~= seq![0u16, 0u16, 0u16, 0u16]);
        z
    }
}

fn same_words(a: &[u16; 4], b: &[u16; 4]) -> (r: bool)
    ensures
        r == (a@ == b@),
{
    let r = a[0] == b[0] && a[1] == b[1] && a[2] == b[2] && a[3] == b[3];
    if r {
        assert(a@ =~= b@);
    } else {
        assert(a@ != b@) by {
            if a@ == b@ {
                assert(a@[0] == b@[0] && a@[1] == b@[1] && a@[2] == b@[2] && a@[3] == b@[3]);
            }
        }
    }
    r
}

/// Lunar Magic's "Remap Background Tiles": each non-empty tile is matched by
/// its graphics (the tile words of its block in page `src_page`) against the
/// blocks of page `page`, and takes the number of the first identical one.
/// Returns the edits, in cell order, with the number of tiles that had no
/// identical block and were left unchanged.
pub fn bg_remap_tiles(tiles: &Vec<u8>, words: &Vec<[u16; 4]>, page: u8, src_page: u8) -> (r: (Vec<(usize, u8)>, u32))
    requires
        tiles@.len() <= u32::MAX,
    ensures
        r.0@ == remap_edits(tiles@, words@, page as int, src_page as int, tiles@.len() as int),
        r.1 == unmatched_count(tiles@, words@, page as int, src_page as int, tiles@.len() as int),
{
    let mut edits: Vec<(usize, u8)> = Vec::new();
    let mut unmatched: u32 = 0;
    let mut i: usize = 0;
    while i < tiles.len()
        invariant
            i <= tiles@.len(),
            tiles@.len() <= u32::MAX,
            edits@ == remap_edits(tiles@, words@, page as int, src_page as int, i as int),
            unmatched == unmatched_count(tiles@, words@, page as int, src_page as int, i as int),
        decreases tiles.len() - i,
    {
        let t = tiles[i];
        proof {
            lemma_unmatched_bound(tiles@, words@, page as int, src_page as int, i as int);
        }
        if t != 0 {
            let want = words_at(words, src_page, t as usize);
            let mut b: usize = 0;
            let mut found = false;
            while b < 256
                invariant_except_break
                    !found,
                invariant
                    b <= 256,
                    want@ == block_words_at(words@, src_page as int, t as int),
                    first_block_from(words@, page as int, want@, 0) == first_block_from(
                        words@,
                        page as int,
                        want@,
                        b as int,
                    ),
                ensures
                    found ==> b < 256 && first_block_from(words@, page as int, want@, 0) == Some(b as int),
                    !found ==> first_block_from(words@, page as int, want@, 0) is None,
                decreases 256 - b,
            {
                let here = words_at(words, page, b);
                if same_words(&here, &want) {
                    found = true;
                    break;
                }
                b = b + 1;
            }
            if found {
                if b as u8 != t {
                    edits.push((i, b as u8));
                }
            } else {
                unmatched = unmatched + 1;
            }
        }
        i = i + 1;
    }
    (edits, unmatched)
}

// ---------------------------------------------------------------------------
// Live preview of a drag
// ---------------------------------------------------------------------------

/// A pointer gesture in progress on the background canvas.
pub enum BgDrag {
    /// A paint stroke over these cells, in order.
    Paint { cells: Vec<(u32, u32)> },
    /// A selection rectangle from `start` to `cur`.
    Select { start: (u32, u32), cur: (u32, u32) },
    /// A resize of the selection `orig` to `cur` by `handle`; `content` is
    /// the `cw` x `ch` selection when the drag started.
    Resize {
        handle: DragHandle,
        orig: (u32, u32, u32, u32),
        cur: (u32, u32, u32, u32),
        content: Vec<u8>,
        cw: u32,
        ch: u32,
    },
}

/// The writes of a stroke's first `n` cells: the tile, at each cell of the
/// tilemap.
pub open spec fn stroke_writes(cells: Seq<(u32, u32)>, tile: u8, n: int) -> Seq<(usize, u8)>
    decreases n,
{
    if n <= 0 {
        Seq::empty()
    } else {
        let prev = stroke_writes(cells, tile, n - 1);
        match bg_cell_spec(cells[n - 1].0 as int, cells[n - 1].1 as int) {
            Some(i) => prev.push((i as usize, tile)),
            None => prev,
        }
    }
}

/// The writes emptying the first `n` cells of the `w`-wide rectangle at
/// `(x, y)`, row by row, at each cell of the tilemap.
pub open spec fn blank_writes(x: int, y: int, w: int, n: int) -> Seq<(usize, u8)>
    decreases n,
{
    if n <= 0 {
        Seq::empty()
    } else {
        let prev = blank_writes(x, y, w, n - 1);
        match bg_cell_spec(x + (n - 1) % w, y + (n - 1) / w) {
            Some(i) => prev.push((i as usize, 0u8)),
            None => prev,
        }
    }
}

/// The drag's preview is well formed: a resize's content is `cw` x `ch`
/// and its rectangles stay in `u32` range.
pub open spec fn bg_drag_ok(drag: BgDrag) -> bool {
    match drag {
        BgDrag::Resize { orig, cur, content, cw, ch, .. } => {
            &&& orig.0 + orig.2 <= u32::MAX
            &&& orig.1 + orig.3 <= u32::MAX
            &&& cur.0 + cur.2 <= u32::MAX
            &&& cur.1 + cur.3 <= u32::MAX
            &&& cw >= 1
            &&& ch >= 1
            &&& cw * ch <= u32::MAX
            &&& content@.len() == cw * ch
        },
        _ => true,
    }
}

/// The tiles that the canvas shows during a drag: a stroke's cells painted
/// with the selected tile, or a resize's old rectangle emptied and the new
/// one tiled with the content. A selection drag has no preview.
pub fn bg_preview_tiles(tiles: &Vec<u8>, drag: &BgDrag, selected_tile: u8) -> (r: Option<Vec<u8>>)
    requires
        tiles@.len() == BG_TILEMAP_LEN,
        bg_drag_ok(*drag),
    ensures
        match *drag {
            BgDrag::Paint { cells } => (r matches Some(t) && t@ == apply_edits(
                tiles@,
                stroke_writes(cells@, selected_tile, cells@.len() as int),
            )),
            BgDrag::Select { .. } => r is None,
            BgDrag::Resize { orig, cur, content, cw, ch, .. } => r matches Some(t) && t@ == apply_edits(
                tiles@,
                blank_writes(orig.0 as int, orig.1 as int, orig.2 as int, orig.2 * orig.3) + tiling_edits(
                    cur.0 as int,
                    cur.1 as int,
                    cur.2 as int,
                    content@,
                    cw as int,
                    ch as int,
                    cur.2 * cur.3,
                ),
            ),
        },
{
    match drag {
        BgDrag::Select { .. } => None,
        BgDrag::Paint { cells } => {
            let mut writes: Vec<(usize, u8)> = Vec::new();
            let mut k: usize = 0;
            while k < cells.len()
                invariant
                    k <= cells@.len(),
                    writes@ == stroke_writes(cells@, selected_tile, k as int),
                decreases cells.len() - k,
            {
                let (c, r) = cells[k];
                if let Some(idx) = bg_cell_index(c, r) {
                    writes.push((idx, selected_tile));
                }
                k = k + 1;
            }
            let mut out = tiles.clone();
            assert(out@ =~= tiles@);
            apply_tile_edits(&mut out, &writes);
            Some(out)
        },
        BgDrag::Resize { orig, cur, content, cw, ch, .. } => {
            let (ox, oy, ow, oh) = *orig;
            let (nx, ny, nw, nh) = *cur;
            let cw = *cw;
            let ch = *ch;
            let mut writes: Vec<(usize, u8)> = Vec::new();
            let mut r: u32 = 0;
            while r < oh
                invariant
                    r <= oh,
                    ox + ow <= u32::MAX,
                    oy + oh <= u32::MAX,
                    writes@ == blank_writes(ox as int, oy as int, ow as int, r * ow),
                decreases oh - r,
            {
                let mut c: u32 = 0;
                while c < ow
                    invariant
                        c <= ow,
                        r < oh,
                        ox + ow <= u32::MAX,
                        oy + oh <= u32::MAX,
                        writes@ == blank_writes(ox as int, oy as int, ow as int, r * ow + c),
                    decreases ow - c,
                {
                    proof {
                        lemma_rect_position(ow as int, c as int, r as int);
                    }
                    if let Some(idx) = bg_cell_index(ox + c, oy + r) {
                        writes.push((idx, 0));
                    }
                    c = c + 1;
                }
                proof {
                    assert((r + 1) * ow == r * ow + ow) by (nonlinear_arith);
                }
                r = r + 1;
            }
            proof {
                assert(r * ow == ow * oh) by (nonlinear_arith)
                    requires
                        r == oh,
                ;
            }
            let ghost blanked = writes@;
            let mut r: u32 = 0;
            while r < nh
                invariant
                    r <= nh,
                    nx + nw <= u32::MAX,
                    ny + nh <= u32::MAX,
                    cw >= 1,
                    ch >= 1,
                    cw * ch <= u32::MAX,
                    content@.len() == cw * ch,
                    writes@ == blanked + tiling_edits(
                        nx as int,
                        ny as int,
                        nw as int,
                        content@,
                        cw as int,
                        ch as int,
                        r * nw,
                    ),
                decreases nh - r,
            {
                let mut c: u32 = 0;
                while c < nw
                    invariant
                        c <= nw,
                        r < nh,
                        nx + nw <= u32::MAX,
                        ny + nh <= u32::MAX,
                        cw >= 1,
                        ch >= 1,
                        cw * ch <= u32::MAX,
                        content@.len() == cw * ch,
                        writes@ == blanked + tiling_edits(
                            nx as int,
                            ny as int,
                            nw as int,
                            content@,
                            cw as int,
                            ch as int,
                            r * nw + c,
                        ),
                    decreases nw - c,
                {
                    proof {
                        lemma_rect_position(nw as int, c as int, r as int);
                        lemma_content_index(r as int, c as int, cw as int, ch as int);
                    }
                    let v = content[((r % ch) * cw + (c % cw)) as usize];
                    if let Some(idx) = bg_cell_index(nx + c, ny + r) {
                        writes.push((idx, v));
                    }
                    c = c + 1;
                }
                proof {
                    assert((r + 1) * nw == r * nw + nw) by (nonlinear_arith);
                }
                r = r + 1;
            }
            proof {
                assert(r * nw == nw * nh) by (nonlinear_arith)
                    requires
                        r == nh,
                ;
            }
            let mut out = tiles.clone();
            assert(out@ =~= tiles@);
            apply_tile_edits(&mut out, &writes);
            Some(out)
        },
    }
}

proof fn lemma_edit_value_concat(a: Seq<(usize, u8)>, b: Seq<(usize, u8)>, i: int, d: u8)
    ensures
        edit_value(a + b, i, d) == edit_value(b, i, edit_value(a, i, d)),
    decreases b.len(),
{
    if b.len() == 0 {
        assert(a + b =~= a);
    } else {
        assert((a + b).drop_last() =~= a + b.drop_last());
        lemma_edit_value_concat(a, b.drop_last(), i, d);
    }
}

/// The place of cell `(col, row)` in the `w`-wide rectangle at `(x, y)`,
/// counted row by row.
pub open spec fn rect_slot(x: int, y: int, w: int, col: int, row: int) -> int {
    (row - y) * w + (col - x)
}

proof fn lemma_rect_cell(x: int, y: int, w: int, k: int, i: int)
    requires
        w >= 1,
        k >= 0,
        0 <= i < 864,
    ensures
        bg_cell_spec(x + k % w, y + k / w) == Some(i) <==> (x <= i % 32 < x + w && i / 32 >= y && k == rect_slot(
            x,
            y,
            w,
            i % 32,
            i / 32,
        )),
{
    vstd::arithmetic::div_mod::lemma_fundamental_div_mod(i, 32);
    vstd::arithmetic::div_mod::lemma_fundamental_div_mod(k, w);
    let q = k / w;
    let m = k % w;
    assert(q >= 0) by {
        vstd::arithmetic::div_mod::lemma_div_pos_is_pos(k, w);
    }
    assert(k == q * w + m) by (nonlinear_arith)
        requires
            k == w * q + m,
    ;
    if bg_cell_spec(x + m, y + q) == Some(i) {
        lemma_index_of_cell(x + m, y + q);
        assert(i % 32 == x + m);
        assert(i / 32 == y + q);
    }
    if x <= i % 32 < x + w && i / 32 >= y && k == rect_slot(x, y, w, i % 32, i / 32) {
        lemma_rect_position(w, i % 32 - x, i / 32 - y);
        assert(m == i % 32 - x);
        assert(q == i / 32 - y);
        assert(bg_cell_spec(i % 32, i / 32) == Some(i));
    }
}

proof fn lemma_slot_row(x: int, y: int, w: int, h: int, col: int, row: int)
    requires
        w >= 1,
        x <= col < x + w,
        row >= y,
        rect_slot(x, y, w, col, row) < w * h,
    ensures
        row < y + h,
{
    let q = row - y;
    let c = col - x;
    assert(q < h) by (nonlinear_arith)
        requires
            q * w + c < w * h,
            0 <= c,
            w >= 1,
            q >= 0,
    ;
}

proof fn lemma_blank_value(x: int, y: int, w: int, h: int, n: int, i: int, d: u8)
    requires
        w >= 1,
        0 <= n <= w * h,
        0 <= i < 864,
    ensures
        edit_value(blank_writes(x, y, w, n), i, d) == if in_rect(i % 32, i / 32, x, y, w, h) && rect_slot(
            x,
            y,
            w,
            i % 32,
            i / 32,
        ) < n {
            0u8
        } else {
            d
        },
    decreases n,
{
    if n > 0 {
        lemma_blank_value(x, y, w, h, n - 1, i, d);
        let k = n - 1;
        lemma_rect_cell(x, y, w, k, i);
        match bg_cell_spec(x + k % w, y + k / w) {
            Some(j) => {
                lemma_index_of_cell(x + k % w, y + k / w);
                assert((j as usize) as int == j);
                let prev = blank_writes(x, y, w, k);
                assert(prev.push((j as usize, 0u8)).drop_last() =~= prev);
                if j == i {
                    lemma_slot_row(x, y, w, h, i % 32, i / 32);
                }
            },
            None => {},
        }
    }
}

proof fn lemma_slot_in_rect(x: int, y: int, w: int, h: int, col: int, row: int)
    requires
        in_rect(col, row, x, y, w, h),
    ensures
        0 <= rect_slot(x, y, w, col, row) < w * h,
{
    let q = row - y;
    let c = col - x;
    assert(0 <= q * w + c < w * h) by (nonlinear_arith)
        requires
            0 <= q < h,
            0 <= c < w,
    ;
}

proof fn lemma_vacate_value(
    ox: int,
    oy: int,
    ow: int,
    oh: int,
    nx: int,
    ny: int,
    nw: int,
    nh: int,
    n: int,
    i: int,
    d: u8,
)
    requires
        ow >= 1,
        0 <= n <= ow * oh,
        0 <= i < 864,
    ensures
        edit_value(vacate_edits(ox, oy, ow, nx, ny, nw, nh, n), i, d) == if in_rect(i % 32, i / 32, ox, oy, ow, oh)
            && !in_rect(i % 32, i / 32, nx, ny, nw, nh) && rect_slot(ox, oy, ow, i % 32, i / 32) < n {
            0u8
        } else {
            d
        },
    decreases n,
{
    if n > 0 {
        lemma_vacate_value(ox, oy, ow, oh, nx, ny, nw, nh, n - 1, i, d);
        let k = n - 1;
        lemma_rect_cell(ox, oy, ow, k, i);
        let cc = ox + k % ow;
        let rr = oy + k / ow;
        if !in_rect(cc, rr, nx, ny, nw, nh) {
            match bg_cell_spec(cc, rr) {
                Some(j) => {
                    lemma_index_of_cell(cc, rr);
                    assert((j as usize) as int == j);
                    let prev = vacate_edits(ox, oy, ow, nx, ny, nw, nh, k);
                    assert(prev.push((j as usize, 0u8)).drop_last() =~= prev);
                    if j == i {
                        lemma_slot_row(ox, oy, ow, oh, i % 32, i / 32);
                    }
                },
                None => {},
            }
        } else {
            if bg_cell_spec(cc, rr) == Some(i) {
                lemma_index_of_cell(cc, rr);
            }
        }
    }
}

proof fn lemma_tiling_value(
    nx: int,
    ny: int,
    nw: int,
    nh: int,
    content: Seq<u8>,
    cw: int,
    ch: int,
    n: int,
    i: int,
    d: u8,
)
    requires
        nw >= 1,
        0 <= n <= nw * nh,
        0 <= i < 864,
    ensures
        edit_value(tiling_edits(nx, ny, nw, content, cw, ch, n), i, d) == if in_rect(i % 32, i / 32, nx, ny, nw, nh)
            && rect_slot(nx, ny, nw, i % 32, i / 32) < n {
            content[((i / 32 - ny) % ch) * cw + (i % 32 - nx) % cw]
        } else {
            d
        },
    decreases n,
{
    if n > 0 {
        lemma_tiling_value(nx, ny, nw, nh, content, cw, ch, n - 1, i, d);
        let k = n - 1;
        lemma_rect_cell(nx, ny, nw, k, i);
        let c = k % nw;
        let r = k / nw;
        match bg_cell_spec(nx + c, ny + r) {
            Some(j) => {
                lemma_index_of_cell(nx + c, ny + r);
                assert((j as usize) as int == j);
                let prev = tiling_edits(nx, ny, nw, content, cw, ch, k);
                let v = content[(r % ch) * cw + c % cw];
                assert(prev.push((j as usize, v)).drop_last() =~= prev);
                if j == i {
                    lemma_slot_row(nx, ny, nw, nh, i % 32, i / 32);
                }
            },
            None => {},
        }
    }
}

/// A resize drag: the preview that the canvas shows (the old rectangle
/// emptied, the new one tiled with the content) is the tilemap that the
/// finished resize leaves (emptying only the cells of the old rectangle
/// outside the new one).
pub proof fn lemma_resize_preview_is_commit(
    tiles: Seq<u8>,
    orig: (u32, u32, u32, u32),
    cur: (u32, u32, u32, u32),
    content: Seq<u8>,
    cw: int,
    ch: int,
)
    requires
        tiles.len() == 864,
    ensures
        apply_edits(
            tiles,
            blank_writes(orig.0 as int, orig.1 as int, orig.2 as int, orig.2 * orig.3) + tiling_edits(
                cur.0 as int,
                cur.1 as int,
                cur.2 as int,
                content,
                cw,
                ch,
                cur.2 * cur.3,
            ),
        ) == apply_edits(
            tiles,
            vacate_edits(
                orig.0 as int,
                orig.1 as int,
                orig.2 as int,
                cur.0 as int,
                cur.1 as int,
                cur.2 as int,
                cur.3 as int,
                orig.2 * orig.3,
            ) + tiling_edits(cur.0 as int, cur.1 as int, cur.2 as int, content, cw, ch, cur.2 * cur.3),
        ),
{
    let (ox, oy, ow, oh) = (orig.0 as int, orig.1 as int, orig.2 as int, orig.3 as int);
    let (nx, ny, nw, nh) = (cur.0 as int, cur.1 as int, cur.2 as int, cur.3 as int);
    let b = blank_writes(ox, oy, ow, ow * oh);
    let v = vacate_edits(ox, oy, ow, nx, ny, nw, nh, ow * oh);
    let t = tiling_edits(nx, ny, nw, content, cw, ch, nw * nh);
    lemma_apply_edits(tiles, b + t);
    lemma_apply_edits(tiles, v + t);
    assert forall|i: int| 0 <= i < 864 implies apply_edits(tiles, b + t)[i] == apply_edits(tiles, v + t)[i] by {
        lemma_edit_value_concat(b, t, i, tiles[i]);
        lemma_edit_value_concat(v, t, i, tiles[i]);
        let col = i % 32;
        let row = i / 32;
        if nw >= 1 {
            lemma_tiling_value(nx, ny, nw, nh, content, cw, ch, nw * nh, i, edit_value(b, i, tiles[i]));
            lemma_tiling_value(nx, ny, nw, nh, content, cw, ch, nw * nh, i, edit_value(v, i, tiles[i]));
            if in_rect(col, row, nx, ny, nw, nh) {
                lemma_slot_in_rect(nx, ny, nw, nh, col, row);
            }
        } else {
            assert(nw * nh == 0);
        }
        if ow >= 1 {
            lemma_blank_value(ox, oy, ow, oh, ow * oh, i, tiles[i]);
            lemma_vacate_value(ox, oy, ow, oh, nx, ny, nw, nh, ow * oh, i, tiles[i]);
            if in_rect(col, row, ox, oy, ow, oh) {
                lemma_slot_in_rect(ox, oy, ow, oh, col, row);
            }
        } else {
            assert(ow * oh == 0);
        }
    }
    assert(apply_edits(tiles, b + t) =~= apply_edits(tiles, v + t));
}

proof fn lemma_stroke_value(cells: Seq<(u32, u32)>, tile: u8, n: int, i: int, d: u8)
    requires
        0 <= n <= cells.len(),
        0 <= i < 864,
    ensures
        edit_value(stroke_writes(cells, tile, n), i, d) == if painted_before(cells, n, i) {
            tile
        } else {
            d
        },
    decreases n,
{
    if n > 0 {
        lemma_stroke_value(cells, tile, n - 1, i, d);
        lemma_painted_step(cells, n - 1, i);
        match bg_cell_spec(cells[n - 1].0 as int, cells[n - 1].1 as int) {
            Some(j) => {
                lemma_index_of_cell(cells[n - 1].0 as int, cells[n - 1].1 as int);
                assert((j as usize) as int == j);
                let prev = stroke_writes(cells, tile, n - 1);
                assert(prev.push((j as usize, tile)).drop_last() =~= prev);
            },
            None => {},
        }
    }
}

proof fn lemma_paint_value(tiles: Seq<u8>, cells: Seq<(u32, u32)>, tile: u8, n: int, i: int)
    requires
        0 <= n <= cells.len(),
        0 <= i < 864,
    ensures
        edit_value(paint_edits(tiles, cells, tile, n), i, tiles[i]) == if painted_before(cells, n, i) {
            tile
        } else {
            tiles[i]
        },
    decreases n,
{
    if n > 0 {
        lemma_paint_value(tiles, cells, tile, n - 1, i);
        lemma_painted_step(cells, n - 1, i);
        match bg_cell_spec(cells[n - 1].0 as int, cells[n - 1].1 as int) {
            Some(j) => {
                lemma_index_of_cell(cells[n - 1].0 as int, cells[n - 1].1 as int);
                assert((j as usize) as int == j);
                let prev = paint_edits(tiles, cells, tile, n - 1);
                assert(prev.push((j as usize, tile)).drop_last() =~= prev);
            },
            None => {},
        }
    }
}

proof fn lemma_paint_edits_shape(tiles: Seq<u8>, cells: Seq<(u32, u32)>, tile: u8, n: int)
    requires
        tiles.len() == 864,
        0 <= n <= cells.len(),
    ensures
        ({
            let e = paint_edits(tiles, cells, tile, n);
            &&& forall|k: int|
                0 <= k < e.len() ==> {
                    &&& (#[trigger] e[k]).1 == tile
                    &&& e[k].0 < 864
                    &&& tiles[e[k].0 as int] != tile
                    &&& painted_before(cells, n, e[k].0 as int)
                }
            &&& forall|a: int, b: int| 0 <= a < b < e.len() ==> #[trigger] e[a].0 != #[trigger] e[b].0
        }),
    decreases n,
{
    if n > 0 {
        lemma_paint_edits_shape(tiles, cells, tile, n - 1);
        let prev = paint_edits(tiles, cells, tile, n - 1);
        assert forall|k: int| 0 <= k < prev.len() implies painted_before(cells, n, (#[trigger] prev[k]).0 as int) by {
            lemma_painted_step(cells, n - 1, prev[k].0 as int);
        }
        match bg_cell_spec(cells[n - 1].0 as int, cells[n - 1].1 as int) {
            Some(i) => {
                lemma_index_of_cell(cells[n - 1].0 as int, cells[n - 1].1 as int);
                assert((i as usize) as int == i);
                lemma_painted_step(cells, n - 1, i);
            },
            None => {},
        }
    }
}

/// A finished paint stroke: after its edits, every cell that some cell of
/// the stroke hits (column below 32, row below 27) holds the painted tile
/// and every other cell keeps its tile; each edit writes the painted tile
/// to a cell whose tile differed, and no cell is written twice.
pub proof fn lemma_paint_result(tiles: Seq<u8>, cells: Seq<(u32, u32)>, tile: u8)
    requires
        tiles.len() == 864,
    ensures
        ({
            let e = paint_edits(tiles, cells, tile, cells.len() as int);
            let after = apply_edits(tiles, e);
            &&& after.len() == 864
            &&& forall|i: int|
                0 <= i < 864 ==> #[trigger] after[i] == if exists|j: int|
                    0 <= j < cells.len() && cells[j].0 < 32 && cells[j].1 < 27 && cells[j].1 * 32 + cells[j].0
                        == i {
                    tile
                } else {
                    tiles[i]
                }
            &&& forall|k: int| 0 <= k < e.len() ==> (#[trigger] e[k]).1 == tile && e[k].0 < 864 && tiles[e[k].0 as int] != tile
            &&& forall|a: int, b: int| 0 <= a < b < e.len() ==> #[trigger] e[a].0 != #[trigger] e[b].0
        }),
{
    let n = cells.len() as int;
    let e = paint_edits(tiles, cells, tile, n);
    lemma_apply_edits(tiles, e);
    lemma_paint_edits_shape(tiles, cells, tile, n);
    assert forall|i: int| 0 <= i < 864 implies #[trigger] apply_edits(tiles, e)[i] == if exists|j: int|
        0 <= j < cells.len() && cells[j].0 < 32 && cells[j].1 < 27 && cells[j].1 * 32 + cells[j].0 == i {
        tile
    } else {
        tiles[i]
    } by {
        lemma_paint_value(tiles, cells, tile, n, i);
        if painted_before(cells, n, i) {
            let j = choose|j: int| 0 <= j < n && bg_cell_spec(#[trigger] cells[j].0 as int, cells[j].1 as int) == Some(i);
            assert(0 <= j < cells.len() && cells[j].0 < 32 && cells[j].1 < 27 && cells[j].1 * 32 + cells[j].0 == i);
        } else {
            assert forall|j: int| 0 <= j < cells.len() implies !(cells[j].0 < 32 && cells[j].1 < 27 && cells[j].1 * 32
                + cells[j].0 == i) by {
                if cells[j].0 < 32 && cells[j].1 < 27 && cells[j].1 * 32 + cells[j].0 == i {
                    assert(bg_cell_spec(cells[j].0 as int, cells[j].1 as int) == Some(i));
                }
            }
        }
    }
}

/// A finished resize of the selection `orig` to `cur` (both at least one
/// cell wide, content `cw` x `ch`): after its edits, every cell of the new
/// rectangle holds the content tiled from the new corner (the tile at
/// `((row - y) % ch) * cw + (col - x) % cw`), every other cell of the old
/// rectangle is empty (tile 0), and every cell outside both keeps its tile.
pub proof fn lemma_resize_commit_result(
    tiles: Seq<u8>,
    orig: (u32, u32, u32, u32),
    cur: (u32, u32, u32, u32),
    content: Seq<u8>,
    cw: int,
    ch: int,
)
    requires
        tiles.len() == 864,
        orig.2 >= 1,
        cur.2 >= 1,
    ensures
        ({
            let (ox, oy, ow, oh) = (orig.0 as int, orig.1 as int, orig.2 as int, orig.3 as int);
            let (nx, ny, nw, nh) = (cur.0 as int, cur.1 as int, cur.2 as int, cur.3 as int);
            let after = apply_edits(
                tiles,
                vacate_edits(ox, oy, ow, nx, ny, nw, nh, ow * oh) + tiling_edits(nx, ny, nw, content, cw, ch, nw * nh),
            );
            &&& after.len() == 864
            &&& forall|i: int|
                0 <= i < 864 ==> #[trigger] after[i] == if nx <= i % 32 < nx + nw && ny <= i / 32 < ny + nh {
                    content[((i / 32 - ny) % ch) * cw + (i % 32 - nx) % cw]
                } else if ox <= i % 32 < ox + ow && oy <= i / 32 < oy + oh {
                    0u8
                } else {
                    tiles[i]
                }
        }),
{
    let (ox, oy, ow, oh) = (orig.0 as int, orig.1 as int, orig.2 as int, orig.3 as int);
    let (nx, ny, nw, nh) = (cur.0 as int, cur.1 as int, cur.2 as int, cur.3 as int);
    let v = vacate_edits(ox, oy, ow, nx, ny, nw, nh, ow * oh);
    let t = tiling_edits(nx, ny, nw, content, cw, ch, nw * nh);
    lemma_apply_edits(tiles, v + t);
    assert(0 <= ow * oh) by (nonlinear_arith)
        requires
            ow >= 1,
            oh >= 0,
    ;
    assert(0 <= nw * nh) by (nonlinear_arith)
        requires
            nw >= 1,
            nh >= 0,
    ;
    assert forall|i: int| 0 <= i < 864 implies #[trigger] apply_edits(tiles, v + t)[i] == if nx <= i % 32 < nx + nw
        && ny <= i / 32 < ny + nh {
        content[((i / 32 - ny) % ch) * cw + (i % 32 - nx) % cw]
    } else if ox <= i % 32 < ox + ow && oy <= i / 32 < oy + oh {
        0u8
    } else {
        tiles[i]
    } by {
        lemma_edit_value_concat(v, t, i, tiles[i]);
        let col = i % 32;
        let row = i / 32;
        lemma_tiling_value(nx, ny, nw, nh, content, cw, ch, nw * nh, i, edit_value(v, i, tiles[i]));
        lemma_vacate_value(ox, oy, ow, oh, nx, ny, nw, nh, ow * oh, i, tiles[i]);
        if in_rect(col, row, nx, ny, nw, nh) {
            lemma_slot_in_rect(nx, ny, nw, nh, col, row);
        }
        if in_rect(col, row, ox, oy, ow, oh) {
            lemma_slot_in_rect(ox, oy, ow, oh, col, row);
        }
    }
}

/// A paint stroke: the preview that the canvas shows (every cell of the
/// stroke written with the tile) is the tilemap that the finished stroke
/// leaves (each cell written once, only where its tile changes).
pub proof fn lemma_paint_preview_is_commit(tiles: Seq<u8>, cells: Seq<(u32, u32)>, tile: u8)
    requires
        tiles.len() == 864,
    ensures
        apply_edits(tiles, stroke_writes(cells, tile, cells.len() as int)) == apply_edits(
            tiles,
            paint_edits(tiles, cells, tile, cells.len() as int),
        ),
{
    let n = cells.len() as int;
    lemma_apply_edits(tiles, stroke_writes(cells, tile, n));
    lemma_apply_edits(tiles, paint_edits(tiles, cells, tile, n));
    assert forall|i: int| 0 <= i < 864 implies apply_edits(tiles, stroke_writes(cells, tile, n))[i] == apply_edits(
        tiles,
        paint_edits(tiles, cells, tile, n),
    )[i] by {
        lemma_stroke_value(cells, tile, n, i, tiles[i]);
        lemma_paint_value(tiles, cells, tile, n, i);
    }
    assert(apply_edits(tiles, stroke_writes(cells, tile, n)) =~= apply_edits(tiles, paint_edits(tiles, cells, tile, n)));
}

proof fn lemma_first_block(words: Seq<[u16; 4]>, page: int, want: Seq<u16>, b0: int)
    requires
        0 <= b0,
    ensures
        first_block_from(words, page, want, b0) matches Some(b) ==> b0 <= b < 256 && block_words_at(words, page, b)
            == want && forall|k: int| b0 <= k < b ==> block_words_at(words, page, k) != want,
        first_block_from(words, page, want, b0) is None ==> forall|k: int|
            b0 <= k < 256 ==> block_words_at(words, page, k) != want,
    decreases 256 - b0,
{
    if b0 < 256 {
        lemma_first_block(words, page, want, b0 + 1);
    }
}

proof fn lemma_first_block_of_first(words: Seq<[u16; 4]>, page: int, want: Seq<u16>, b: int)
    requires
        first_block_from(words, page, want, 0) == Some(b),
    ensures
        first_block_from(words, page, block_words_at(words, page, b), 0) == Some(b),
{
    lemma_first_block(words, page, want, 0);
    let w2 = block_words_at(words, page, b);
    lemma_first_block(words, page, w2, 0);
    match first_block_from(words, page, w2, 0) {
        Some(c) => {
            if c < b {
                assert(block_words_at(words, page, c) != want);
            } else if c > b {
                assert(block_words_at(words, page, b) != w2);
            }
        },
        None => {
            assert(block_words_at(words, page, b) != w2);
        },
    }
}

proof fn lemma_remap_value(tiles: Seq<u8>, words: Seq<[u16; 4]>, page: int, src: int, n: int, i: int)
    requires
        0 <= i < tiles.len(),
        n <= tiles.len(),
        tiles.len() <= u32::MAX,
    ensures
        edit_value(remap_edits(tiles, words, page, src, n), i, tiles[i]) == if i < n && tiles[i] != 0
            && twin_block(words, page, src, tiles[i] as int) is Some {
            twin_block(words, page, src, tiles[i] as int).unwrap() as u8
        } else {
            tiles[i]
        },
    decreases n,
{
    if n > 0 {
        lemma_remap_value(tiles, words, page, src, n - 1, i);
        let prev = remap_edits(tiles, words, page, src, n - 1);
        let t = tiles[n - 1];
        lemma_first_block(words, page, block_words_at(words, src, t as int), 0);
        if t != 0 {
            match twin_block(words, page, src, t as int) {
                Some(b) => {
                    if b != t {
                        assert(((n - 1) as usize) as int == n - 1);
                        assert(prev.push(((n - 1) as usize, b as u8)).drop_last() =~= prev);
                    } else {
                        assert(b as u8 == t);
                    }
                },
                None => {},
            }
        }
    }
}

/// The tiles after the edits of a remap of all cells.
pub open spec fn remap_result(tiles: Seq<u8>, words: Seq<[u16; 4]>, page: int, src: int) -> Seq<u8> {
    apply_edits(tiles, remap_edits(tiles, words, page, src, tiles.len() as int))
}

/// Tile `t` is not empty and has an identical block in bank `page`.
pub open spec fn has_twin(words: Seq<[u16; 4]>, page: int, src: int, t: u8) -> bool {
    t != 0 && twin_block(words, page, src, t as int) is Some
}

/// Remapping the background to another Map16 bank keeps its look: after the
/// edits, each non-empty tile that had an identical block in bank `page`
/// names that block, whose tile words are those its old block had in bank
/// `src`; every other tile is unchanged.
pub proof fn lemma_remap_keeps_graphics(tiles: Seq<u8>, words: Seq<[u16; 4]>, page: int, src: int)
    requires
        tiles.len() <= u32::MAX,
    ensures
        remap_result(tiles, words, page, src).len() == tiles.len(),
        forall|i: int|
            0 <= i < tiles.len() && has_twin(words, page, src, tiles[i]) ==> #[trigger] remap_result(
                tiles,
                words,
                page,
                src,
            )[i] as int == twin_block(words, page, src, tiles[i] as int).unwrap() && block_words_at(
                words,
                page,
                remap_result(tiles, words, page, src)[i] as int,
            ) == block_words_at(words, src, tiles[i] as int),
        forall|i: int|
            0 <= i < tiles.len() && !has_twin(words, page, src, tiles[i]) ==> #[trigger] remap_result(
                tiles,
                words,
                page,
                src,
            )[i] == tiles[i],
{
    let e = remap_edits(tiles, words, page, src, tiles.len() as int);
    lemma_apply_edits(tiles, e);
    assert forall|i: int| 0 <= i < tiles.len() implies (has_twin(words, page, src, tiles[i]) ==> (#[trigger] remap_result(
        tiles,
        words,
        page,
        src,
    )[i] as int == twin_block(words, page, src, tiles[i] as int).unwrap() && block_words_at(
        words,
        page,
        remap_result(tiles, words, page, src)[i] as int,
    ) == block_words_at(words, src, tiles[i] as int))) && (!has_twin(words, page, src, tiles[i]) ==> remap_result(
        tiles,
        words,
        page,
        src,
    )[i] == tiles[i]) by {
        lemma_remap_value(tiles, words, page, src, tiles.len() as int, i);
        lemma_first_block(words, page, block_words_at(words, src, tiles[i] as int), 0);
    }
}

/// Remapping within one bank is idempotent: after the edits of a remap
/// from bank `page` to itself, a second one finds nothing to change.
pub proof fn lemma_remap_idempotent(tiles: Seq<u8>, words: Seq<[u16; 4]>, page: int)
    requires
        tiles.len() <= u32::MAX,
    ensures
        remap_edits(
            apply_edits(tiles, remap_edits(tiles, words, page, page, tiles.len() as int)),
            words,
            page,
            page,
            tiles.len() as int,
        ).len() == 0,
{
    let after = remap_result(tiles, words, page, page);
    lemma_remap_keeps_graphics(tiles, words, page, page);
    assert forall|i: int| 0 <= i < tiles.len() && after[i] != 0 implies twin_block(
        words,
        page,
        page,
        after[i] as int,
    ) == Some(after[i] as int) by {
        let t = tiles[i];
        lemma_first_block(words, page, block_words_at(words, page, t as int), 0);
        if has_twin(words, page, page, t) {
            let b = twin_block(words, page, page, t as int).unwrap();
            assert(after[i] as int == b);
            lemma_first_block_of_first(words, page, block_words_at(words, page, t as int), b);
        } else {
            assert(after[i] == t);
            assert(block_words_at(words, page, t as int) == block_words_at(words, page, t as int));
        }
    }
    lemma_remap_none(after, words, page, tiles.len() as int);
}

proof fn lemma_remap_none(tiles: Seq<u8>, words: Seq<[u16; 4]>, page: int, n: int)
    requires
        n <= tiles.len(),
        forall|i: int|
            0 <= i < tiles.len() && tiles[i] != 0 ==> twin_block(words, page, page, #[trigger] tiles[i] as int) == Some(
                tiles[i] as int,
            ),
    ensures
        remap_edits(tiles, words, page, page, n).len() == 0,
    decreases n,
{
    if n > 0 {
        lemma_remap_none(tiles, words, page, n - 1);
        let t = tiles[n - 1];
        if t != 0 {
            assert(twin_block(words, page, page, t as int) == Some(t as int));
        }
    }
}

} // verus!
