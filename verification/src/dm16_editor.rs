//! Direct Map16 placement and the flood fill of an enclosed blank region.
//!
//! The fill starts at a tile and takes every tile reachable from it by
//! steps left, right, up and down through fillable tiles; the region is
//! handed back as rectangles: the horizontal runs of each row, ordered by
//! `(x, w, y)`, with runs of the same `x` and `w` on consecutive rows
//! merged into one rectangle.
use vstd::prelude::*;

verus! {

/// A Map16 pattern armed for placement on the canvas.
#[derive(Clone, Debug, PartialEq, Eq)]
pub struct Dm16Placement {
    pub pw: u32,
    pub ph: u32,
    pub tiles: Vec<u16>,
}

// ---------------------------------------------------------------------------
// The region
// ---------------------------------------------------------------------------

/// Index of tile `(x, y)` in a row-major grid `w` tiles wide.
pub open spec fn cell(w: int, x: int, y: int) -> int {
    y * w + x
}

/// Tile `(x, y)` lies in the `w`×`h` grid and is fillable.
pub open spec fn open_tile(mask: Seq<bool>, w: int, h: int, t: (int, int)) -> bool {
    0 <= t.0 < w && 0 <= t.1 < h && mask[cell(w, t.0, t.1)]
}

/// Tiles `a` and `b` share an edge.
pub open spec fn adjacent(a: (int, int), b: (int, int)) -> bool {
    (a.0 == b.0 && (a.1 - b.1 == 1 || b.1 - a.1 == 1)) || (a.1 == b.1 && (a.0 - b.0 == 1 || b.0 - a.0 == 1))
}

/// A walk through fillable tiles, each step to an edge neighbor.
pub open spec fn is_walk(mask: Seq<bool>, w: int, h: int, p: Seq<(int, int)>) -> bool {
    &&& p.len() > 0
    &&& forall|i: int| 0 <= i < p.len() ==> open_tile(mask, w, h, #[trigger] p[i])
    &&& forall|i: int| 0 <= i < p.len() - 1 ==> adjacent(#[trigger] p[i], p[i + 1])
}

/// Tile `t` is reachable from the start `s` through fillable tiles.
pub open spec fn in_region(mask: Seq<bool>, w: int, h: int, s: (int, int), t: (int, int)) -> bool {
    exists|p: Seq<(int, int)>| #[trigger] is_walk(mask, w, h, p) && p[0] == s && p.last() == t
}

/// The region as a row-major grid: `true` for the tiles of the region.
pub open spec fn region_grid(g: Seq<bool>, mask: Seq<bool>, w: int, h: int, s: (int, int)) -> bool {
    &&& g.len() == w * h
    &&& forall|x: int, y: int|
        0 <= x < w && 0 <= y < h ==> (#[trigger] g[cell(w, x, y)] <==> in_region(mask, w, h, s, (x, y)))
}

proof fn lemma_cell_bounds(w: int, h: int, x: int, y: int)
    requires
        0 <= x < w,
        0 <= y < h,
    ensures
        0 <= cell(w, x, y) < w * h,
        cell(w, x, y) + 1 <= w * h,
{
    assert(0 <= y * w + x < w * h) by (nonlinear_arith)
        requires
            0 <= x < w,
            0 <= y < h,
    ;
}

proof fn lemma_cell_injective(w: int, x1: int, y1: int, x2: int, y2: int)
    requires
        0 <= x1 < w,
        0 <= x2 < w,
        0 <= y1,
        0 <= y2,
        cell(w, x1, y1) == cell(w, x2, y2),
    ensures
        x1 == x2,
        y1 == y2,
{
    assert(y1 == y2 && x1 == x2) by (nonlinear_arith)
        requires
            0 <= x1 < w,
            0 <= x2 < w,
            0 <= y1,
            0 <= y2,
            y1 * w + x1 == y2 * w + x2,
    ;
}

/// Number of `true` entries.
pub open spec fn count_true(s: Seq<bool>) -> nat
    decreases s.len(),
{
    if s.len() == 0 {
        0
    } else {
        count_true(s.drop_last()) + if s.last() { 1nat } else { 0nat }
    }
}

proof fn lemma_count_true_bound(s: Seq<bool>)
    ensures
        count_true(s) <= s.len(),
    decreases s.len(),
{
    if s.len() > 0 {
        lemma_count_true_bound(s.drop_last());
    }
}

proof fn lemma_count_true_none(s: Seq<bool>)
    requires
        forall|i: int| 0 <= i < s.len() ==> !s[i],
    ensures
        count_true(s) == 0,
    decreases s.len(),
{
    if s.len() > 0 {
        lemma_count_true_none(s.drop_last());
    }
}

proof fn lemma_count_true_set(s: Seq<bool>, i: int)
    requires
        0 <= i < s.len(),
        !s[i],
    ensures
        count_true(s.update(i, true)) == count_true(s) + 1,
    decreases s.len(),
{
    let t = s.update(i, true);
    if i == s.len() - 1 {
        assert(t.drop_last() =~= s.drop_last());
    } else {
        assert(t.drop_last() =~= s.drop_last().update(i, true));
        lemma_count_true_set(s.drop_last(), i);
    }
}

/// What the search keeps: every marked tile is in the region, and a marked
/// tile not waiting in the work list has all its fillable neighbors marked.
pub open spec fn search_state(
    visited: Seq<bool>,
    work: Seq<(u32, u32)>,
    mask: Seq<bool>,
    w: int,
    h: int,
    s: (int, int),
) -> bool {
    &&& visited.len() == w * h
    &&& forall|x: int, y: int|
        0 <= x < w && 0 <= y < h && #[trigger] visited[cell(w, x, y)] ==> in_region(mask, w, h, s, (x, y))
    &&& forall|k: int|
        0 <= k < work.len() ==> (work[k].0 as int) < w && (work[k].1 as int) < h && visited[cell(
            w,
            #[trigger] work[k].0 as int,
            work[k].1 as int,
        )]
    &&& forall|x: int, y: int, nx: int, ny: int|
        0 <= x < w && 0 <= y < h && #[trigger] visited[cell(w, x, y)] && open_tile(mask, w, h, (nx, ny))
            && adjacent((x, y), (nx, ny)) && !visited[#[trigger] cell(w, nx, ny)] ==> exists|k: int|
            0 <= k < work.len() && work[k] == (x as u32, y as u32)
}

/// A walk from a marked tile stays on marked tiles once nothing is left to
/// visit.
proof fn lemma_walk_visited(visited: Seq<bool>, mask: Seq<bool>, w: int, h: int, s: (int, int), p: Seq<(int, int)>)
    requires
        search_state(visited, Seq::empty(), mask, w, h, s),
        is_walk(mask, w, h, p),
        visited[cell(w, p[0].0, p[0].1)],
    ensures
        visited[cell(w, p.last().0, p.last().1)],
    decreases p.len(),
{
    if p.len() > 1 {
        let q = p.drop_last();
        assert forall|i: int| 0 <= i < q.len() implies open_tile(mask, w, h, #[trigger] q[i]) by {
            assert(q[i] == p[i]);
        }
        assert forall|i: int| 0 <= i < q.len() - 1 implies adjacent(#[trigger] q[i], q[i + 1]) by {
            assert(q[i] == p[i] && q[i + 1] == p[i + 1]);
        }
        lemma_walk_visited(visited, mask, w, h, s, q);
        let a = p[p.len() - 2];
        let b = p.last();
        assert(open_tile(mask, w, h, a));
        assert(open_tile(mask, w, h, b));
        assert(adjacent(a, b));
        if !visited[cell(w, b.0, b.1)] {
            assert(visited[cell(w, a.0, a.1)]);
        }
    }
}

/// `search_state`, except that tile `c0` (just taken off the work list) may
/// still have unmarked fillable neighbors.
pub open spec fn search_state_except(
    visited: Seq<bool>,
    work: Seq<(u32, u32)>,
    mask: Seq<bool>,
    w: int,
    h: int,
    s: (int, int),
    c0: (int, int),
) -> bool {
    &&& visited.len() == w * h
    &&& forall|x: int, y: int|
        0 <= x < w && 0 <= y < h && #[trigger] visited[cell(w, x, y)] ==> in_region(mask, w, h, s, (x, y))
    &&& forall|k: int|
        0 <= k < work.len() ==> (work[k].0 as int) < w && (work[k].1 as int) < h && visited[cell(
            w,
            #[trigger] work[k].0 as int,
            work[k].1 as int,
        )]
    &&& forall|x: int, y: int, nx: int, ny: int|
        0 <= x < w && 0 <= y < h && (x, y) != c0 && #[trigger] visited[cell(w, x, y)] && open_tile(
            mask,
            w,
            h,
            (nx, ny),
        ) && adjacent((x, y), (nx, ny)) && !visited[#[trigger] cell(w, nx, ny)] ==> exists|k: int|
            0 <= k < work.len() && work[k] == (x as u32, y as u32)
}

/// Marks tile `(nx, ny)`, a neighbor of the marked tile `c0`, and puts it on
/// the work list, when it is fillable and not marked yet.
fn visit(
    mask: &Vec<bool>,
    visited: &mut Vec<bool>,
    work: &mut Vec<(u32, u32)>,
    w: u32,
    h: u32,
    c0: (u32, u32),
    nx: u32,
    ny: u32,
    Ghost(s): Ghost<(int, int)>,
)
    requires
        mask@.len() == w * h,
        w * h <= u32::MAX,
        nx < w,
        ny < h,
        c0.0 < w,
        c0.1 < h,
        adjacent((c0.0 as int, c0.1 as int), (nx as int, ny as int)),
        old(visited)@[cell(w as int, c0.0 as int, c0.1 as int)],
        search_state_except(old(visited)@, old(work)@, mask@, w as int, h as int, s, (c0.0 as int, c0.1 as int)),
    ensures
        search_state_except(final(visited)@, final(work)@, mask@, w as int, h as int, s, (c0.0 as int, c0.1 as int)),
        open_tile(mask@, w as int, h as int, (nx as int, ny as int)) ==> final(visited)@[cell(w as int, nx as int, ny as int)],
        forall|i: int| 0 <= i < old(visited)@.len() && #[trigger] old(visited)@[i] ==> final(visited)@[i],
        count_true(final(visited)@) + old(work)@.len() == count_true(old(visited)@) + final(work)@.len(),
        final(work)@.len() >= old(work)@.len(),
{
    let ghost wi = w as int;
    let ghost hi = h as int;
    proof {
        lemma_cell_bounds(wi, hi, nx as int, ny as int);
    }
    let i = (ny * w + nx) as usize;
    if mask[i] && !visited[i] {
        let ghost v0 = visited@;
        let ghost k0 = work@;
        proof {
            lemma_count_true_set(v0, i as int);
            // The new tile extends a walk to `c0`.
            let c = (c0.0 as int, c0.1 as int);
            let n = (nx as int, ny as int);
            assert(in_region(mask@, wi, hi, s, c));
            let p = choose|p: Seq<(int, int)>| #[trigger] is_walk(mask@, wi, hi, p) && p[0] == s && p.last() == c;
            let q = p.push(n);
            assert forall|j: int| 0 <= j < q.len() implies open_tile(mask@, wi, hi, #[trigger] q[j]) by {
                if j < p.len() {
                    assert(q[j] == p[j]);
                }
            }
            assert forall|j: int| 0 <= j < q.len() - 1 implies adjacent(#[trigger] q[j], q[j + 1]) by {
                if j < p.len() - 1 {
                    assert(q[j] == p[j] && q[j + 1] == p[j + 1]);
                }
            }
            assert(is_walk(mask@, wi, hi, q) && q[0] == s && q.last() == n);
        }
        visited.set(i, true);
        work.push((nx, ny));
        proof {
            let v1 = visited@;
            let k1 = work@;
            assert forall|x: int, y: int|
                0 <= x < wi && 0 <= y < hi && #[trigger] v1[cell(wi, x, y)] implies in_region(mask@, wi, hi, s, (x, y)) by {
                lemma_cell_bounds(wi, hi, x, y);
                if cell(wi, x, y) == i as int {
                    lemma_cell_injective(wi, x, y, nx as int, ny as int);
                }
            }
            assert forall|k: int| 0 <= k < k1.len() implies (k1[k].0 as int) < wi && (k1[k].1 as int) < hi && v1[cell(
                wi,
                #[trigger] k1[k].0 as int,
                k1[k].1 as int,
            )] by {
                if k < k0.len() {
                    assert(k1[k] == k0[k]);
                    lemma_cell_bounds(wi, hi, k0[k].0 as int, k0[k].1 as int);
                }
            }
            assert forall|x: int, y: int, mx: int, my: int|
                0 <= x < wi && 0 <= y < hi && (x, y) != (c0.0 as int, c0.1 as int) && #[trigger] v1[cell(wi, x, y)]
                    && open_tile(mask@, wi, hi, (mx, my)) && adjacent((x, y), (mx, my)) && !v1[#[trigger] cell(
                    wi,
                    mx,
                    my,
                )] implies exists|k: int| 0 <= k < k1.len() && k1[k] == (x as u32, y as u32) by {
                lemma_cell_bounds(wi, hi, x, y);
                lemma_cell_bounds(wi, hi, mx, my);
                if cell(wi, x, y) == i as int {
                    lemma_cell_injective(wi, x, y, nx as int, ny as int);
                    assert(k1[k0.len() as int] == (x as u32, y as u32));
                } else {
                    assert(v0[cell(wi, x, y)]);
                    assert(!v0[cell(wi, mx, my)]);
                    let k = choose|k: int| 0 <= k < k0.len() && k0[k] == (x as u32, y as u32);
                    assert(k1[k] == k0[k]);
                }
            }
            assert forall|j: int| 0 <= j < v0.len() && #[trigger] v0[j] implies v1[j] by {}
        }
    }
}

proof fn lemma_pop_state(v0: Seq<bool>, k0: Seq<(u32, u32)>, mask: Seq<bool>, w: int, h: int, s: (int, int))
    requires
        search_state(v0, k0, mask, w, h, s),
        k0.len() > 0,
        0 < w <= u32::MAX,
        0 < h <= u32::MAX,
    ensures
        ({
            let c = k0.last();
            &&& (c.0 as int) < w && (c.1 as int) < h
            &&& v0[cell(w, c.0 as int, c.1 as int)]
            &&& search_state_except(v0, k0.drop_last(), mask, w, h, s, (c.0 as int, c.1 as int))
        }),
{
    let last = k0.len() - 1;
    let c = k0[last];
    assert((k0[last].0 as int) < w && (k0[last].1 as int) < h && v0[cell(w, k0[last].0 as int, k0[last].1 as int)]);
    let k1 = k0.drop_last();
    let c0 = (c.0 as int, c.1 as int);
    assert forall|k: int| 0 <= k < k1.len() implies (k1[k].0 as int) < w && (k1[k].1 as int) < h && v0[cell(
        w,
        #[trigger] k1[k].0 as int,
        k1[k].1 as int,
    )] by {
        assert(k1[k] == k0[k]);
    }
    assert forall|xx: int, yy: int, mx: int, my: int|
        0 <= xx < w && 0 <= yy < h && (xx, yy) != c0 && #[trigger] v0[cell(w, xx, yy)] && open_tile(
            mask,
            w,
            h,
            (mx, my),
        ) && adjacent((xx, yy), (mx, my)) && !v0[#[trigger] cell(w, mx, my)] implies exists|k: int|
        0 <= k < k1.len() && k1[k] == (xx as u32, yy as u32) by {
        let k = choose|k: int| 0 <= k < k0.len() && k0[k] == (xx as u32, yy as u32);
        assert(xx as u32 as int == xx && yy as u32 as int == yy);
        assert(k != last);
        assert(k1[k] == k0[k]);
    }
}

proof fn lemma_close_state(v1: Seq<bool>, k1: Seq<(u32, u32)>, mask: Seq<bool>, w: int, h: int, s: (int, int), c0: (int, int))
    requires
        search_state_except(v1, k1, mask, w, h, s, c0),
        forall|mx: int, my: int|
            open_tile(mask, w, h, (mx, my)) && adjacent(c0, (mx, my)) ==> #[trigger] v1[cell(w, mx, my)],
    ensures
        search_state(v1, k1, mask, w, h, s),
{
    assert forall|xx: int, yy: int, mx: int, my: int|
        0 <= xx < w && 0 <= yy < h && #[trigger] v1[cell(w, xx, yy)] && open_tile(mask, w, h, (mx, my))
            && adjacent((xx, yy), (mx, my)) && !v1[#[trigger] cell(w, mx, my)] implies exists|k: int|
        0 <= k < k1.len() && k1[k] == (xx as u32, yy as u32) by {
        if (xx, yy) == c0 {
            assert(v1[cell(w, mx, my)]);
        }
    }
}

/// Marks the fillable unmarked neighbors of `(x, y)`, just taken off the
/// work list, and puts them on it.
fn expand(mask: &Vec<bool>, visited: &mut Vec<bool>, work: &mut Vec<(u32, u32)>, w: u32, h: u32, x: u32, y: u32, Ghost(s): Ghost<(int, int)>)
    requires
        mask@.len() == w * h,
        w * h <= u32::MAX,
        x < w,
        y < h,
        old(visited)@[cell(w as int, x as int, y as int)],
        search_state_except(old(visited)@, old(work)@, mask@, w as int, h as int, s, (x as int, y as int)),
    ensures
        search_state(final(visited)@, final(work)@, mask@, w as int, h as int, s),
        forall|i: int| 0 <= i < old(visited)@.len() && #[trigger] old(visited)@[i] ==> final(visited)@[i],
        count_true(final(visited)@) + old(work)@.len() == count_true(old(visited)@) + final(work)@.len(),
        final(work)@.len() >= old(work)@.len(),
{
    let ghost wi = w as int;
    let ghost hi = h as int;
    let ghost c0 = (x as int, y as int);
    let ghost v_start = visited@;
    let ghost ci = cell(wi, x as int, y as int);
    proof {
        lemma_cell_bounds(wi, hi, x as int, y as int);
    }
    if x > 0 {
        visit(mask, visited, work, w, h, (x, y), x - 1, y, Ghost(s));
    }
    let ghost v_a = visited@;
    assert(v_a[ci]);
    if x + 1 < w {
        visit(mask, visited, work, w, h, (x, y), x + 1, y, Ghost(s));
    }
    let ghost v_b = visited@;
    assert(v_b[ci]);
    if y > 0 {
        visit(mask, visited, work, w, h, (x, y), x, y - 1, Ghost(s));
    }
    let ghost v_c = visited@;
    assert(v_c[ci]);
    if y + 1 < h {
        visit(mask, visited, work, w, h, (x, y), x, y + 1, Ghost(s));
    }
    proof {
        let v1 = visited@;
        assert forall|mx: int, my: int| open_tile(mask@, wi, hi, (mx, my)) && adjacent(c0, (mx, my)) implies #[trigger] v1[cell(
            wi,
            mx,
            my,
        )] by {
            lemma_cell_bounds(wi, hi, mx, my);
            if mx == x - 1 && my == y {
                assert(v_a[cell(wi, mx, my)]);
                assert(v_b[cell(wi, mx, my)]);
                assert(v_c[cell(wi, mx, my)]);
            } else if mx == x + 1 && my == y {
                assert(v_b[cell(wi, mx, my)]);
                assert(v_c[cell(wi, mx, my)]);
            } else if mx == x && my == y - 1 {
                assert(v_c[cell(wi, mx, my)]);
            }
        }
        lemma_close_state(v1, work@, mask@, wi, hi, s, c0);
        assert forall|i: int| 0 <= i < v_start.len() && #[trigger] v_start[i] implies v1[i] by {
            assert(v_a[i]);
            assert(v_b[i]);
            assert(v_c[i]);
        }
    }
}

/// The region reachable from `(sx, sy)` through fillable tiles, as a
/// row-major grid.
pub(crate) fn fill_region(mask: &Vec<bool>, sx: u32, sy: u32, w: u32, h: u32) -> (g: Vec<bool>)
    requires
        mask@.len() == w * h,
        w * h <= u32::MAX,
        sx < w,
        sy < h,
        mask@[cell(w as int, sx as int, sy as int)],
    ensures
        region_grid(g@, mask@, w as int, h as int, (sx as int, sy as int)),
{
    let ghost wi = w as int;
    let ghost hi = h as int;
    let ghost s = (sx as int, sy as int);
    proof {
        lemma_cell_bounds(wi, hi, sx as int, sy as int);
    }
    let n = (w * h) as usize;
    let mut visited: Vec<bool> = Vec::new();
    let mut j: usize = 0;
    while j < n
        invariant
            j <= n,
            visited@ =~= Seq::new(j as nat, |_i: int| false),
        decreases n - j,
    {
        visited.push(false);
        j = j + 1;
    }
    proof {
        lemma_count_true_none(visited@);
    }
    let si = (sy * w + sx) as usize;
    let ghost v_init = visited@;
    proof {
        lemma_count_true_set(v_init, si as int);
        // The start tile is reachable by the one-tile walk.
        let p = seq![s];
        assert(is_walk(mask@, wi, hi, p) && p[0] == s && p.last() == s);
    }
    visited.set(si, true);
    let mut work: Vec<(u32, u32)> = Vec::new();
    work.push((sx, sy));
    proof {
        let v = visited@;
        assert forall|x: int, y: int| 0 <= x < wi && 0 <= y < hi && #[trigger] v[cell(wi, x, y)] implies in_region(
            mask@,
            wi,
            hi,
            s,
            (x, y),
        ) by {
            lemma_cell_bounds(wi, hi, x, y);
            if cell(wi, x, y) != si as int {
                assert(!v_init[cell(wi, x, y)]);
            } else {
                lemma_cell_injective(wi, x, y, sx as int, sy as int);
            }
        }
        assert forall|x: int, y: int, mx: int, my: int|
            0 <= x < wi && 0 <= y < hi && #[trigger] v[cell(wi, x, y)] && open_tile(mask@, wi, hi, (mx, my)) && adjacent(
                (x, y),
                (mx, my),
            ) && !v[#[trigger] cell(wi, mx, my)] implies exists|k: int|
            0 <= k < work@.len() && work@[k] == (x as u32, y as u32) by {
            lemma_cell_bounds(wi, hi, x, y);
            if cell(wi, x, y) != si as int {
                assert(!v_init[cell(wi, x, y)]);
            } else {
                lemma_cell_injective(wi, x, y, sx as int, sy as int);
                assert(work@[0] == (x as u32, y as u32));
            }
        }
    }
    while work.len() > 0
        invariant
            wi == w as int,
            hi == h as int,
            s == (sx as int, sy as int),
            mask@.len() == w * h,
            w * h <= u32::MAX,
            n == w * h,
            search_state(visited@, work@, mask@, wi, hi, s),
            visited@[cell(wi, sx as int, sy as int)],
            count_true(visited@) <= n,
        decreases 2 * (n - count_true(visited@)) + work@.len(),
    {
        let ghost v0 = visited@;
        let ghost k0 = work@;
        let (x, y) = work.pop().unwrap();
        proof {
            assert(k0.drop_last() =~= work@);
            lemma_pop_state(v0, k0, mask@, wi, hi, s);
        }
        let ghost mid_len = work@.len();
        expand(mask, &mut visited, &mut work, w, h, x, y, Ghost(s));
        proof {
            lemma_count_true_bound(visited@);
            assert(mid_len + 1 == k0.len());
            assert(count_true(visited@) + mid_len == count_true(v0) + work@.len());
            assert(2 * (n - count_true(visited@)) + work@.len() < 2 * (n - count_true(v0)) + k0.len());
            lemma_cell_bounds(wi, hi, sx as int, sy as int);
        }
    }
    proof {
        let v = visited@;
        assert(work@ =~= Seq::<(u32, u32)>::empty());
        assert forall|x: int, y: int| 0 <= x < wi && 0 <= y < hi implies (#[trigger] v[cell(wi, x, y)] <==> in_region(
            mask@,
            wi,
            hi,
            s,
            (x, y),
        )) by {
            if in_region(mask@, wi, hi, s, (x, y)) {
                let p = choose|p: Seq<(int, int)>| #[trigger] is_walk(mask@, wi, hi, p) && p[0] == s && p.last() == (x, y);
                lemma_walk_visited(v, mask@, wi, hi, s, p);
            }
        }
    }
    visited
}


// ---------------------------------------------------------------------------
// Runs and rectangles
// ---------------------------------------------------------------------------

/// Where the run of region tiles from column `x` of row `y` on ends.
pub open spec fn run_end(g: Seq<bool>, w: int, y: int, x: int) -> int
    decreases w - x,
{
    if x >= w || !g[cell(w, x, y)] {
        x
    } else {
        run_end(g, w, y, x + 1)
    }
}

pub proof fn lemma_run_end_ge(g: Seq<bool>, w: int, y: int, x: int)
    ensures
        run_end(g, w, y, x) >= x,
        x <= w ==> run_end(g, w, y, x) <= w,
    decreases w - x,
{
    if !(x >= w || !g[cell(w, x, y)]) {
        lemma_run_end_ge(g, w, y, x + 1);
    }
}

/// The maximal runs of region tiles of row `y` from column `x` on, left to
/// right, as `(x, y, width)`.
pub open spec fn row_runs(g: Seq<bool>, w: int, y: int, x: int) -> Seq<(u32, u32, u32)>
    decreases w - x,
{
    if x >= w {
        Seq::empty()
    } else if !g[cell(w, x, y)] {
        row_runs(g, w, y, x + 1)
    } else {
        let e = run_end(g, w, y, x + 1);
        proof {
            lemma_run_end_ge(g, w, y, x + 1);
        }
        seq![(x as u32, y as u32, (e - x) as u32)] + row_runs(g, w, y, e)
    }
}

/// The maximal runs of all rows from row `y` down, row by row.
pub open spec fn grid_runs(g: Seq<bool>, w: int, h: int, y: int) -> Seq<(u32, u32, u32)>
    decreases h - y,
{
    if y >= h {
        Seq::empty()
    } else {
        row_runs(g, w, y, 0) + grid_runs(g, w, h, y + 1)
    }
}

/// The sort key of a run: `x`, then width, then `y`.
pub open spec fn run_key(r: (u32, u32, u32)) -> int {
    r.0 * 0x1_0000_0000_0000_0000 + r.2 * 0x1_0000_0000 + r.1
}

pub open spec fn sorted_by_key(s: Seq<(u32, u32, u32)>) -> bool {
    forall|i: int, j: int| 0 <= i < j < s.len() ==> run_key(#[trigger] s[i]) <= run_key(#[trigger] s[j])
}

/// Runs merged into rectangles `(x, y, w, h)`: a run below a rectangle of
/// the same `x` and width grows it by one row.
pub open spec fn merge_runs(s: Seq<(u32, u32, u32)>) -> Seq<(u32, u32, u32, u32)>
    decreases s.len(),
{
    if s.len() == 0 {
        Seq::empty()
    } else {
        let m = merge_runs(s.drop_last());
        let (x, y, w) = s.last();
        if m.len() > 0 && m.last().0 == x && m.last().2 == w && m.last().1 + m.last().3 == y {
            m.drop_last().push((x, m.last().1, w, (m.last().3 + 1) as u32))
        } else {
            m.push((x, y, w, 1u32))
        }
    }
}

fn key_lt(a: (u32, u32, u32), b: (u32, u32, u32)) -> (r: bool)
    ensures
        r == (run_key(a) < run_key(b)),
{
    a.0 < b.0 || (a.0 == b.0 && (a.2 < b.2 || (a.2 == b.2 && a.1 < b.1)))
}

/// The runs ordered by their key.
fn sort_runs(runs: &Vec<(u32, u32, u32)>) -> (r: Vec<(u32, u32, u32)>)
    ensures
        sorted_by_key(r@),
        r@.to_multiset() == runs@.to_multiset(),
{
    let mut out: Vec<(u32, u32, u32)> = Vec::new();
    let mut i: usize = 0;
    assert(out@ =~= runs@.take(0));
    while i < runs.len()
        invariant
            i <= runs.len(),
            sorted_by_key(out@),
            out@.to_multiset() == runs@.take(i as int).to_multiset(),
        decreases runs.len() - i,
    {
        let item = runs[i];
        let mut j: usize = 0;
        while j < out.len() && !key_lt(item, out[j])
            invariant
                j <= out.len(),
                forall|k: int| 0 <= k < j ==> run_key(#[trigger] out@[k]) <= run_key(item),
            decreases out.len() - j,
        {
            j = j + 1;
        }
        let ghost before = out@;
        out.insert(j, item);
        proof {
            broadcast use vstd::seq_lib::to_multiset_insert, vstd::seq_lib::to_multiset_build;
            assert(runs@.take(i + 1) =~= runs@.take(i as int).push(item));
            assert(j < before.len() ==> run_key(item) < run_key(before[j as int]));
            assert forall|a: int, b: int| 0 <= a < b < out@.len() implies run_key(#[trigger] out@[a]) <= run_key(
                #[trigger] out@[b],
            ) by {
                if a < j && b < j {
                    assert(out@[a] == before[a] && out@[b] == before[b]);
                } else if a < j && b == j {
                    assert(out@[a] == before[a]);
                } else if a < j {
                    assert(out@[a] == before[a] && out@[b] == before[b - 1]);
                } else if a == j {
                    assert(out@[b] == before[b - 1]);
                    assert(run_key(before[j as int]) <= run_key(before[b - 1]));
                } else {
                    assert(out@[a] == before[a - 1] && out@[b] == before[b - 1]);
                }
            }
        }
        i = i + 1;
    }
    assert(runs@.take(runs.len() as int) =~= runs@);
    out
}

/// The maximal runs of the region grid, row by row.
fn collect_runs(g: &Vec<bool>, w: u32, h: u32) -> (r: Vec<(u32, u32, u32)>)
    requires
        g@.len() == w * h,
        w * h <= u32::MAX,
    ensures
        r@ == grid_runs(g@, w as int, h as int, 0),
{
    let ghost wi = w as int;
    let ghost hi = h as int;
    let mut runs: Vec<(u32, u32, u32)> = Vec::new();
    let mut y: u32 = 0;
    while y < h
        invariant
            wi == w as int,
            hi == h as int,
            g@.len() == w * h,
            w * h <= u32::MAX,
            y <= h,
            runs@ + grid_runs(g@, wi, hi, y as int) == grid_runs(g@, wi, hi, 0),
        decreases h - y,
    {
        let ghost row_start = runs@;
        assert(y * w + w <= w * h) by (nonlinear_arith)
            requires
                y < h,
        ;
        let mut x: u32 = 0;
        while x < w
            invariant
                wi == w as int,
                hi == h as int,
                g@.len() == w * h,
                w * h <= u32::MAX,
                y * w + w <= w * h,
                y < h,
                x <= w,
                runs@ + row_runs(g@, wi, y as int, x as int) == row_start + row_runs(g@, wi, y as int, 0),
            decreases w - x,
        {
            proof {
                lemma_cell_bounds(wi, hi, x as int, y as int);
            }
            if g[(y * w + x) as usize] {
                let x0 = x;
                x = x + 1;
                while x < w && g[(y * w + x) as usize]
                    invariant
                        wi == w as int,
                        hi == h as int,
                        g@.len() == w * h,
                        w * h <= u32::MAX,
                        y * w + w <= w * h,
                        y < h,
                        x0 < x <= w,
                        run_end(g@, wi, y as int, x0 as int + 1) == run_end(g@, wi, y as int, x as int),
                    decreases w - x,
                {
                    proof {
                        lemma_cell_bounds(wi, hi, x as int, y as int);
                    }
                    x = x + 1;
                }
                proof {
                    if x < w {
                        lemma_cell_bounds(wi, hi, x as int, y as int);
                    }
                    assert(run_end(g@, wi, y as int, x as int) == x as int);
                    let rest = row_runs(g@, wi, y as int, x as int);
                    let run = (x0, y, (x - x0) as u32);
                    assert(row_runs(g@, wi, y as int, x0 as int) == seq![run] + rest);
                    assert(runs@.push(run) + rest =~= runs@ + (seq![run] + rest));
                }
                runs.push((x0, y, x - x0));
            } else {
                x = x + 1;
            }
        }
        proof {
            assert(row_runs(g@, wi, y as int, x as int) =~= Seq::<(u32, u32, u32)>::empty());
            assert(runs@ =~= row_start + row_runs(g@, wi, y as int, 0));
            assert(grid_runs(g@, wi, hi, y as int) == row_runs(g@, wi, y as int, 0) + grid_runs(g@, wi, hi, y + 1));
            assert(row_start + grid_runs(g@, wi, hi, y as int) =~= runs@ + grid_runs(g@, wi, hi, y + 1));
        }
        y = y + 1;
    }
    assert(runs@ + Seq::<(u32, u32, u32)>::empty() =~= runs@);
    runs
}

/// Runs merged into rectangles.
fn merge(runs: &Vec<(u32, u32, u32)>) -> (r: Vec<(u32, u32, u32, u32)>)
    requires
        forall|i: int| 0 <= i < runs@.len() ==> (#[trigger] runs@[i]).1 < u32::MAX,
    ensures
        r@ == merge_runs(runs@),
{
    let mut rects: Vec<(u32, u32, u32, u32)> = Vec::new();
    let mut i: usize = 0;
    while i < runs.len()
        invariant
            i <= runs.len(),
            rects@ == merge_runs(runs@.take(i as int)),
            forall|i: int| 0 <= i < runs@.len() ==> (#[trigger] runs@[i]).1 < u32::MAX,
            forall|k: int| 0 <= k < rects@.len() ==> (#[trigger] rects@[k]).1 + rects@[k].3 <= u32::MAX,
        decreases runs.len() - i,
    {
        let (x, y, w) = runs[i];
        assert(runs@[i as int].1 < u32::MAX);
        let ghost r0 = rects@;
        proof {
            assert(runs@.take(i + 1).drop_last() =~= runs@.take(i as int));
        }
        let n = rects.len();
        if n > 0 && rects[n - 1].0 == x && rects[n - 1].2 == w && rects[n - 1].1 + rects[n - 1].3 == y {
            let last = rects[n - 1];
            assert(r0[n - 1].1 + r0[n - 1].3 <= u32::MAX);
            rects.set(n - 1, (x, last.1, w, last.3 + 1));
            proof {
                assert forall|k: int| 0 <= k < rects@.len() implies (#[trigger] rects@[k]).1 + rects@[k].3 <= u32::MAX by {
                    if k < n - 1 {
                        assert(rects@[k] == r0[k]);
                    }
                }
                assert(rects@ =~= merge_runs(runs@.take(i as int)).drop_last().push((x, last.1, w, (last.3 + 1) as u32)));
            }
        } else {
            rects.push((x, y, w, 1));
            proof {
                assert forall|k: int| 0 <= k < rects@.len() implies (#[trigger] rects@[k]).1 + rects@[k].3 <= u32::MAX by {
                    if k < n {
                        assert(rects@[k] == r0[k]);
                    }
                }
            }
        }
        i = i + 1;
    }
    assert(runs@.take(runs.len() as int) =~= runs@);
    rects
}


proof fn lemma_row_runs_y(g: Seq<bool>, w: int, y: int, x: int)
    requires
        0 <= y <= u32::MAX,
    ensures
        forall|k: int| 0 <= k < row_runs(g, w, y, x).len() ==> (#[trigger] row_runs(g, w, y, x)[k]).1 == y,
    decreases w - x,
{
    if x >= w {
    } else if !g[cell(w, x, y)] {
        lemma_row_runs_y(g, w, y, x + 1);
        assert(row_runs(g, w, y, x) == row_runs(g, w, y, x + 1));
    } else {
        let e = run_end(g, w, y, x + 1);
        lemma_run_end_ge(g, w, y, x + 1);
        lemma_row_runs_y(g, w, y, e);
        let rest = row_runs(g, w, y, e);
        let run = (x as u32, y as u32, (e - x) as u32);
        assert(row_runs(g, w, y, x) == seq![run] + rest);
        assert forall|k: int| 0 <= k < row_runs(g, w, y, x).len() implies (#[trigger] row_runs(g, w, y, x)[k]).1 == y by {
            if k == 0 {
                assert(row_runs(g, w, y, x)[0] == run);
            } else {
                assert(row_runs(g, w, y, x)[k] == rest[k - 1]);
            }
        }
    }
}

proof fn lemma_grid_runs_y(g: Seq<bool>, w: int, h: int, y: int)
    requires
        0 <= y,
        h <= u32::MAX,
    ensures
        forall|k: int| 0 <= k < grid_runs(g, w, h, y).len() ==> (#[trigger] grid_runs(g, w, h, y)[k]).1 < h,
    decreases h - y,
{
    if y < h {
        lemma_row_runs_y(g, w, y, 0);
        lemma_grid_runs_y(g, w, h, y + 1);
        let a = row_runs(g, w, y, 0);
        let b = grid_runs(g, w, h, y + 1);
        assert forall|k: int| 0 <= k < grid_runs(g, w, h, y).len() implies (#[trigger] grid_runs(g, w, h, y)[k]).1 < h by {
            if k < a.len() {
                assert(grid_runs(g, w, h, y)[k] == a[k]);
            } else {
                assert(grid_runs(g, w, h, y)[k] == b[k - a.len()]);
            }
        }
    }
}

/// The rectangles of the region reachable from `(sx, sy)` through fillable
/// tiles (4-connected), `fillable` being the level's `level_w`×`level_h`
/// grid, row by row. The region's maximal horizontal runs of each row,
/// ordered by `(x, w, y)`, are merged where runs of the same `x` and `w` sit
/// on consecutive rows; the rectangles are `(x, y, w, h)` in tiles. No
/// rectangle when the start lies outside the level or is not fillable.
pub fn flood_fill_runs(fillable: &Vec<bool>, sx: u32, sy: u32, level_w: u32, level_h: u32) -> (r: Vec<(u32, u32, u32, u32)>)
    requires
        fillable@.len() == level_w * level_h,
        level_w * level_h <= u32::MAX,
    ensures
        !(sx < level_w && sy < level_h && fillable@[cell(level_w as int, sx as int, sy as int)]) ==> r@.len() == 0,
        sx < level_w && sy < level_h && fillable@[cell(level_w as int, sx as int, sy as int)] ==> exists|
            g: Seq<bool>,
            s: Seq<(u32, u32, u32)>,
        |
            #![trigger region_grid(g, fillable@, level_w as int, level_h as int, (sx as int, sy as int)), merge_runs(s)]
            region_grid(g, fillable@, level_w as int, level_h as int, (sx as int, sy as int)) && sorted_by_key(s)
                && s.to_multiset() == grid_runs(g, level_w as int, level_h as int, 0).to_multiset() && r@ == merge_runs(
                s,
            ),
{
    if sx >= level_w || sy >= level_h {
        return Vec::new();
    }
    proof {
        lemma_cell_bounds(level_w as int, level_h as int, sx as int, sy as int);
    }
    if !fillable[(sy * level_w + sx) as usize] {
        return Vec::new();
    }
    let g = fill_region(fillable, sx, sy, level_w, level_h);
    let runs = collect_runs(&g, level_w, level_h);
    let sorted = sort_runs(&runs);
    proof {
        broadcast use vstd::seq_lib::group_to_multiset_ensures;
        lemma_grid_runs_y(g@, level_w as int, level_h as int, 0);
        assert forall|i: int| 0 <= i < sorted@.len() implies (#[trigger] sorted@[i]).1 < u32::MAX by {
            assert(sorted@.to_multiset().count(sorted@[i]) > 0);
            assert(runs@.to_multiset().count(sorted@[i]) > 0);
            assert(runs@.contains(sorted@[i]));
        }
    }
    let rects = merge(&sorted);
    proof {
        assert(region_grid(g@, fillable@, level_w as int, level_h as int, (sx as int, sy as int)) && merge_runs(sorted@) == rects@);
    }
    rects
}

} // verus!
