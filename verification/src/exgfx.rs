//! ExGFX file numbering and which levels use each file.
use vstd::prelude::*;

verus! {

/// The lowest index from `i` to `last` that `used` does not hold.
pub open spec fn lowest_free_from(used: Seq<u16>, i: int, last: int) -> Option<int>
    decreases last + 1 - i,
{
    if i > last {
        None
    } else if used.contains(i as u16) {
        lowest_free_from(used, i + 1, last)
    } else {
        Some(i)
    }
}

/// The lowest ExGFX index in `first..=last` that no file uses yet, or
/// `last` when the range is full.
pub fn lowest_free_exgfx_index(used: &Vec<u16>, first: u16, last: u16) -> (r: u16)
    ensures
        r as int == match lowest_free_from(used@, first as int, last as int) {
            Some(i) => i,
            None => last as int,
        },
{
    let mut i: u32 = first as u32;
    while i <= last as u32
        invariant
            first <= i,
            lowest_free_from(used@, first as int, last as int) == lowest_free_from(used@, i as int, last as int),
        decreases last as u32 + 1 - i,
    {
        let candidate = i as u16;
        let mut k: usize = 0;
        let mut taken = false;
        while k < used.len()
            invariant
                k <= used@.len(),
                taken <==> exists|j: int| 0 <= j < k && used@[j] == candidate,
            decreases used.len() - k,
        {
            if used[k] == candidate {
                taken = true;
            }
            k = k + 1;
        }
        proof {
            if taken {
                let j = choose|j: int| 0 <= j < used@.len() && used@[j] == candidate;
                assert(used@.contains(candidate));
            } else {
                assert(!used@.contains(candidate));
            }
        }
        if !taken {
            return candidate;
        }
        i = i + 1;
    }
    last
}

/// Level `level` has an entry in `levels` whose bypass slots hold file `idx`.
pub open spec fn level_uses(levels: Seq<(u16, Vec<u16>)>, level: u16, idx: u16) -> bool {
    exists|k: int| 0 <= k < levels.len() && levels[k].0 == level && (#[trigger] levels[k].1@).contains(idx)
}

/// No level has two entries (the bypass table is keyed by level).
pub open spec fn distinct_levels(levels: Seq<(u16, Vec<u16>)>) -> bool {
    forall|a: int, b: int| 0 <= a < b < levels.len() ==> #[trigger] levels[a].0 != #[trigger] levels[b].0
}

/// Strictly ascending.
pub open spec fn ascending(v: Seq<u16>) -> bool {
    forall|a: int, b: int| 0 <= a < b < v.len() ==> v[a] < v[b]
}

fn holds(v: &Vec<u16>, x: u16) -> (b: bool)
    ensures
        b == v@.contains(x),
{
    let mut k: usize = 0;
    while k < v.len()
        invariant
            k <= v@.len(),
            forall|j: int| 0 <= j < k ==> v@[j] != x,
        decreases v.len() - k,
    {
        if v[k] == x {
            assert(v@[k as int] == x);
            return true;
        }
        k = k + 1;
    }
    false
}

/// Inserts `x` into an ascending vector that lacks it, keeping it ascending.
fn insert_ascending(v: &mut Vec<u16>, x: u16)
    requires
        ascending(old(v)@),
        !old(v)@.contains(x),
    ensures
        ascending(final(v)@),
        forall|y: u16| final(v)@.contains(y) <==> (old(v)@.contains(y) || y == x),
{
    let mut p: usize = 0;
    while p < v.len() && v[p] < x
        invariant
            p <= v@.len(),
            forall|j: int| 0 <= j < p ==> v@[j] < x,
        decreases v.len() - p,
    {
        p = p + 1;
    }
    let ghost before = v@;
    proof {
        if p < before.len() {
            assert(before[p as int] != x) by {
                assert(before.contains(before[p as int]));
            }
        }
    }
    v.insert(p, x);
    proof {
        assert(v@ == before.insert(p as int, x));
        assert forall|a: int, b: int| 0 <= a < b < v@.len() implies v@[a] < v@[b] by {
            if b < p {
            } else if b == p {
            } else if a < p {
                assert(before[b - 1] > x || before[b - 1] == x || before[b - 1] < x);
                assert(before[p as int] > x);
                assert(v@[b] == before[b - 1]);
                if b - 1 > p {
                    assert(before[p as int] < before[b - 1]);
                }
            } else if a == p {
                assert(v@[b] == before[b - 1]);
                if b - 1 > p {
                    assert(before[p as int] < before[b - 1]);
                }
            } else {
                assert(v@[a] == before[a - 1] && v@[b] == before[b - 1]);
            }
        }
        assert forall|y: u16| v@.contains(y) <==> (before.contains(y) || y == x) by {
            if v@.contains(y) {
                let k = choose|k: int| 0 <= k < v@.len() && v@[k] == y;
                if k < p {
                    assert(before[k] == y);
                } else if k > p {
                    assert(before[k - 1] == y);
                }
            }
            if before.contains(y) {
                let k = choose|k: int| 0 <= k < before.len() && before[k] == y;
                if k < p {
                    assert(v@[k] == y);
                } else {
                    assert(v@[k + 1] == y);
                }
            }
            if y == x {
                assert(v@[p as int] == x);
            }
        }
    }
}

/// The levels whose bypass slots use ExGFX file `idx`, ascending.
pub fn levels_using(idx: u16, levels: &Vec<(u16, Vec<u16>)>) -> (r: Vec<u16>)
    requires
        distinct_levels(levels@),
    ensures
        ascending(r@),
        forall|l: u16| r@.contains(l) <==> level_uses(levels@, l, idx),
{
    let mut r: Vec<u16> = Vec::new();
    let mut k: usize = 0;
    while k < levels.len()
        invariant
            k <= levels@.len(),
            distinct_levels(levels@),
            ascending(r@),
            forall|l: u16|
                r@.contains(l) <==> exists|m: int|
                    0 <= m < k && levels@[m].0 == l && (#[trigger] levels@[m].1@).contains(idx),
        decreases levels.len() - k,
    {
        if holds(&levels[k].1, idx) {
            let level = levels[k].0;
            proof {
                if r@.contains(level) {
                    let m = choose|m: int|
                        0 <= m < k && levels@[m].0 == level && (#[trigger] levels@[m].1@).contains(idx);
                    assert(levels@[m].0 != levels@[k as int].0);
                }
            }
            let ghost before = r@;
            insert_ascending(&mut r, level);
            proof {
                assert forall|l: u16|
                    r@.contains(l) <==> exists|m: int|
                        0 <= m < k + 1 && levels@[m].0 == l && (#[trigger] levels@[m].1@).contains(idx) by {
                    if l == level {
                        assert(levels@[k as int].1@.contains(idx));
                    }
                }
            }
        }
        k = k + 1;
    }
    proof {
        assert forall|l: u16| r@.contains(l) <==> level_uses(levels@, l, idx) by {
            if level_uses(levels@, l, idx) {
                let m = choose|m: int|
                    0 <= m < levels@.len() && levels@[m].0 == l && (#[trigger] levels@[m].1@).contains(idx);
                assert(levels@[m].1@.contains(idx));
            }
        }
    }
    r
}

/// The ExGFX manager's "Levels using" column: each file of `files`, in
/// order, with the levels whose bypass slots use it, ascending.
pub fn exgfx_users(files: &Vec<u16>, levels: &Vec<(u16, Vec<u16>)>) -> (r: Vec<(u16, Vec<u16>)>)
    requires
        distinct_levels(levels@),
    ensures
        r@.len() == files@.len(),
        forall|k: int|
            0 <= k < r@.len() ==> {
                &&& (#[trigger] r@[k]).0 == files@[k]
                &&& ascending(r@[k].1@)
                &&& forall|l: u16| r@[k].1@.contains(l) <==> level_uses(levels@, l, files@[k])
            },
{
    let mut r: Vec<(u16, Vec<u16>)> = Vec::new();
    let mut k: usize = 0;
    while k < files.len()
        invariant
            k <= files@.len(),
            r@.len() == k,
            distinct_levels(levels@),
            forall|m: int|
                0 <= m < k ==> {
                    &&& (#[trigger] r@[m]).0 == files@[m]
                    &&& ascending(r@[m].1@)
                    &&& forall|l: u16| r@[m].1@.contains(l) <==> level_uses(levels@, l, files@[m])
                },
        decreases files.len() - k,
    {
        let users = levels_using(files[k], levels);
        r.push((files[k], users));
        k = k + 1;
    }
    r
}

} // verus!
