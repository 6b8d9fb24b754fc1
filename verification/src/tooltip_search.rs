//! The search filter of the custom tooltip window: which object ids the list
//! shows for a search text.
use vstd::prelude::*;
use crate::text::{chars_of, push_char, trim, trim_range};

verus! {

/// What `str::to_lowercase` returns for a text: its Unicode lower-case mapping.
pub uninterp spec fn lowercase(s: Seq<char>) -> Seq<char>;

/// Lower-cases a text with `str::to_lowercase`; the result is `lowercase` of
/// the text, a function of the text alone (Unicode's tables, no locale).
#[verifier::external_body]
fn to_lowercase(s: &str) -> (r: String)
    ensures
        r@ == lowercase(s@),
{
    s.to_lowercase()
}

/// `needle` occurs in `hay` starting at `i`.
pub open spec fn occurs_at(hay: Seq<char>, needle: Seq<char>, i: int) -> bool {
    0 <= i && i + needle.len() <= hay.len() && hay.subrange(i, i + needle.len()) == needle
}

/// `needle` occurs somewhere in `hay` (`str::contains`); the empty text occurs everywhere.
pub open spec fn contains_text(hay: Seq<char>, needle: Seq<char>) -> bool {
    exists|i: int| occurs_at(hay, needle, i)
}

/// The lower-case hex digit of `v` (0..16).
pub open spec fn lower_digit(v: nat) -> char {
    if v < 10 {
        (0x30 + v) as char
    } else {
        (0x61 + v - 10) as char
    }
}

/// An id as two lower-case hex digits (`{:02x}`).
pub open spec fn hex2_lower(id: u8) -> Seq<char> {
    seq![lower_digit((id / 16) as nat), lower_digit((id % 16) as nat)]
}

/// Whether the list shows `id` for a search text that is already trimmed and
/// lower-cased, given the id's lower-cased tooltip: every id when the search
/// is empty, else those whose hex id or tooltip contains it.
pub open spec fn id_matches(search: Seq<char>, id: u8, tip: Option<Seq<char>>) -> bool {
    ||| search.len() == 0
    ||| contains_text(hex2_lower(id), search)
    ||| (tip is Some && contains_text(tip->0, search))
}

/// The lower-cased tooltip of `id`, where one is set.
pub open spec fn lowered_tip(tips: Seq<Option<String>>, id: u8) -> Option<Seq<char>> {
    if (id as int) < tips.len() && tips[id as int] is Some {
        Some(lowercase(tips[id as int]->0@))
    } else {
        None
    }
}

/// Whether `needle` occurs in `hay` (`str::contains`).
pub fn contains_chars(hay: &Vec<char>, needle: &Vec<char>) -> (b: bool)
    ensures
        b == contains_text(hay@, needle@),
{
    let n = needle.len();
    if n > hay.len() {
        proof {
            assert forall|i: int| !occurs_at(hay@, needle@, i) by {}
        }
        return false;
    }
    let mut i: usize = 0;
    while i <= hay.len() - n
        invariant
            n == needle@.len(),
            n <= hay@.len(),
            i <= hay@.len() - n + 1,
            forall|k: int| 0 <= k < i ==> !occurs_at(hay@, needle@, k),
        decreases hay@.len() - i,
    {
        let mut j: usize = 0;
        let mut same = true;
        while j < n
            invariant
                n == needle@.len(),
                i + n <= hay.len(),
                j <= n,
                same == (forall|m: int| 0 <= m < j ==> hay@[i + m] == needle@[m]),
            decreases n - j,
        {
            if hay[i + j] != needle[j] {
                same = false;
            }
            j = j + 1;
        }
        if same {
            assert(hay@.subrange(i as int, i + n) =~= needle@);
            assert(occurs_at(hay@, needle@, i as int));
            return true;
        }
        proof {
            assert(!occurs_at(hay@, needle@, i as int)) by {
                if occurs_at(hay@, needle@, i as int) {
                    assert forall|m: int| 0 <= m < n implies hay@[i + m] == needle@[m] by {
                        assert(hay@.subrange(i as int, i + n)[m] == hay@[i + m]);
                    }
                }
            }
        }
        i = i + 1;
    }
    proof {
        assert forall|k: int| !occurs_at(hay@, needle@, k) by {
            if 0 <= k < i {
            }
        }
    }
    false
}

fn lower_digit_exec(v: u8) -> (c: char)
    requires
        v < 16,
    ensures
        c == lower_digit(v as nat),
{
    if v < 10 {
        ((0x30u8 + v) as char)
    } else {
        ((0x61u8 + v - 10) as char)
    }
}

/// Whether the list shows `id`, for a search text already trimmed and
/// lower-cased and the id's lower-cased tooltip.
pub fn id_matches_lowered(search: &Vec<char>, id: u8, tip: Option<&Vec<char>>) -> (b: bool)
    ensures
        b == id_matches(
            search@,
            id,
            match tip {
                Some(t) => Some(t@),
                None => None,
            },
        ),
{
    if search.len() == 0 {
        return true;
    }
    let hex = vec![lower_digit_exec(id / 16), lower_digit_exec(id % 16)];
    assert(hex@ =~= hex2_lower(id));
    if contains_chars(&hex, search) {
        return true;
    }
    match tip {
        Some(t) => contains_chars(t, search),
        None => false,
    }
}

/// The characters of `s` from `lo` to `hi` as a string.
fn string_of(s: &Vec<char>, lo: usize, hi: usize) -> (r: String)
    requires
        lo <= hi <= s@.len(),
    ensures
        r@ == s@.subrange(lo as int, hi as int),
{
    let mut r = String::new();
    let mut k = lo;
    while k < hi
        invariant
            lo <= k <= hi <= s@.len(),
            r@ == s@.subrange(lo as int, k as int),
        decreases hi - k,
    {
        push_char(&mut r, s[k]);
        assert(r@ =~= s@.subrange(lo as int, k + 1));
        k = k + 1;
    }
    r
}

/// The ids, ascending, that the custom tooltip list shows for `search`:
/// the search text is trimmed and lower-cased; `tips[id]` is the tooltip of
/// `id` (none where the entry is `None` or past the end).
pub fn tooltip_search_ids(search: &str, tips: &Vec<Option<String>>) -> (ids: Vec<u8>)
    ensures
        forall|i: int, j: int| 0 <= i < j < ids@.len() ==> ids@[i] < ids@[j],
        forall|id: u8|
            ids@.contains(id) <==> id_matches(
                lowercase(trim(search@)),
                id,
                lowered_tip(tips@, id),
            ),
{
    let chars = chars_of(search);
    let (lo, hi) = trim_range(&chars, 0, chars.len());
    let trimmed = string_of(&chars, lo, hi);
    assert(chars@.subrange(0, chars@.len() as int) =~= chars@);
    assert(trimmed@ == trim(search@));
    let lowered = to_lowercase(trimmed.as_str());
    let needle = chars_of(lowered.as_str());
    let ghost key = lowercase(trim(search@));
    let mut ids: Vec<u8> = Vec::new();
    let mut n: u16 = 0;
    while n < 256
        invariant
            n <= 256,
            needle@ == key,
            forall|i: int, j: int| 0 <= i < j < ids@.len() ==> ids@[i] < ids@[j],
            forall|i: int| 0 <= i < ids@.len() ==> (ids@[i] as int) < n,
            forall|id: u8|
                (id as int) < n ==> (ids@.contains(id) <==> id_matches(
                    key,
                    id,
                    lowered_tip(tips@, id),
                )),
        decreases 256 - n,
    {
        let id = n as u8;
        let shown = if needle.len() == 0 {
            true
        } else if id_matches_lowered(&needle, id, None) {
            true
        } else if (id as usize) < tips.len() {
            match &tips[id as usize] {
                Some(t) => {
                    let tl = to_lowercase(t.as_str());
                    let tc = chars_of(tl.as_str());
                    id_matches_lowered(&needle, id, Some(&tc))
                },
                None => false,
            }
        } else {
            false
        };
        assert(shown == id_matches(key, id, lowered_tip(tips@, id)));
        let ghost before = ids@;
        if shown {
            ids.push(id);
        }
        proof {
            assert forall|x: u8| (x as int) < n + 1 implies (ids@.contains(x) <==> id_matches(
                key,
                x,
                lowered_tip(tips@, x),
            )) by {
                if x == id {
                    if shown {
                        assert(ids@[ids@.len() - 1] == x);
                    } else {
                        assert(ids@ == before);
                        if before.contains(x) {
                            let k = choose|k: int| 0 <= k < before.len() && before[k] == x;
                            assert(before[k] < n);
                        }
                    }
                } else {
                    assert((x as int) < n);
                    if shown {
                        if ids@.contains(x) {
                            let k = choose|k: int| 0 <= k < ids@.len() && ids@[k] == x;
                            assert(k < before.len());
                            assert(before[k] == x);
                        }
                        if before.contains(x) {
                            let k = choose|k: int| 0 <= k < before.len() && before[k] == x;
                            assert(ids@[k] == x);
                        }
                    }
                }
            }
        }
        n = n + 1;
    }
    ids
}

} // verus!
