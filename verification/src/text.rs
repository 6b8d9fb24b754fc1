//! Character-level text primitives shared by every parser and formatter of
//! the editor: whitespace trimming, splitting at a delimiter, decimal and
//! hexadecimal number parsing, and number formatting.
//!
//! Every parser here works on a `Vec<char>` (the characters of the input
//! text) and a half-open index range into it, so that nested splits never
//! copy.  Each executable function is tied to a spec function over
//! `Seq<char>` that states, in the most direct form, what std's `str`
//! methods and integer `FromStr` / `from_str_radix` accept.
use vstd::prelude::*;

verus! {

// ---------------------------------------------------------------------------
// Whitespace and trimming
// ---------------------------------------------------------------------------

/// The Unicode `White_Space` characters (what `char::is_whitespace` and
/// therefore `str::trim` accept).
pub open spec fn is_ws(c: char) -> bool {
    let u = c as u32;
    ||| 0x09 <= u <= 0x0D
    ||| u == 0x20
    ||| u == 0x85
    ||| u == 0xA0
    ||| u == 0x1680
    ||| 0x2000 <= u <= 0x200A
    ||| u == 0x2028
    ||| u == 0x2029
    ||| u == 0x202F
    ||| u == 0x205F
    ||| u == 0x3000
}

pub open spec fn trim_start(s: Seq<char>) -> Seq<char>
    decreases s.len(),
{
    if s.len() > 0 && is_ws(s[0]) {
        trim_start(s.drop_first())
    } else {
        s
    }
}

pub open spec fn trim_end(s: Seq<char>) -> Seq<char>
    decreases s.len(),
{
    if s.len() > 0 && is_ws(s.last()) {
        trim_end(s.drop_last())
    } else {
        s
    }
}

/// `str::trim`: leading and trailing whitespace removed.
pub open spec fn trim(s: Seq<char>) -> Seq<char> {
    trim_end(trim_start(s))
}

pub fn is_whitespace_char(c: char) -> (b: bool)
    ensures
        b == is_ws(c),
{
    let u = c as u32;
    (0x09 <= u && u <= 0x0D) || u == 0x20 || u == 0x85 || u == 0xA0 || u == 0x1680 || (0x2000
        <= u && u <= 0x200A) || u == 0x2028 || u == 0x2029 || u == 0x202F || u == 0x205F || u
        == 0x3000
}

/// The range of `s[lo..hi]` with leading and trailing whitespace removed.
pub fn trim_range(s: &Vec<char>, lo: usize, hi: usize) -> (r: (usize, usize))
    requires
        lo <= hi <= s@.len(),
    ensures
        lo <= r.0 <= r.1 <= hi,
        s@.subrange(r.0 as int, r.1 as int) == trim(s@.subrange(lo as int, hi as int)),
{
    let mut a = lo;
    while a < hi && is_whitespace_char(s[a])
        invariant
            lo <= a <= hi <= s@.len(),
            trim_start(s@.subrange(lo as int, hi as int)) == trim_start(
                s@.subrange(a as int, hi as int),
            ),
        decreases hi - a,
    {
        assert(s@.subrange(a as int, hi as int).drop_first() =~= s@.subrange(a + 1, hi as int));
        a = a + 1;
    }
    assert(trim_start(s@.subrange(a as int, hi as int)) == s@.subrange(a as int, hi as int));
    let mut b = hi;
    while b > a && is_whitespace_char(s[b - 1])
        invariant
            lo <= a <= b <= hi <= s@.len(),
            trim(s@.subrange(lo as int, hi as int)) == trim_end(s@.subrange(a as int, b as int)),
        decreases b - a,
    {
        assert(s@.subrange(a as int, b as int).drop_last() =~= s@.subrange(a as int, b - 1));
        b = b - 1;
    }
    (a, b)
}

/// Strips the chars of a slice into a vector.
pub fn chars_of(s: &str) -> (v: Vec<char>)
    ensures
        v@ == s@,
{
    let mut v: Vec<char> = Vec::new();
    for c in it: s.chars()
        invariant
            v@ == it.seq().take(it.index() as int),
    {
        v.push(c);
    }
    v
}

// ---------------------------------------------------------------------------
// Searching and splitting
// ---------------------------------------------------------------------------

/// Index of the first occurrence of `d` in `s`.
pub open spec fn find_char(s: Seq<char>, d: char) -> Option<int>
    decreases s.len(),
{
    if s.len() == 0 {
        None
    } else if s[0] == d {
        Some(0)
    } else {
        match find_char(s.drop_first(), d) {
            Some(i) => Some(i + 1),
            None => None,
        }
    }
}

/// `str::split_once(d)`.
pub open spec fn split_once(s: Seq<char>, d: char) -> Option<(Seq<char>, Seq<char>)> {
    match find_char(s, d) {
        Some(i) => Some((s.take(i), s.skip(i + 1))),
        None => None,
    }
}

/// `str::split(d)`: the pieces between occurrences of `d` (at least one).
pub open spec fn split(s: Seq<char>, d: char) -> Seq<Seq<char>>
    decreases s.len(),
{
    match find_char(s, d) {
        None => seq![s],
        Some(i) => {
            if 0 <= i < s.len() {
                seq![s.take(i)] + split(s.skip(i + 1), d)
            } else {
                seq![s]
            }
        },
    }
}

/// Pieces joined with `d` between them (`[T]::join`).
pub open spec fn join(xs: Seq<Seq<char>>, d: char) -> Seq<char>
    decreases xs.len(),
{
    if xs.len() == 0 {
        seq![]
    } else if xs.len() == 1 {
        xs[0]
    } else {
        xs[0] + seq![d] + join(xs.drop_first(), d)
    }
}

pub proof fn lemma_find_char_bounds(s: Seq<char>, d: char)
    ensures
        match find_char(s, d) {
            Some(i) => 0 <= i < s.len() && s[i] == d && forall|j: int|
                0 <= j < i ==> s[j] != d,
            None => forall|j: int| 0 <= j < s.len() ==> s[j] != d,
        },
    decreases s.len(),
{
    if s.len() > 0 {
        lemma_find_char_bounds(s.drop_first(), d);
        if s[0] != d {
            match find_char(s.drop_first(), d) {
                Some(i) => {
                    assert forall|j: int| 0 <= j < i + 1 implies s[j] != d by {
                        if j > 0 {
                            assert(s[j] == s.drop_first()[j - 1]);
                        }
                    }
                },
                None => {
                    assert forall|j: int| 0 <= j < s.len() implies s[j] != d by {
                        if j > 0 {
                            assert(s[j] == s.drop_first()[j - 1]);
                        }
                    }
                },
            }
        }
    }
}

/// Characterizes `find_char` by the position it returns.
pub proof fn lemma_find_char_is(s: Seq<char>, d: char, i: int)
    requires
        0 <= i <= s.len(),
        forall|j: int| 0 <= j < i ==> s[j] != d,
        i < s.len() ==> s[i] == d,
    ensures
        i < s.len() ==> find_char(s, d) == Some(i),
        i == s.len() ==> find_char(s, d) == None::<int>,
{
    lemma_find_char_bounds(s, d);
    match find_char(s, d) {
        Some(k) => {
            if k < i {
            } else if k > i {
                assert(s[i] != d || i == s.len());
            }
        },
        None => {},
    }
}

/// Position of the first `d` in `s[lo..hi]`, as an index into `s`.
pub fn find_in(s: &Vec<char>, lo: usize, hi: usize, d: char) -> (r: Option<usize>)
    requires
        lo <= hi <= s@.len(),
    ensures
        match r {
            Some(k) => lo <= k < hi && find_char(s@.subrange(lo as int, hi as int), d) == Some(
                (k - lo) as int,
            ),
            None => find_char(s@.subrange(lo as int, hi as int), d) == None::<int>,
        },
{
    let ghost sub = s@.subrange(lo as int, hi as int);
    let mut i = lo;
    while i < hi
        invariant
            lo <= i <= hi <= s@.len(),
            sub == s@.subrange(lo as int, hi as int),
            forall|j: int| 0 <= j < i - lo ==> sub[j] != d,
        decreases hi - i,
    {
        if s[i] == d {
            proof {
                lemma_find_char_is(sub, d, (i - lo) as int);
            }
            return Some(i);
        }
        i = i + 1;
    }
    proof {
        lemma_find_char_is(sub, d, (i - lo) as int);
    }
    None
}

/// The ranges of the pieces of `s[lo..hi]` split at `d`.
pub fn split_ranges(s: &Vec<char>, lo: usize, hi: usize, d: char) -> (r: Vec<(usize, usize)>)
    requires
        lo <= hi <= s@.len(),
    ensures
        r@.len() == split(s@.subrange(lo as int, hi as int), d).len(),
        forall|k: int|
            #![trigger r@[k]]
            0 <= k < r@.len() ==> lo <= r@[k].0 <= r@[k].1 <= hi && s@.subrange(
                r@[k].0 as int,
                r@[k].1 as int,
            ) == split(s@.subrange(lo as int, hi as int), d)[k],
{
    let mut r: Vec<(usize, usize)> = Vec::new();
    let mut a = lo;
    loop
        invariant
            lo <= a <= hi <= s@.len(),
            split(s@.subrange(lo as int, hi as int), d) == r@.map_values(
                |p: (usize, usize)| s@.subrange(p.0 as int, p.1 as int),
            ) + split(s@.subrange(a as int, hi as int), d),
            forall|k: int|
                #![trigger r@[k]]
                0 <= k < r@.len() ==> lo <= r@[k].0 <= r@[k].1 <= hi,
        decreases hi - a,
    {
        let ghost cur = s@.subrange(a as int, hi as int);
        match find_in(s, a, hi, d) {
            None => {
                proof {
                    assert(split(cur, d) == seq![cur]);
                }
                let ghost old_r = r@;
                r.push((a, hi));
                proof {
                    assert(r@.map_values(|p: (usize, usize)| s@.subrange(p.0 as int, p.1 as int))
                        =~= old_r.map_values(
                        |p: (usize, usize)| s@.subrange(p.0 as int, p.1 as int),
                    ).push(cur));
                    assert(split(s@.subrange(lo as int, hi as int), d) =~= r@.map_values(
                        |p: (usize, usize)| s@.subrange(p.0 as int, p.1 as int),
                    ));
                }
                return r;
            },
            Some(k) => {
                proof {
                    let i = (k - a) as int;
                    assert(cur.take(i) =~= s@.subrange(a as int, k as int));
                    assert(cur.skip(i + 1) =~= s@.subrange(k + 1, hi as int));
                    assert(split(cur, d) == seq![cur.take(i)] + split(cur.skip(i + 1), d));
                }
                let ghost old_r = r@;
                r.push((a, k));
                proof {
                    assert(r@.map_values(|p: (usize, usize)| s@.subrange(p.0 as int, p.1 as int))
                        =~= old_r.map_values(
                        |p: (usize, usize)| s@.subrange(p.0 as int, p.1 as int),
                    ).push(s@.subrange(a as int, k as int)));
                    assert(split(s@.subrange(lo as int, hi as int), d) =~= r@.map_values(
                        |p: (usize, usize)| s@.subrange(p.0 as int, p.1 as int),
                    ) + split(s@.subrange(k + 1, hi as int), d));
                }
                a = k + 1;
            },
        }
    }
}


// ---------------------------------------------------------------------------
// Numbers: digits, parsing, formatting
// ---------------------------------------------------------------------------

/// Value of `c` as an ASCII digit of base 16 (decimal digits and both cases
/// of `a`..`f`), or -1.
pub open spec fn hex_value(c: char) -> int {
    let u = c as u32;
    if 0x30 <= u <= 0x39 {
        u - 0x30
    } else if 0x61 <= u <= 0x66 {
        u - 0x61 + 10
    } else if 0x41 <= u <= 0x46 {
        u - 0x41 + 10
    } else {
        -1
    }
}

/// `char::to_digit(radix)` succeeds (for radix 10 or 16).
pub open spec fn is_digit(c: char, radix: nat) -> bool {
    0 <= hex_value(c) < radix
}

pub open spec fn all_digits(s: Seq<char>, radix: nat) -> bool {
    forall|i: int| 0 <= i < s.len() ==> #[trigger] is_digit(s[i], radix)
}

/// Positional value of a digit string.
pub open spec fn digits_value(s: Seq<char>, radix: nat) -> nat
    decreases s.len(),
{
    if s.len() == 0 {
        0
    } else {
        digits_value(s.drop_last(), radix) * radix + hex_value(s.last()) as nat
    }
}

/// An unsigned integer `from_str_radix`: an optional `+`, then one or more
/// digits of `radix`, whose value is at most `max`.
pub open spec fn parse_unsigned(s: Seq<char>, radix: nat, max: nat) -> Option<nat> {
    let d = if s.len() > 0 && s[0] == '+' {
        s.drop_first()
    } else {
        s
    };
    if d.len() > 0 && all_digits(d, radix) && digits_value(d, radix) <= max {
        Some(digits_value(d, radix))
    } else {
        None
    }
}

/// `i32::from_str`: an optional sign, then decimal digits, in range.
pub open spec fn parse_i32(s: Seq<char>) -> Option<int> {
    if s.len() > 0 && s[0] == '-' {
        let d = s.drop_first();
        if d.len() > 0 && all_digits(d, 10) && digits_value(d, 10) <= 0x8000_0000 {
            Some(-(digits_value(d, 10) as int))
        } else {
            None
        }
    } else {
        match parse_unsigned(s, 10, 0x7FFF_FFFF) {
            Some(v) => Some(v as int),
            None => None,
        }
    }
}

/// `s.trim().parse::<T>()` for an unsigned `T` whose maximum is `max`.
pub open spec fn parse_dec(s: Seq<char>, max: nat) -> Option<nat> {
    parse_unsigned(trim(s), 10, max)
}

pub proof fn lemma_digits_value_prefix(s: Seq<char>, k: int, radix: nat)
    requires
        0 <= k <= s.len(),
        radix >= 1,
    ensures
        digits_value(s.take(k), radix) <= digits_value(s, radix),
    decreases s.len() - k,
{
    if k < s.len() {
        lemma_digits_value_prefix(s, k + 1, radix);
        assert(s.take(k + 1).drop_last() =~= s.take(k));
        let v = digits_value(s.take(k), radix);
        assert(v * radix >= v) by (nonlinear_arith)
            requires
                radix >= 1,
        ;
    } else {
        assert(s.take(k) =~= s);
    }
}

/// Hex digits are worth less than 16 to the number of digits.
pub proof fn lemma_hex_digits_below(s: Seq<char>)
    requires
        all_digits(s, 16),
    ensures
        digits_value(s, 16) < pow16(s.len()),
    decreases s.len(),
{
    if s.len() > 0 {
        let p = s.drop_last();
        assert forall|i: int| 0 <= i < p.len() implies #[trigger] is_digit(p[i], 16) by {
            assert(p[i] == s[i]);
        }
        lemma_hex_digits_below(p);
        assert(is_digit(s[s.len() - 1], 16));
        let v = digits_value(p, 16);
        let q = pow16(p.len());
        assert(v * 16 + 15 < q * 16) by (nonlinear_arith)
            requires
                v < q,
        ;
    }
}

/// Six hex digits are worth at most `0xFF_FFFF`.
pub proof fn lemma_hex_digits_bound(s: Seq<char>)
    requires
        s.len() == 6,
        all_digits(s, 16),
    ensures
        digits_value(s, 16) <= 0xFF_FFFF,
{
    lemma_hex_digits_below(s);
    reveal_with_fuel(pow16, 7);
}

pub fn hex_value_exec(c: char) -> (v: i32)
    ensures
        v == hex_value(c),
{
    let u = c as u32;
    if 0x30 <= u && u <= 0x39 {
        (u - 0x30) as i32
    } else if 0x61 <= u && u <= 0x66 {
        (u - 0x61 + 10) as i32
    } else if 0x41 <= u && u <= 0x46 {
        (u - 0x41 + 10) as i32
    } else {
        -1
    }
}

/// Parses `s[lo..hi]` as one or more digits of `radix` with value at most
/// `max`.
pub fn parse_digits(s: &Vec<char>, lo: usize, hi: usize, radix: u32, max: u64) -> (r: Option<u64>)
    requires
        lo <= hi <= s@.len(),
        radix == 10 || radix == 16,
        max <= 0xFFFF_FFFF,
    ensures
        ({
            let d = s@.subrange(lo as int, hi as int);
            match r {
                Some(v) => d.len() > 0 && all_digits(d, radix as nat) && v == digits_value(
                    d,
                    radix as nat,
                ) && v <= max,
                None => !(d.len() > 0 && all_digits(d, radix as nat) && digits_value(
                    d,
                    radix as nat,
                ) <= max),
            }
        }),
{
    let ghost d = s@.subrange(lo as int, hi as int);
    if lo == hi {
        return None;
    }
    let mut acc: u64 = 0;
    let mut i = lo;
    while i < hi
        invariant
            lo <= i <= hi <= s@.len(),
            d == s@.subrange(lo as int, hi as int),
            radix == 10 || radix == 16,
            max <= 0xFFFF_FFFF,
            acc <= max,
            all_digits(d.take(i - lo), radix as nat),
            acc == digits_value(d.take(i - lo), radix as nat),
        decreases hi - i,
    {
        let v = hex_value_exec(s[i]);
        if v < 0 || v >= radix as i32 {
            proof {
                assert(!is_digit(d[i - lo], radix as nat));
            }
            return None;
        }
        assert(acc * (radix as u64) <= 0xFFFF_FFFF * 16) by (nonlinear_arith)
            requires
                acc <= 0xFFFF_FFFF,
                radix <= 16,
        ;
        let next = acc * (radix as u64) + (v as u64);
        proof {
            assert(d.take(i - lo + 1).drop_last() =~= d.take(i - lo));
            assert(d.take(i - lo + 1).last() == d[i - lo]);
            assert(all_digits(d.take(i - lo + 1), radix as nat)) by {
                assert forall|j: int| 0 <= j < d.take(i - lo + 1).len() implies #[trigger] is_digit(
                    d.take(i - lo + 1)[j],
                    radix as nat,
                ) by {
                    if j < i - lo {
                        assert(d.take(i - lo + 1)[j] == d.take(i - lo)[j]);
                    }
                }
            }
        }
        if next > max {
            proof {
                lemma_digits_value_prefix(d, i - lo + 1, radix as nat);
            }
            return None;
        }
        acc = next;
        i = i + 1;
    }
    assert(d.take(hi - lo) =~= d);
    Some(acc)
}

/// `s[lo..hi]` parsed as by `parse_unsigned`.
pub fn parse_unsigned_at(s: &Vec<char>, lo: usize, hi: usize, radix: u32, max: u64) -> (r: Option<
    u64,
>)
    requires
        lo <= hi <= s@.len(),
        radix == 10 || radix == 16,
        max <= 0xFFFF_FFFF,
    ensures
        match r {
            Some(v) => parse_unsigned(s@.subrange(lo as int, hi as int), radix as nat, max as nat)
                == Some(v as nat),
            None => parse_unsigned(s@.subrange(lo as int, hi as int), radix as nat, max as nat)
                is None,
        },
{
    let ghost t = s@.subrange(lo as int, hi as int);
    if lo < hi && s[lo] == '+' {
        assert(t.drop_first() =~= s@.subrange(lo + 1, hi as int));
        parse_digits(s, lo + 1, hi, radix, max)
    } else {
        parse_digits(s, lo, hi, radix, max)
    }
}

/// `s[lo..hi]` parsed as by `parse_i32`.
pub fn parse_i32_at(s: &Vec<char>, lo: usize, hi: usize) -> (r: Option<i32>)
    requires
        lo <= hi <= s@.len(),
    ensures
        match r {
            Some(v) => parse_i32(s@.subrange(lo as int, hi as int)) == Some(v as int),
            None => parse_i32(s@.subrange(lo as int, hi as int)) is None,
        },
{
    let ghost t = s@.subrange(lo as int, hi as int);
    if lo < hi && s[lo] == '-' {
        assert(t.drop_first() =~= s@.subrange(lo + 1, hi as int));
        match parse_digits(s, lo + 1, hi, 10, 0x8000_0000) {
            Some(v) => {
                let w = (0i64 - v as i64) as i32;
                Some(w)
            },
            None => None,
        }
    } else {
        match parse_unsigned_at(s, lo, hi, 10, 0x7FFF_FFFF) {
            Some(v) => Some(v as i32),
            None => None,
        }
    }
}

/// `s[lo..hi].trim().parse()` for an unsigned integer type with maximum `max`.
pub fn parse_dec_at(s: &Vec<char>, lo: usize, hi: usize, max: u64) -> (r: Option<u64>)
    requires
        lo <= hi <= s@.len(),
        max <= 0xFFFF_FFFF,
    ensures
        match r {
            Some(v) => parse_dec(s@.subrange(lo as int, hi as int), max as nat) == Some(v as nat),
            None => parse_dec(s@.subrange(lo as int, hi as int), max as nat) is None,
        },
{
    let (a, b) = trim_range(s, lo, hi);
    parse_unsigned_at(s, a, b, 10, max)
}

/// `s[lo..hi].trim().parse::<i32>()`.
pub fn parse_i32_trimmed_at(s: &Vec<char>, lo: usize, hi: usize) -> (r: Option<i32>)
    requires
        lo <= hi <= s@.len(),
    ensures
        match r {
            Some(v) => parse_i32(trim(s@.subrange(lo as int, hi as int))) == Some(v as int),
            None => parse_i32(trim(s@.subrange(lo as int, hi as int))) is None,
        },
{
    let (a, b) = trim_range(s, lo, hi);
    parse_i32_at(s, a, b)
}

/// The upper-case digit character of `v` (0..16).
pub open spec fn digit_char(v: nat) -> char {
    if v < 10 {
        (0x30 + v) as char
    } else {
        (0x41 + v - 10) as char
    }
}

/// Decimal representation (`{}` formatting) of a natural number.
pub open spec fn dec(n: nat) -> Seq<char>
    decreases n,
{
    if n < 10 {
        seq![digit_char(n)]
    } else {
        dec(n / 10).push(digit_char(n % 10))
    }
}

/// Decimal representation of an integer, with a leading `-` when negative.
pub open spec fn dec_int(n: int) -> Seq<char> {
    if n < 0 {
        seq!['-'] + dec((-n) as nat)
    } else {
        dec(n as nat)
    }
}

/// The `w` lowest upper-case hex digits of `n` (`{:0wX}` for `n < 16^w`).
pub open spec fn hex_width(n: nat, w: nat) -> Seq<char>
    decreases w,
{
    if w == 0 {
        seq![]
    } else {
        hex_width(n / 16, (w - 1) as nat).push(digit_char(n % 16))
    }
}

pub open spec fn pow16(w: nat) -> nat
    decreases w,
{
    if w == 0 {
        1
    } else {
        16 * pow16((w - 1) as nat)
    }
}

/// Appends one character to a string (`String::push`).
#[verifier::external_body]
pub(crate) fn push_char(s: &mut String, c: char)
    ensures
        final(s)@ == old(s)@.push(c),
{
    s.push(c);
}

/// Appends a string slice to a string.
pub(crate) fn push_str(s: &mut String, t: &str)
    ensures
        final(s)@ == old(s)@ + t@,
{
    s.append(t);
}

pub fn digit_char_exec(v: u8) -> (c: char)
    requires
        v < 16,
    ensures
        c == digit_char(v as nat),
{
    if v < 10 {
        ((0x30u8 + v) as char)
    } else {
        ((0x41u8 + v - 10) as char)
    }
}

/// Appends the decimal representation of `n`.
pub fn push_dec(out: &mut String, n: u64)
    ensures
        final(out)@ == old(out)@ + dec(n as nat),
    decreases n,
{
    if n >= 10 {
        push_dec(out, n / 10);
    }
    push_char(out, digit_char_exec((n % 10) as u8));
    proof {
        if n < 10 {
            assert(dec(n as nat) == seq![digit_char(n as nat)]);
        }
    }
    assert(final(out)@ =~= old(out)@ + dec(n as nat));
}

/// Appends the decimal representation of a signed `n`.
pub fn push_dec_i32(out: &mut String, n: i32)
    ensures
        final(out)@ == old(out)@ + dec_int(n as int),
{
    if n < 0 {
        push_char(out, '-');
        let m = (0i64 - n as i64) as u64;
        push_dec(out, m);
        assert(final(out)@ =~= old(out)@ + dec_int(n as int));
    } else {
        push_dec(out, n as u64);
    }
}

/// Appends the `w` lowest hex digits of `n`, upper case.
pub fn push_hex(out: &mut String, n: u64, w: u32)
    ensures
        final(out)@ == old(out)@ + hex_width(n as nat, w as nat),
    decreases w,
{
    if w > 0 {
        push_hex(out, n / 16, w - 1);
        push_char(out, digit_char_exec((n % 16) as u8));
        assert(final(out)@ =~= old(out)@ + hex_width(n as nat, w as nat));
    } else {
        assert(final(out)@ =~= old(out)@ + hex_width(n as nat, w as nat));
    }
}


// ---------------------------------------------------------------------------
// Facts relating the formatters to the parsers
// ---------------------------------------------------------------------------

/// `s` has no occurrence of `d`.
pub open spec fn lacks(s: Seq<char>, d: char) -> bool {
    forall|i: int| 0 <= i < s.len() ==> s[i] != d
}

/// A hex digit is none of the separators, signs, or whitespace.
pub proof fn lemma_digit_char_class(c: char)
    requires
        is_digit(c, 16),
    ensures
        !is_ws(c),
        c != ':',
        c != ',',
        c != ';',
        c != '|',
        c != '+',
        c != '-',
{
}

pub proof fn lemma_digit_char_value(v: nat)
    requires
        v < 16,
    ensures
        hex_value(digit_char(v)) == v,
        is_digit(digit_char(v), 16),
        v < 10 ==> is_digit(digit_char(v), 10),
{
}

pub proof fn lemma_dec(n: nat)
    ensures
        dec(n).len() > 0,
        all_digits(dec(n), 10),
        all_digits(dec(n), 16),
        digits_value(dec(n), 10) == n,
    decreases n,
{
    lemma_digit_char_value(n % 10);
    if n >= 10 {
        lemma_dec(n / 10);
        let s = dec(n);
        assert(s.drop_last() =~= dec(n / 10));
        assert(s.last() == digit_char(n % 10));
        assert(digits_value(s, 10) == digits_value(dec(n / 10), 10) * 10 + hex_value(
            digit_char(n % 10),
        ) as nat);
        assert(n == (n / 10) * 10 + n % 10);
        assert forall|i: int| 0 <= i < s.len() implies #[trigger] is_digit(s[i], 10) && is_digit(
            s[i],
            16,
        ) by {
            if i < s.len() - 1 {
                assert(s[i] == dec(n / 10)[i]);
                assert(is_digit(dec(n / 10)[i], 10));
            }
        }
    } else {
        assert(dec(n).drop_last() =~= Seq::<char>::empty());
        assert(digits_value(dec(n), 10) == digits_value(dec(n).drop_last(), 10) * 10 + hex_value(
            dec(n).last(),
        ) as nat);
    }
}

pub proof fn lemma_hex_width(n: nat, w: nat)
    ensures
        hex_width(n, w).len() == w,
        all_digits(hex_width(n, w), 16),
        n < pow16(w) ==> digits_value(hex_width(n, w), 16) == n,
    decreases w,
{
    if w > 0 {
        lemma_hex_width(n / 16, (w - 1) as nat);
        lemma_digit_char_value(n % 16);
        let s = hex_width(n, w);
        assert(s.drop_last() =~= hex_width(n / 16, (w - 1) as nat));
        assert forall|i: int| 0 <= i < s.len() implies #[trigger] is_digit(s[i], 16) by {
            if i < s.len() - 1 {
                assert(s[i] == hex_width(n / 16, (w - 1) as nat)[i]);
                assert(is_digit(hex_width(n / 16, (w - 1) as nat)[i], 16));
            }
        }
    }
}

/// A sequence that neither starts nor ends with whitespace trims to itself.
pub proof fn lemma_trim_id(s: Seq<char>)
    requires
        s.len() > 0 ==> !is_ws(s[0]) && !is_ws(s.last()),
    ensures
        trim(s) == s,
{
}

proof fn lemma_trim_start_first(s: Seq<char>)
    ensures
        trim_start(s).len() > 0 ==> !is_ws(trim_start(s)[0]),
    decreases s.len(),
{
    if s.len() > 0 && is_ws(s[0]) {
        lemma_trim_start_first(s.drop_first());
    }
}

proof fn lemma_trim_end_ends(s: Seq<char>)
    ensures
        trim_end(s).len() <= s.len(),
        trim_end(s) == s.take(trim_end(s).len() as int),
        trim_end(s).len() > 0 ==> !is_ws(trim_end(s).last()),
    decreases s.len(),
{
    if s.len() > 0 && is_ws(s.last()) {
        lemma_trim_end_ends(s.drop_last());
        assert(s.drop_last().take(trim_end(s).len() as int) =~= s.take(trim_end(s).len() as int));
    } else {
        assert(s.take(s.len() as int) =~= s);
    }
}

/// Trimming a trimmed text changes nothing.
pub proof fn lemma_trim_idempotent(s: Seq<char>)
    ensures
        trim(trim(s)) == trim(s),
{
    let a = trim_start(s);
    lemma_trim_start_first(s);
    lemma_trim_end_ends(a);
    let t = trim(s);
    if t.len() > 0 {
        assert(t[0] == a[0]);
    }
    lemma_trim_id(t);
}

/// Digit strings are free of separators and whitespace.
pub proof fn lemma_digits_lack(s: Seq<char>, radix: nat)
    requires
        all_digits(s, radix),
        radix <= 16,
    ensures
        lacks(s, ':'),
        lacks(s, ','),
        lacks(s, ';'),
        lacks(s, '|'),
        s.len() > 0 ==> !is_ws(s[0]) && !is_ws(s.last()) && s[0] != '+' && s[0] != '-',
{
    assert forall|i: int| 0 <= i < s.len() implies s[i] != ':' && s[i] != ',' && s[i] != ';'
        && s[i] != '|' && !is_ws(s[i]) && s[i] != '+' && s[i] != '-' by {
        assert(is_digit(s[i], radix));
        lemma_digit_char_class(s[i]);
    }
}

pub proof fn lemma_parse_dec_of_dec(n: nat, max: nat)
    requires
        n <= max,
    ensures
        parse_dec(dec(n), max) == Some(n),
        parse_unsigned(dec(n), 10, max) == Some(n),
{
    lemma_dec(n);
    lemma_digits_lack(dec(n), 10);
    lemma_trim_id(dec(n));
}

pub proof fn lemma_parse_i32_of_dec(n: int)
    requires
        -0x8000_0000 <= n <= 0x7FFF_FFFF,
    ensures
        parse_i32(trim(dec_int(n))) == Some(n),
{
    if n < 0 {
        let m = (-n) as nat;
        lemma_dec(m);
        lemma_digits_lack(dec(m), 10);
        let s = dec_int(n);
        assert(s.drop_first() =~= dec(m));
        assert(s.last() == dec(m).last());
        assert(s[0] == '-');
        assert(('-' as u32) == 0x2D);
        lemma_trim_id(s);
    } else {
        lemma_parse_dec_of_dec(n as nat, 0x7FFF_FFFF);
        lemma_dec(n as nat);
        lemma_digits_lack(dec(n as nat), 10);
        lemma_trim_id(dec(n as nat));
    }
}

pub proof fn lemma_parse_hex_of_hex(n: nat, w: nat, max: nat)
    requires
        n < pow16(w),
        n <= max,
        w > 0,
    ensures
        parse_unsigned(hex_width(n, w), 16, max) == Some(n),
        parse_unsigned(trim(hex_width(n, w)), 16, max) == Some(n),
{
    lemma_hex_width(n, w);
    lemma_digits_lack(hex_width(n, w), 16);
    lemma_trim_id(hex_width(n, w));
}


// ---------------------------------------------------------------------------
// Splitting what was joined
// ---------------------------------------------------------------------------

pub proof fn lemma_split_once_concat(a: Seq<char>, b: Seq<char>, d: char)
    requires
        lacks(a, d),
    ensures
        split_once(a + seq![d] + b, d) == Some((a, b)),
{
    let s = a + seq![d] + b;
    lemma_find_char_is(s, d, a.len() as int);
    assert(s.take(a.len() as int) =~= a);
    assert(s.skip(a.len() as int + 1) =~= b);
}

pub proof fn lemma_split_once_none(a: Seq<char>, d: char)
    requires
        lacks(a, d),
    ensures
        split_once(a, d) is None,
        split(a, d) == seq![a],
{
    lemma_find_char_is(a, d, a.len() as int);
}

/// Splitting a join of pieces free of the delimiter gives the pieces back.
pub proof fn lemma_split_join(xs: Seq<Seq<char>>, d: char)
    requires
        xs.len() > 0,
        forall|i: int| 0 <= i < xs.len() ==> lacks(#[trigger] xs[i], d),
    ensures
        split(join(xs, d), d) == xs,
    decreases xs.len(),
{
    if xs.len() == 1 {
        assert(lacks(xs[0], d));
        lemma_split_once_none(xs[0], d);
        assert(seq![xs[0]] =~= xs);
    } else {
        let rest = xs.drop_first();
        assert forall|i: int| 0 <= i < rest.len() implies lacks(#[trigger] rest[i], d) by {
            assert(rest[i] == xs[i + 1]);
        }
        lemma_split_join(rest, d);
        let s = join(xs, d);
        assert(lacks(xs[0], d));
        assert(s == xs[0] + seq![d] + join(rest, d));
        lemma_find_char_is(s, d, xs[0].len() as int);
        assert(s.take(xs[0].len() as int) =~= xs[0]);
        assert(s.skip(xs[0].len() as int + 1) =~= join(rest, d));
        assert(split(s, d) == seq![xs[0]] + split(join(rest, d), d));
        assert(seq![xs[0]] + rest =~= xs);
    }
}

/// A join lacks any character that none of the pieces (nor the delimiter)
/// contains.
pub proof fn lemma_join_lacks(xs: Seq<Seq<char>>, d: char, c: char)
    requires
        c != d,
        forall|i: int| 0 <= i < xs.len() ==> lacks(#[trigger] xs[i], c),
    ensures
        lacks(join(xs, d), c),
    decreases xs.len(),
{
    if xs.len() > 1 {
        let rest = xs.drop_first();
        assert forall|i: int| 0 <= i < rest.len() implies lacks(#[trigger] rest[i], c) by {
            assert(rest[i] == xs[i + 1]);
        }
        lemma_join_lacks(rest, d, c);
        assert(lacks(xs[0], c));
        let s = join(xs, d);
        assert forall|i: int| 0 <= i < s.len() implies s[i] != c by {
            if i < xs[0].len() {
                assert(s[i] == xs[0][i]);
            } else if i > xs[0].len() {
                assert(s[i] == join(rest, d)[i - xs[0].len() - 1]);
            }
        }
    } else if xs.len() == 1 {
        assert(lacks(xs[0], c));
    }
}

/// No character is whitespace.
pub open spec fn no_ws(s: Seq<char>) -> bool {
    forall|i: int| 0 <= i < s.len() ==> !is_ws(#[trigger] s[i])
}

pub proof fn lemma_trim_no_ws(s: Seq<char>)
    requires
        no_ws(s),
    ensures
        trim(s) == s,
{
    if s.len() > 0 {
        assert(!is_ws(s[0]));
        assert(!is_ws(s[s.len() - 1]));
    }
}

pub proof fn lemma_join_no_ws(xs: Seq<Seq<char>>, d: char)
    requires
        !is_ws(d),
        forall|i: int| 0 <= i < xs.len() ==> no_ws(#[trigger] xs[i]),
    ensures
        no_ws(join(xs, d)),
    decreases xs.len(),
{
    if xs.len() > 1 {
        let rest = xs.drop_first();
        assert forall|i: int| 0 <= i < rest.len() implies no_ws(#[trigger] rest[i]) by {
            assert(rest[i] == xs[i + 1]);
        }
        lemma_join_no_ws(rest, d);
        assert(no_ws(xs[0]));
        let s = join(xs, d);
        assert forall|i: int| 0 <= i < s.len() implies !is_ws(#[trigger] s[i]) by {
            if i < xs[0].len() {
                assert(s[i] == xs[0][i]);
            } else if i > xs[0].len() {
                assert(s[i] == join(rest, d)[i - xs[0].len() - 1]);
            }
        }
    } else if xs.len() == 1 {
        assert(no_ws(xs[0]));
    }
}

pub proof fn lemma_digits_no_ws(s: Seq<char>, radix: nat)
    requires
        all_digits(s, radix),
        radix <= 16,
    ensures
        no_ws(s),
{
    assert forall|i: int| 0 <= i < s.len() implies !is_ws(#[trigger] s[i]) by {
        assert(is_digit(s[i], radix));
        lemma_digit_char_class(s[i]);
    }
}


// ---------------------------------------------------------------------------
// Byte-aligned chunks of UTF-8 text
// ---------------------------------------------------------------------------

/// Length of the UTF-8 encoding of `c`.
pub open spec fn utf8_len(c: char) -> nat {
    let u = c as u32;
    if u < 0x80 {
        1
    } else if u < 0x800 {
        2
    } else if u < 0x10000 {
        3
    } else {
        4
    }
}

/// Length in bytes of the UTF-8 encoding of `s` (`str::len`).
pub open spec fn byte_len(s: Seq<char>) -> nat
    decreases s.len(),
{
    if s.len() == 0 {
        0
    } else {
        utf8_len(s[0]) + byte_len(s.drop_first())
    }
}

/// Number of leading characters of `s` whose encoding is exactly `n` bytes,
/// or `None` when a character straddles byte `n` or `s` is too short.
pub open spec fn chunk_len(s: Seq<char>, n: nat) -> Option<int>
    decreases s.len(),
{
    if n == 0 {
        Some(0)
    } else if s.len() == 0 || utf8_len(s[0]) > n {
        None
    } else {
        match chunk_len(s.drop_first(), (n - utf8_len(s[0])) as nat) {
            Some(k) => Some(k + 1),
            None => None,
        }
    }
}

/// The digit parser applied to one chunk: optional trimming, then
/// `from_str_radix(.., 16)` bounded by `max`.
pub open spec fn parse_chunk(c: Seq<char>, max: nat, trim_it: bool) -> Option<nat> {
    parse_unsigned(if trim_it { trim(c) } else { c }, 16, max)
}

/// The text cut into consecutive `n`-byte chunks (`bytes.chunks(n)`), each
/// of which must be whole characters and parse as a hex number.
pub open spec fn hex_chunks(s: Seq<char>, n: nat, max: nat, trim_it: bool) -> Option<Seq<nat>>
    decreases s.len(),
{
    if s.len() == 0 {
        Some(seq![])
    } else {
        match chunk_len(s, n) {
            None => None,
            Some(k) => {
                if k <= 0 || k > s.len() {
                    None
                } else {
                    match parse_chunk(s.take(k), max, trim_it) {
                        None => None,
                        Some(v) => match hex_chunks(s.skip(k), n, max, trim_it) {
                            None => None,
                            Some(rest) => Some(seq![v] + rest),
                        },
                    }
                }
            },
        }
    }
}

pub fn utf8_len_exec(c: char) -> (l: u32)
    ensures
        l == utf8_len(c),
{
    let u = c as u32;
    if u < 0x80 {
        1
    } else if u < 0x800 {
        2
    } else if u < 0x10000 {
        3
    } else {
        4
    }
}

/// `byte_len(s[lo..hi])`.
pub fn byte_len_at(s: &Vec<char>, lo: usize, hi: usize) -> (n: u128)
    requires
        lo <= hi <= s@.len(),
    ensures
        n == byte_len(s@.subrange(lo as int, hi as int)),
{
    let mut n: u128 = 0;
    let mut i = hi;
    while i > lo
        invariant
            lo <= i <= hi <= s@.len(),
            n == byte_len(s@.subrange(i as int, hi as int)),
            n <= 4 * (hi - i),
        decreases i - lo,
    {
        assert(s@.subrange(i - 1, hi as int).drop_first() =~= s@.subrange(i as int, hi as int));
        n = n + utf8_len_exec(s[i - 1]) as u128;
        i = i - 1;
    }
    n
}

/// End of the `n`-byte chunk of `s[lo..hi]` starting at `lo`.
pub fn chunk_end(s: &Vec<char>, lo: usize, hi: usize, n: u32) -> (r: Option<usize>)
    requires
        lo <= hi <= s@.len(),
    ensures
        match r {
            Some(e) => lo <= e <= hi && chunk_len(s@.subrange(lo as int, hi as int), n as nat)
                == Some((e - lo) as int),
            None => chunk_len(s@.subrange(lo as int, hi as int), n as nat) is None,
        },
{
    let mut j = lo;
    let mut acc: u32 = 0;
    while acc < n
        invariant
            lo <= j <= hi <= s@.len(),
            acc <= n,
            chunk_len(s@.subrange(lo as int, hi as int), n as nat) == match chunk_len(
                s@.subrange(j as int, hi as int),
                (n - acc) as nat,
            ) {
                Some(k) => Some(k + (j - lo)),
                None => None::<int>,
            },
        decreases n - acc,
    {
        if j >= hi {
            return None;
        }
        let l = utf8_len_exec(s[j]);
        if l > n - acc {
            return None;
        }
        assert(s@.subrange(j as int, hi as int).drop_first() =~= s@.subrange(j + 1, hi as int));
        acc = acc + l;
        j = j + 1;
    }
    Some(j)
}

/// `hex_chunks(s[lo..hi], n, max, trim_it)`.
pub fn hex_chunks_at(s: &Vec<char>, lo: usize, hi: usize, n: u32, max: u64, trim_it: bool) -> (r:
    Option<Vec<u16>>)
    requires
        lo <= hi <= s@.len(),
        max <= 0xFFFF,
    ensures
        match r {
            Some(v) => hex_chunks(s@.subrange(lo as int, hi as int), n as nat, max as nat, trim_it)
                == Some(v@.map_values(|x: u16| x as nat)),
            None => hex_chunks(s@.subrange(lo as int, hi as int), n as nat, max as nat, trim_it)
                is None,
        },
{
    let mut out: Vec<u16> = Vec::new();
    let mut i = lo;
    while i < hi
        invariant
            lo <= i <= hi <= s@.len(),
            max <= 0xFFFF,
            match hex_chunks(s@.subrange(i as int, hi as int), n as nat, max as nat, trim_it) {
                Some(rest) => hex_chunks(
                    s@.subrange(lo as int, hi as int),
                    n as nat,
                    max as nat,
                    trim_it,
                ) == Some(out@.map_values(|x: u16| x as nat) + rest),
                None => hex_chunks(s@.subrange(lo as int, hi as int), n as nat, max as nat, trim_it)
                    is None,
            },
        decreases hi - i,
    {
        let ghost cur = s@.subrange(i as int, hi as int);
        let e = match chunk_end(s, i, hi, n) {
            Some(e) => e,
            None => {
                return None;
            },
        };
        if e == i {
            return None;
        }
        let (a, b) = if trim_it {
            trim_range(s, i, e)
        } else {
            (i, e)
        };
        assert(cur.take(e - i) =~= s@.subrange(i as int, e as int));
        assert(cur.skip(e - i) =~= s@.subrange(e as int, hi as int));
        let v = match parse_unsigned_at(s, a, b, 16, max) {
            Some(v) => v,
            None => {
                return None;
            },
        };
        let ghost old_out = out@;
        out.push(v as u16);
        proof {
            assert(out@.map_values(|x: u16| x as nat) =~= old_out.map_values(|x: u16| x as nat)
                + seq![v as nat]);
            match hex_chunks(s@.subrange(e as int, hi as int), n as nat, max as nat, trim_it) {
                Some(rest) => {
                    assert(hex_chunks(cur, n as nat, max as nat, trim_it) == Some(
                        seq![v as nat] + rest,
                    ));
                    assert(old_out.map_values(|x: u16| x as nat) + (seq![v as nat] + rest)
                        =~= out@.map_values(|x: u16| x as nat) + rest);
                },
                None => {},
            }
        }
        i = e;
    }
    proof {
        assert(hex_chunks(s@.subrange(i as int, hi as int), n as nat, max as nat, trim_it) == Some(
            Seq::<nat>::empty(),
        ));
        assert(out@.map_values(|x: u16| x as nat) + Seq::<nat>::empty() =~= out@.map_values(
            |x: u16| x as nat,
        ));
    }
    Some(out)
}


/// Fixed-width hex numbers written back to back.
pub open spec fn hex_concat(vs: Seq<nat>, w: nat) -> Seq<char>
    decreases vs.len(),
{
    if vs.len() == 0 {
        seq![]
    } else {
        hex_width(vs[0], w) + hex_concat(vs.drop_first(), w)
    }
}

pub open spec fn all_ascii(s: Seq<char>) -> bool {
    forall|i: int| 0 <= i < s.len() ==> (#[trigger] s[i] as u32) < 0x80
}

pub proof fn lemma_chunk_len_ascii(s: Seq<char>, n: nat)
    requires
        n <= s.len(),
        forall|i: int| 0 <= i < n ==> (#[trigger] s[i] as u32) < 0x80,
    ensures
        chunk_len(s, n) == Some(n as int),
    decreases n,
{
    if n > 0 {
        let t = s.drop_first();
        assert forall|i: int| 0 <= i < (n - 1) as nat implies (#[trigger] t[i] as u32) < 0x80 by {
            assert(t[i] == s[i + 1]);
        }
        assert((s[0] as u32) < 0x80);
        lemma_chunk_len_ascii(t, (n - 1) as nat);
    }
}

pub proof fn lemma_byte_len_ascii(s: Seq<char>)
    requires
        all_ascii(s),
    ensures
        byte_len(s) == s.len(),
    decreases s.len(),
{
    if s.len() > 0 {
        let t = s.drop_first();
        assert forall|i: int| 0 <= i < t.len() implies (#[trigger] t[i] as u32) < 0x80 by {
            assert(t[i] == s[i + 1]);
        }
        assert((s[0] as u32) < 0x80);
        lemma_byte_len_ascii(t);
    }
}

pub proof fn lemma_digits_ascii(s: Seq<char>, radix: nat)
    requires
        all_digits(s, radix),
        radix <= 16,
    ensures
        all_ascii(s),
{
    assert forall|i: int| 0 <= i < s.len() implies (#[trigger] s[i] as u32) < 0x80 by {
        assert(is_digit(s[i], radix));
    }
}

pub proof fn lemma_hex_concat(vs: Seq<nat>, w: nat, max: nat, trim_it: bool)
    requires
        w > 0,
        forall|i: int| 0 <= i < vs.len() ==> #[trigger] vs[i] <= max && vs[i] < pow16(w),
    ensures
        hex_chunks(hex_concat(vs, w), w, max, trim_it) == Some(vs),
        hex_concat(vs, w).len() == vs.len() * w,
        all_digits(hex_concat(vs, w), 16),
        byte_len(hex_concat(vs, w)) == vs.len() * w,
    decreases vs.len(),
{
    let s = hex_concat(vs, w);
    if vs.len() == 0 {
        assert(vs =~= Seq::<nat>::empty());
    } else {
        let rest = vs.drop_first();
        assert forall|i: int| 0 <= i < rest.len() implies #[trigger] rest[i] <= max && rest[i]
            < pow16(w) by {
            assert(rest[i] == vs[i + 1]);
        }
        lemma_hex_concat(rest, w, max, trim_it);
        assert(vs[0] <= max && vs[0] < pow16(w));
        lemma_hex_width(vs[0], w);
        lemma_parse_hex_of_hex(vs[0], w, max);
        let h = hex_width(vs[0], w);
        assert(s == h + hex_concat(rest, w));
        assert forall|i: int| 0 <= i < s.len() implies #[trigger] is_digit(s[i], 16) by {
            if i < w {
                assert(s[i] == h[i]);
                assert(is_digit(h[i], 16));
            } else {
                assert(s[i] == hex_concat(rest, w)[i - w]);
                assert(is_digit(hex_concat(rest, w)[i - w], 16));
            }
        }
        assert(s.len() == vs.len() * w) by (nonlinear_arith)
            requires
                s.len() == w + rest.len() * w,
                rest.len() + 1 == vs.len(),
        ;
        lemma_digits_ascii(s, 16);
        lemma_chunk_len_ascii(s, w);
        lemma_byte_len_ascii(s);
        assert(s.take(w as int) =~= h);
        assert(s.skip(w as int) =~= hex_concat(rest, w));
        assert(seq![vs[0]] + rest =~= vs);
    }
}


pub proof fn lemma_split_cons(a: Seq<char>, rest: Seq<char>, d: char)
    requires
        lacks(a, d),
    ensures
        split(a + seq![d] + rest, d) == seq![a] + split(rest, d),
{
    let s = a + seq![d] + rest;
    lemma_find_char_is(s, d, a.len() as int);
    assert(s.take(a.len() as int) =~= a);
    assert(s.skip(a.len() as int + 1) =~= rest);
}

pub proof fn lemma_join_push(xs: Seq<Seq<char>>, x: Seq<char>, d: char)
    ensures
        join(xs.push(x), d) == if xs.len() == 0 {
            x
        } else {
            join(xs, d) + seq![d] + x
        },
    decreases xs.len(),
{
    let ys = xs.push(x);
    if xs.len() == 0 {
        assert(ys.len() == 1 && ys[0] == x);
    } else if xs.len() == 1 {
        assert(ys.drop_first() =~= seq![x]);
        assert(join(ys.drop_first(), d) == x);
        assert(join(xs, d) == xs[0]);
        assert(ys[0] == xs[0]);
        assert(join(ys, d) == ys[0] + seq![d] + join(ys.drop_first(), d));
    } else {
        lemma_join_push(xs.drop_first(), x, d);
        assert(ys.drop_first() =~= xs.drop_first().push(x));
        assert(ys[0] == xs[0]);
        assert(join(ys, d) == ys[0] + seq![d] + join(ys.drop_first(), d));
        assert(join(xs, d) == xs[0] + seq![d] + join(xs.drop_first(), d));
        assert(join(ys, d) =~= join(xs, d) + seq![d] + x);
    }
}

pub proof fn lemma_hex_concat_push(vs: Seq<nat>, v: nat, w: nat)
    ensures
        hex_concat(vs.push(v), w) == hex_concat(vs, w) + hex_width(v, w),
    decreases vs.len(),
{
    if vs.len() == 0 {
        assert(vs.push(v).drop_first() =~= Seq::<nat>::empty());
        assert(hex_concat(vs.push(v).drop_first(), w) == Seq::<char>::empty());
        assert(vs.push(v)[0] == v);
        assert(hex_concat(vs.push(v), w) == hex_width(v, w) + hex_concat(
            vs.push(v).drop_first(),
            w,
        ));
        assert(hex_concat(vs.push(v), w) =~= hex_width(v, w));
        assert(hex_concat(vs, w) == Seq::<char>::empty());
        assert(hex_concat(vs, w) + hex_width(v, w) =~= hex_width(v, w));
    } else {
        lemma_hex_concat_push(vs.drop_first(), v, w);
        assert(vs.push(v).drop_first() =~= vs.drop_first().push(v));
        assert(hex_concat(vs.push(v), w) =~= hex_concat(vs, w) + hex_width(v, w));
    }
}

pub proof fn lemma_join_nonempty(xs: Seq<Seq<char>>, d: char)
    requires
        xs.len() > 0,
        xs[0].len() > 0,
    ensures
        join(xs, d).len() > 0,
{
}


pub proof fn lemma_pow16_small()
    ensures
        pow16(2) == 256,
        pow16(4) == 65536,
{
    reveal_with_fuel(pow16, 5);
}

} // verus!
