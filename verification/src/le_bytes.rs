//! Little-endian integers in byte sequences, as the undo snapshots store
//! them.
use vstd::prelude::*;

verus! {

/// The little-endian `u16` at `at`.
pub open spec fn le16(b: Seq<u8>, at: int) -> int {
    b[at] + 256 * b[at + 1]
}

/// The little-endian `u32` at `at`.
pub open spec fn le32(b: Seq<u8>, at: int) -> int {
    b[at] + 256 * b[at + 1] + 65536 * b[at + 2] + 16777216 * b[at + 3]
}

/// The little-endian `u24` at `at`.
pub open spec fn le24(b: Seq<u8>, at: int) -> int {
    b[at] + 256 * b[at + 1] + 65536 * b[at + 2]
}

/// Byte `k` (0 = lowest) of `x`.
pub open spec fn byte_of(x: int, k: int) -> u8 {
    if k == 0 {
        (x % 256) as u8
    } else if k == 1 {
        ((x / 256) % 256) as u8
    } else if k == 2 {
        ((x / 65536) % 256) as u8
    } else {
        ((x / 16777216) % 256) as u8
    }
}

/// The two little-endian bytes of `x`.
pub open spec fn u16_le(x: u16) -> Seq<u8> {
    seq![byte_of(x as int, 0), byte_of(x as int, 1)]
}

/// The four little-endian bytes of `x`.
pub open spec fn u32_le(x: u32) -> Seq<u8> {
    seq![byte_of(x as int, 0), byte_of(x as int, 1), byte_of(x as int, 2), byte_of(x as int, 3)]
}

/// Words as little-endian bytes, one after the other.
pub open spec fn words_le(t: Seq<u16>) -> Seq<u8> {
    Seq::new(2 * t.len(), |i: int| byte_of(t[i / 2] as int, i % 2))
}

/// Appending a word appends its two bytes.
pub proof fn lemma_words_le_push(t: Seq<u16>, w: u16)
    ensures
        words_le(t.push(w)) == words_le(t) + u16_le(w),
{
    let a = words_le(t.push(w));
    let b = words_le(t) + u16_le(w);
    assert forall|i: int| 0 <= i < a.len() implies a[i] == b[i] by {
        if i >= 2 * t.len() {
            let k = i - 2 * t.len();
            assert((2 * t.len() + k) / 2 == t.len() && (2 * t.len() + k) % 2 == k) by (nonlinear_arith)
                requires
                    0 <= k < 2,
            ;
        } else {
            assert(i / 2 < t.len()) by (nonlinear_arith)
                requires
                    0 <= i < 2 * t.len(),
            ;
        }
    }
    assert(a =~= b);
}

/// Word `k` of a little-endian word sequence reads back as the word.
pub proof fn lemma_words_le_index(t: Seq<u16>, k: int)
    requires
        0 <= k < t.len(),
    ensures
        le16(words_le(t), 2 * k) == t[k],
{
    let b = words_le(t);
    assert((2 * k) / 2 == k && (2 * k) % 2 == 0 && (2 * k + 1) / 2 == k && (2 * k + 1) % 2 == 1) by (nonlinear_arith)
        requires
            0 <= k,
    ;
    lemma_le16_of(t[k], b, 2 * k);
}

/// Reading back the bytes of a `u16` gives the `u16`.
pub proof fn lemma_le16_of(x: u16, b: Seq<u8>, at: int)
    requires
        0 <= at,
        at + 2 <= b.len(),
        b[at] == byte_of(x as int, 0),
        b[at + 1] == byte_of(x as int, 1),
    ensures
        le16(b, at) == x,
{
}

/// Reading back the bytes of a `u32` gives the `u32`.
pub proof fn lemma_le32_of(x: u32, b: Seq<u8>, at: int)
    requires
        0 <= at,
        at + 4 <= b.len(),
        b[at] == byte_of(x as int, 0),
        b[at + 1] == byte_of(x as int, 1),
        b[at + 2] == byte_of(x as int, 2),
        b[at + 3] == byte_of(x as int, 3),
    ensures
        le32(b, at) == x,
{
    let x0 = x as int;
    assert(x0 == x0 % 256 + 256 * ((x0 / 256) % 256) + 65536 * ((x0 / 65536) % 256) + 16777216 * ((x0
        / 16777216) % 256)) by (nonlinear_arith)
        requires
            0 <= x0 < 0x1_0000_0000,
    ;
}

/// The `u16` at `at`.
pub fn read_u16(b: &Vec<u8>, at: usize) -> (r: u16)
    requires
        at + 2 <= b.len(),
    ensures
        r == le16(b@, at as int),
{
    b[at] as u16 + (b[at + 1] as u16) * 256
}

/// The `u32` at `at`.
pub fn read_u32(b: &Vec<u8>, at: usize) -> (r: u32)
    requires
        at + 4 <= b.len(),
    ensures
        r == le32(b@, at as int),
{
    b[at] as u32 + (b[at + 1] as u32) * 256 + (b[at + 2] as u32) * 65536 + (b[at + 3] as u32) * 16777216
}

/// Appends the two little-endian bytes of `x`.
pub fn push_u16(out: &mut Vec<u8>, x: u16)
    ensures
        final(out)@ == old(out)@ + u16_le(x),
{
    out.push((x % 256) as u8);
    out.push(((x / 256) % 256) as u8);
    assert(final(out)@ =~= old(out)@ + u16_le(x));
}

/// Appends the four little-endian bytes of `x`.
pub fn push_u32(out: &mut Vec<u8>, x: u32)
    ensures
        final(out)@ == old(out)@ + u32_le(x),
{
    out.push((x % 256) as u8);
    out.push(((x / 256) % 256) as u8);
    out.push(((x / 65536) % 256) as u8);
    out.push(((x / 16777216) % 256) as u8);
    assert(final(out)@ =~= old(out)@ + u32_le(x));
}

} // verus!
