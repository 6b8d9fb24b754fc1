//! The Map16 editor's undoable block edits and its hex inputs.
//!
//! The edits map a block id to its four tile words. A snapshot is one
//! 10-byte record per block, in increasing block order (`block_id` then the
//! four words, all little-endian), so equal edits always give equal bytes
//! whatever order they were made in.
use std::collections::BTreeMap;
use vstd::prelude::*;
use vstd::std_specs::iter::IteratorSpec;
use crate::clipboard::{decode_text, ClipboardPayload, PayloadView};
use crate::le_bytes::{le16, lemma_le16_of, push_u16, read_u16, u16_le};
use crate::text::{chars_of, find_char, parse_unsigned, parse_unsigned_at, split_once, trim, trim_range, find_in};
use crate::undo::Undo;

verus! {

/// The Map16 editor's per-block tile-word edits.
#[derive(Clone, Debug, Default)]
pub struct EditableMap16Edits {
    pub edits: BTreeMap<u16, [u16; 4]>,
}

impl View for EditableMap16Edits {
    type V = Map<u16, [u16; 4]>;

    open spec fn view(&self) -> Map<u16, [u16; 4]> {
        self.edits@
    }
}

pub open spec fn increasing(ks: Seq<u16>) -> bool {
    forall|i: int, j: int| 0 <= i < j < ks.len() ==> ks[i] < ks[j]
}

/// The block ids of the edits in increasing order.
pub open spec fn sorted_keys(m: Map<u16, [u16; 4]>) -> Seq<u16> {
    choose|ks: Seq<u16>| increasing(ks) && ks.to_set() == m.dom()
}

/// The 10-byte record of one block.
pub open spec fn block_record(k: u16, w: [u16; 4]) -> Seq<u8> {
    u16_le(k) + u16_le(w[0]) + u16_le(w[1]) + u16_le(w[2]) + u16_le(w[3])
}

/// The records of the given blocks, in the given order.
pub open spec fn block_records(ks: Seq<u16>, m: Map<u16, [u16; 4]>) -> Seq<u8>
    decreases ks.len(),
{
    if ks.len() == 0 {
        Seq::empty()
    } else {
        block_records(ks.drop_last(), m) + block_record(ks.last(), m[ks.last()])
    }
}

/// The snapshot of the edits.
pub open spec fn edits_snapshot(m: Map<u16, [u16; 4]>) -> Seq<u8> {
    block_records(sorted_keys(m), m)
}

/// The block id of record `i`.
pub open spec fn record_key(b: Seq<u8>, i: int) -> u16 {
    le16(b, 10 * i) as u16
}

/// The tile words of record `i`.
pub open spec fn record_words(b: Seq<u8>, i: int) -> [u16; 4] {
    [
        le16(b, 10 * i + 2) as u16,
        le16(b, 10 * i + 4) as u16,
        le16(b, 10 * i + 6) as u16,
        le16(b, 10 * i + 8) as u16,
    ]
}

/// The edits of the first `n` whole records, a later record of a block
/// replacing an earlier one.
pub open spec fn records_map(b: Seq<u8>, n: nat) -> Map<u16, [u16; 4]>
    decreases n,
{
    if n == 0 {
        Map::empty()
    } else {
        records_map(b, (n - 1) as nat).insert(record_key(b, n - 1), record_words(b, n - 1))
    }
}

/// The edits read back from a snapshot (a trailing partial record is
/// ignored).
pub open spec fn edits_from_snapshot(b: Seq<u8>) -> Map<u16, [u16; 4]> {
    records_map(b, b.len() / 10)
}

proof fn lemma_records_len(ks: Seq<u16>, m: Map<u16, [u16; 4]>)
    ensures
        block_records(ks, m).len() == 10 * ks.len(),
    decreases ks.len(),
{
    if ks.len() > 0 {
        lemma_records_len(ks.drop_last(), m);
    }
}

/// Record `i` of the records reads back as block `ks[i]` and its words.
proof fn lemma_record_at(ks: Seq<u16>, m: Map<u16, [u16; 4]>, i: int)
    requires
        0 <= i < ks.len(),
    ensures
        record_key(block_records(ks, m), i) == ks[i],
        record_words(block_records(ks, m), i) == m[ks[i]],
    decreases ks.len(),
{
    let b = block_records(ks, m);
    lemma_records_len(ks.drop_last(), m);
    let pre = block_records(ks.drop_last(), m);
    if i < ks.len() - 1 {
        lemma_record_at(ks.drop_last(), m, i);
        lemma_records_len(ks.drop_last(), m);
        assert forall|j: int| 10 * i <= j < 10 * i + 10 implies b[j] == pre[j] by {}
    } else {
        let r = block_record(ks.last(), m[ks.last()]);
        assert forall|j: int| 0 <= j < 10 implies b[10 * i + j] == r[j] by {}
        let w = m[ks[i]];
        lemma_le16_of(ks[i], b, 10 * i);
        lemma_le16_of(w[0], b, 10 * i + 2);
        lemma_le16_of(w[1], b, 10 * i + 4);
        lemma_le16_of(w[2], b, 10 * i + 6);
        lemma_le16_of(w[3], b, 10 * i + 8);
        assert(record_words(b, i) =~= w);
    }
}

/// Two increasing sequences with the same elements are equal.
proof fn lemma_increasing_unique(a: Seq<u16>, b: Seq<u16>)
    requires
        increasing(a),
        increasing(b),
        a.to_set() == b.to_set(),
    ensures
        a == b,
    decreases a.len() + b.len(),
{
    if a.len() == 0 {
        if b.len() > 0 {
            assert(b.to_set().contains(b[0]));
        }
        assert(a =~= b);
    } else if b.len() == 0 {
        assert(a.to_set().contains(a[0]));
    } else {
        // Both start with the least element.
        assert(a.to_set().contains(a[0]));
        assert(b.to_set().contains(b[0]));
        assert(b.to_set().contains(a[0]));
        assert(a.to_set().contains(b[0]));
        let ia = choose|i: int| 0 <= i < a.len() && a[i] == b[0];
        let ib = choose|i: int| 0 <= i < b.len() && b[i] == a[0];
        assert(a[0] <= a[ia]);
        assert(b[0] <= b[ib]);
        assert(a[0] == b[0]);
        let a1 = a.drop_first();
        let b1 = b.drop_first();
        assert forall|x: u16| a1.to_set().contains(x) <==> b1.to_set().contains(x) by {
            if a1.to_set().contains(x) {
                let i = choose|i: int| 0 <= i < a1.len() && a1[i] == x;
                assert(a[i + 1] == x);
                assert(b.to_set().contains(x));
                let j = choose|j: int| 0 <= j < b.len() && b[j] == x;
                assert(j != 0);
                assert(b1[j - 1] == x);
            }
            if b1.to_set().contains(x) {
                let i = choose|i: int| 0 <= i < b1.len() && b1[i] == x;
                assert(b[i + 1] == x);
                assert(a.to_set().contains(x));
                let j = choose|j: int| 0 <= j < a.len() && a[j] == x;
                assert(j != 0);
                assert(a1[j - 1] == x);
            }
        }
        assert(a1.to_set() =~= b1.to_set());
        assert forall|i: int, j: int| 0 <= i < j < a1.len() implies a1[i] < a1[j] by {
            assert(a1[i] == a[i + 1] && a1[j] == a[j + 1]);
        }
        assert forall|i: int, j: int| 0 <= i < j < b1.len() implies b1[i] < b1[j] by {
            assert(b1[i] == b[i + 1] && b1[j] == b[j + 1]);
        }
        lemma_increasing_unique(a1, b1);
        assert forall|i: int| 0 <= i < a.len() implies a[i] == b[i] by {
            if i > 0 {
                assert(a[i] == a1[i - 1] && b[i] == b1[i - 1]);
            }
        }
        assert(a =~= b);
    }
}

/// Reading back the first `n` records gives the edits of the first `n`
/// blocks.
proof fn lemma_records_map(ks: Seq<u16>, m: Map<u16, [u16; 4]>, n: nat)
    requires
        increasing(ks),
        n <= ks.len(),
        forall|i: int| 0 <= i < ks.len() ==> m.dom().contains(#[trigger] ks[i]),
    ensures
        records_map(block_records(ks, m), n) == m.restrict(ks.take(n as int).to_set()),
    decreases n,
{
    let b = block_records(ks, m);
    if n == 0 {
        assert(records_map(b, 0) =~= m.restrict(ks.take(0).to_set()));
    } else {
        lemma_records_map(ks, m, (n - 1) as nat);
        lemma_record_at(ks, m, n - 1);
        let prev = ks.take(n - 1).to_set();
        let cur = ks.take(n as int).to_set();
        assert(ks.take(n as int) =~= ks.take(n - 1).push(ks[n - 1]));
        assert(cur =~= prev.insert(ks[n - 1])) by {
            assert forall|x: u16| cur.contains(x) <==> prev.insert(ks[n - 1]).contains(x) by {
                if cur.contains(x) {
                    let i = choose|i: int| 0 <= i < n && #[trigger] ks.take(n as int)[i] == x;
                    if i < n - 1 {
                        assert(ks.take(n - 1)[i] == x);
                    }
                }
                if prev.contains(x) {
                    let i = choose|i: int| 0 <= i < n - 1 && #[trigger] ks.take(n - 1)[i] == x;
                    assert(ks.take(n as int)[i] == x);
                }
                if x == ks[n - 1] {
                    assert(ks.take(n as int)[n - 1] == x);
                }
            }
        }
        assert(records_map(b, n) =~= m.restrict(cur));
    }
}

/// The blocks of the edits below `n`, in increasing order.
pub open spec fn keys_below(m: Map<u16, [u16; 4]>, n: nat) -> Seq<u16>
    decreases n,
{
    if n == 0 {
        Seq::empty()
    } else if m.contains_key((n - 1) as u16) {
        keys_below(m, (n - 1) as nat).push((n - 1) as u16)
    } else {
        keys_below(m, (n - 1) as nat)
    }
}

proof fn lemma_keys_below(m: Map<u16, [u16; 4]>, n: nat)
    requires
        n <= 65536,
    ensures
        increasing(keys_below(m, n)),
        forall|i: int| 0 <= i < keys_below(m, n).len() ==> (#[trigger] keys_below(m, n)[i] as int) < n,
        forall|k: u16| keys_below(m, n).to_set().contains(k) <==> (k < n && m.contains_key(k)),
    decreases n,
{
    if n > 0 {
        let p = keys_below(m, (n - 1) as nat);
        lemma_keys_below(m, (n - 1) as nat);
        let k0 = (n - 1) as u16;
        if m.contains_key(k0) {
            let q = p.push(k0);
            assert forall|k: u16| q.to_set().contains(k) <==> (k < n && m.contains_key(k)) by {
                if q.to_set().contains(k) {
                    let i = choose|i: int| 0 <= i < q.len() && q[i] == k;
                    if i < p.len() {
                        assert(p[i] == k);
                        assert(p.to_set().contains(k));
                    }
                }
                if k < n && m.contains_key(k) {
                    if k == k0 {
                        assert(q[p.len() as int] == k);
                    } else {
                        assert(p.to_set().contains(k));
                        let i = choose|i: int| 0 <= i < p.len() && p[i] == k;
                        assert(q[i] == k);
                    }
                }
            }
        } else {
            assert forall|k: u16| p.to_set().contains(k) <==> (k < n && m.contains_key(k)) by {
                if k < n && m.contains_key(k) {
                    assert(k != k0);
                }
            }
        }
    }
}

/// Every set of blocks has its increasing order.
pub proof fn lemma_sorted_keys(m: Map<u16, [u16; 4]>)
    ensures
        increasing(sorted_keys(m)),
        sorted_keys(m).to_set() == m.dom(),
{
    lemma_keys_below(m, 65536);
    let ks = keys_below(m, 65536);
    assert(ks.to_set() =~= m.dom());
}

/// The snapshot depends on the edits alone (not on the order they were
/// made), holds one 10-byte record per edited block, and is as long as the
/// size the edits report.
pub proof fn lemma_edits_snapshot_len(m: Map<u16, [u16; 4]>)
    ensures
        edits_snapshot(m).len() == 10 * m.len(),
        edits_snapshot(m).len() == <EditableMap16Edits as Undo>::size(m),
{
    lemma_sorted_keys(m);
    let ks = sorted_keys(m);
    lemma_records_len(ks, m);
    assert(ks.no_duplicates()) by {
        assert forall|i: int, j: int| 0 <= i < ks.len() && 0 <= j < ks.len() && i != j implies ks[i] != ks[j] by {
            if i < j {
                assert(ks[i] < ks[j]);
            } else {
                assert(ks[j] < ks[i]);
            }
        }
    }
    ks.unique_seq_to_set();
}

/// Reading back the snapshot of the edits gives the edits.
pub proof fn lemma_edits_round_trip(m: Map<u16, [u16; 4]>)
    ensures
        edits_from_snapshot(edits_snapshot(m)) == m,
{
    lemma_sorted_keys(m);
    let ks = sorted_keys(m);
    let b = edits_snapshot(m);
    lemma_records_len(ks, m);
    assert(b.len() / 10 == ks.len());
    assert forall|i: int| 0 <= i < ks.len() implies m.dom().contains(#[trigger] ks[i]) by {
        assert(ks.to_set().contains(ks[i]));
    }
    lemma_records_map(ks, m, ks.len());
    assert(ks.take(ks.len() as int) =~= ks);
    assert(m.restrict(ks.to_set()) =~= m);
}


fn push_block_record(out: &mut Vec<u8>, k: u16, w: [u16; 4])
    ensures
        final(out)@ == old(out)@ + block_record(k, w),
{
    push_u16(out, k);
    push_u16(out, w[0]);
    push_u16(out, w[1]);
    push_u16(out, w[2]);
    push_u16(out, w[3]);
    assert(final(out)@ =~= old(out)@ + block_record(k, w));
}

impl Undo for EditableMap16Edits {
    open spec fn encode(v: Map<u16, [u16; 4]>) -> Seq<u8> {
        edits_snapshot(v)
    }

    open spec fn decode(bytes: Seq<u8>) -> Map<u16, [u16; 4]> {
        edits_from_snapshot(bytes)
    }

    open spec fn size(v: Map<u16, [u16; 4]>) -> nat {
        10 * v.len()
    }

    fn from_bytes(bytes: Vec<u8>) -> (r: Self) {
        broadcast use vstd::std_specs::btree::group_btree_axioms;
        proof {
            crate::order::lemma_u16_order();
        }
        let mut edits: BTreeMap<u16, [u16; 4]> = BTreeMap::new();
        let len = bytes.len();
        let n = len / 10;
        let mut i: usize = 0;
        while i < n
            invariant
                i <= n,
                len == bytes@.len(),
                n == len / 10,
                edits@ == records_map(bytes@, i as nat),
            decreases n - i,
        {
            assert(10 * i + 10 <= len) by (nonlinear_arith)
                requires
                    i < n,
                    n == len / 10,
            ;
            let at = i * 10;
            let block_id = read_u16(&bytes, at);
            let words = [
                read_u16(&bytes, at + 2),
                read_u16(&bytes, at + 4),
                read_u16(&bytes, at + 6),
                read_u16(&bytes, at + 8),
            ];
            assert(words =~= record_words(bytes@, i as int));
            edits.insert(block_id, words);
            i = i + 1;
        }
        EditableMap16Edits { edits }
    }

    fn to_bytes(&self) -> (r: Vec<u8>) {
        broadcast use vstd::std_specs::btree::group_btree_axioms;
        proof {
            crate::order::lemma_u16_order();
        }
        let ghost m = self.edits@;
        let mut bytes: Vec<u8> = Vec::new();
        let ghost mut ks: Seq<u16> = Seq::empty();
        let iter = self.edits.iter();
        proof {
            crate::order::lemma_increasing_keys(iter.remaining());
            let v = iter.remaining();
            assert forall|q: u16| #[trigger] m.contains_key(q) implies exists|j: int| 0 <= j < v.len() && *v[j].0 == q by {
                assert(v.contains((&q, &m[q])));
                let j = choose|j: int| 0 <= j < v.len() && v[j] == (&q, &m[q]);
                assert(*v[j].0 == q);
            }
        }
        for (k, w) in it: iter
            invariant
                m == self.edits@,
                forall|i: int, j: int| 0 <= i < j < it.seq().len() ==> *it.seq()[i].0 < *it.seq()[j].0,
                forall|i: int|
                    0 <= i < it.seq().len() ==> m.contains_key(*(#[trigger] it.seq()[i]).0) && m[*it.seq()[i].0]
                        == *it.seq()[i].1,
                forall|q: u16| #[trigger] m.contains_key(q) ==> exists|j: int| 0 <= j < it.seq().len() && *it.seq()[j].0 == q,
                ks.len() == it.index(),
                forall|i: int| #![trigger ks[i]] #![trigger it.seq()[i]] 0 <= i < ks.len() ==> ks[i] == *it.seq()[i].0,
                bytes@ == block_records(ks, m),
            ensures
                ks.len() == it.seq().len(),
                bytes@ == block_records(ks, m),
                increasing(ks),
                forall|i: int| 0 <= i < ks.len() ==> m.contains_key(#[trigger] ks[i]),
                forall|q: u16| #[trigger] m.contains_key(q) ==> exists|j: int| 0 <= j < ks.len() && ks[j] == q,
        {
            proof {
                assert(it.seq()[it.index() as int] == (k, w));
            }
            push_block_record(&mut bytes, *k, *w);
            proof {
                let ks2 = ks.push(*k);
                assert(ks2.drop_last() =~= ks);
                ks = ks2;
            }
        }
        proof {
            assert forall|q: u16| ks.to_set().contains(q) <==> m.dom().contains(q) by {
                if m.dom().contains(q) {
                    let j = choose|j: int| 0 <= j < ks.len() && ks[j] == q;
                    assert(ks.contains(q));
                }
                if ks.to_set().contains(q) {
                    let j = choose|j: int| 0 <= j < ks.len() && ks[j] == q;
                    assert(m.contains_key(ks[j]));
                }
            }
            assert(ks.to_set() =~= m.dom());
            lemma_increasing_unique(ks, sorted_keys(m));
        }
        bytes
    }

    fn size_bytes(&self) -> (n: usize) {
        broadcast use vstd::std_specs::btree::group_btree_axioms;
        proof {
            crate::order::lemma_u16_order();
        }
        self.edits.len() * 10
    }
}


// ---------------------------------------------------------------------------
// Hex inputs
// ---------------------------------------------------------------------------

/// `s` with every leading repetition of the non-empty `p` removed
/// (`str::trim_start_matches`).
pub open spec fn strip_prefix_all(s: Seq<char>, p: Seq<char>) -> Seq<char>
    decreases s.len(),
{
    if p.len() > 0 && p.len() <= s.len() && s.take(p.len() as int) == p {
        strip_prefix_all(s.skip(p.len() as int), p)
    } else {
        s
    }
}

/// A hex `u16` with surrounding whitespace and any leading `0x` (then any
/// leading `0X`) ignored; one optional `+` before the digits.
pub open spec fn hex_u16_spec(s: Seq<char>) -> Option<u16> {
    let t = strip_prefix_all(strip_prefix_all(trim(s), seq!['0', 'x']), seq!['0', 'X']);
    if t.len() == 0 {
        None
    } else {
        match parse_unsigned(t, 16, 0xFFFF) {
            Some(v) => Some(v as u16),
            None => None,
        }
    }
}

/// The letters a range may start with (`G100-101` pasted from the docs).
pub open spec fn range_marker(c: char) -> bool {
    c == 'G' || c == 'R' || c == 'g' || c == 'r'
}

pub open spec fn strip_markers(s: Seq<char>) -> Seq<char>
    decreases s.len(),
{
    if s.len() > 0 && range_marker(s[0]) {
        strip_markers(s.drop_first())
    } else {
        s
    }
}

/// `A-B` (either order) or a single `A` as an inclusive hex range, after
/// surrounding whitespace and any leading `G`/`R` letters.
pub open spec fn hex_range_spec(s: Seq<char>) -> Option<(u16, u16)> {
    let t = strip_markers(trim(s));
    match split_once(t, '-') {
        Some((a, b)) => match (hex_u16_spec(a), hex_u16_spec(b)) {
            (Some(x), Some(y)) => Some((if x <= y { x } else { y }, if x <= y { y } else { x })),
            _ => None,
        },
        None => match hex_u16_spec(t) {
            Some(x) => Some((x, x)),
            None => None,
        },
    }
}

pub(crate) fn strip_prefix_at(cs: &Vec<char>, lo: usize, hi: usize, c1: char) -> (r: usize)
    requires
        lo <= hi <= cs@.len(),
    ensures
        lo <= r <= hi,
        cs@.subrange(r as int, hi as int) == strip_prefix_all(cs@.subrange(lo as int, hi as int), seq!['0', c1]),
{
    let mut a = lo;
    while hi - a >= 2 && cs[a] == '0' && cs[a + 1] == c1
        invariant
            lo <= a <= hi <= cs@.len(),
            strip_prefix_all(cs@.subrange(lo as int, hi as int), seq!['0', c1]) == strip_prefix_all(
                cs@.subrange(a as int, hi as int),
                seq!['0', c1],
            ),
        decreases hi - a,
    {
        let ghost t = cs@.subrange(a as int, hi as int);
        assert(t.take(2) =~= seq!['0', c1]);
        assert(t.skip(2) =~= cs@.subrange(a + 2, hi as int));
        a = a + 2;
    }
    let ghost t = cs@.subrange(a as int, hi as int);
    if hi - a >= 2 {
        assert(t.take(2) != seq!['0', c1]) by {
            if t.take(2) == seq!['0', c1] {
                assert(t.take(2)[0] == cs@[a as int] && t.take(2)[1] == cs@[a + 1]);
            }
        }
    }
    a
}

/// `cs[lo..hi]` parsed as by `hex_u16_spec`.
pub(crate) fn parse_hex_u16_at(cs: &Vec<char>, lo: usize, hi: usize) -> (r: Option<u16>)
    requires
        lo <= hi <= cs@.len(),
    ensures
        r == hex_u16_spec(cs@.subrange(lo as int, hi as int)),
{
    let (a, b) = trim_range(cs, lo, hi);
    let a1 = strip_prefix_at(cs, a, b, 'x');
    let a2 = strip_prefix_at(cs, a1, b, 'X');
    if a2 == b {
        return None;
    }
    match parse_unsigned_at(cs, a2, b, 16, 0xFFFF) {
        Some(v) => Some(v as u16),
        None => None,
    }
}

/// Parses a hex `u16`, ignoring surrounding whitespace and leading `0x`.
pub fn parse_hex_u16(s: &str) -> (r: Option<u16>)
    ensures
        r == hex_u16_spec(s@),
{
    let cs = chars_of(s);
    assert(cs@.subrange(0, cs@.len() as int) =~= s@);
    parse_hex_u16_at(&cs, 0, cs.len())
}

/// Parses `A-B` or a single `A` as an inclusive hex range `(low, high)`,
/// tolerating a leading `G`/`R`.
pub fn parse_hex_range(s: &str) -> (r: Option<(u16, u16)>)
    ensures
        r == hex_range_spec(s@),
{
    let cs = chars_of(s);
    assert(cs@.subrange(0, cs@.len() as int) =~= s@);
    let (lo, hi) = trim_range(&cs, 0, cs.len());
    let mut a = lo;
    while a < hi && (cs[a] == 'G' || cs[a] == 'R' || cs[a] == 'g' || cs[a] == 'r')
        invariant
            lo <= a <= hi <= cs@.len(),
            strip_markers(cs@.subrange(lo as int, hi as int)) == strip_markers(cs@.subrange(a as int, hi as int)),
        decreases hi - a,
    {
        assert(cs@.subrange(a as int, hi as int).drop_first() =~= cs@.subrange(a + 1, hi as int));
        a = a + 1;
    }
    let ghost t = cs@.subrange(a as int, hi as int);
    assert(strip_markers(t) == t);
    match find_in(&cs, a, hi, '-') {
        Some(k) => {
            assert(t.take(k - a) =~= cs@.subrange(a as int, k as int));
            assert(t.skip(k - a + 1) =~= cs@.subrange(k + 1, hi as int));
            let x = match parse_hex_u16_at(&cs, a, k) {
                Some(x) => x,
                None => return None,
            };
            let y = match parse_hex_u16_at(&cs, k + 1, hi) {
                Some(y) => y,
                None => return None,
            };
            Some((if x <= y { x } else { y }, if x <= y { y } else { x }))
        },
        None => match parse_hex_u16_at(&cs, a, hi) {
            Some(x) => Some((x, x)),
            None => None,
        },
    }
}


/// Undoing a Map16 edit puts the edits back as they were.
pub proof fn lemma_edits_undo_restores(
    h: crate::undo::History<Map<u16, [u16; 4]>>,
    before: Map<u16, [u16; 4]>,
    next: Map<u16, [u16; 4]>,
)
    ensures
        crate::undo::undo_spec::<EditableMap16Edits>(crate::undo::commit_spec::<EditableMap16Edits>(h, before, next)).current
            == before,
{
    crate::undo::lemma_undo_after_commit::<EditableMap16Edits>(h, before, next);
    lemma_edits_round_trip(before);
}

// ---------------------------------------------------------------------------
// Pasting into the block editor
// ---------------------------------------------------------------------------

/// What pasting clipboard text into the Map16 Block Editor does.
#[derive(Clone, Copy, Debug, PartialEq, Eq)]
pub enum Map16Paste {
    /// Copied tile words replace the current block's words.
    Words([u16; 4]),
    /// A single copied block id: the editor jumps to that block.
    JumpTo(u16),
    /// Editor data of another kind: nothing to paste here.
    OtherKind,
    /// Not the editor's clipboard format.
    NotOurs,
}

/// What pasting `text` into the Map16 Block Editor does.
pub fn map16_paste_action(text: &str) -> (r: Map16Paste)
    ensures
        match decode_text(text@) {
            None => r == Map16Paste::NotOurs,
            Some(PayloadView::Map16BlockWords { words }) => r matches Map16Paste::Words(w) && w@ == words,
            Some(PayloadView::Map16Blocks { cols, rows, ids }) => if cols == 1 && rows == 1 && ids.len() > 0 {
                r == Map16Paste::JumpTo(ids[0])
            } else {
                r == Map16Paste::OtherKind
            },
            Some(_) => r == Map16Paste::OtherKind,
        },
{
    match ClipboardPayload::decode(text) {
        Some(ClipboardPayload::Map16BlockWords { words }) => Map16Paste::Words(words),
        Some(ClipboardPayload::Map16Blocks { cols, rows, ids }) => {
            if cols == 1 && rows == 1 && ids.len() > 0 {
                Map16Paste::JumpTo(ids[0])
            } else {
                Map16Paste::OtherKind
            }
        },
        Some(_) => Map16Paste::OtherKind,
        None => Map16Paste::NotOurs,
    }
}

} // verus!
