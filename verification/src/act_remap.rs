//! The Map16 "acts like" table: the table as the user sees it (the ROM's
//! table with pending edits laid over it), the Remap dialog's request, and
//! the preview of what a remap changes.
//!
//! Two operations come from the dialog: `G100-101,+25` shifts every act-as
//! value in `0x100..=0x101` by `+0x25` (`-25` shifts down, `M125` or `125`
//! remaps them onto base `0x125`); `R200-211,S25` (or `25`) makes tiles
//! `0x200..=0x211` act as `0x25..=0x36`.
use std::collections::BTreeMap;
use vstd::prelude::*;
use crate::map16_editor::{hex_range_spec, hex_u16_spec, parse_hex_range, parse_hex_u16_at};
use crate::text::{chars_of, dec, hex_width, push_char, push_dec, push_hex, push_str, trim, trim_range};

verus! {

/// A remap operation, as the dialog asks for it.
#[derive(Clone, Copy, Debug, PartialEq, Eq, Structural)]
pub enum RemapOp {
    /// Shift the act-as values in `lo..=hi` by `delta`.
    ShiftRefs { lo: u16, hi: u16, delta: i32 },
    /// Remap the act-as values in `lo..=hi` onto `base` and up.
    RefsOnto { lo: u16, hi: u16, base: u16 },
    /// Tiles `lo..=hi` act as `base`, `base + 1`, and so on.
    AssignFromBase { lo: u16, hi: u16, base: u16 },
}

/// Why the dialog's fields make no remap.
#[derive(Clone, Copy, Debug, PartialEq, Eq, Structural)]
pub enum RemapError {
    BadSourceRange,
    SourceNotForeground,
    BadDelta,
    BadReference,
    ReferenceTooHigh,
    BadTileRange,
    TilesNotForeground,
    BadBase,
    BaseTooHigh,
}

/// `s` with its leading `a` and `b` characters removed.
pub open spec fn strip_either(s: Seq<char>, a: char, b: char) -> Seq<char>
    decreases s.len(),
{
    if s.len() > 0 && (s[0] == a || s[0] == b) {
        strip_either(s.drop_first(), a, b)
    } else {
        s
    }
}

/// The operation that the dialog's fields ask for: references mode (`G`)
/// or assignment mode (`R`), the source range and the reference (a signed
/// delta or a base, hex, `M` before a base allowed) or the base (`S`
/// allowed).
pub open spec fn remap_request_spec(refs_mode: bool, src: Seq<char>, reference: Seq<char>) -> Result<
    RemapOp,
    RemapError,
> {
    match hex_range_spec(src) {
        None => Err(if refs_mode { RemapError::BadSourceRange } else { RemapError::BadTileRange }),
        Some((lo, hi)) => if refs_mode {
            if lo >= 0x8000 || hi >= 0x8000 {
                Err(RemapError::SourceNotForeground)
            } else {
                let r = trim(reference);
                if r.len() > 0 && r[0] == '+' {
                    match hex_u16_spec(r.drop_first()) {
                        Some(d) => Ok(RemapOp::ShiftRefs { lo, hi, delta: d as i32 }),
                        None => Err(RemapError::BadDelta),
                    }
                } else if r.len() > 0 && r[0] == '-' {
                    match hex_u16_spec(r.drop_first()) {
                        Some(d) => Ok(RemapOp::ShiftRefs { lo, hi, delta: (0 - d) as i32 }),
                        None => Err(RemapError::BadDelta),
                    }
                } else {
                    match hex_u16_spec(strip_either(r, 'M', 'm')) {
                        Some(b) => if b >= 0x8000 {
                            Err(RemapError::ReferenceTooHigh)
                        } else {
                            Ok(RemapOp::RefsOnto { lo, hi, base: b })
                        },
                        None => Err(RemapError::BadReference),
                    }
                }
            }
        } else {
            if hi >= 0x8000 {
                Err(RemapError::TilesNotForeground)
            } else {
                match hex_u16_spec(strip_either(trim(reference), 'S', 's')) {
                    Some(b) => if b >= 0x8000 {
                        Err(RemapError::BaseTooHigh)
                    } else {
                        Ok(RemapOp::AssignFromBase { lo, hi, base: b })
                    },
                    None => Err(RemapError::BadBase),
                }
            }
        }
    }
}

/// Skips the leading `a` and `b` characters of `cs[lo..hi]`.
pub(crate) fn skip_either(cs: &Vec<char>, lo: usize, hi: usize, a: char, b: char) -> (r: usize)
    requires
        lo <= hi <= cs@.len(),
    ensures
        lo <= r <= hi,
        cs@.subrange(r as int, hi as int) == strip_either(cs@.subrange(lo as int, hi as int), a, b),
{
    let mut k = lo;
    while k < hi && (cs[k] == a || cs[k] == b)
        invariant
            lo <= k <= hi <= cs@.len(),
            strip_either(cs@.subrange(lo as int, hi as int), a, b) == strip_either(
                cs@.subrange(k as int, hi as int),
                a,
                b,
            ),
        decreases hi - k,
    {
        assert(cs@.subrange(k as int, hi as int).drop_first() =~= cs@.subrange(k + 1, hi as int));
        k = k + 1;
    }
    k
}

/// Reads the Remap dialog's fields: `refs_mode` for remapping references
/// (`G`), else assigning a range from a base (`R`); `src` is the source or
/// tile range, `reference` the delta, reference or base.
pub fn parse_remap_request(refs_mode: bool, src: &str, reference: &str) -> (r: Result<RemapOp, RemapError>)
    ensures
        r == remap_request_spec(refs_mode, src@, reference@),
{
    let (lo, hi) = match parse_hex_range(src) {
        Some(range) => range,
        None => {
            return Err(if refs_mode { RemapError::BadSourceRange } else { RemapError::BadTileRange });
        },
    };
    let cs = chars_of(reference);
    let (a, b) = trim_range(&cs, 0, cs.len());
    assert(cs@.subrange(0, cs@.len() as int) =~= reference@);
    let ghost r = cs@.subrange(a as int, b as int);
    if refs_mode {
        if lo >= 0x8000 || hi >= 0x8000 {
            return Err(RemapError::SourceNotForeground);
        }
        if a < b && (cs[a] == '+' || cs[a] == '-') {
            assert(r.drop_first() =~= cs@.subrange(a + 1, b as int));
            match parse_hex_u16_at(&cs, a + 1, b) {
                Some(d) => {
                    if cs[a] == '+' {
                        Ok(RemapOp::ShiftRefs { lo, hi, delta: d as i32 })
                    } else {
                        Ok(RemapOp::ShiftRefs { lo, hi, delta: 0 - (d as i32) })
                    }
                },
                None => Err(RemapError::BadDelta),
            }
        } else {
            let k = skip_either(&cs, a, b, 'M', 'm');
            match parse_hex_u16_at(&cs, k, b) {
                Some(base) => {
                    if base >= 0x8000 {
                        Err(RemapError::ReferenceTooHigh)
                    } else {
                        Ok(RemapOp::RefsOnto { lo, hi, base })
                    }
                },
                None => Err(RemapError::BadReference),
            }
        }
    } else {
        if hi >= 0x8000 {
            return Err(RemapError::TilesNotForeground);
        }
        let k = skip_either(&cs, a, b, 'S', 's');
        match parse_hex_u16_at(&cs, k, b) {
            Some(base) => {
                if base >= 0x8000 {
                    Err(RemapError::BaseTooHigh)
                } else {
                    Ok(RemapOp::AssignFromBase { lo, hi, base })
                }
            },
            None => Err(RemapError::BadBase),
        }
    }
}

/// `s` without its first character, if it has one.
pub open spec fn after_first(s: Seq<char>) -> Seq<char> {
    if s.len() > 0 {
        s.drop_first()
    } else {
        s
    }
}

/// `label`, then `s` in single quotes.
pub open spec fn quoted(label: Seq<char>, s: Seq<char>) -> Seq<char> {
    label + seq!['\''] + s + seq!['\'']
}

/// The message for a refused remap, naming the field that was wrong.
pub open spec fn remap_error_text(e: RemapError, src: Seq<char>, reference: Seq<char>) -> Seq<char> {
    match e {
        RemapError::BadSourceRange => quoted("bad source range "@, src),
        RemapError::SourceNotForeground => "source range must be FG act-as values (< 0x8000)"@,
        RemapError::BadDelta => quoted("bad delta "@, after_first(trim(reference))),
        RemapError::BadReference => quoted("bad reference "@, reference),
        RemapError::ReferenceTooHigh => "reference must be < 0x8000"@,
        RemapError::BadTileRange => quoted("bad tile range "@, src),
        RemapError::TilesNotForeground => "tile range must be FG tiles (< 0x8000)"@,
        RemapError::BadBase => quoted("bad base "@, reference),
        RemapError::BaseTooHigh => "base must be < 0x8000"@,
    }
}

fn push_quoted(out: &mut String, label: &str, s: &str)
    ensures
        final(out)@ == old(out)@ + quoted(label@, s@),
{
    push_str(out, label);
    push_char(out, '\'');
    push_str(out, s);
    push_char(out, '\'');
    assert(final(out)@ =~= old(out)@ + quoted(label@, s@));
}

/// The message for a refused remap of the dialog's fields `src` and
/// `reference`.
pub fn remap_error_message(e: RemapError, src: &str, reference: &str) -> (r: String)
    ensures
        r@ == remap_error_text(e, src@, reference@),
{
    let mut out = String::new();
    match e {
        RemapError::BadSourceRange => push_quoted(&mut out, "bad source range ", src),
        RemapError::SourceNotForeground => push_str(&mut out, "source range must be FG act-as values (< 0x8000)"),
        RemapError::BadDelta => {
            let cs = chars_of(reference);
            assert(cs@.subrange(0, cs@.len() as int) =~= reference@);
            let (a, b) = trim_range(&cs, 0, cs.len());
            push_str(&mut out, "bad delta ");
            push_char(&mut out, '\'');
            let ghost start = out@;
            let ghost t = cs@.subrange(a as int, b as int);
            let mut k = if a < b { a + 1 } else { b };
            let ghost from = k;
            assert(after_first(t) =~= cs@.subrange(k as int, b as int));
            while k < b
                invariant
                    from <= k <= b <= cs@.len(),
                    out@ == start + cs@.subrange(from as int, k as int),
                decreases b - k,
            {
                push_char(&mut out, cs[k]);
                assert(cs@.subrange(from as int, k + 1) =~= cs@.subrange(from as int, k as int).push(cs@[k as int]));
                k = k + 1;
            }
            push_char(&mut out, '\'');
            assert(out@ =~= quoted("bad delta "@, after_first(trim(reference@))));
        },
        RemapError::BadReference => push_quoted(&mut out, "bad reference ", reference),
        RemapError::ReferenceTooHigh => push_str(&mut out, "reference must be < 0x8000"),
        RemapError::BadTileRange => push_quoted(&mut out, "bad tile range ", src),
        RemapError::TilesNotForeground => push_str(&mut out, "tile range must be FG tiles (< 0x8000)"),
        RemapError::BadBase => push_quoted(&mut out, "bad base ", reference),
        RemapError::BaseTooHigh => push_str(&mut out, "base must be < 0x8000"),
    }
    out
}

// ---------------------------------------------------------------------------
// The table and what a remap changes
// ---------------------------------------------------------------------------

/// The act-as value of tile `t` in a table: its entry, else the tile
/// itself.
pub open spec fn act_or_self(m: Map<u16, u16>, t: u16) -> u16 {
    if m.contains_key(t) {
        m[t]
    } else {
        t
    }
}

/// The effective act-as value of a tile: a background tile (`0x8000` and
/// up) acts as itself; a foreground tile takes its pending edit, else the
/// ROM's value `rom_act`.
pub open spec fn act_as_spec(block_id: u16, edits: Map<u16, u16>, rom_act: u16) -> u16 {
    if block_id >= 0x8000 {
        block_id
    } else if edits.contains_key(block_id) {
        edits[block_id]
    } else {
        rom_act
    }
}

/// The effective act-as value of tile `block_id`, given the pending edits
/// and the value `rom_act` that the ROM's table gives it.
pub fn act_as_of(block_id: u16, edits: &BTreeMap<u16, u16>, rom_act: u16) -> (r: u16)
    ensures
        r == act_as_spec(block_id, edits@, rom_act),
{
    broadcast use vstd::std_specs::btree::group_btree_axioms;
    proof {
        crate::order::lemma_u16_order();
    }
    if block_id >= 0x8000 {
        return block_id;
    }
    match edits.get(&block_id) {
        Some(a) => *a,
        None => rom_act,
    }
}

/// The act-as table as the user sees it: the ROM's `table` with the pending
/// `edits` laid over it; an edit back to the tile itself drops the entry.
pub open spec fn overlay_acts(table: Map<u16, u16>, edits: Map<u16, u16>) -> Map<u16, u16> {
    Map::new(
        |t: u16|
            if edits.contains_key(t) {
                edits[t] != t
            } else {
                table.contains_key(t)
            },
        |t: u16|
            if edits.contains_key(t) {
                edits[t]
            } else {
                table[t]
            },
    )
}

/// The overlay over the keys below `n` only.
pub open spec fn overlay_below(table: Map<u16, u16>, edits: Map<u16, u16>, n: int) -> Map<u16, u16> {
    Map::new(
        |t: u16|
            if (t as int) < n && edits.contains_key(t) {
                edits[t] != t
            } else {
                table.contains_key(t)
            },
        |t: u16|
            if (t as int) < n && edits.contains_key(t) {
                edits[t]
            } else {
                table[t]
            },
    )
}

/// Lays the pending act-as `edits` over the ROM's `table`: an edited tile
/// takes its edit, or loses its entry when the edit is the tile itself.
pub fn effective_acts_table(table: BTreeMap<u16, u16>, edits: &BTreeMap<u16, u16>) -> (r: BTreeMap<u16, u16>)
    ensures
        r@ == overlay_acts(table@, edits@),
{
    broadcast use vstd::std_specs::btree::group_btree_axioms;
    proof {
        crate::order::lemma_u16_order();
    }
    let mut out = table;
    let ghost orig = out@;
    assert(out@ =~= overlay_below(orig, edits@, 0));
    let mut t: u32 = 0;
    while t < 0x10000
        invariant
            t <= 0x10000,
            out@ == overlay_below(orig, edits@, t as int),
            crate::order::u16_keys_ordered(),
        decreases 0x10000 - t,
    {
        let key = t as u16;
        match edits.get(&key) {
            Some(a) => {
                if *a == key {
                    out.remove(&key);
                } else {
                    out.insert(key, *a);
                }
            },
            None => {},
        }
        assert(out@ =~= overlay_below(orig, edits@, t + 1));
        t = t + 1;
    }
    assert(out@ =~= overlay_acts(orig, edits@));
    out
}

/// The tiles below `n` whose act-as value differs between the two tables,
/// in tile order, each as `(tile, before, after)`.
pub open spec fn changes_below(before: Map<u16, u16>, after: Map<u16, u16>, n: int) -> Seq<(u16, u16, u16)>
    decreases n,
{
    if n <= 0 {
        Seq::empty()
    } else {
        let prev = changes_below(before, after, n - 1);
        let t = (n - 1) as u16;
        let b = act_or_self(before, t);
        let a = act_or_self(after, t);
        if b != a {
            prev.push((t, b, a))
        } else {
            prev
        }
    }
}

/// What a remap changes: every tile whose act-as value differs between the
/// table `before` and the table `after`, in tile order, as
/// `(tile, before, after)`; a tile without an entry acts as itself.
pub fn remap_changes(before: &BTreeMap<u16, u16>, after: &BTreeMap<u16, u16>) -> (r: Vec<(u16, u16, u16)>)
    ensures
        r@ == changes_below(before@, after@, 0x10000),
{
    broadcast use vstd::std_specs::btree::group_btree_axioms;
    proof {
        crate::order::lemma_u16_order();
    }
    let mut out: Vec<(u16, u16, u16)> = Vec::new();
    let mut t: u32 = 0;
    while t < 0x10000
        invariant
            t <= 0x10000,
            out@ == changes_below(before@, after@, t as int),
            crate::order::u16_keys_ordered(),
        decreases 0x10000 - t,
    {
        let key = t as u16;
        let b = match before.get(&key) {
            Some(v) => *v,
            None => key,
        };
        let a = match after.get(&key) {
            Some(v) => *v,
            None => key,
        };
        if b != a {
            out.push((key, b, a));
        }
        t = t + 1;
    }
    out
}

/// One line of the preview: `  TTTT: BBBB → AAAA` and a newline.
pub open spec fn change_line(c: (u16, u16, u16)) -> Seq<char> {
    seq![' ', ' '] + hex_width(c.0 as nat, 4) + seq![':', ' '] + hex_width(c.1 as nat, 4) + seq![' ', '→', ' ']
        + hex_width(c.2 as nat, 4) + seq!['\n']
}

/// The lines of the first `n` changes.
pub open spec fn change_lines(cs: Seq<(u16, u16, u16)>, n: int) -> Seq<char>
    decreases n,
{
    if n <= 0 {
        Seq::empty()
    } else {
        change_lines(cs, n - 1) + change_line(cs[n - 1])
    }
}

/// The preview of a remap: the number of tiles that would change, the
/// first twelve changes, and how many more there are.
pub open spec fn remap_preview_spec(cs: Seq<(u16, u16, u16)>) -> Seq<char> {
    if cs.len() == 0 {
        "No tiles would change."@
    } else {
        dec(cs.len()) + " tile(s) would change:\n"@ + change_lines(cs, if cs.len() > 12 { 12 } else { cs.len() as int })
            + if cs.len() > 12 {
            "  … and "@ + dec((cs.len() - 12) as nat) + " more"@
        } else {
            Seq::empty()
        }
    }
}

/// The text of the Remap dialog's preview for the `changes` a remap makes.
pub fn remap_preview_text(changes: &Vec<(u16, u16, u16)>) -> (r: String)
    ensures
        r@ == remap_preview_spec(changes@),
{
    let mut out = String::new();
    let n = changes.len();
    if n == 0 {
        push_str(&mut out, "No tiles would change.");
        return out;
    }
    push_dec(&mut out, n as u64);
    push_str(&mut out, " tile(s) would change:\n");
    let ghost head = out@;
    let shown: usize = if n > 12 { 12 } else { n };
    let mut k: usize = 0;
    while k < shown
        invariant
            k <= shown <= changes@.len(),
            out@ == head + change_lines(changes@, k as int),
        decreases shown - k,
    {
        let (t, b, a) = changes[k];
        let ghost before = out@;
        push_str(&mut out, "  ");
        push_hex(&mut out, t as u64, 4);
        push_str(&mut out, ": ");
        push_hex(&mut out, b as u64, 4);
        push_str(&mut out, " → ");
        push_hex(&mut out, a as u64, 4);
        push_char(&mut out, '\n');
        proof {
            reveal_strlit("  ");
            reveal_strlit(": ");
            reveal_strlit(" → ");
            assert(out@ =~= before + change_line(changes@[k as int]));
        }
        k = k + 1;
    }
    if n > 12 {
        push_str(&mut out, "  … and ");
        push_dec(&mut out, (n - 12) as u64);
        push_str(&mut out, " more");
    }
    assert(out@ =~= remap_preview_spec(changes@));
    out
}

} // verus!
