//! Cross-reference search queries: what is searched for and the value typed
//! in.
use vstd::prelude::*;
use crate::exit_scan::hex_len;
use crate::text::{chars_of, dec, hex_width, parse_unsigned, parse_unsigned_at, push_char, push_hex, push_str, trim, trim_range};

verus! {

/// What the cross-reference search looks for.
#[derive(Debug, Clone, Copy, PartialEq, Eq, Default)]
pub enum XrefQueryKind {
    #[default]
    Sprite,
    StandardObject,
    ExtendedObject,
    BackgroundTile,
    Music,
    ExitDestination,
}

/// Inclusive upper bound of the query value for a kind.
pub open spec fn max_value_spec(k: XrefQueryKind) -> u32 {
    match k {
        XrefQueryKind::Music => 7,
        XrefQueryKind::ExitDestination => 0x1FF,
        _ => 0xFF,
    }
}

impl XrefQueryKind {
    /// Every kind, in menu order.
    pub fn all() -> (r: [XrefQueryKind; 6])
        ensures
            r@ == seq![
                XrefQueryKind::Sprite,
                XrefQueryKind::StandardObject,
                XrefQueryKind::ExtendedObject,
                XrefQueryKind::BackgroundTile,
                XrefQueryKind::Music,
                XrefQueryKind::ExitDestination,
            ],
    {
        let r = [
            XrefQueryKind::Sprite,
            XrefQueryKind::StandardObject,
            XrefQueryKind::ExtendedObject,
            XrefQueryKind::BackgroundTile,
            XrefQueryKind::Music,
            XrefQueryKind::ExitDestination,
        ];
        assert(r@ =~= seq![
            XrefQueryKind::Sprite,
            XrefQueryKind::StandardObject,
            XrefQueryKind::ExtendedObject,
            XrefQueryKind::BackgroundTile,
            XrefQueryKind::Music,
            XrefQueryKind::ExitDestination,
        ]);
        r
    }

    /// The menu label of the kind.
    pub fn label(self) -> (s: &'static str)
        ensures
            s@ == (match self {
                XrefQueryKind::Sprite => "Sprite ID"@,
                XrefQueryKind::StandardObject => "Standard object ID"@,
                XrefQueryKind::ExtendedObject => "Extended object ID"@,
                XrefQueryKind::BackgroundTile => "Layer-2 BG tile ID"@,
                XrefQueryKind::Music => "Music track"@,
                XrefQueryKind::ExitDestination => "Exit destination level"@,
            }),
    {
        match self {
            XrefQueryKind::Sprite => "Sprite ID",
            XrefQueryKind::StandardObject => "Standard object ID",
            XrefQueryKind::ExtendedObject => "Extended object ID",
            XrefQueryKind::BackgroundTile => "Layer-2 BG tile ID",
            XrefQueryKind::Music => "Music track",
            XrefQueryKind::ExitDestination => "Exit destination level",
        }
    }

    /// Inclusive upper bound accepted for the query value.
    pub fn max_value(self) -> (r: u32)
        ensures
            r == max_value_spec(self),
    {
        match self {
            XrefQueryKind::Sprite => 0xFF,
            XrefQueryKind::StandardObject => 0xFF,
            XrefQueryKind::ExtendedObject => 0xFF,
            XrefQueryKind::BackgroundTile => 0xFF,
            XrefQueryKind::Music => 7,
            XrefQueryKind::ExitDestination => 0x1FF,
        }
    }
}

/// `{:#X}`: `0x` and upper-case hex digits.
pub open spec fn alt_hex(n: nat) -> Seq<char> {
    seq!['0', 'x'] + hex_width(n, hex_len(n))
}

/// The value of a query text: `0x`/`0X` and hex digits, or decimal digits
/// (one optional `+`), after surrounding whitespace, as a `u32`.
pub open spec fn query_number(text: Seq<char>) -> Option<nat> {
    let t = trim(text);
    if t.len() >= 2 && t[0] == '0' && (t[1] == 'x' || t[1] == 'X') {
        parse_unsigned(t.skip(2), 16, 0xFFFF_FFFF)
    } else {
        parse_unsigned(t, 10, 0xFFFF_FFFF)
    }
}

/// The query value, or the message the search window shows.
pub open spec fn query_value_spec(text: Seq<char>, max: u32) -> Result<u32, Seq<char>> {
    match query_number(text) {
        None => Err(seq!['"'] + trim(text) + "\" is not a valid number (use 0x3F hex or decimal)"@),
        Some(v) => if v > max {
            Err("Value "@ + alt_hex(v) + " out of range (max "@ + alt_hex(max as nat) + ")"@)
        } else {
            Ok(v as u32)
        },
    }
}

fn push_alt_hex(out: &mut String, n: u32)
    ensures
        final(out)@ == old(out)@ + alt_hex(n as nat),
{
    push_char(out, '0');
    push_char(out, 'x');
    let d = hex_digits(n);
    push_hex(out, n as u64, d);
    assert(final(out)@ =~= old(out)@ + alt_hex(n as nat));
}

fn hex_digits(n: u32) -> (d: u32)
    ensures
        d == hex_len(n as nat),
    decreases n,
{
    if n < 16 {
        1
    } else {
        proof {
            lemma_hex_len_small((n / 16) as nat);
        }
        1 + hex_digits(n / 16)
    }
}

proof fn lemma_hex_len_small(n: nat)
    ensures
        hex_len(n) <= n + 1,
    decreases n,
{
    if n >= 16 {
        lemma_hex_len_small(n / 16);
    }
}

/// Parses a query value (`0x3F`-style hex or decimal) no greater than `max`.
pub fn parse_query_value(text: &str, max: u32) -> (r: Result<u32, String>)
    ensures
        match r {
            Ok(v) => query_value_spec(text@, max) == Ok::<u32, Seq<char>>(v),
            Err(e) => query_value_spec(text@, max) == Err::<u32, Seq<char>>(e@),
        },
{
    let cs = chars_of(text);
    assert(cs@.subrange(0, cs@.len() as int) =~= text@);
    let (a, b) = trim_range(&cs, 0, cs.len());
    let ghost t = cs@.subrange(a as int, b as int);
    let parsed = if b - a >= 2 && cs[a] == '0' && (cs[a + 1] == 'x' || cs[a + 1] == 'X') {
        assert(t.skip(2) =~= cs@.subrange(a + 2, b as int));
        parse_unsigned_at(&cs, a + 2, b, 16, 0xFFFF_FFFF)
    } else {
        parse_unsigned_at(&cs, a, b, 10, 0xFFFF_FFFF)
    };
    match parsed {
        None => {
            let mut e = String::new();
            push_char(&mut e, '"');
            let mut i = a;
            while i < b
                invariant
                    a <= i <= b <= cs@.len(),
                    e@ == seq!['"'] + cs@.subrange(a as int, i as int),
                decreases b - i,
            {
                push_char(&mut e, cs[i]);
                assert(cs@.subrange(a as int, i + 1) =~= cs@.subrange(a as int, i as int).push(cs@[i as int]));
                i = i + 1;
            }
            push_str(&mut e, "\" is not a valid number (use 0x3F hex or decimal)");
            Err(e)
        },
        Some(v) => {
            let v = v as u32;
            if v > max {
                let mut e = String::new();
                push_str(&mut e, "Value ");
                push_alt_hex(&mut e, v);
                push_str(&mut e, " out of range (max ");
                push_alt_hex(&mut e, max);
                push_str(&mut e, ")");
                Err(e)
            } else {
                Ok(v)
            }
        },
    }
}

} // verus!
