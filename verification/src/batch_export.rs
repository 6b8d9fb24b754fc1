//! The level range of a batch PNG export.
use vstd::prelude::*;
use crate::act_remap::{skip_either, strip_either};
use crate::map16_editor::{strip_prefix_all, strip_prefix_at};
use crate::text::{chars_of, parse_unsigned, parse_unsigned_at, push_str, trim, trim_range};

verus! {

/// Number of levels of the game (`000` to `1FF`).
pub const LEVEL_COUNT: u16 = 0x200;

/// A level number typed in hex: surrounding whitespace, then any leading
/// `0x`, `$` and `#` (in that order) are skipped.
pub open spec fn batch_hex_spec(s: Seq<char>) -> Option<u16> {
    let t = strip_either(strip_either(strip_prefix_all(trim(s), seq!['0', 'x']), '$', '$'), '#', '#');
    match parse_unsigned(t, 16, 0xFFFF) {
        Some(v) => Some(v as u16),
        None => None,
    }
}

/// Why a batch range is refused.
#[derive(Clone, Copy, Debug, PartialEq, Eq, Structural)]
pub enum BatchRangeError {
    /// A bound is not a hex number.
    InvalidRange,
    /// The bounds are out of order or past the last level.
    OutOfRange,
}

/// The range `(from, to)` of a batch export, or why it is refused.
pub open spec fn batch_range_spec(from: Seq<char>, to: Seq<char>) -> Result<(u16, u16), BatchRangeError> {
    match (batch_hex_spec(from), batch_hex_spec(to)) {
        (Some(a), Some(b)) => if a > b || b >= LEVEL_COUNT {
            Err(BatchRangeError::OutOfRange)
        } else {
            Ok((a, b))
        },
        _ => Err(BatchRangeError::InvalidRange),
    }
}

fn batch_hex(s: &str) -> (r: Option<u16>)
    ensures
        r == batch_hex_spec(s@),
{
    let cs = chars_of(s);
    assert(cs@.subrange(0, cs@.len() as int) =~= s@);
    let (a, b) = trim_range(&cs, 0, cs.len());
    let a1 = strip_prefix_at(&cs, a, b, 'x');
    let a2 = skip_either(&cs, a1, b, '$', '$');
    let a3 = skip_either(&cs, a2, b, '#', '#');
    match parse_unsigned_at(&cs, a3, b, 16, 0xFFFF) {
        Some(v) => Some(v as u16),
        None => None,
    }
}

/// Reads the level range of a batch export from its two hex fields: both
/// must be level numbers, the first at most the second, the second a level
/// of the game.
pub fn parse_batch_range(from: &str, to: &str) -> (r: Result<(u16, u16), BatchRangeError>)
    ensures
        r == batch_range_spec(from@, to@),
{
    let a = batch_hex(from);
    let b = batch_hex(to);
    match (a, b) {
        (Some(a), Some(b)) => {
            if a > b || b >= LEVEL_COUNT {
                Err(BatchRangeError::OutOfRange)
            } else {
                Ok((a, b))
            }
        },
        _ => Err(BatchRangeError::InvalidRange),
    }
}

/// The message for a refused batch range.
pub fn batch_range_message(e: BatchRangeError) -> (r: String)
    ensures
        r@ == match e {
            BatchRangeError::InvalidRange => "Invalid level range — enter hex numbers like 000 and 1FF."@,
            BatchRangeError::OutOfRange => "Range must satisfy 000 ≤ from ≤ to ≤ 1FF."@,
        },
{
    let mut out = String::new();
    match e {
        BatchRangeError::InvalidRange => push_str(&mut out, "Invalid level range — enter hex numbers like 000 and 1FF."),
        BatchRangeError::OutOfRange => push_str(&mut out, "Range must satisfy 000 ≤ from ≤ to ≤ 1FF."),
    }
    assert(out@ =~= match e {
        BatchRangeError::InvalidRange => "Invalid level range — enter hex numbers like 000 and 1FF."@,
        BatchRangeError::OutOfRange => "Range must satisfy 000 ≤ from ≤ to ≤ 1FF."@,
    });
    out
}

} // verus!
