//! The title screen editor: the demo's controller inputs and the tile words of the brush.
use vstd::prelude::*;
use crate::text::push_str;

verus! {

/// The buttons of a controller byte, most significant bit first.
pub open spec fn button_names() -> Seq<Seq<char>> {
    seq!["B"@, "Y"@, "Select"@, "Start"@, "Up"@, "Down"@, "Left"@, "Right"@]
}

/// Whether button `i` (0 = bit 7 ... 7 = bit 0) is held in `buttons`.
pub open spec fn held(buttons: u8, i: int) -> bool {
    (buttons as int / pow2_u8(7 - i)) % 2 == 1
}

pub open spec fn pow2_u8(k: int) -> int
    decreases k,
{
    if k <= 0 {
        1
    } else {
        2 * pow2_u8(k - 1)
    }
}

/// The names of the held buttons among the first `n`, joined with `+`.
pub open spec fn held_names(buttons: u8, n: int) -> Seq<char>
    decreases n,
{
    if n <= 0 {
        seq![]
    } else {
        let prev = held_names(buttons, n - 1);
        if held(buttons, n - 1) {
            if prev.len() == 0 {
                button_names()[n - 1]
            } else {
                prev + seq!['+'] + button_names()[n - 1]
            }
        } else {
            prev
        }
    }
}

/// The held buttons as `B+Start+...`, or `-` when none is held.
pub open spec fn button_summary_spec(buttons: u8) -> Seq<char> {
    if held_names(buttons, 8).len() == 0 {
        seq!['-']
    } else {
        held_names(buttons, 8)
    }
}

proof fn lemma_names_nonempty()
    ensures
        forall|i: int| 0 <= i < 8 ==> (#[trigger] button_names()[i]).len() > 0,
{
    reveal_strlit("B");
    reveal_strlit("Y");
    reveal_strlit("Select");
    reveal_strlit("Start");
    reveal_strlit("Up");
    reveal_strlit("Down");
    reveal_strlit("Left");
    reveal_strlit("Right");
}

fn button_name(i: usize) -> (s: &'static str)
    requires
        i < 8,
    ensures
        s@ == button_names()[i as int],
{
    match i {
        0 => "B",
        1 => "Y",
        2 => "Select",
        3 => "Start",
        4 => "Up",
        5 => "Down",
        6 => "Left",
        _ => "Right",
    }
}

/// The held buttons of a controller byte as `B+Start+...`, or `-`.
pub fn button_summary(buttons: u8) -> (s: String)
    ensures
        s@ == button_summary_spec(buttons),
{
    proof {
        lemma_names_nonempty();
        reveal_with_fuel(pow2_u8, 8);
        reveal_strlit("+");
        reveal_strlit("-");
    }
    let mut s = String::new();
    let mut any = false;
    let mut mask: u8 = 0x80;
    let mut i: usize = 0;
    while i < 8
        invariant
            i <= 8,
            mask as int == pow2_u8(7 - i as int) || i == 8,
            s@ == held_names(buttons, i as int),
            any == (s@.len() > 0),
            forall|k: int| 0 <= k < 8 ==> (#[trigger] button_names()[k]).len() > 0,
        decreases 8 - i,
    {
        reveal_with_fuel(pow2_u8, 8);
        let on = (buttons / mask) % 2 == 1;
        let ghost prev = s@;
        if on {
            if any {
                push_str(&mut s, "+");
            }
            push_str(&mut s, button_name(i));
            any = true;
        }
        proof {
            reveal_strlit("+");
            assert(held(buttons, i as int) == on);
            if on && prev.len() > 0 {
                assert(s@ =~= prev + seq!['+'] + button_names()[i as int]);
            }
            if on && prev.len() == 0 {
                assert(s@ =~= button_names()[i as int]);
            }
        }
        if i < 7 {
            mask = mask / 2;
        }
        i = i + 1;
    }
    if !any {
        push_str(&mut s, "-");
    }
    s
}

/// One step of the title screen demo: the buttons held and for how many frames.
#[derive(Clone, Copy, Debug, PartialEq, Eq, Structural)]
pub struct DemoInput {
    pub buttons: u8,
    pub duration: u8,
}

/// Bytes the demo input sequence takes: two per step and the terminator.
pub fn demo_input_bytes(steps: usize) -> (n: usize)
    requires
        steps <= (usize::MAX - 1) / 2,
    ensures
        n == 2 * steps + 1,
{
    steps * 2 + 1
}

/// Whether one more step (two bytes) still fits within `max_size` bytes.
pub fn can_add_demo_step(steps: usize, max_size: usize) -> (b: bool)
    ensures
        b == (2 * steps + 3 <= max_size),
{
    max_size >= 3 && steps <= (max_size - 3) / 2
}

/// "+ Step": appends a step with no button held for 16 frames, if it fits;
/// returns whether it was appended.
pub fn add_demo_step(inputs: &mut Vec<DemoInput>, max_size: usize) -> (added: bool)
    ensures
        added == (2 * old(inputs)@.len() + 3 <= max_size),
        added ==> final(inputs)@ == old(inputs)@.push(DemoInput { buttons: 0, duration: 0x10 }),
        !added ==> final(inputs)@ == old(inputs)@,
{
    if can_add_demo_step(inputs.len(), max_size) {
        inputs.push(DemoInput { buttons: 0x00, duration: 0x10 });
        true
    } else {
        false
    }
}

/// "- Step": drops the last step, if any; returns whether one was dropped.
pub fn remove_demo_step(inputs: &mut Vec<DemoInput>) -> (removed: bool)
    ensures
        removed == (old(inputs)@.len() > 0),
        final(inputs)@ == (if removed { old(inputs)@.drop_last() } else { old(inputs)@ }),
{
    match inputs.pop() {
        Some(_) => true,
        None => false,
    }
}

/// The tile number of a tile word (bits 0-9).
pub open spec fn tile_of(w: u16) -> u16 {
    w & 0x3FF
}

/// The palette of a tile word (bits 10-12).
pub open spec fn palette_of(w: u16) -> u16 {
    (w >> 10u16) & 7
}

/// The priority bit of a tile word (bit 13).
pub open spec fn priority_of(w: u16) -> bool {
    (w >> 13u16) & 1 == 1
}

/// The horizontal flip bit of a tile word (bit 14).
pub open spec fn flip_x_of(w: u16) -> bool {
    (w >> 14u16) & 1 == 1
}

/// The vertical flip bit of a tile word (bit 15).
pub open spec fn flip_y_of(w: u16) -> bool {
    (w >> 15u16) & 1 == 1
}

/// The fields of a tile word, as the brush editor shows them.
#[derive(Clone, Copy, Debug, PartialEq, Eq, Structural)]
pub struct TileWordFields {
    pub tile: u16,
    pub palette: u16,
    pub priority: bool,
    pub flip_x: bool,
    pub flip_y: bool,
}

/// Splits a tile word into its fields.
pub fn tile_word_fields(w: u16) -> (f: TileWordFields)
    ensures
        f.tile == tile_of(w),
        f.palette == palette_of(w),
        f.priority == priority_of(w),
        f.flip_x == flip_x_of(w),
        f.flip_y == flip_y_of(w),
{
    TileWordFields {
        tile: w & 0x3FF,
        palette: (w >> 10u16) & 7,
        priority: (w >> 13u16) & 1 == 1,
        flip_x: (w >> 14u16) & 1 == 1,
        flip_y: (w >> 15u16) & 1 == 1,
    }
}

/// A tile word is determined by its five fields.
pub proof fn lemma_tile_word_fields_determine(a: u16, b: u16)
    requires
        tile_of(a) == tile_of(b),
        palette_of(a) == palette_of(b),
        priority_of(a) == priority_of(b),
        flip_x_of(a) == flip_x_of(b),
        flip_y_of(a) == flip_y_of(b),
    ensures
        a == b,
{
    assert(a == b) by (bit_vector)
        requires
            a & 0x3FF == b & 0x3FF,
            (a >> 10u16) & 7 == (b >> 10u16) & 7,
            ((a >> 13u16) & 1 == 1) == ((b >> 13u16) & 1 == 1),
            ((a >> 14u16) & 1 == 1) == ((b >> 14u16) & 1 == 1),
            ((a >> 15u16) & 1 == 1) == ((b >> 15u16) & 1 == 1),
    ;
}

/// Replaces the tile number (taken modulo 0x400); the other fields stay.
pub fn with_tile(w: u16, tile: u16) -> (r: u16)
    ensures
        tile_of(r) == tile % 0x400,
        palette_of(r) == palette_of(w),
        priority_of(r) == priority_of(w),
        flip_x_of(r) == flip_x_of(w),
        flip_y_of(r) == flip_y_of(w),
{
    let r = (w & !0x3FFu16) | (tile & 0x3FF);
    assert(r & 0x3FF == tile % 0x400 && (r >> 10u16) & 7 == (w >> 10u16) & 7 && (r >> 13u16) & 1
        == (w >> 13u16) & 1 && (r >> 14u16) & 1 == (w >> 14u16) & 1 && (r >> 15u16) & 1 == (w
        >> 15u16) & 1) by (bit_vector)
        requires
            r == (w & !0x3FFu16) | (tile & 0x3FF),
    ;
    r
}

/// Replaces the palette (taken modulo 8); the other fields stay.
pub fn with_palette(w: u16, pal: u16) -> (r: u16)
    ensures
        palette_of(r) == pal % 8,
        tile_of(r) == tile_of(w),
        priority_of(r) == priority_of(w),
        flip_x_of(r) == flip_x_of(w),
        flip_y_of(r) == flip_y_of(w),
{
    let r = (w & !(7u16 << 10u16)) | ((pal & 7) << 10u16);
    assert((r >> 10u16) & 7 == pal % 8 && r & 0x3FF == w & 0x3FF && (r >> 13u16) & 1 == (w
        >> 13u16) & 1 && (r >> 14u16) & 1 == (w >> 14u16) & 1 && (r >> 15u16) & 1 == (w >> 15u16)
        & 1) by (bit_vector)
        requires
            r == (w & !(7u16 << 10u16)) | ((pal & 7) << 10u16),
    ;
    r
}

/// Sets or clears bit `bit` (13, 14 or 15) of a tile word.
fn with_flag(w: u16, bit: u16, on: bool) -> (r: u16)
    requires
        bit == 13 || bit == 14 || bit == 15,
    ensures
        r & 0x3FF == w & 0x3FF,
        (r >> 10u16) & 7 == (w >> 10u16) & 7,
        (r >> bit) & 1 == (if on { 1u16 } else { 0u16 }),
        forall|k: u16| 13 <= k <= 15 && k != bit ==> #[trigger] ((r >> k) & 1) == (w >> k) & 1,
{
    let v: u16 = if on { 1 } else { 0 };
    let r = (w & !(1u16 << bit)) | (v << bit);
    assert(r & 0x3FF == w & 0x3FF && (r >> 10u16) & 7 == (w >> 10u16) & 7 && (r >> bit) & 1 == v
        && forall|k: u16| 13 <= k <= 15 && k != bit ==> #[trigger] ((r >> k) & 1) == (w >> k) & 1)
        by (bit_vector)
        requires
            r == (w & !(1u16 << bit)) | (v << bit),
            v <= 1,
            13 <= bit <= 15,
    ;
    r
}

/// Sets the priority bit; the other fields stay.
pub fn with_priority(w: u16, on: bool) -> (r: u16)
    ensures
        priority_of(r) == on,
        tile_of(r) == tile_of(w),
        palette_of(r) == palette_of(w),
        flip_x_of(r) == flip_x_of(w),
        flip_y_of(r) == flip_y_of(w),
{
    let r = with_flag(w, 13, on);
    assert((r >> 14u16) & 1 == (w >> 14u16) & 1);
    assert((r >> 15u16) & 1 == (w >> 15u16) & 1);
    r
}

/// Sets the horizontal flip bit; the other fields stay.
pub fn with_flip_x(w: u16, on: bool) -> (r: u16)
    ensures
        flip_x_of(r) == on,
        tile_of(r) == tile_of(w),
        palette_of(r) == palette_of(w),
        priority_of(r) == priority_of(w),
        flip_y_of(r) == flip_y_of(w),
{
    let r = with_flag(w, 14, on);
    assert((r >> 13u16) & 1 == (w >> 13u16) & 1);
    assert((r >> 15u16) & 1 == (w >> 15u16) & 1);
    r
}

/// Sets the vertical flip bit; the other fields stay.
pub fn with_flip_y(w: u16, on: bool) -> (r: u16)
    ensures
        flip_y_of(r) == on,
        tile_of(r) == tile_of(w),
        palette_of(r) == palette_of(w),
        priority_of(r) == priority_of(w),
        flip_x_of(r) == flip_x_of(w),
{
    let r = with_flag(w, 15, on);
    assert((r >> 13u16) & 1 == (w >> 13u16) & 1);
    assert((r >> 14u16) & 1 == (w >> 14u16) & 1);
    r
}

} // verus!
