//! 8-bit RGB colors and their conversion to and from SNES 15-bit colors.
use vstd::prelude::*;

verus! {

/// An opaque 8-bit-per-channel color.
#[derive(Clone, Copy, Debug, Default, PartialEq, Eq)]
pub struct Rgb {
    pub r: u8,
    pub g: u8,
    pub b: u8,
}

/// Black.
pub open spec fn black() -> Rgb {
    Rgb { r: 0, g: 0, b: 0 }
}

/// A 5-bit channel scaled to 8 bits, rounding down.
pub open spec fn widen5(c: int) -> int {
    c * 255 / 31
}

/// An 8-bit channel scaled to 5 bits, rounding to nearest.
pub open spec fn narrow8(c: int) -> int {
    (c * 31 + 127) / 255
}

/// The 8-bit color of an SNES color (bits 0-4 red, 5-9 green, 10-14 blue).
pub open spec fn snes_to_rgb(c: u16) -> Rgb {
    Rgb {
        r: widen5((c % 32) as int) as u8,
        g: widen5(((c / 32) % 32) as int) as u8,
        b: widen5(((c / 1024) % 32) as int) as u8,
    }
}

/// The SNES color of an 8-bit color, each channel rounded to 5 bits.
pub open spec fn rgb_to_snes(c: Rgb) -> u16 {
    (narrow8(c.r as int) + 32 * narrow8(c.g as int) + 1024 * narrow8(c.b as int)) as u16
}

/// SNES RGB555 to an 8-bit color.
pub fn snes555_to_color32(c: u16) -> (r: Rgb)
    ensures
        r == snes_to_rgb(c),
{
    let r = ((c % 32) as u32 * 255 / 31) as u8;
    let g = (((c / 32) % 32) as u32 * 255 / 31) as u8;
    let b = (((c / 1024) % 32) as u32 * 255 / 31) as u8;
    Rgb { r, g, b }
}

/// An 8-bit color to SNES RGB555, rounding each channel.
pub fn color32_to_snes555(c: Rgb) -> (r: u16)
    ensures
        r == rgb_to_snes(c),
        r < 0x8000,
{
    let r = (c.r as u16 * 31 + 127) / 255;
    let g = (c.g as u16 * 31 + 127) / 255;
    let b = (c.b as u16 * 31 + 127) / 255;
    (b * 1024) + (g * 32) + r
}

proof fn lemma_channel_round_trip(v: int)
    requires
        0 <= v < 32,
    ensures
        0 <= widen5(v) <= 255,
        narrow8(widen5(v)) == v,
{
    let w = v * 255 / 31;
    assert(31 * w <= 255 * v && 255 * v < 31 * w + 31) by (nonlinear_arith)
        requires
            w == v * 255 / 31,
            0 <= v,
    ;
    assert((w * 31 + 127) / 255 == v) by (nonlinear_arith)
        requires
            31 * w <= 255 * v,
            255 * v < 31 * w + 31,
    ;
    assert(w <= 255) by (nonlinear_arith)
        requires
            w == v * 255 / 31,
            0 <= v < 32,
    ;
}

/// Widening an SNES color to 8 bits and rounding it back gives the color
/// (bit 15, which carries no color, is dropped).
pub proof fn lemma_snes_color_round_trip(c: u16)
    ensures
        rgb_to_snes(snes_to_rgb(c)) == c % 0x8000,
{
    lemma_channel_round_trip((c % 32) as int);
    lemma_channel_round_trip(((c / 32) % 32) as int);
    lemma_channel_round_trip(((c / 1024) % 32) as int);
    assert(c % 0x8000 == c % 32 + 32 * ((c / 32) % 32) + 1024 * ((c / 1024) % 32)) by (nonlinear_arith)
        requires
            0 <= c < 0x10000,
    ;
}

} // verus!
