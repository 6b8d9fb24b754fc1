//! The level header bytes that saving a level writes: the five bytes of the
//! primary header, packed from the level's properties, and the four bytes
//! of the secondary header, which also hold the main entrance.
use vstd::prelude::*;
use crate::level::entrance_tiles_spec;

verus! {

/// The level properties that the primary header packs.
#[derive(Clone, Copy, Debug, Default, PartialEq, Eq)]
pub struct PrimaryHeaderFields {
    pub palette_bg: u8,
    pub level_length: u8,
    pub back_area_color: u8,
    pub level_mode: u8,
    pub layer3_priority: bool,
    pub music: u8,
    pub sprite_gfx: u8,
    pub timer: u8,
    pub palette_sprite: u8,
    pub palette_fg: u8,
    pub item_memory: u8,
    pub vertical_scroll: u8,
    pub fg_bg_gfx: u8,
}

pub open spec fn bit_u8(b: bool) -> u8 {
    if b {
        1
    } else {
        0
    }
}

/// The five primary header bytes: `BBBLLLLL`, `CCCMMMMM`, `3MMMSSSS`,
/// `TTPPPFFF`, `IIVVZZZZ` (each field shifted into place and or-ed, as the
/// game reads them).
pub open spec fn primary_header_spec(p: PrimaryHeaderFields) -> Seq<u8> {
    seq![
        (p.palette_bg << 5u8) | p.level_length,
        (p.back_area_color << 5u8) | p.level_mode,
        (bit_u8(p.layer3_priority) << 7u8) | (p.music << 4u8) | (p.sprite_gfx & 0x0F),
        (p.timer << 6u8) | (p.palette_sprite << 3u8) | p.palette_fg,
        (p.item_memory << 6u8) | (p.vertical_scroll << 4u8) | p.fg_bg_gfx,
    ]
}

/// The five primary header bytes of a level.
pub fn primary_header_bytes(p: &PrimaryHeaderFields) -> (r: [u8; 5])
    ensures
        r@ == primary_header_spec(*p),
{
    let l3: u8 = if p.layer3_priority { 1 } else { 0 };
    let r = [
        (p.palette_bg << 5u8) | p.level_length,
        (p.back_area_color << 5u8) | p.level_mode,
        (l3 << 7u8) | (p.music << 4u8) | (p.sprite_gfx & 0x0F),
        (p.timer << 6u8) | (p.palette_sprite << 3u8) | p.palette_fg,
        (p.item_memory << 6u8) | (p.vertical_scroll << 4u8) | p.fg_bg_gfx,
    ];
    assert(r@ =~= primary_header_spec(*p));
    r
}

/// The level properties that the secondary header packs besides the
/// entrance.
#[derive(Clone, Copy, Debug, Default, PartialEq, Eq)]
pub struct SecondaryHeaderFields {
    pub layer2_scroll: u8,
    pub layer3: u8,
    pub main_entrance_action: u8,
    pub midway_entrance_screen: u8,
    pub fg_initial_pos: u8,
    pub bg_initial_pos: u8,
    pub no_yoshi_level: bool,
    pub unknown_vertical_pos_level: bool,
    pub is_vertical: bool,
}

/// The entrance screen and tile-in-screen of the spawn position: two
/// screens per row of screens (32 tiles high) in vertical levels; the screen
/// number is kept within the header's 31 after taking its low byte.
pub open spec fn spawn_entrance(spawn_x: u32, spawn_y: u32, vertical: bool) -> (u8, u8, u8) {
    if vertical {
        let s = ((spawn_y / 32) * 2 + spawn_x / 16) as u8;
        (if s < 31 { s } else { 31 }, (spawn_x % 16) as u8, (spawn_y % 32) as u8)
    } else {
        let s = (spawn_x / 16) as u8;
        (if s < 31 { s } else { 31 }, (spawn_x % 16) as u8, spawn_y as u8)
    }
}

pub open spec fn min_u8(a: u8, b: u8) -> u8 {
    if a < b {
        a
    } else {
        b
    }
}

/// The four secondary header bytes: `SSSSYYYY` (layer 2 scroll, entrance y
/// in two-tile steps), `LLAAAXXX` (layer 3, entrance action, entrance x in
/// two-tile steps), `MMMMFFBB` (midway screen, initial FG and BG positions)
/// and `YUVEEEEE` (no Yoshi, unknown bit, vertical, entrance screen).
pub open spec fn secondary_header_spec(p: SecondaryHeaderFields, spawn_x: u32, spawn_y: u32) -> Seq<u8> {
    let (screen, local_x, local_y) = spawn_entrance(spawn_x, spawn_y, p.is_vertical);
    let x_half = min_u8(local_x / 2, 7);
    let y_half = min_u8(local_y / 2, 15);
    seq![
        (p.layer2_scroll << 4u8) | (y_half & 0x0F),
        ((p.layer3 & 3) << 6u8) | ((p.main_entrance_action & 7) << 3u8) | (x_half & 7),
        ((p.midway_entrance_screen & 0x0F) << 4u8) | ((p.fg_initial_pos & 3) << 2u8) | (p.bg_initial_pos & 3),
        (bit_u8(p.no_yoshi_level) << 7u8) | (bit_u8(p.unknown_vertical_pos_level) << 6u8) | (bit_u8(p.is_vertical)
            << 5u8) | (screen & 0x1F),
    ]
}

/// The four secondary header bytes of a level whose main entrance is at
/// absolute tile `(spawn_x, spawn_y)`.
pub fn secondary_header_bytes(p: &SecondaryHeaderFields, spawn_x: u32, spawn_y: u32) -> (r: [u8; 4])
    ensures
        r@ == secondary_header_spec(*p, spawn_x, spawn_y),
{
    let (screen, local_x, local_y): (u8, u8, u8) = if p.is_vertical {
        let sx = spawn_x / 16;
        let sy = spawn_y / 32;
        let s = (sy * 2 + sx) as u8;
        (if s < 31 { s } else { 31 }, (spawn_x % 16) as u8, (spawn_y % 32) as u8)
    } else {
        let s = (spawn_x / 16) as u8;
        (if s < 31 { s } else { 31 }, (spawn_x % 16) as u8, spawn_y as u8)
    };
    let x_half = if local_x / 2 < 7 { local_x / 2 } else { 7 };
    let y_half = if local_y / 2 < 15 { local_y / 2 } else { 15 };
    let ny: u8 = if p.no_yoshi_level { 1 } else { 0 };
    let uv: u8 = if p.unknown_vertical_pos_level { 1 } else { 0 };
    let vt: u8 = if p.is_vertical { 1 } else { 0 };
    let r = [
        (p.layer2_scroll << 4u8) | (y_half & 0x0F),
        ((p.layer3 & 3) << 6u8) | ((p.main_entrance_action & 7) << 3u8) | (x_half & 7),
        ((p.midway_entrance_screen & 0x0F) << 4u8) | ((p.fg_initial_pos & 3) << 2u8) | (p.bg_initial_pos & 3),
        (ny << 7u8) | (uv << 6u8) | (vt << 5u8) | (screen & 0x1F),
    ];
    assert(r@ =~= secondary_header_spec(*p, spawn_x, spawn_y));
    r
}

/// The entrance that the game reads from the secondary header: the screen
/// from byte 3, the position in two-tile steps from bytes 1 and 0.
pub open spec fn header_entrance(b: Seq<u8>, vertical: bool) -> (u32, u32) {
    entrance_tiles_spec(b[3] & 0x1F, b[1] & 7, b[0] & 0x0F, vertical)
}

/// The spawn position rounded down to even tiles.
pub open spec fn even_tiles(x: u32, y: u32) -> (u32, u32) {
    ((x - x % 2) as u32, (y - y % 2) as u32)
}

/// The main entrance that saving writes reads back as the spawn position,
/// rounded down to even tiles, wherever the header can hold it: in a
/// horizontal level within the 32 screens and the top 32 rows, in a
/// vertical level within the two screen columns and 16 rows of screens.
pub proof fn lemma_entrance_written_reads_back(p: SecondaryHeaderFields, spawn_x: u32, spawn_y: u32)
    requires
        p.is_vertical ==> spawn_x < 32 && spawn_y < 512,
        !p.is_vertical ==> spawn_x < 512 && spawn_y < 32,
    ensures
        header_entrance(secondary_header_spec(p, spawn_x, spawn_y), p.is_vertical) == even_tiles(spawn_x, spawn_y),
{
    let b = secondary_header_spec(p, spawn_x, spawn_y);
    let (screen, local_x, local_y) = spawn_entrance(spawn_x, spawn_y, p.is_vertical);
    let x_half = min_u8(local_x / 2, 7);
    let y_half = min_u8(local_y / 2, 15);
    assert(local_x < 16);
    assert(local_y < 32);
    assert(x_half == local_x / 2);
    assert(y_half == local_y / 2);
    assert(screen < 32);
    let l2 = p.layer2_scroll;
    let l3 = p.layer3;
    let act = p.main_entrance_action;
    let ny = bit_u8(p.no_yoshi_level);
    let uv = bit_u8(p.unknown_vertical_pos_level);
    let vt = bit_u8(p.is_vertical);
    assert(((l2 << 4u8) | (y_half & 0x0F)) & 0x0F == y_half) by (bit_vector)
        requires
            y_half < 16,
    ;
    assert((((l3 & 3) << 6u8) | ((act & 7) << 3u8) | (x_half & 7)) & 7 == x_half) by (bit_vector)
        requires
            x_half < 8,
    ;
    assert(((ny << 7u8) | (uv << 6u8) | (vt << 5u8) | (screen & 0x1F)) & 0x1F == screen) by (bit_vector)
        requires
            screen < 32,
    ;
}

/// Reading the primary header back gives each field, wherever the field
/// fits its bits: byte 0 is `BBBLLLLL` (BG palette, level length), byte 1
/// `CCCMMMMM` (back area color, level mode), byte 2 `3MMMSSSS` (layer 3
/// priority, music, sprite graphics), byte 3 `TTPPPFFF` (timer, sprite
/// palette, FG palette), byte 4 `IIVVZZZZ` (item memory, vertical scroll,
/// FG/BG graphics).
pub proof fn lemma_primary_header_reads_back(p: PrimaryHeaderFields)
    requires
        p.palette_bg < 8,
        p.level_length < 32,
        p.back_area_color < 8,
        p.level_mode < 32,
        p.music < 8,
        p.timer < 4,
        p.palette_sprite < 8,
        p.palette_fg < 8,
        p.item_memory < 4,
        p.vertical_scroll < 4,
        p.fg_bg_gfx < 16,
    ensures
        ({
            let b = primary_header_spec(p);
            &&& b.len() == 5
            &&& b[0] & 0x1F == p.level_length
            &&& b[0] >> 5u8 == p.palette_bg
            &&& b[1] & 0x1F == p.level_mode
            &&& b[1] >> 5u8 == p.back_area_color
            &&& ((b[2] >> 7u8) == 1) == p.layer3_priority
            &&& (b[2] >> 4u8) & 7 == p.music
            &&& b[2] & 0x0F == p.sprite_gfx % 16
            &&& b[3] >> 6u8 == p.timer
            &&& (b[3] >> 3u8) & 7 == p.palette_sprite
            &&& b[3] & 7 == p.palette_fg
            &&& b[4] >> 6u8 == p.item_memory
            &&& (b[4] >> 4u8) & 3 == p.vertical_scroll
            &&& b[4] & 0x0F == p.fg_bg_gfx
        }),
{
    let (bg, len, bac, mode, mus, sg, tm, ps, pf, im, vs, fb) = (
        p.palette_bg,
        p.level_length,
        p.back_area_color,
        p.level_mode,
        p.music,
        p.sprite_gfx,
        p.timer,
        p.palette_sprite,
        p.palette_fg,
        p.item_memory,
        p.vertical_scroll,
        p.fg_bg_gfx,
    );
    let l3 = bit_u8(p.layer3_priority);
    assert((((bg << 5u8) | len) & 0x1F == len) && (((bg << 5u8) | len) >> 5u8 == bg)) by (bit_vector)
        requires
            bg < 8,
            len < 32,
    ;
    assert((((bac << 5u8) | mode) & 0x1F == mode) && (((bac << 5u8) | mode) >> 5u8 == bac)) by (bit_vector)
        requires
            bac < 8,
            mode < 32,
    ;
    assert(((((l3 << 7u8) | (mus << 4u8) | (sg & 0x0F)) >> 7u8) == l3) && ((((l3 << 7u8) | (mus << 4u8) | (sg
        & 0x0F)) >> 4u8) & 7 == mus) && (((l3 << 7u8) | (mus << 4u8) | (sg & 0x0F)) & 0x0F == sg % 16))
        by (bit_vector)
        requires
            l3 <= 1,
            mus < 8,
    ;
    assert((((tm << 6u8) | (ps << 3u8) | pf) >> 6u8 == tm) && ((((tm << 6u8) | (ps << 3u8) | pf) >> 3u8) & 7 == ps)
        && (((tm << 6u8) | (ps << 3u8) | pf) & 7 == pf)) by (bit_vector)
        requires
            tm < 4,
            ps < 8,
            pf < 8,
    ;
    assert((((im << 6u8) | (vs << 4u8) | fb) >> 6u8 == im) && ((((im << 6u8) | (vs << 4u8) | fb) >> 4u8) & 3 == vs)
        && (((im << 6u8) | (vs << 4u8) | fb) & 0x0F == fb)) by (bit_vector)
        requires
            im < 4,
            vs < 4,
            fb < 16,
    ;
}

/// Reading the secondary header back gives each field besides the
/// entrance (whose read-back is `lemma_entrance_written_reads_back`):
/// byte 0 `SSSS....` (layer 2 scroll), byte 1 `LLAAA...` (layer 3, entrance
/// action), byte 2 `MMMMFFBB` (midway screen, initial FG and BG positions),
/// byte 3 `YUV.....` (no Yoshi, unknown bit, vertical).
pub proof fn lemma_secondary_header_reads_back(p: SecondaryHeaderFields, spawn_x: u32, spawn_y: u32)
    requires
        p.layer2_scroll < 16,
    ensures
        ({
            let b = secondary_header_spec(p, spawn_x, spawn_y);
            &&& b.len() == 4
            &&& b[0] >> 4u8 == p.layer2_scroll
            &&& b[1] >> 6u8 == p.layer3 % 4
            &&& (b[1] >> 3u8) & 7 == p.main_entrance_action % 8
            &&& b[2] >> 4u8 == p.midway_entrance_screen % 16
            &&& (b[2] >> 2u8) & 3 == p.fg_initial_pos % 4
            &&& b[2] & 3 == p.bg_initial_pos % 4
            &&& ((b[3] >> 7u8) == 1) == p.no_yoshi_level
            &&& (((b[3] >> 6u8) & 1) == 1) == p.unknown_vertical_pos_level
            &&& (((b[3] >> 5u8) & 1) == 1) == p.is_vertical
        }),
{
    let (screen, local_x, local_y) = spawn_entrance(spawn_x, spawn_y, p.is_vertical);
    let x_half = min_u8(local_x / 2, 7);
    let y_half = min_u8(local_y / 2, 15);
    let (l2, l3, act, mid, fg, bg) = (
        p.layer2_scroll,
        p.layer3,
        p.main_entrance_action,
        p.midway_entrance_screen,
        p.fg_initial_pos,
        p.bg_initial_pos,
    );
    let ny = bit_u8(p.no_yoshi_level);
    let uv = bit_u8(p.unknown_vertical_pos_level);
    let vt = bit_u8(p.is_vertical);
    assert(((l2 << 4u8) | (y_half & 0x0F)) >> 4u8 == l2) by (bit_vector)
        requires
            l2 < 16,
    ;
    assert(((((l3 & 3) << 6u8) | ((act & 7) << 3u8) | (x_half & 7)) >> 6u8 == l3 % 4) && (((((l3 & 3) << 6u8) | ((
    act & 7) << 3u8) | (x_half & 7)) >> 3u8) & 7 == act % 8)) by (bit_vector);
    assert(((((mid & 0x0F) << 4u8) | ((fg & 3) << 2u8) | (bg & 3)) >> 4u8 == mid % 16) && (((((mid & 0x0F) << 4u8)
        | ((fg & 3) << 2u8) | (bg & 3)) >> 2u8) & 3 == fg % 4) && ((((mid & 0x0F) << 4u8) | ((fg & 3) << 2u8) | (bg
        & 3)) & 3 == bg % 4)) by (bit_vector);
    assert(((((ny << 7u8) | (uv << 6u8) | (vt << 5u8) | (screen & 0x1F)) >> 7u8) == ny) && (((((ny << 7u8) | (uv
        << 6u8) | (vt << 5u8) | (screen & 0x1F)) >> 6u8) & 1) == uv) && (((((ny << 7u8) | (uv << 6u8) | (vt << 5u8)
        | (screen & 0x1F)) >> 5u8) & 1) == vt)) by (bit_vector)
        requires
            ny <= 1,
            uv <= 1,
            vt <= 1,
    ;
}

} // verus!
