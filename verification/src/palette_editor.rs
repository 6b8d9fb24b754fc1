//! The palette editor's undoable state and its color conversions.
//!
//! The state is the 36 colors on screen (12 each for BG, FG and sprites)
//! plus the shared palette tables behind them; a snapshot is all 324 colors
//! as little-endian words, the 36 on-screen colors first.
use vstd::prelude::*;
use crate::le_bytes::{le16, lemma_words_le_index, lemma_words_le_push, push_u16, read_u16, u16_le, words_le};
use crate::palette_files::{shared_word, SharedPaletteTables};
use crate::text::{all_digits, chars_of, digits_value, hex_width, push_hex};
use crate::undo::Undo;

verus! {

/// Size of a palette snapshot: 72 bytes of on-screen colors and the 576
/// bytes of the shared tables.
pub const EDITABLE_PALETTES_BYTES: usize = 648;

/// The palette editor's undoable state.
#[derive(Clone, Copy, Debug, Default, PartialEq, Eq)]
pub struct EditablePalettes {
    pub bg: [u16; 12],
    pub fg: [u16; 12],
    pub sprite: [u16; 12],
    pub shared: SharedPaletteTables,
}

/// The colors of group `g` on screen (0 = BG, 1 = FG, anything else =
/// sprites).
pub open spec fn group_spec(p: EditablePalettes, g: usize) -> [u16; 12] {
    if g == 0 {
        p.bg
    } else if g == 1 {
        p.fg
    } else {
        p.sprite
    }
}

/// The shared-table rows of group `g`.
pub open spec fn shared_group_spec(t: SharedPaletteTables, g: usize) -> [[u16; 12]; 8] {
    if g == 0 {
        t.bg
    } else if g == 1 {
        t.fg
    } else {
        t.sprite
    }
}

/// Color `i` (0..324) of the state in snapshot order.
pub open spec fn palette_word(p: EditablePalettes, i: int) -> u16 {
    if i < 12 {
        p.bg[i]
    } else if i < 24 {
        p.fg[i - 12]
    } else if i < 36 {
        p.sprite[i - 24]
    } else {
        shared_word(p.shared, i - 36)
    }
}

impl View for EditablePalettes {
    type V = Seq<u16>;

    open spec fn view(&self) -> Seq<u16> {
        Seq::new(324, |i: int| palette_word(*self, i))
    }
}

/// The state read back from a snapshot: the on-screen colors the bytes
/// reach, and the shared tables only when exactly all of them are there;
/// everything missing reads as 0.
pub open spec fn palettes_from_snapshot(b: Seq<u8>) -> Seq<u16> {
    let nw = b.len() / 2;
    Seq::new(
        324,
        |i: int|
            if i < 36 {
                if i < nw { le16(b, 2 * i) as u16 } else { 0u16 }
            } else if nw == 324 {
                le16(b, 2 * i) as u16
            } else {
                0u16
            },
    )
}

impl EditablePalettes {
    /// The on-screen colors of group `group` (0 = BG, 1 = FG, else sprites).
    pub fn group(&self, group: usize) -> (r: &[u16; 12])
        ensures
            *r == group_spec(*self, group),
    {
        match group {
            0 => &self.bg,
            1 => &self.fg,
            _ => &self.sprite,
        }
    }

    /// Mutable access to the on-screen colors of group `group`.
    pub fn group_mut(&mut self, group: usize) -> (r: &mut [u16; 12])
        ensures
            *r == group_spec(*old(self), group),
            group == 0 ==> *final(self) == (EditablePalettes { bg: *final(r), ..*old(self) }),
            group == 1 ==> *final(self) == (EditablePalettes { fg: *final(r), ..*old(self) }),
            group > 1 ==> *final(self) == (EditablePalettes { sprite: *final(r), ..*old(self) }),
    {
        match group {
            0 => &mut self.bg,
            1 => &mut self.fg,
            _ => &mut self.sprite,
        }
    }

    /// Mutable access to the shared-table rows of group `group`: 8 rows of
    /// 12 colors.
    pub fn shared_group_mut(&mut self, group: usize) -> (r: &mut [[u16; 12]; 8])
        ensures
            *r == shared_group_spec(old(self).shared, group),
            group == 0 ==> *final(self) == (EditablePalettes {
                shared: SharedPaletteTables { bg: *final(r), ..old(self).shared },
                ..*old(self)
            }),
            group == 1 ==> *final(self) == (EditablePalettes {
                shared: SharedPaletteTables { fg: *final(r), ..old(self).shared },
                ..*old(self)
            }),
            group > 1 ==> *final(self) == (EditablePalettes {
                shared: SharedPaletteTables { sprite: *final(r), ..old(self).shared },
                ..*old(self)
            }),
    {
        match group {
            0 => &mut self.shared.bg,
            1 => &mut self.shared.fg,
            _ => &mut self.shared.sprite,
        }
    }

    fn word(&self, i: usize) -> (w: u16)
        requires
            i < 324,
        ensures
            w == palette_word(*self, i as int),
    {
        if i < 12 {
            self.bg[i]
        } else if i < 24 {
            self.fg[i - 12]
        } else if i < 36 {
            self.sprite[i - 24]
        } else {
            let j = i - 36;
            let g = j / 96;
            let r = (j % 96) / 12;
            let c = j % 12;
            if g == 0 {
                self.shared.bg[r][c]
            } else if g == 1 {
                self.shared.fg[r][c]
            } else {
                self.shared.sprite[r][c]
            }
        }
    }
}

impl Undo for EditablePalettes {
    open spec fn encode(v: Seq<u16>) -> Seq<u8> {
        words_le(v)
    }

    open spec fn decode(bytes: Seq<u8>) -> Seq<u16> {
        palettes_from_snapshot(bytes)
    }

    open spec fn size(v: Seq<u16>) -> nat {
        648
    }

    fn from_bytes(bytes: Vec<u8>) -> (r: Self) {
        let nw = bytes.len() / 2;
        let mut p = EditablePalettes {
            bg: [0u16; 12],
            fg: [0u16; 12],
            sprite: [0u16; 12],
            shared: SharedPaletteTables::zeroed(),
        };
        let ghost b = bytes@;
        let mut i: usize = 0;
        while i < 36
            invariant
                i <= 36,
                nw == b.len() / 2,
                b == bytes@,
                p.shared@ == Seq::new(288, |_j: int| 0u16),
                forall|k: int| 0 <= k < i ==> #[trigger] palette_word(p, k) == (if k < nw { le16(b, 2 * k) as u16 } else { 0u16 }),
                forall|k: int| i <= k < 36 ==> #[trigger] palette_word(p, k) == 0,
            decreases 36 - i,
        {
            if i < nw {
                let w = read_u16(&bytes, 2 * i);
                let ghost p0 = p;
                if i < 12 {
                    p.bg[i] = w;
                } else if i < 24 {
                    p.fg[i - 12] = w;
                } else {
                    p.sprite[i - 24] = w;
                }
                proof {
                    assert forall|k: int| 0 <= k < 36 && k != i implies #[trigger] palette_word(p, k) == palette_word(p0, k) by {}
                }
            }
            i = i + 1;
        }
        if nw > 36 {
            let mut rest: Vec<u8> = Vec::new();
            let mut k: usize = 72;
            let end: usize = nw * 2;
            while k < end
                invariant
                    end == 2 * nw,
                    72 <= k <= 2 * nw,
                    2 * nw <= b.len(),
                    b == bytes@,
                    rest@ == b.subrange(72, k as int),
                decreases end - k,
            {
                rest.push(bytes[k]);
                proof {
                    assert(b.subrange(72, k + 1) =~= b.subrange(72, k as int).push(b[k as int]));
                }
                k = k + 1;
            }
            match SharedPaletteTables::from_bytes(&rest) {
                Ok(shared) => {
                    let ghost p0 = p;
                    p.shared = shared;
                    proof {
                        assert forall|k: int| 0 <= k < 36 implies #[trigger] palette_word(p, k) == palette_word(p0, k) by {}
                        assert forall|j: int| 0 <= j < 288 implies #[trigger] le16(rest@, 2 * j) == le16(b, 2 * (j + 36)) by {
                            assert(rest@[2 * j] == b[72 + 2 * j]);
                            assert(rest@[2 * j + 1] == b[72 + 2 * j + 1]);
                        }
                        assert forall|i: int| 36 <= i < 324 implies #[trigger] palette_word(p, i) == le16(b, 2 * i) as u16 by {
                            assert(shared@[i - 36] == shared_word(shared, i - 36));
                            assert(le16(rest@, 2 * (i - 36)) == le16(b, 2 * ((i - 36) + 36)));
                        }
                    }
                },
                Err(_) => {},
            }
        }
        proof {
            let want = palettes_from_snapshot(b);
            assert forall|i: int| 0 <= i < 324 implies p@[i] == want[i] by {
                if i >= 36 && nw != 324 {
                    assert(p.shared@[i - 36] == 0u16);
                }
                if i >= 36 && nw == 324 {
                    assert(p.shared@[i - 36] == shared_word(p.shared, i - 36));
                }
                if i >= 36 && nw != 324 {
                    assert(shared_word(p.shared, i - 36) == p.shared@[i - 36]);
                }
            }
            assert(p@ =~= want);
        }
        p
    }

    fn to_bytes(&self) -> (r: Vec<u8>) {
        let mut out: Vec<u8> = Vec::new();
        let mut i: usize = 0;
        while i < 324
            invariant
                i <= 324,
                out@ == words_le(self@.take(i as int)),
            decreases 324 - i,
        {
            let w = self.word(i);
            push_u16(&mut out, w);
            proof {
                lemma_words_le_push(self@.take(i as int), w);
                assert(self@.take(i + 1) =~= self@.take(i as int).push(w));
            }
            i = i + 1;
        }
        assert(self@.take(324) =~= self@);
        out
    }

    fn size_bytes(&self) -> (n: usize) {
        EDITABLE_PALETTES_BYTES
    }
}

/// Reading back the snapshot of a palette state gives the state.
pub proof fn lemma_palettes_round_trip(v: Seq<u16>)
    requires
        v.len() == 324,
    ensures
        palettes_from_snapshot(words_le(v)) == v,
{
    let b = words_le(v);
    assert forall|i: int| 0 <= i < 324 implies palettes_from_snapshot(b)[i] == v[i] by {
        lemma_words_le_index(v, i);
    }
    assert(palettes_from_snapshot(b) =~= v);
}

/// A snapshot holds 648 bytes, the size it reports; reading back only its
/// first 72 bytes (the on-screen colors) gives the on-screen colors and
/// all-zero shared tables.
pub proof fn lemma_palettes_on_screen_prefix(v: Seq<u16>)
    requires
        v.len() == 324,
    ensures
        words_le(v).len() == EDITABLE_PALETTES_BYTES,
        palettes_from_snapshot(words_le(v).take(72)) == Seq::new(324, |i: int| if i < 36 { v[i] } else { 0u16 }),
{
    let b = words_le(v);
    let t = b.take(72);
    assert(t.len() / 2 == 36);
    assert forall|i: int| 0 <= i < 36 implies palettes_from_snapshot(t)[i] == v[i] by {
        lemma_words_le_index(v, i);
        assert(t[2 * i] == b[2 * i] && t[2 * i + 1] == b[2 * i + 1]);
    }
    assert(palettes_from_snapshot(t) =~= Seq::new(324, |i: int| if i < 36 { v[i] } else { 0u16 }));
}

// ---------------------------------------------------------------------------
// Colors
// ---------------------------------------------------------------------------

/// The 5-bit channel `k` (0 = red, 1 = green, 2 = blue) of an SNES color.
pub open spec fn channel5(raw: u16, k: int) -> int {
    if k == 0 {
        (raw % 32) as int
    } else if k == 1 {
        ((raw / 32) % 32) as int
    } else {
        ((raw / 1024) % 32) as int
    }
}

/// A 5-bit channel scaled to 8 bits, rounding down.
pub open spec fn scale5to8(c: int) -> int {
    c * 255 / 31
}

/// An 8-bit channel scaled to 5 bits, rounding down.
pub open spec fn scale8to5(c: int) -> int {
    c * 31 / 255
}

/// The hex digits of an SNES color as 8-bit RGB: `RRGGBB`, upper case.
pub open spec fn snes_hex_text(raw: u16) -> Seq<char> {
    hex_width(scale5to8(channel5(raw, 0)) as nat, 2) + hex_width(scale5to8(channel5(raw, 1)) as nat, 2) + hex_width(
        scale5to8(channel5(raw, 2)) as nat,
        2,
    )
}

/// An SNES color as a 6-digit RGB hex string.
pub fn snes_to_hex_rgb(raw: u16) -> (s: String)
    ensures
        s@ == snes_hex_text(raw),
{
    let r = (raw % 32) * 255 / 31;
    let g = ((raw / 32) % 32) * 255 / 31;
    let b = ((raw / 1024) % 32) * 255 / 31;
    let mut s = String::new();
    push_hex(&mut s, r as u64, 2);
    push_hex(&mut s, g as u64, 2);
    push_hex(&mut s, b as u64, 2);
    assert(s@ =~= snes_hex_text(raw));
    s
}

/// The SNES color of 8-bit RGB components, each scaled down to 5 bits.
pub open spec fn rgb8_to_snes_spec(r: u8, g: u8, b: u8) -> u16 {
    (scale8to5(r as int) + 32 * scale8to5(g as int) + 1024 * scale8to5(b as int)) as u16
}

/// The SNES color of 8-bit RGB components (the palette editor's color entry
/// conversion).
pub fn rgb8_to_snes555(r: u8, g: u8, b: u8) -> (c: u16)
    ensures
        c == rgb8_to_snes_spec(r, g, b),
        c < 0x8000,
{
    let r5 = (r as u16) * 31 / 255;
    let g5 = (g as u16) * 31 / 255;
    let b5 = (b as u16) * 31 / 255;
    r5 + 32 * g5 + 1024 * b5
}

/// The text after one optional leading `#`.
pub open spec fn without_hash(s: Seq<char>) -> Seq<char> {
    if s.len() > 0 && s[0] == '#' {
        s.drop_first()
    } else {
        s
    }
}

/// `RRGGBB` with an optional leading `#`, hex digits of either case, as
/// 8-bit components; anything else is refused.
pub open spec fn hex_rgb_spec(s: Seq<char>) -> Option<(u8, u8, u8)> {
    let t = without_hash(s);
    if t.len() == 6 && all_digits(t, 16) {
        let v = digits_value(t, 16);
        Some(((v / 65536) as u8, ((v / 256) % 256) as u8, (v % 256) as u8))
    } else {
        None
    }
}

/// Parses an RGB hex color: `RRGGBB`, optionally after `#`, either case.
pub fn parse_hex_rgb(s: &str) -> (r: Option<(u8, u8, u8)>)
    ensures
        r == hex_rgb_spec(s@),
{
    let cs = chars_of(s);
    let lo: usize = if cs.len() > 0 && cs[0] == '#' { 1 } else { 0 };
    assert(cs@.subrange(lo as int, cs@.len() as int) =~= without_hash(s@));
    if cs.len() - lo != 6 {
        return None;
    }
    match crate::text::parse_digits(&cs, lo, cs.len(), 16, 0xFF_FFFF) {
        Some(v) => {
            proof {
                lemma_six_hex_digits(without_hash(s@));
            }
            Some(((v / 65536) as u8, ((v / 256) % 256) as u8, (v % 256) as u8))
        },
        None => {
            proof {
                lemma_six_hex_digits(without_hash(s@));
            }
            None
        },
    }
}

proof fn lemma_six_hex_digits(t: Seq<char>)
    requires
        t.len() == 6,
    ensures
        all_digits(t, 16) ==> digits_value(t, 16) <= 0xFF_FFFF,
{
    if all_digits(t, 16) {
        crate::text::lemma_hex_digits_bound(t);
    }
}


/// Undoing a palette edit puts all 324 colors back as they were.
pub proof fn lemma_palettes_undo_restores(h: crate::undo::History<Seq<u16>>, before: Seq<u16>, next: Seq<u16>)
    requires
        before.len() == 324,
    ensures
        crate::undo::undo_spec::<EditablePalettes>(crate::undo::commit_spec::<EditablePalettes>(h, before, next)).current
            == before,
{
    crate::undo::lemma_undo_after_commit::<EditablePalettes>(h, before, next);
    lemma_palettes_round_trip(before);
}

// ---------------------------------------------------------------------------
// Editing colors with the shared tables in step
// ---------------------------------------------------------------------------

/// The on-screen colors are the shared-table rows that the level's header
/// selects (`bg_row`, `fg_row`, `sprite_row`), as they are whenever the
/// level does not use a custom palette.
pub open spec fn in_sync(p: EditablePalettes, bg_row: int, fg_row: int, sprite_row: int) -> bool {
    &&& p.bg@ == p.shared.bg[bg_row]@
    &&& p.fg@ == p.shared.fg[fg_row]@
    &&& p.sprite@ == p.shared.sprite[sprite_row]@
}

/// Which of the three groups `g` names (0 = BG, 1 = FG, 2 = sprites).
pub open spec fn group_index(g: usize) -> int {
    if g == 0 {
        0
    } else if g == 1 {
        1
    } else {
        2
    }
}

/// The row of group `g` among `bg_row`, `fg_row`, `sprite_row`.
pub open spec fn row_of(g: usize, bg_row: int, fg_row: int, sprite_row: int) -> int {
    if g == 0 {
        bg_row
    } else if g == 1 {
        fg_row
    } else {
        sprite_row
    }
}

/// `new` is `old` after setting color `col` of group `group` to `raw`,
/// and, unless `custom`, color `col` of the group's shared row `row` too.
pub open spec fn color_set(
    old: EditablePalettes,
    new: EditablePalettes,
    group: usize,
    col: int,
    raw: u16,
    custom: bool,
    row: int,
) -> bool {
    &&& group_spec(new, group)@ == group_spec(old, group)@.update(col, raw)
    &&& forall|g: usize| group_index(g) != group_index(group) ==> #[trigger] group_spec(new, g) == group_spec(old, g)
    &&& forall|g: usize|
        group_index(g) != group_index(group) ==> #[trigger] shared_group_spec(new.shared, g) == shared_group_spec(
            old.shared,
            g,
        )
    &&& forall|r: int|
        0 <= r < 8 && (custom || r != row) ==> #[trigger] shared_group_spec(new.shared, group)[r] == shared_group_spec(
            old.shared,
            group,
        )[r]
    &&& !custom ==> shared_group_spec(new.shared, group)[row]@ == shared_group_spec(old.shared, group)[row]@.update(
        col,
        raw,
    )
}

impl EditablePalettes {
    /// Sets color `col` of group `group` (0 = BG, 1 = FG, else sprites) to
    /// `raw`; unless the level uses a custom palette, color `col` of the
    /// group's shared-table row `row` takes it too, in the same edit.
    pub fn set_color(&mut self, group: usize, col: usize, raw: u16, custom: bool, row: usize)
        requires
            col < 12,
            row < 8,
        ensures
            color_set(*old(self), *final(self), group, col as int, raw, custom, row as int),
    {
        match group {
            0 => {
                self.bg[col] = raw;
                if !custom {
                    self.shared.bg[row][col] = raw;
                }
            },
            1 => {
                self.fg[col] = raw;
                if !custom {
                    self.shared.fg[row][col] = raw;
                }
            },
            _ => {
                self.sprite[col] = raw;
                if !custom {
                    self.shared.sprite[row][col] = raw;
                }
            },
        }
    }

    /// Loads shared tables read from a file: they replace the state's, and
    /// unless the level uses a custom palette the on-screen colors become
    /// the rows `bg_row`, `fg_row`, `sprite_row` of the new tables.
    pub fn insert_shared(&mut self, tables: SharedPaletteTables, custom: bool, bg_row: usize, fg_row: usize, sprite_row: usize)
        requires
            bg_row < 8,
            fg_row < 8,
            sprite_row < 8,
        ensures
            final(self).shared == tables,
            custom ==> final(self).bg == old(self).bg && final(self).fg == old(self).fg && final(self).sprite
                == old(self).sprite,
            !custom ==> final(self).bg == tables.bg[bg_row as int] && final(self).fg == tables.fg[fg_row as int]
                && final(self).sprite == tables.sprite[sprite_row as int],
    {
        self.shared = tables;
        if !custom {
            self.bg = self.shared.bg[bg_row];
            self.fg = self.shared.fg[fg_row];
            self.sprite = self.shared.sprite[sprite_row];
        }
    }

    /// Turning the custom palette off: the on-screen colors move into the
    /// shared-table rows `bg_row`, `fg_row`, `sprite_row`.
    pub fn adopt_on_screen(&mut self, bg_row: usize, fg_row: usize, sprite_row: usize)
        requires
            bg_row < 8,
            fg_row < 8,
            sprite_row < 8,
        ensures
            final(self).bg == old(self).bg && final(self).fg == old(self).fg && final(self).sprite == old(self).sprite,
            final(self).shared.bg@ == old(self).shared.bg@.update(bg_row as int, old(self).bg),
            final(self).shared.fg@ == old(self).shared.fg@.update(fg_row as int, old(self).fg),
            final(self).shared.sprite@ == old(self).shared.sprite@.update(sprite_row as int, old(self).sprite),
    {
        let (bg, fg, sprite) = (self.bg, self.fg, self.sprite);
        self.shared.bg[bg_row] = bg;
        self.shared.fg[fg_row] = fg;
        self.shared.sprite[sprite_row] = sprite;
    }
}

/// Without a custom palette the on-screen colors stay the shared rows that
/// the header selects: loading shared tables puts them in step, turning the
/// custom palette off puts them in step, and setting a color (which then
/// sets the group's selected row too) keeps them in step.
pub proof fn lemma_palette_edits_keep_sync(
    p: EditablePalettes,
    tables: SharedPaletteTables,
    group: usize,
    col: int,
    raw: u16,
    bg_row: int,
    fg_row: int,
    sprite_row: int,
    inserted: EditablePalettes,
    adopted: EditablePalettes,
    edited: EditablePalettes,
)
    requires
        0 <= bg_row < 8,
        0 <= fg_row < 8,
        0 <= sprite_row < 8,
        0 <= col < 12,
        inserted.shared == tables && inserted.bg == tables.bg[bg_row] && inserted.fg == tables.fg[fg_row]
            && inserted.sprite == tables.sprite[sprite_row],
        adopted.bg == p.bg && adopted.fg == p.fg && adopted.sprite == p.sprite,
        adopted.shared.bg@ == p.shared.bg@.update(bg_row, p.bg),
        adopted.shared.fg@ == p.shared.fg@.update(fg_row, p.fg),
        adopted.shared.sprite@ == p.shared.sprite@.update(sprite_row, p.sprite),
        color_set(p, edited, group, col, raw, false, row_of(group, bg_row, fg_row, sprite_row)),
    ensures
        in_sync(inserted, bg_row, fg_row, sprite_row),
        in_sync(adopted, bg_row, fg_row, sprite_row),
        in_sync(p, bg_row, fg_row, sprite_row) ==> in_sync(edited, bg_row, fg_row, sprite_row),
{
    assert(adopted.shared.bg[bg_row] == p.bg);
    assert(adopted.shared.fg[fg_row] == p.fg);
    assert(adopted.shared.sprite[sprite_row] == p.sprite);
    if in_sync(p, bg_row, fg_row, sprite_row) {
        assert(group_spec(edited, 0usize) == edited.bg);
        assert(group_spec(edited, 1usize) == edited.fg);
        assert(group_spec(edited, 2usize) == edited.sprite);
        assert(shared_group_spec(edited.shared, 0usize) == edited.shared.bg);
        assert(shared_group_spec(edited.shared, 1usize) == edited.shared.fg);
        assert(shared_group_spec(edited.shared, 2usize) == edited.shared.sprite);
        assert(group_spec(p, 0usize) == p.bg);
        assert(group_spec(p, 1usize) == p.fg);
        assert(group_spec(p, 2usize) == p.sprite);
        assert(shared_group_spec(p.shared, 0usize) == p.shared.bg);
        assert(shared_group_spec(p.shared, 1usize) == p.shared.fg);
        assert(shared_group_spec(p.shared, 2usize) == p.shared.sprite);
    }
}

} // verus!
