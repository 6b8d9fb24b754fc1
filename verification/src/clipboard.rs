//! Cross-editor clipboard: Lunar Magic-style cut/copy/paste through the
//! system clipboard.
//!
//! A copied payload is plain, human-readable text, `smwclip:1:<kind>:...`,
//! so it can be inspected (or a tile number lifted out of it) in any text
//! field. Payload kinds:
//!
//! - `objects` — level objects + sprites, positions relative to the
//!   selection's top-left, each object carrying its rendered footprint
//!   blocks so a paste stamps identical tiles.
//! - `map16` — rectangular region of Map16 block IDs (row-major hex).
//! - `map16words` — one Map16 block's four tile words (Block Editor).
//! - `tile8x8` — one 8x8 tile's 64 color indices + source GFX file.
//! - `owtiles` — overworld layer-1 tile IDs, rectangular region.
//!
//! `encode_text` and `decode_text` state the grammar; `ClipboardPayload::encode`
//! and `ClipboardPayload::decode` implement them, and
//! `lemma_decode_encode` proves that decoding gives back every well-formed
//! payload that was encoded.
use vstd::prelude::*;
use crate::text::{
    all_digits, chunk_len, utf8_len, byte_len, byte_len_at, chars_of, dec, dec_int, find_in, hex_chunks, hex_chunks_at,
    hex_concat, hex_width, is_digit, is_ws, join, lacks, lemma_dec, lemma_digit_char_class,
    lemma_digits_lack, lemma_digits_no_ws, lemma_hex_concat, lemma_hex_concat_push,
    lemma_hex_width, lemma_join_lacks, lemma_join_no_ws, lemma_join_nonempty, lemma_join_push,
    lemma_parse_dec_of_dec, lemma_parse_hex_of_hex, lemma_parse_i32_of_dec, lemma_split_cons,
    lemma_split_join, lemma_split_once_concat, lemma_split_once_none, lemma_trim_no_ws, lemma_trim_idempotent, no_ws,
    parse_dec, parse_dec_at, parse_i32, parse_i32_trimmed_at, parse_unsigned, parse_unsigned_at,
    pow16, push_char, push_dec, push_dec_i32, push_hex, split, split_once, split_ranges, trim,
    trim_range,
};

verus! {

/// One level object on the clipboard, positioned relative to the
/// selection's top-left (`dx`, `dy` in tiles).
#[derive(Clone, Debug, PartialEq, Eq)]
pub struct ClipObject {
    pub dx: i32,
    pub dy: i32,
    pub id: u8,
    pub settings: u8,
    pub is_extended: bool,
    pub extended_id: u8,
    /// Rendered footprint, row-major (`w * h` block IDs), so a paste can
    /// stamp the same tiles the source showed.
    pub w: u32,
    pub h: u32,
    pub blocks: Vec<u16>,
}

/// One sprite on the clipboard, positioned relative to the selection's
/// top-left (`dx`, `dy` in tiles).
#[derive(Clone, Copy, Debug, PartialEq, Eq)]
pub struct ClipSprite {
    pub dx: i32,
    pub dy: i32,
    pub sprite_id: u8,
    pub extra_bits: u8,
}

#[derive(Clone, Debug, PartialEq, Eq)]
#[allow(inconsistent_fields)]
pub enum ClipboardPayload {
    /// Level editor: objects + sprites.
    LevelObjects { objects: Vec<ClipObject>, sprites: Vec<ClipSprite> },
    /// Map16 grid: rectangular region of block IDs, row-major.
    Map16Blocks { cols: u32, rows: u32, ids: Vec<u16> },
    /// Map16 Block Editor: one block's four tile words.
    Map16BlockWords { words: [u16; 4] },
    /// 8x8 tile editor: one tile's color indices + source GFX file number.
    Tile8x8 { file: u8, pixels: [u8; 64] },
    /// Overworld editor: layer-1 tile IDs, rectangular region, row-major.
    OverworldTiles { cols: u32, rows: u32, ids: Vec<u8> },
}

/// The value of a [`ClipObject`].
pub struct ClipObjectView {
    pub dx: i32,
    pub dy: i32,
    pub id: u8,
    pub settings: u8,
    pub is_extended: bool,
    pub extended_id: u8,
    pub w: u32,
    pub h: u32,
    pub blocks: Seq<u16>,
}

/// The value of a [`ClipboardPayload`].
#[allow(inconsistent_fields)]
pub enum PayloadView {
    LevelObjects { objects: Seq<ClipObjectView>, sprites: Seq<ClipSprite> },
    Map16Blocks { cols: u32, rows: u32, ids: Seq<u16> },
    Map16BlockWords { words: Seq<u16> },
    Tile8x8 { file: u8, pixels: Seq<u8> },
    OverworldTiles { cols: u32, rows: u32, ids: Seq<u8> },
}

impl View for ClipObject {
    type V = ClipObjectView;

    open spec fn view(&self) -> ClipObjectView {
        ClipObjectView {
            dx: self.dx,
            dy: self.dy,
            id: self.id,
            settings: self.settings,
            is_extended: self.is_extended,
            extended_id: self.extended_id,
            w: self.w,
            h: self.h,
            blocks: self.blocks@,
        }
    }
}

impl View for ClipboardPayload {
    type V = PayloadView;

    open spec fn view(&self) -> PayloadView {
        match self {
            ClipboardPayload::LevelObjects { objects, sprites } => PayloadView::LevelObjects {
                objects: objects@.map_values(|o: ClipObject| o@),
                sprites: sprites@,
            },
            ClipboardPayload::Map16Blocks { cols, rows, ids } => PayloadView::Map16Blocks {
                cols: *cols,
                rows: *rows,
                ids: ids@,
            },
            ClipboardPayload::Map16BlockWords { words } => PayloadView::Map16BlockWords {
                words: words@,
            },
            ClipboardPayload::Tile8x8 { file, pixels } => PayloadView::Tile8x8 {
                file: *file,
                pixels: pixels@,
            },
            ClipboardPayload::OverworldTiles { cols, rows, ids } => PayloadView::OverworldTiles {
                cols: *cols,
                rows: *rows,
                ids: ids@,
            },
        }
    }
}

// ---------------------------------------------------------------------------
// The grammar
// ---------------------------------------------------------------------------

/// Magic prefix of every payload.
pub open spec fn magic() -> Seq<char> {
    seq!['s', 'm', 'w', 'c', 'l', 'i', 'p']
}

/// Format version.
pub open spec fn version() -> Seq<char> {
    seq!['1']
}

pub open spec fn kind_objects() -> Seq<char> {
    seq!['o', 'b', 'j', 'e', 'c', 't', 's']
}

pub open spec fn kind_map16() -> Seq<char> {
    seq!['m', 'a', 'p', '1', '6']
}

pub open spec fn kind_map16words() -> Seq<char> {
    seq!['m', 'a', 'p', '1', '6', 'w', 'o', 'r', 'd', 's']
}

pub open spec fn kind_tile8x8() -> Seq<char> {
    seq!['t', 'i', 'l', 'e', '8', 'x', '8']
}

pub open spec fn kind_owtiles() -> Seq<char> {
    seq!['o', 'w', 't', 'i', 'l', 'e', 's']
}

/// `smwclip:1:<kind>:`
pub open spec fn header(kind: Seq<char>) -> Seq<char> {
    magic() + seq![':'] + version() + seq![':'] + kind + seq![':']
}

pub open spec fn bool_num(b: bool) -> nat {
    if b {
        1
    } else {
        0
    }
}

/// The ten comma-separated fields of an object:
/// `o,dx,dy,id,settings,ext,eid,w,h,blocks`.
pub open spec fn object_fields(o: ClipObjectView) -> Seq<Seq<char>> {
    seq![
        seq!['o'],
        dec_int(o.dx as int),
        dec_int(o.dy as int),
        dec(o.id as nat),
        dec(o.settings as nat),
        dec(bool_num(o.is_extended)),
        dec(o.extended_id as nat),
        dec(o.w as nat),
        dec(o.h as nat),
        hex_concat(o.blocks.map_values(|b: u16| b as nat), 4),
    ]
}

pub open spec fn object_text(o: ClipObjectView) -> Seq<char> {
    join(object_fields(o), ',')
}

/// The five comma-separated fields of a sprite: `s,dx,dy,sprite_id,extra_bits`.
pub open spec fn sprite_fields(s: ClipSprite) -> Seq<Seq<char>> {
    seq![
        seq!['s'],
        dec_int(s.dx as int),
        dec_int(s.dy as int),
        dec(s.sprite_id as nat),
        dec(s.extra_bits as nat),
    ]
}

pub open spec fn sprite_text(s: ClipSprite) -> Seq<char> {
    join(sprite_fields(s), ',')
}

pub open spec fn hex16_texts(ids: Seq<u16>) -> Seq<Seq<char>> {
    ids.map_values(|i: u16| hex_width(i as nat, 4))
}

pub open spec fn dec8_texts(ids: Seq<u8>) -> Seq<Seq<char>> {
    ids.map_values(|i: u8| dec(i as nat))
}

/// The text of a payload.
pub open spec fn encode_text(p: PayloadView) -> Seq<char> {
    match p {
        PayloadView::LevelObjects { objects, sprites } => header(kind_objects()) + join(
            objects.map_values(|o: ClipObjectView| object_text(o)),
            ';',
        ) + seq!['|'] + join(sprites.map_values(|s: ClipSprite| sprite_text(s)), ';'),
        PayloadView::Map16Blocks { cols, rows, ids } => header(kind_map16()) + dec(cols as nat)
            + seq![','] + dec(rows as nat) + seq![':'] + join(hex16_texts(ids), ','),
        PayloadView::Map16BlockWords { words } => header(kind_map16words()) + join(
            hex16_texts(words),
            ',',
        ),
        PayloadView::Tile8x8 { file, pixels } => header(kind_tile8x8()) + dec(file as nat)
            + seq![':'] + hex_concat(pixels.map_values(|p: u8| p as nat), 2),
        PayloadView::OverworldTiles { cols, rows, ids } => header(kind_owtiles()) + dec(
            cols as nat,
        ) + seq![','] + dec(rows as nat) + seq![':'] + join(dec8_texts(ids), ','),
    }
}

/// `s.trim()` parsed as a hex `u16`.
pub open spec fn hex16(s: Seq<char>) -> Option<nat> {
    parse_unsigned(trim(s), 16, 0xFFFF)
}

pub open spec fn decode_object(item: Seq<char>) -> Option<ClipObjectView> {
    let f = split(item, ',');
    if f.len() != 10 || f[0] != seq!['o'] {
        None
    } else {
        match (
            parse_i32(trim(f[1])),
            parse_i32(trim(f[2])),
            parse_dec(f[3], 0xFF),
            parse_dec(f[4], 0xFF),
            parse_dec(f[5], 0xFF),
            parse_dec(f[6], 0xFF),
        ) {
            (Some(dx), Some(dy), Some(id), Some(st), Some(ext), Some(eid)) => match (
                parse_dec(f[7], 0xFFFF_FFFF),
                parse_dec(f[8], 0xFFFF_FFFF),
                hex_chunks(f[9], 4, 0xFFFF, true),
            ) {
                (Some(w), Some(h), Some(bl)) => {
                    if byte_len(f[9]) != w * h * 4 {
                        None
                    } else {
                        Some(
                            ClipObjectView {
                                dx: dx as i32,
                                dy: dy as i32,
                                id: id as u8,
                                settings: st as u8,
                                is_extended: ext != 0,
                                extended_id: eid as u8,
                                w: w as u32,
                                h: h as u32,
                                blocks: bl.map_values(|b: nat| b as u16),
                            },
                        )
                    }
                },
                _ => None,
            },
            _ => None,
        }
    }
}

pub open spec fn decode_sprite(item: Seq<char>) -> Option<ClipSprite> {
    let f = split(item, ',');
    if f.len() != 5 || f[0] != seq!['s'] {
        None
    } else {
        match (
            parse_i32(trim(f[1])),
            parse_i32(trim(f[2])),
            parse_dec(f[3], 0xFF),
            parse_dec(f[4], 0xFF),
        ) {
            (Some(dx), Some(dy), Some(sid), Some(eb)) => Some(
                ClipSprite {
                    dx: dx as i32,
                    dy: dy as i32,
                    sprite_id: sid as u8,
                    extra_bits: eb as u8,
                },
            ),
            _ => None,
        }
    }
}

pub open spec fn decode_objects_list(part: Seq<char>) -> Option<Seq<ClipObjectView>> {
    if part.len() == 0 {
        Some(seq![])
    } else {
        let items = split(part, ';');
        if forall|i: int| 0 <= i < items.len() ==> (#[trigger] decode_object(items[i])) is Some {
            Some(Seq::new(items.len(), |i: int| decode_object(items[i])->0))
        } else {
            None
        }
    }
}

pub open spec fn decode_sprites_list(part: Seq<char>) -> Option<Seq<ClipSprite>> {
    if part.len() == 0 {
        Some(seq![])
    } else {
        let items = split(part, ';');
        if forall|i: int| 0 <= i < items.len() ==> (#[trigger] decode_sprite(items[i])) is Some {
            Some(Seq::new(items.len(), |i: int| decode_sprite(items[i])->0))
        } else {
            None
        }
    }
}

/// `objects` payload body: `<objects joined by ;>|<sprites joined by ;>`.
pub open spec fn decode_objects_spec(rest: Seq<char>) -> Option<PayloadView> {
    let parts = match split_once(rest, '|') {
        Some(p) => p,
        None => (rest, Seq::<char>::empty()),
    };
    match (decode_objects_list(parts.0), decode_sprites_list(parts.1)) {
        (Some(objects), Some(sprites)) => {
            if objects.len() == 0 && sprites.len() == 0 {
                None
            } else {
                Some(PayloadView::LevelObjects { objects, sprites })
            }
        },
        _ => None,
    }
}

/// Every comma-separated item parsed as a trimmed hex `u16`.
pub open spec fn hex16_list(list: Seq<char>) -> Option<Seq<u16>> {
    let items = split(list, ',');
    if forall|i: int| 0 <= i < items.len() ==> (#[trigger] hex16(items[i])) is Some {
        Some(Seq::new(items.len(), |i: int| hex16(items[i])->0 as u16))
    } else {
        None
    }
}

/// Every comma-separated item parsed as a trimmed decimal `u8`.
pub open spec fn dec8_list(list: Seq<char>) -> Option<Seq<u8>> {
    let items = split(list, ',');
    if forall|i: int| 0 <= i < items.len() ==> (#[trigger] parse_dec(items[i], 0xFF)) is Some {
        Some(Seq::new(items.len(), |i: int| parse_dec(items[i], 0xFF)->0 as u8))
    } else {
        None
    }
}

/// `cols,rows:<list>` with the list parsed by `hex_list` (`true`) or
/// `dec8_list` (`false`).
pub open spec fn decode_grid_dims(rest: Seq<char>) -> Option<(nat, nat, Seq<char>)> {
    match split_once(rest, ':') {
        None => None,
        Some((dims, list)) => match split_once(dims, ',') {
            None => None,
            Some((c, r)) => match (parse_dec(c, 0xFFFF_FFFF), parse_dec(r, 0xFFFF_FFFF)) {
                (Some(cols), Some(rows)) => Some((cols, rows, list)),
                _ => None,
            },
        },
    }
}

pub open spec fn decode_map16_spec(rest: Seq<char>) -> Option<PayloadView> {
    match decode_grid_dims(rest) {
        None => None,
        Some((cols, rows, list)) => match hex16_list(list) {
            None => None,
            Some(ids) => {
                if ids.len() != cols * rows || ids.len() == 0 {
                    None
                } else {
                    Some(PayloadView::Map16Blocks { cols: cols as u32, rows: rows as u32, ids })
                }
            },
        },
    }
}

pub open spec fn decode_map16words_spec(rest: Seq<char>) -> Option<PayloadView> {
    match hex16_list(rest) {
        None => None,
        Some(words) => {
            if words.len() != 4 {
                None
            } else {
                Some(PayloadView::Map16BlockWords { words })
            }
        },
    }
}

pub open spec fn decode_tile8x8_spec(rest: Seq<char>) -> Option<PayloadView> {
    match split_once(rest, ':') {
        None => None,
        Some((file, hex)) => match parse_dec(file, 0xFF) {
            None => None,
            Some(f) => {
                if byte_len(hex) != 128 {
                    None
                } else {
                    match hex_chunks(hex, 2, 0xFF, false) {
                        None => None,
                        Some(px) => Some(
                            PayloadView::Tile8x8 {
                                file: f as u8,
                                pixels: px.map_values(|p: nat| p as u8),
                            },
                        ),
                    }
                }
            },
        },
    }
}

pub open spec fn decode_owtiles_spec(rest: Seq<char>) -> Option<PayloadView> {
    match decode_grid_dims(rest) {
        None => None,
        Some((cols, rows, list)) => match dec8_list(list) {
            None => None,
            Some(ids) => {
                if ids.len() != cols * rows || ids.len() == 0 {
                    None
                } else {
                    Some(PayloadView::OverworldTiles { cols: cols as u32, rows: rows as u32, ids })
                }
            },
        },
    }
}

pub open spec fn decode_kind(kind: Seq<char>, rest: Seq<char>) -> Option<PayloadView> {
    if kind == kind_objects() {
        decode_objects_spec(rest)
    } else if kind == kind_map16() {
        decode_map16_spec(rest)
    } else if kind == kind_map16words() {
        decode_map16words_spec(rest)
    } else if kind == kind_tile8x8() {
        decode_tile8x8_spec(rest)
    } else if kind == kind_owtiles() {
        decode_owtiles_spec(rest)
    } else {
        None
    }
}

/// The payload a text holds: after trimming, `smwclip:1:<kind>:<rest>`
/// split as `str::splitn(4, ':')` splits it, then the kind's own grammar.
pub open spec fn decode_text(text: Seq<char>) -> Option<PayloadView> {
    let t = trim(text);
    match split_once(t, ':') {
        None => None,
        Some((a, r1)) => {
            if a != magic() {
                None
            } else {
                match split_once(r1, ':') {
                    None => None,
                    Some((b, r2)) => {
                        if b != version() {
                            None
                        } else {
                            match split_once(r2, ':') {
                                Some((kind, rest)) => decode_kind(kind, rest),
                                None => decode_kind(r2, Seq::<char>::empty()),
                            }
                        }
                    },
                }
            }
        },
    }
}

/// A payload that can be round-tripped: a `LevelObjects` selection is not
/// empty and each object's footprint has `w * h` blocks; a grid's id list is
/// non-empty and holds `cols * rows` entries; fixed-size arrays have their
/// size.
pub open spec fn payload_wf(p: PayloadView) -> bool {
    match p {
        PayloadView::LevelObjects { objects, sprites } => {
            &&& (objects.len() > 0 || sprites.len() > 0)
            &&& forall|i: int|
                0 <= i < objects.len() ==> (#[trigger] objects[i]).blocks.len() == objects[i].w
                    * objects[i].h
        },
        PayloadView::Map16Blocks { cols, rows, ids } => ids.len() == cols * rows && ids.len()
            > 0,
        PayloadView::Map16BlockWords { words } => words.len() == 4,
        PayloadView::Tile8x8 { file, pixels } => pixels.len() == 64,
        PayloadView::OverworldTiles { cols, rows, ids } => ids.len() == cols * rows && ids.len()
            > 0,
    }
}


// ---------------------------------------------------------------------------
// Encoding
// ---------------------------------------------------------------------------

fn magic_chars() -> (v: Vec<char>)
    ensures
        v@ == magic(),
{
    let v = vec!['s', 'm', 'w', 'c', 'l', 'i', 'p'];
    assert(v@ =~= magic());
    v
}

fn version_chars() -> (v: Vec<char>)
    ensures
        v@ == version(),
{
    let v = vec!['1'];
    assert(v@ =~= version());
    v
}

fn kind_chars(k: u8) -> (v: Vec<char>)
    ensures
        k == 0 ==> v@ == kind_objects(),
        k == 1 ==> v@ == kind_map16(),
        k == 2 ==> v@ == kind_map16words(),
        k == 3 ==> v@ == kind_tile8x8(),
        k >= 4 ==> v@ == kind_owtiles(),
{
    let v = if k == 0 {
        vec!['o', 'b', 'j', 'e', 'c', 't', 's']
    } else if k == 1 {
        vec!['m', 'a', 'p', '1', '6']
    } else if k == 2 {
        vec!['m', 'a', 'p', '1', '6', 'w', 'o', 'r', 'd', 's']
    } else if k == 3 {
        vec!['t', 'i', 'l', 'e', '8', 'x', '8']
    } else {
        vec!['o', 'w', 't', 'i', 'l', 'e', 's']
    };
    assert(k == 0 ==> v@ =~= kind_objects());
    assert(k == 1 ==> v@ =~= kind_map16());
    assert(k == 2 ==> v@ =~= kind_map16words());
    assert(k == 3 ==> v@ =~= kind_tile8x8());
    assert(k >= 4 ==> v@ =~= kind_owtiles());
    v
}

fn push_chars(out: &mut String, cs: &Vec<char>)
    ensures
        final(out)@ == old(out)@ + cs@,
{
    let mut i: usize = 0;
    while i < cs.len()
        invariant
            0 <= i <= cs@.len(),
            out@ == old(out)@ + cs@.take(i as int),
        decreases cs@.len() - i,
    {
        push_char(out, cs[i]);
        assert(cs@.take(i + 1) =~= cs@.take(i as int).push(cs@[i as int]));
        i = i + 1;
    }
    assert(cs@.take(cs@.len() as int) =~= cs@);
}

/// Appends `smwclip:1:<kind>:`.
fn push_header(out: &mut String, kind: &Vec<char>)
    ensures
        final(out)@ == old(out)@ + header(kind@),
{
    push_chars(out, &magic_chars());
    push_char(out, ':');
    push_chars(out, &version_chars());
    push_char(out, ':');
    push_chars(out, kind);
    push_char(out, ':');
    assert(final(out)@ =~= old(out)@ + header(kind@));
}

/// Appends the 4-digit upper-case hex form of `v`.
fn hex_u16(out: &mut String, v: u16)
    ensures
        final(out)@ == old(out)@ + hex_width(v as nat, 4),
{
    push_hex(out, v as u64, 4);
}

/// Appends `f` then the join of the fields so far, as one more field.
proof fn lemma_field(fields: Seq<Seq<char>>, f: Seq<char>, before: Seq<char>, after: Seq<char>)
    requires
        fields.len() > 0,
        after =~= before + join(fields, ',') + seq![','] + f,
    ensures
        after == before + join(fields.push(f), ','),
{
    lemma_join_push(fields, f, ',');
    assert(after =~= before + join(fields.push(f), ','));
}

fn push_object(out: &mut String, o: &ClipObject)
    ensures
        final(out)@ == old(out)@ + object_text(o@),
{
    let ghost start = old(out)@;
    let ghost ov = o@;
    let ghost f = object_fields(ov);
    let ghost mut fs = seq![f[0]];
    push_char(out, 'o');
    assert(join(fs, ',') == f[0]);
    assert(out@ =~= start + join(fs, ','));
    push_char(out, ',');
    push_dec_i32(out, o.dx);
    proof {
        lemma_field(fs, f[1], start, out@);
        fs = fs.push(f[1]);
    }
    push_char(out, ',');
    push_dec_i32(out, o.dy);
    proof {
        lemma_field(fs, f[2], start, out@);
        fs = fs.push(f[2]);
    }
    push_char(out, ',');
    push_dec(out, o.id as u64);
    proof {
        lemma_field(fs, f[3], start, out@);
        fs = fs.push(f[3]);
    }
    push_char(out, ',');
    push_dec(out, o.settings as u64);
    proof {
        lemma_field(fs, f[4], start, out@);
        fs = fs.push(f[4]);
    }
    push_char(out, ',');
    push_dec(out, if o.is_extended {
        1
    } else {
        0
    });
    proof {
        lemma_field(fs, f[5], start, out@);
        fs = fs.push(f[5]);
    }
    push_char(out, ',');
    push_dec(out, o.extended_id as u64);
    proof {
        lemma_field(fs, f[6], start, out@);
        fs = fs.push(f[6]);
    }
    push_char(out, ',');
    push_dec(out, o.w as u64);
    proof {
        lemma_field(fs, f[7], start, out@);
        fs = fs.push(f[7]);
    }
    push_char(out, ',');
    push_dec(out, o.h as u64);
    proof {
        lemma_field(fs, f[8], start, out@);
        fs = fs.push(f[8]);
    }
    push_char(out, ',');
    let ghost mid = out@;
    let ghost bl = o.blocks@.map_values(|b: u16| b as nat);
    let mut i: usize = 0;
    while i < o.blocks.len()
        invariant
            0 <= i <= o.blocks@.len(),
            bl == o.blocks@.map_values(|b: u16| b as nat),
            out@ == mid + hex_concat(bl.take(i as int), 4),
        decreases o.blocks@.len() - i,
    {
        hex_u16(out, o.blocks[i]);
        proof {
            lemma_hex_concat_push(bl.take(i as int), bl[i as int], 4);
            assert(bl.take(i + 1) =~= bl.take(i as int).push(bl[i as int]));
        }
        i = i + 1;
    }
    assert(bl.take(bl.len() as int) =~= bl);
    proof {
        lemma_field(fs, f[9], start, out@);
        fs = fs.push(f[9]);
        assert(fs =~= f);
    }
}

fn push_sprite(out: &mut String, sp: &ClipSprite)
    ensures
        final(out)@ == old(out)@ + sprite_text(*sp),
{
    let ghost start = old(out)@;
    let ghost f = sprite_fields(*sp);
    let ghost mut fs = seq![f[0]];
    push_char(out, 's');
    assert(join(fs, ',') == f[0]);
    assert(out@ =~= start + join(fs, ','));
    push_char(out, ',');
    push_dec_i32(out, sp.dx);
    proof {
        lemma_field(fs, f[1], start, out@);
        fs = fs.push(f[1]);
    }
    push_char(out, ',');
    push_dec_i32(out, sp.dy);
    proof {
        lemma_field(fs, f[2], start, out@);
        fs = fs.push(f[2]);
    }
    push_char(out, ',');
    push_dec(out, sp.sprite_id as u64);
    proof {
        lemma_field(fs, f[3], start, out@);
        fs = fs.push(f[3]);
    }
    push_char(out, ',');
    push_dec(out, sp.extra_bits as u64);
    proof {
        lemma_field(fs, f[4], start, out@);
        fs = fs.push(f[4]);
        assert(fs =~= f);
    }
}

/// Appends the pieces texts `texts` joined with `d`; `push_item` is given by
/// the caller's loop. This lemma is the loop step.
proof fn lemma_join_step(texts: Seq<Seq<char>>, i: int, d: char, before: Seq<char>, mid: Seq<char>, after: Seq<char>)
    requires
        0 <= i < texts.len(),
        mid =~= before + join(texts.take(i), d) + (if i > 0 {
            seq![d]
        } else {
            Seq::<char>::empty()
        }),
        after =~= mid + texts[i],
    ensures
        after == before + join(texts.take(i + 1), d),
{
    lemma_join_push(texts.take(i), texts[i], d);
    assert(texts.take(i + 1) =~= texts.take(i).push(texts[i]));
    if i == 0 {
        assert(join(texts.take(0), d) =~= Seq::<char>::empty());
    }
    assert(after =~= before + join(texts.take(i + 1), d));
}

impl ClipboardPayload {
    /// Encode the payload as `smwclip:1:<kind>:...` text.
    pub fn encode(&self) -> (text: String)
        ensures
            text@ == encode_text(self@),
    {
        let mut out = String::new();
        match self {
            ClipboardPayload::LevelObjects { objects, sprites } => {
                push_header(&mut out, &kind_chars(0));
                let ghost start = out@;
                let ghost texts = objects@.map_values(|o: ClipObject| object_text(o@));
                let mut i: usize = 0;
                while i < objects.len()
                    invariant
                        0 <= i <= objects@.len(),
                        texts == objects@.map_values(|o: ClipObject| object_text(o@)),
                        out@ == start + join(texts.take(i as int), ';'),
                    decreases objects@.len() - i,
                {
                    if i > 0 {
                        push_char(&mut out, ';');
                    }
                    let ghost mid = out@;
                    push_object(&mut out, &objects[i]);
                    proof {
                        lemma_join_step(texts, i as int, ';', start, mid, out@);
                    }
                    i = i + 1;
                }
                assert(texts.take(texts.len() as int) =~= texts);
                push_char(&mut out, '|');
                let ghost start2 = out@;
                let ghost stexts = sprites@.map_values(|s: ClipSprite| sprite_text(s));
                let mut j: usize = 0;
                while j < sprites.len()
                    invariant
                        0 <= j <= sprites@.len(),
                        stexts == sprites@.map_values(|s: ClipSprite| sprite_text(s)),
                        out@ == start2 + join(stexts.take(j as int), ';'),
                    decreases sprites@.len() - j,
                {
                    if j > 0 {
                        push_char(&mut out, ';');
                    }
                    let ghost mid = out@;
                    push_sprite(&mut out, &sprites[j]);
                    proof {
                        lemma_join_step(stexts, j as int, ';', start2, mid, out@);
                    }
                    j = j + 1;
                }
                assert(stexts.take(stexts.len() as int) =~= stexts);
                assert(objects@.map_values(|o: ClipObject| o@).map_values(
                    |o: ClipObjectView| object_text(o),
                ) =~= texts);
                assert(out@ =~= encode_text(self@));
            },
            ClipboardPayload::Map16Blocks { cols, rows, ids } => {
                push_header(&mut out, &kind_chars(1));
                push_dec(&mut out, *cols as u64);
                push_char(&mut out, ',');
                push_dec(&mut out, *rows as u64);
                push_char(&mut out, ':');
                let ghost start = out@;
                let ghost texts = hex16_texts(ids@);
                let mut i: usize = 0;
                while i < ids.len()
                    invariant
                        0 <= i <= ids@.len(),
                        texts == hex16_texts(ids@),
                        out@ == start + join(texts.take(i as int), ','),
                    decreases ids@.len() - i,
                {
                    if i > 0 {
                        push_char(&mut out, ',');
                    }
                    let ghost mid = out@;
                    hex_u16(&mut out, ids[i]);
                    proof {
                        lemma_join_step(texts, i as int, ',', start, mid, out@);
                    }
                    i = i + 1;
                }
                assert(texts.take(texts.len() as int) =~= texts);
                assert(out@ =~= encode_text(self@));
            },
            ClipboardPayload::Map16BlockWords { words } => {
                push_header(&mut out, &kind_chars(2));
                let ghost start = out@;
                let ghost texts = hex16_texts(words@);
                let mut i: usize = 0;
                while i < 4
                    invariant
                        0 <= i <= 4,
                        words@.len() == 4,
                        texts == hex16_texts(words@),
                        out@ == start + join(texts.take(i as int), ','),
                    decreases 4 - i,
                {
                    if i > 0 {
                        push_char(&mut out, ',');
                    }
                    let ghost mid = out@;
                    hex_u16(&mut out, words[i]);
                    proof {
                        lemma_join_step(texts, i as int, ',', start, mid, out@);
                    }
                    i = i + 1;
                }
                assert(texts.take(texts.len() as int) =~= texts);
                assert(out@ =~= encode_text(self@));
            },
            ClipboardPayload::Tile8x8 { file, pixels } => {
                push_header(&mut out, &kind_chars(3));
                push_dec(&mut out, *file as u64);
                push_char(&mut out, ':');
                let ghost mid = out@;
                let ghost px = pixels@.map_values(|p: u8| p as nat);
                let mut i: usize = 0;
                while i < 64
                    invariant
                        0 <= i <= 64,
                        pixels@.len() == 64,
                        px == pixels@.map_values(|p: u8| p as nat),
                        out@ == mid + hex_concat(px.take(i as int), 2),
                    decreases 64 - i,
                {
                    push_hex(&mut out, pixels[i] as u64, 2);
                    proof {
                        lemma_hex_concat_push(px.take(i as int), px[i as int], 2);
                        assert(px.take(i + 1) =~= px.take(i as int).push(px[i as int]));
                    }
                    i = i + 1;
                }
                assert(px.take(64) =~= px);
                assert(out@ =~= encode_text(self@));
            },
            ClipboardPayload::OverworldTiles { cols, rows, ids } => {
                push_header(&mut out, &kind_chars(4));
                push_dec(&mut out, *cols as u64);
                push_char(&mut out, ',');
                push_dec(&mut out, *rows as u64);
                push_char(&mut out, ':');
                let ghost start = out@;
                let ghost texts = dec8_texts(ids@);
                let mut i: usize = 0;
                while i < ids.len()
                    invariant
                        0 <= i <= ids@.len(),
                        texts == dec8_texts(ids@),
                        out@ == start + join(texts.take(i as int), ','),
                    decreases ids@.len() - i,
                {
                    if i > 0 {
                        push_char(&mut out, ',');
                    }
                    let ghost mid = out@;
                    push_dec(&mut out, ids[i] as u64);
                    proof {
                        lemma_join_step(texts, i as int, ',', start, mid, out@);
                    }
                    i = i + 1;
                }
                assert(texts.take(texts.len() as int) =~= texts);
                assert(out@ =~= encode_text(self@));
            },
        }
        out
    }
}


// ---------------------------------------------------------------------------
// Decoding
// ---------------------------------------------------------------------------

/// `s[a..b] == t`.
fn range_eq(s: &Vec<char>, a: usize, b: usize, t: &Vec<char>) -> (r: bool)
    requires
        a <= b <= s@.len(),
    ensures
        r == (s@.subrange(a as int, b as int) == t@),
{
    if b - a != t.len() {
        return false;
    }
    let mut i: usize = 0;
    while i < t.len()
        invariant
            a <= b <= s@.len(),
            b - a == t@.len(),
            0 <= i <= t@.len(),
            forall|j: int| 0 <= j < i ==> s@[a + j] == t@[j],
        decreases t@.len() - i,
    {
        if s[a + i] != t[i] {
            assert(s@.subrange(a as int, b as int)[i as int] != t@[i as int]);
            return false;
        }
        i = i + 1;
    }
    assert(s@.subrange(a as int, b as int) =~= t@);
    true
}

/// `s[a..b].trim()` parsed as a hex `u16`.
fn parse_hex_u16(s: &Vec<char>, a: usize, b: usize) -> (r: Option<u16>)
    requires
        a <= b <= s@.len(),
    ensures
        match r {
            Some(v) => hex16(s@.subrange(a as int, b as int)) == Some(v as nat),
            None => hex16(s@.subrange(a as int, b as int)) is None,
        },
{
    let (x, y) = trim_range(s, a, b);
    match parse_unsigned_at(s, x, y, 16, 0xFFFF) {
        Some(v) => Some(v as u16),
        None => None,
    }
}

fn decode_object_at(s: &Vec<char>, a: usize, b: usize) -> (r: Option<ClipObject>)
    requires
        a <= b <= s@.len(),
    ensures
        match r {
            Some(o) => decode_object(s@.subrange(a as int, b as int)) == Some(o@),
            None => decode_object(s@.subrange(a as int, b as int)) is None,
        },
{
    let ghost item = s@.subrange(a as int, b as int);
    let ghost f = split(item, ',');
    let fr = split_ranges(s, a, b, ',');
    if fr.len() != 10 {
        return None;
    }
    assert(s@.subrange(fr@[0].0 as int, fr@[0].1 as int) == f[0]);
    if !(fr[0].1 - fr[0].0 == 1 && s[fr[0].0] == 'o') {
        assert(f[0] != seq!['o']) by {
            if f[0] == seq!['o'] {
                assert(f[0].len() == 1);
                assert(f[0][0] == s@[fr@[0].0 as int]);
            }
        }
        return None;
    }
    assert(f[0] =~= seq!['o']);
    assert(s@.subrange(fr@[1].0 as int, fr@[1].1 as int) == f[1]);
    assert(s@.subrange(fr@[2].0 as int, fr@[2].1 as int) == f[2]);
    assert(s@.subrange(fr@[3].0 as int, fr@[3].1 as int) == f[3]);
    assert(s@.subrange(fr@[4].0 as int, fr@[4].1 as int) == f[4]);
    assert(s@.subrange(fr@[5].0 as int, fr@[5].1 as int) == f[5]);
    assert(s@.subrange(fr@[6].0 as int, fr@[6].1 as int) == f[6]);
    assert(s@.subrange(fr@[7].0 as int, fr@[7].1 as int) == f[7]);
    assert(s@.subrange(fr@[8].0 as int, fr@[8].1 as int) == f[8]);
    assert(s@.subrange(fr@[9].0 as int, fr@[9].1 as int) == f[9]);
    let dx = match parse_i32_trimmed_at(s, fr[1].0, fr[1].1) {
        Some(v) => v,
        None => {
            return None;
        },
    };
    let dy = match parse_i32_trimmed_at(s, fr[2].0, fr[2].1) {
        Some(v) => v,
        None => {
            return None;
        },
    };
    let id = match parse_dec_at(s, fr[3].0, fr[3].1, 0xFF) {
        Some(v) => v,
        None => {
            return None;
        },
    };
    let settings = match parse_dec_at(s, fr[4].0, fr[4].1, 0xFF) {
        Some(v) => v,
        None => {
            return None;
        },
    };
    let ext = match parse_dec_at(s, fr[5].0, fr[5].1, 0xFF) {
        Some(v) => v,
        None => {
            return None;
        },
    };
    let eid = match parse_dec_at(s, fr[6].0, fr[6].1, 0xFF) {
        Some(v) => v,
        None => {
            return None;
        },
    };
    let w = match parse_dec_at(s, fr[7].0, fr[7].1, 0xFFFF_FFFF) {
        Some(v) => v,
        None => {
            return None;
        },
    };
    let h = match parse_dec_at(s, fr[8].0, fr[8].1, 0xFFFF_FFFF) {
        Some(v) => v,
        None => {
            return None;
        },
    };
    let blen = byte_len_at(s, fr[9].0, fr[9].1);
    assert((w as u128) * (h as u128) <= 0xFFFF_FFFF_u128 * 0xFFFF_FFFF_u128) by (nonlinear_arith)
        requires
            w <= 0xFFFF_FFFF,
            h <= 0xFFFF_FFFF,
    ;
    let want = (w as u128) * (h as u128) * 4;
    let blocks = match hex_chunks_at(s, fr[9].0, fr[9].1, 4, 0xFFFF, true) {
        Some(v) => v,
        None => {
            return None;
        },
    };
    if blen != want {
        return None;
    }
    let o = ClipObject {
        dx,
        dy,
        id: id as u8,
        settings: settings as u8,
        is_extended: ext != 0,
        extended_id: eid as u8,
        w: w as u32,
        h: h as u32,
        blocks,
    };
    proof {
        let bl = o.blocks@.map_values(|x: u16| x as nat);
        assert(bl.map_values(|b: nat| b as u16) =~= o.blocks@);
    }
    Some(o)
}

fn decode_sprite_at(s: &Vec<char>, a: usize, b: usize) -> (r: Option<ClipSprite>)
    requires
        a <= b <= s@.len(),
    ensures
        match r {
            Some(sp) => decode_sprite(s@.subrange(a as int, b as int)) == Some(sp),
            None => decode_sprite(s@.subrange(a as int, b as int)) is None,
        },
{
    let ghost item = s@.subrange(a as int, b as int);
    let ghost f = split(item, ',');
    let fr = split_ranges(s, a, b, ',');
    if fr.len() != 5 {
        return None;
    }
    assert(s@.subrange(fr@[0].0 as int, fr@[0].1 as int) == f[0]);
    if !(fr[0].1 - fr[0].0 == 1 && s[fr[0].0] == 's') {
        assert(f[0] != seq!['s']) by {
            if f[0] == seq!['s'] {
                assert(f[0].len() == 1);
                assert(f[0][0] == s@[fr@[0].0 as int]);
            }
        }
        return None;
    }
    assert(f[0] =~= seq!['s']);
    assert(s@.subrange(fr@[1].0 as int, fr@[1].1 as int) == f[1]);
    assert(s@.subrange(fr@[2].0 as int, fr@[2].1 as int) == f[2]);
    assert(s@.subrange(fr@[3].0 as int, fr@[3].1 as int) == f[3]);
    assert(s@.subrange(fr@[4].0 as int, fr@[4].1 as int) == f[4]);
    let dx = match parse_i32_trimmed_at(s, fr[1].0, fr[1].1) {
        Some(v) => v,
        None => {
            return None;
        },
    };
    let dy = match parse_i32_trimmed_at(s, fr[2].0, fr[2].1) {
        Some(v) => v,
        None => {
            return None;
        },
    };
    let sid = match parse_dec_at(s, fr[3].0, fr[3].1, 0xFF) {
        Some(v) => v,
        None => {
            return None;
        },
    };
    let eb = match parse_dec_at(s, fr[4].0, fr[4].1, 0xFF) {
        Some(v) => v,
        None => {
            return None;
        },
    };
    Some(ClipSprite { dx, dy, sprite_id: sid as u8, extra_bits: eb as u8 })
}

/// The `objects` payload in `s[lo..hi]`.
fn decode_objects(s: &Vec<char>, lo: usize, hi: usize) -> (r: Option<ClipboardPayload>)
    requires
        lo <= hi <= s@.len(),
    ensures
        match r {
            Some(p) => decode_objects_spec(s@.subrange(lo as int, hi as int)) == Some(p@),
            None => decode_objects_spec(s@.subrange(lo as int, hi as int)) is None,
        },
{
    let ghost rest = s@.subrange(lo as int, hi as int);
    let (oa, ob, sa, sb) = match find_in(s, lo, hi, '|') {
        Some(k) => {
            assert(rest.take(k - lo) =~= s@.subrange(lo as int, k as int));
            assert(rest.skip(k - lo + 1) =~= s@.subrange(k + 1, hi as int));
            (lo, k, k + 1, hi)
        },
        None => {
            assert(s@.subrange(hi as int, hi as int) =~= Seq::<char>::empty());
            (lo, hi, hi, hi)
        },
    };
    let ghost parts = match split_once(rest, '|') {
        Some(p) => p,
        None => (rest, Seq::<char>::empty()),
    };
    assert(parts.0 == s@.subrange(oa as int, ob as int));
    assert(parts.1 == s@.subrange(sa as int, sb as int));
    let mut objects: Vec<ClipObject> = Vec::new();
    if oa < ob {
        let items = split_ranges(s, oa, ob, ';');
        let ghost its = split(parts.0, ';');
        let mut i: usize = 0;
        while i < items.len()
            invariant
                0 <= i <= items@.len(),
                oa <= ob <= s@.len(),
                its == split(s@.subrange(oa as int, ob as int), ';'),
                oa < ob,
                decode_objects_list(s@.subrange(oa as int, ob as int)) is None
                    ==> decode_objects_spec(s@.subrange(lo as int, hi as int)) is None,
                items@.len() == its.len(),
                forall|k: int|
                    #![trigger items@[k]]
                    0 <= k < items@.len() ==> items@[k].0 <= items@[k].1 <= s@.len() && s@.subrange(
                        items@[k].0 as int,
                        items@[k].1 as int,
                    ) == its[k],
                objects@.len() == i,
                forall|k: int|
                    0 <= k < i ==> decode_object(#[trigger] its[k]) == Some(objects@[k]@),
            decreases items@.len() - i,
        {
            assert(s@.subrange(items@[i as int].0 as int, items@[i as int].1 as int) == its[i as int]);
            match decode_object_at(s, items[i].0, items[i].1) {
                Some(o) => {
                    objects.push(o);
                },
                None => {
                    assert(!(forall|k: int|
                        0 <= k < its.len() ==> (#[trigger] decode_object(its[k])) is Some));
                    assert(decode_objects_list(s@.subrange(oa as int, ob as int)) is None);
                    return None;
                },
            }
            i = i + 1;
        }
        assert(decode_objects_list(parts.0) == Some(objects@.map_values(|o: ClipObject| o@))) by {
            assert(forall|k: int|
                0 <= k < its.len() ==> (#[trigger] decode_object(its[k])) is Some);
            assert(Seq::new(its.len(), |k: int| decode_object(its[k])->0) =~= objects@.map_values(
                |o: ClipObject| o@,
            ));
        }
    } else {
        assert(objects@.map_values(|o: ClipObject| o@) =~= Seq::<ClipObjectView>::empty());
    }
    let mut sprites: Vec<ClipSprite> = Vec::new();
    if sa < sb {
        let items = split_ranges(s, sa, sb, ';');
        let ghost its = split(parts.1, ';');
        let mut i: usize = 0;
        while i < items.len()
            invariant
                0 <= i <= items@.len(),
                sa <= sb <= s@.len(),
                its == split(s@.subrange(sa as int, sb as int), ';'),
                sa < sb,
                decode_sprites_list(s@.subrange(sa as int, sb as int)) is None
                    ==> decode_objects_spec(s@.subrange(lo as int, hi as int)) is None,
                items@.len() == its.len(),
                forall|k: int|
                    #![trigger items@[k]]
                    0 <= k < items@.len() ==> items@[k].0 <= items@[k].1 <= s@.len() && s@.subrange(
                        items@[k].0 as int,
                        items@[k].1 as int,
                    ) == its[k],
                sprites@.len() == i,
                forall|k: int| 0 <= k < i ==> decode_sprite(#[trigger] its[k]) == Some(sprites@[k]),
            decreases items@.len() - i,
        {
            assert(s@.subrange(items@[i as int].0 as int, items@[i as int].1 as int) == its[i as int]);
            match decode_sprite_at(s, items[i].0, items[i].1) {
                Some(sp) => {
                    sprites.push(sp);
                },
                None => {
                    assert(!(forall|k: int|
                        0 <= k < its.len() ==> (#[trigger] decode_sprite(its[k])) is Some));
                    assert(decode_sprites_list(s@.subrange(sa as int, sb as int)) is None);
                    return None;
                },
            }
            i = i + 1;
        }
        assert(decode_sprites_list(parts.1) == Some(sprites@)) by {
            assert(forall|k: int|
                0 <= k < its.len() ==> (#[trigger] decode_sprite(its[k])) is Some);
            assert(Seq::new(its.len(), |k: int| decode_sprite(its[k])->0) =~= sprites@);
        }
    } else {
        assert(sprites@ =~= Seq::<ClipSprite>::empty());
    }
    if objects.len() == 0 && sprites.len() == 0 {
        return None;
    }
    Some(ClipboardPayload::LevelObjects { objects, sprites })
}

/// Every comma-separated item of `s[lo..hi]` as a trimmed hex `u16`.
fn hex16_list_at(s: &Vec<char>, lo: usize, hi: usize) -> (r: Option<Vec<u16>>)
    requires
        lo <= hi <= s@.len(),
    ensures
        match r {
            Some(v) => hex16_list(s@.subrange(lo as int, hi as int)) == Some(v@),
            None => hex16_list(s@.subrange(lo as int, hi as int)) is None,
        },
{
    let items = split_ranges(s, lo, hi, ',');
    let ghost its = split(s@.subrange(lo as int, hi as int), ',');
    let mut out: Vec<u16> = Vec::new();
    let mut i: usize = 0;
    while i < items.len()
        invariant
            0 <= i <= items@.len(),
            lo <= hi <= s@.len(),
            its == split(s@.subrange(lo as int, hi as int), ','),
            items@.len() == its.len(),
            forall|k: int|
                #![trigger items@[k]]
                0 <= k < items@.len() ==> items@[k].0 <= items@[k].1 <= s@.len() && s@.subrange(
                    items@[k].0 as int,
                    items@[k].1 as int,
                ) == its[k],
            out@.len() == i,
            forall|k: int| 0 <= k < i ==> hex16(#[trigger] its[k]) == Some(out@[k] as nat),
        decreases items@.len() - i,
    {
        assert(s@.subrange(items@[i as int].0 as int, items@[i as int].1 as int) == its[i as int]);
        match parse_hex_u16(s, items[i].0, items[i].1) {
            Some(v) => {
                out.push(v);
            },
            None => {
                assert(!(forall|k: int| 0 <= k < its.len() ==> (#[trigger] hex16(its[k])) is Some));
                return None;
            },
        }
        i = i + 1;
    }
    assert(forall|k: int| 0 <= k < its.len() ==> (#[trigger] hex16(its[k])) is Some);
    assert(Seq::new(its.len(), |k: int| hex16(its[k])->0 as u16) =~= out@);
    Some(out)
}

/// Every comma-separated item of `s[lo..hi]` as a trimmed decimal `u8`.
fn dec8_list_at(s: &Vec<char>, lo: usize, hi: usize) -> (r: Option<Vec<u8>>)
    requires
        lo <= hi <= s@.len(),
    ensures
        match r {
            Some(v) => dec8_list(s@.subrange(lo as int, hi as int)) == Some(v@),
            None => dec8_list(s@.subrange(lo as int, hi as int)) is None,
        },
{
    let items = split_ranges(s, lo, hi, ',');
    let ghost its = split(s@.subrange(lo as int, hi as int), ',');
    let mut out: Vec<u8> = Vec::new();
    let mut i: usize = 0;
    while i < items.len()
        invariant
            0 <= i <= items@.len(),
            lo <= hi <= s@.len(),
            its == split(s@.subrange(lo as int, hi as int), ','),
            items@.len() == its.len(),
            forall|k: int|
                #![trigger items@[k]]
                0 <= k < items@.len() ==> items@[k].0 <= items@[k].1 <= s@.len() && s@.subrange(
                    items@[k].0 as int,
                    items@[k].1 as int,
                ) == its[k],
            out@.len() == i,
            forall|k: int|
                0 <= k < i ==> parse_dec(#[trigger] its[k], 0xFF) == Some(out@[k] as nat),
        decreases items@.len() - i,
    {
        assert(s@.subrange(items@[i as int].0 as int, items@[i as int].1 as int) == its[i as int]);
        match parse_dec_at(s, items[i].0, items[i].1, 0xFF) {
            Some(v) => {
                out.push(v as u8);
            },
            None => {
                assert(!(forall|k: int|
                    0 <= k < its.len() ==> (#[trigger] parse_dec(its[k], 0xFF)) is Some));
                return None;
            },
        }
        i = i + 1;
    }
    assert(forall|k: int| 0 <= k < its.len() ==> (#[trigger] parse_dec(its[k], 0xFF)) is Some);
    assert(Seq::new(its.len(), |k: int| parse_dec(its[k], 0xFF)->0 as u8) =~= out@);
    Some(out)
}

/// `cols,rows:<list>` in `s[lo..hi]`: the dimensions and the list's range.
fn decode_grid_dims_at(s: &Vec<char>, lo: usize, hi: usize) -> (r: Option<(u32, u32, usize, usize)>)
    requires
        lo <= hi <= s@.len(),
    ensures
        match r {
            Some((c, w, a, b)) => a <= b <= hi && decode_grid_dims(
                s@.subrange(lo as int, hi as int),
            ) == Some((c as nat, w as nat, s@.subrange(a as int, b as int))),
            None => decode_grid_dims(s@.subrange(lo as int, hi as int)) is None,
        },
{
    let ghost rest = s@.subrange(lo as int, hi as int);
    let k = match find_in(s, lo, hi, ':') {
        Some(k) => k,
        None => {
            return None;
        },
    };
    assert(rest.take(k - lo) =~= s@.subrange(lo as int, k as int));
    assert(rest.skip(k - lo + 1) =~= s@.subrange(k + 1, hi as int));
    let ghost dims = s@.subrange(lo as int, k as int);
    let c = match find_in(s, lo, k, ',') {
        Some(c) => c,
        None => {
            return None;
        },
    };
    assert(dims.take(c - lo) =~= s@.subrange(lo as int, c as int));
    assert(dims.skip(c - lo + 1) =~= s@.subrange(c + 1, k as int));
    let cols = match parse_dec_at(s, lo, c, 0xFFFF_FFFF) {
        Some(v) => v,
        None => {
            return None;
        },
    };
    let rows = match parse_dec_at(s, c + 1, k, 0xFFFF_FFFF) {
        Some(v) => v,
        None => {
            return None;
        },
    };
    Some((cols as u32, rows as u32, k + 1, hi))
}

/// The `map16` payload in `s[lo..hi]`.
fn decode_map16(s: &Vec<char>, lo: usize, hi: usize) -> (r: Option<ClipboardPayload>)
    requires
        lo <= hi <= s@.len(),
    ensures
        match r {
            Some(p) => decode_map16_spec(s@.subrange(lo as int, hi as int)) == Some(p@),
            None => decode_map16_spec(s@.subrange(lo as int, hi as int)) is None,
        },
{
    let (cols, rows, a, b) = match decode_grid_dims_at(s, lo, hi) {
        Some(d) => d,
        None => {
            return None;
        },
    };
    let ids = match hex16_list_at(s, a, b) {
        Some(v) => v,
        None => {
            return None;
        },
    };
    assert((cols as u64) * (rows as u64) <= 0xFFFF_FFFF_u64 * 0xFFFF_FFFF_u64) by (nonlinear_arith);
    if ids.len() as u64 != (cols as u64) * (rows as u64) || ids.len() == 0 {
        return None;
    }
    Some(ClipboardPayload::Map16Blocks { cols, rows, ids })
}

/// The `map16words` payload in `s[lo..hi]`.
fn decode_map16words(s: &Vec<char>, lo: usize, hi: usize) -> (r: Option<ClipboardPayload>)
    requires
        lo <= hi <= s@.len(),
    ensures
        match r {
            Some(p) => decode_map16words_spec(s@.subrange(lo as int, hi as int)) == Some(p@),
            None => decode_map16words_spec(s@.subrange(lo as int, hi as int)) is None,
        },
{
    let words = match hex16_list_at(s, lo, hi) {
        Some(v) => v,
        None => {
            return None;
        },
    };
    if words.len() != 4 {
        return None;
    }
    let arr = [words[0], words[1], words[2], words[3]];
    assert(arr@ =~= words@);
    Some(ClipboardPayload::Map16BlockWords { words: arr })
}

/// The `tile8x8` payload in `s[lo..hi]`.
fn decode_tile8x8(s: &Vec<char>, lo: usize, hi: usize) -> (r: Option<ClipboardPayload>)
    requires
        lo <= hi <= s@.len(),
    ensures
        match r {
            Some(p) => decode_tile8x8_spec(s@.subrange(lo as int, hi as int)) == Some(p@),
            None => decode_tile8x8_spec(s@.subrange(lo as int, hi as int)) is None,
        },
{
    let ghost rest = s@.subrange(lo as int, hi as int);
    let k = match find_in(s, lo, hi, ':') {
        Some(k) => k,
        None => {
            return None;
        },
    };
    assert(rest.take(k - lo) =~= s@.subrange(lo as int, k as int));
    assert(rest.skip(k - lo + 1) =~= s@.subrange(k + 1, hi as int));
    let file = match parse_dec_at(s, lo, k, 0xFF) {
        Some(v) => v,
        None => {
            return None;
        },
    };
    if byte_len_at(s, k + 1, hi) != 128 {
        return None;
    }
    let px = match hex_chunks_at(s, k + 1, hi, 2, 0xFF, false) {
        Some(v) => v,
        None => {
            return None;
        },
    };
    proof {
        lemma_chunks_count(s@.subrange(k + 1, hi as int), 2, 0xFF, false);
    }
    let mut pixels = [0u8; 64];
    let mut i: usize = 0;
    while i < 64
        invariant
            0 <= i <= 64,
            px@.len() == 64,
            forall|j: int| 0 <= j < i ==> pixels@[j] == px@[j] as u8,
        decreases 64 - i,
    {
        pixels[i] = px[i] as u8;
        i = i + 1;
    }
    assert(pixels@ =~= px@.map_values(|x: u16| x as nat).map_values(|p: nat| p as u8));
    Some(ClipboardPayload::Tile8x8 { file: file as u8, pixels })
}

/// The `owtiles` payload in `s[lo..hi]`.
fn decode_owtiles(s: &Vec<char>, lo: usize, hi: usize) -> (r: Option<ClipboardPayload>)
    requires
        lo <= hi <= s@.len(),
    ensures
        match r {
            Some(p) => decode_owtiles_spec(s@.subrange(lo as int, hi as int)) == Some(p@),
            None => decode_owtiles_spec(s@.subrange(lo as int, hi as int)) is None,
        },
{
    let (cols, rows, a, b) = match decode_grid_dims_at(s, lo, hi) {
        Some(d) => d,
        None => {
            return None;
        },
    };
    let ids = match dec8_list_at(s, a, b) {
        Some(v) => v,
        None => {
            return None;
        },
    };
    assert((cols as u64) * (rows as u64) <= 0xFFFF_FFFF_u64 * 0xFFFF_FFFF_u64) by (nonlinear_arith);
    if ids.len() as u64 != (cols as u64) * (rows as u64) || ids.len() == 0 {
        return None;
    }
    Some(ClipboardPayload::OverworldTiles { cols, rows, ids })
}

/// Successful chunking of `s` into `n`-byte chunks covers exactly
/// `byte_len(s)` bytes, one chunk per value.
proof fn lemma_chunks_count(s: Seq<char>, n: nat, max: nat, trim_it: bool)
    ensures
        hex_chunks(s, n, max, trim_it) matches Some(v) ==> byte_len(s) == n * v.len(),
    decreases s.len(),
{
    if s.len() > 0 {
        if let Some(k) = chunk_len(s, n) {
            if 0 < k <= s.len() {
                lemma_chunk_bytes(s, n);
                lemma_byte_len_split(s, k);
                lemma_chunks_count(s.skip(k), n, max, trim_it);
                if let Some(v) = hex_chunks(s, n, max, trim_it) {
                    let rest = hex_chunks(s.skip(k), n, max, trim_it)->0;
                    assert(v.len() == rest.len() + 1);
                    assert(n * v.len() == n + n * rest.len()) by (nonlinear_arith)
                        requires
                            v.len() == rest.len() + 1,
                    ;
                }
            }
        }
    }
}

/// A chunk of `n` bytes is `n` bytes long.
proof fn lemma_chunk_bytes(s: Seq<char>, n: nat)
    ensures
        chunk_len(s, n) matches Some(k) ==> 0 <= k <= s.len() && byte_len(s.take(k)) == n,
    decreases s.len(),
{
    if n > 0 && s.len() > 0 && utf8_len(s[0]) <= n {
        lemma_chunk_bytes(s.drop_first(), (n - utf8_len(s[0])) as nat);
        if let Some(k) = chunk_len(s, n) {
            assert(s.take(k).drop_first() =~= s.drop_first().take(k - 1));
        }
    } else if n == 0 {
        assert(s.take(0) =~= Seq::<char>::empty());
    }
}

/// Byte length is additive over a split.
proof fn lemma_byte_len_split(s: Seq<char>, k: int)
    requires
        0 <= k <= s.len(),
    ensures
        byte_len(s) == byte_len(s.take(k)) + byte_len(s.skip(k)),
    decreases k,
{
    if k == 0 {
        assert(s.take(0) =~= Seq::<char>::empty());
        assert(s.skip(0) =~= s);
    } else {
        lemma_byte_len_split(s.drop_first(), k - 1);
        assert(s.take(k).drop_first() =~= s.drop_first().take(k - 1));
        assert(s.skip(k) =~= s.drop_first().skip(k - 1));
    }
}

/// The payload of kind `s[ka..kb]` with body `s[ra..rb]`.
fn decode_kind_at(s: &Vec<char>, ka: usize, kb: usize, ra: usize, rb: usize) -> (r: Option<
    ClipboardPayload,
>)
    requires
        ka <= kb <= s@.len(),
        ra <= rb <= s@.len(),
    ensures
        match r {
            Some(p) => decode_kind(
                s@.subrange(ka as int, kb as int),
                s@.subrange(ra as int, rb as int),
            ) == Some(p@),
            None => decode_kind(
                s@.subrange(ka as int, kb as int),
                s@.subrange(ra as int, rb as int),
            ) is None,
        },
{
    if range_eq(s, ka, kb, &kind_chars(0)) {
        decode_objects(s, ra, rb)
    } else if range_eq(s, ka, kb, &kind_chars(1)) {
        decode_map16(s, ra, rb)
    } else if range_eq(s, ka, kb, &kind_chars(2)) {
        decode_map16words(s, ra, rb)
    } else if range_eq(s, ka, kb, &kind_chars(3)) {
        decode_tile8x8(s, ra, rb)
    } else if range_eq(s, ka, kb, &kind_chars(4)) {
        decode_owtiles(s, ra, rb)
    } else {
        None
    }
}

/// The payload after `smwclip:` in `s[lo..hi]` (whose part before `lo`
/// was the magic): version, kind and body.
fn decode_after_magic(s: &Vec<char>, lo: usize, hi: usize) -> (r: Option<ClipboardPayload>)
    requires
        lo <= hi <= s@.len(),
    ensures
        ({
            let r1 = s@.subrange(lo as int, hi as int);
            let expected = match split_once(r1, ':') {
                None => None,
                Some((b, r2)) => {
                    if b != version() {
                        None
                    } else {
                        match split_once(r2, ':') {
                            Some((kind, rest)) => decode_kind(kind, rest),
                            None => decode_kind(r2, Seq::<char>::empty()),
                        }
                    }
                },
            };
            match r {
                Some(p) => expected == Some(p@),
                None => expected is None,
            }
        }),
{
    let ghost r1 = s@.subrange(lo as int, hi as int);
    let i2 = match find_in(s, lo, hi, ':') {
        Some(k) => k,
        None => {
            return None;
        },
    };
    assert(r1.take(i2 - lo) =~= s@.subrange(lo as int, i2 as int));
    assert(r1.skip(i2 - lo + 1) =~= s@.subrange(i2 + 1, hi as int));
    if !range_eq(s, lo, i2, &version_chars()) {
        return None;
    }
    let ghost r2 = s@.subrange(i2 + 1, hi as int);
    match find_in(s, i2 + 1, hi, ':') {
        Some(k) => {
            assert(r2.take(k - i2 - 1) =~= s@.subrange(i2 + 1, k as int));
            assert(r2.skip(k - i2) =~= s@.subrange(k + 1, hi as int));
            decode_kind_at(s, i2 + 1, k, k + 1, hi)
        },
        None => {
            assert(s@.subrange(hi as int, hi as int) =~= Seq::<char>::empty());
            decode_kind_at(s, i2 + 1, hi, hi, hi)
        },
    }
}

impl ClipboardPayload {
    /// Decode `smwclip:1:...` text back into a payload. Returns `None` for
    /// anything that isn't our format (including other apps' text).
    pub fn decode(text: &str) -> (r: Option<ClipboardPayload>)
        ensures
            match r {
                Some(p) => decode_text(text@) == Some(p@),
                None => decode_text(text@) is None,
            },
    {
        let s = chars_of(text);
        let (lo, hi) = trim_range(&s, 0, s.len());
        assert(s@.subrange(0, s@.len() as int) =~= text@);
        let ghost t = s@.subrange(lo as int, hi as int);
        let i1 = match find_in(&s, lo, hi, ':') {
            Some(k) => k,
            None => {
                return None;
            },
        };
        assert(t.take(i1 - lo) =~= s@.subrange(lo as int, i1 as int));
        assert(t.skip(i1 - lo + 1) =~= s@.subrange(i1 + 1, hi as int));
        if !range_eq(&s, lo, i1, &magic_chars()) {
            return None;
        }
        decode_after_magic(&s, i1 + 1, hi)
    }
}


// ---------------------------------------------------------------------------
// Decoding gives back what was encoded
// ---------------------------------------------------------------------------

/// A piece of payload text: free of whitespace and of the given separators.
pub open spec fn clean(s: Seq<char>) -> bool {
    &&& no_ws(s)
    &&& lacks(s, ':')
    &&& lacks(s, ',')
    &&& lacks(s, ';')
    &&& lacks(s, '|')
}

proof fn lemma_clean_concat(a: Seq<char>, b: Seq<char>)
    ensures
        no_ws(a) && no_ws(b) ==> no_ws(a + b),
        forall|c: char| lacks(a, c) && lacks(b, c) ==> #[trigger] lacks(a + b, c),
{
    assert(no_ws(a) && no_ws(b) ==> no_ws(a + b)) by {
        if no_ws(a) && no_ws(b) {
            assert forall|i: int| 0 <= i < (a + b).len() implies !is_ws(#[trigger] (a + b)[i]) by {
                if i < a.len() {
                    assert((a + b)[i] == a[i]);
                } else {
                    assert((a + b)[i] == b[i - a.len()]);
                }
            }
        }
    }
    assert forall|c: char| lacks(a, c) && lacks(b, c) implies #[trigger] lacks(a + b, c) by {
        assert forall|i: int| 0 <= i < (a + b).len() implies (a + b)[i] != c by {
            if i < a.len() {
                assert((a + b)[i] == a[i]);
            } else {
                assert((a + b)[i] == b[i - a.len()]);
            }
        }
    }
}

proof fn lemma_digits_clean(s: Seq<char>, radix: nat)
    requires
        all_digits(s, radix),
        radix <= 16,
    ensures
        clean(s),
{
    lemma_digits_lack(s, radix);
    lemma_digits_no_ws(s, radix);
}

proof fn lemma_dec_clean(n: nat)
    ensures
        clean(dec(n)),
        dec(n).len() > 0,
{
    lemma_dec(n);
    lemma_digits_clean(dec(n), 10);
}

proof fn lemma_dec_int_clean(n: int)
    ensures
        no_ws(dec_int(n)),
        lacks(dec_int(n), ':'),
        lacks(dec_int(n), ','),
        lacks(dec_int(n), ';'),
        lacks(dec_int(n), '|'),
{
    if n < 0 {
        lemma_dec_clean((-n) as nat);
        let m = seq!['-'];
        assert(('-' as u32) == 0x2D);
        assert(no_ws(m));
        lemma_clean_concat(m, dec((-n) as nat));
    } else {
        lemma_dec_clean(n as nat);
    }
}

/// Joins of clean pieces with a separator (itself one of `,` `;`) stay free
/// of the other separators and of whitespace.
proof fn lemma_join_clean(xs: Seq<Seq<char>>, d: char)
    requires
        d == ',' || d == ';',
        forall|i: int| 0 <= i < xs.len() ==> no_ws(#[trigger] xs[i]),
        forall|i: int| 0 <= i < xs.len() ==> lacks(#[trigger] xs[i], ':'),
        forall|i: int| 0 <= i < xs.len() ==> lacks(#[trigger] xs[i], '|'),
        forall|i: int| 0 <= i < xs.len() ==> lacks(#[trigger] xs[i], ';'),
    ensures
        no_ws(join(xs, d)),
        lacks(join(xs, d), ':'),
        lacks(join(xs, d), '|'),
        d == ',' ==> lacks(join(xs, d), ';'),
{
    assert(!is_ws(d));
    lemma_join_no_ws(xs, d);
    lemma_join_lacks(xs, d, ':');
    lemma_join_lacks(xs, d, '|');
    if d == ',' {
        lemma_join_lacks(xs, d, ';');
    }
}

proof fn lemma_object_fields(o: ClipObjectView)
    requires
        o.blocks.len() == o.w * o.h,
    ensures
        forall|i: int| 0 <= i < 10 ==> no_ws(#[trigger] object_fields(o)[i]),
        forall|i: int| 0 <= i < 10 ==> lacks(#[trigger] object_fields(o)[i], ':'),
        forall|i: int| 0 <= i < 10 ==> lacks(#[trigger] object_fields(o)[i], ','),
        forall|i: int| 0 <= i < 10 ==> lacks(#[trigger] object_fields(o)[i], ';'),
        forall|i: int| 0 <= i < 10 ==> lacks(#[trigger] object_fields(o)[i], '|'),
        decode_object(object_text(o)) == Some(o),
{
    let f = object_fields(o);
    let bl = o.blocks.map_values(|b: u16| b as nat);
    crate::text::lemma_pow16_small();
    lemma_hex_concat(bl, 4, 0xFFFF, true);
    lemma_digits_clean(f[9], 16);
    lemma_dec_int_clean(o.dx as int);
    lemma_dec_int_clean(o.dy as int);
    lemma_dec_clean(o.id as nat);
    lemma_dec_clean(o.settings as nat);
    lemma_dec_clean(bool_num(o.is_extended));
    lemma_dec_clean(o.extended_id as nat);
    lemma_dec_clean(o.w as nat);
    lemma_dec_clean(o.h as nat);
    assert(('o' as u32) == 0x6F);
    assert(clean(f[0]));
    assert forall|i: int| 0 <= i < 10 implies no_ws(#[trigger] f[i]) && lacks(f[i], ':') && lacks(
        f[i],
        ',',
    ) && lacks(f[i], ';') && lacks(f[i], '|') by {
        if i == 0 {
        } else if i == 1 {
        } else if i == 2 {
        } else if i == 3 {
        } else if i == 4 {
        } else if i == 5 {
        } else if i == 6 {
        } else if i == 7 {
        } else if i == 8 {
        } else {
        }
    }
    lemma_split_join(f, ',');
    lemma_parse_i32_of_dec(o.dx as int);
    lemma_parse_i32_of_dec(o.dy as int);
    lemma_parse_dec_of_dec(o.id as nat, 0xFF);
    lemma_parse_dec_of_dec(o.settings as nat, 0xFF);
    lemma_parse_dec_of_dec(bool_num(o.is_extended), 0xFF);
    lemma_parse_dec_of_dec(o.extended_id as nat, 0xFF);
    lemma_parse_dec_of_dec(o.w as nat, 0xFFFF_FFFF);
    lemma_parse_dec_of_dec(o.h as nat, 0xFFFF_FFFF);
    assert(bl.len() * 4 == o.w * o.h * 4) by (nonlinear_arith)
        requires
            bl.len() == o.w * o.h,
    ;
    assert(bl.map_values(|b: nat| b as u16) =~= o.blocks);
}

proof fn lemma_sprite_fields(sp: ClipSprite)
    ensures
        forall|i: int| 0 <= i < 5 ==> no_ws(#[trigger] sprite_fields(sp)[i]),
        forall|i: int| 0 <= i < 5 ==> lacks(#[trigger] sprite_fields(sp)[i], ':'),
        forall|i: int| 0 <= i < 5 ==> lacks(#[trigger] sprite_fields(sp)[i], ','),
        forall|i: int| 0 <= i < 5 ==> lacks(#[trigger] sprite_fields(sp)[i], ';'),
        forall|i: int| 0 <= i < 5 ==> lacks(#[trigger] sprite_fields(sp)[i], '|'),
        decode_sprite(sprite_text(sp)) == Some(sp),
{
    let f = sprite_fields(sp);
    lemma_dec_int_clean(sp.dx as int);
    lemma_dec_int_clean(sp.dy as int);
    lemma_dec_clean(sp.sprite_id as nat);
    lemma_dec_clean(sp.extra_bits as nat);
    assert(('s' as u32) == 0x73);
    assert(clean(f[0]));
    assert forall|i: int| 0 <= i < 5 implies no_ws(#[trigger] f[i]) && lacks(f[i], ':') && lacks(
        f[i],
        ',',
    ) && lacks(f[i], ';') && lacks(f[i], '|') by {
        if i == 0 {
        } else if i == 1 {
        } else if i == 2 {
        } else if i == 3 {
        } else {
        }
    }
    lemma_split_join(f, ',');
    lemma_parse_i32_of_dec(sp.dx as int);
    lemma_parse_i32_of_dec(sp.dy as int);
    lemma_parse_dec_of_dec(sp.sprite_id as nat, 0xFF);
    lemma_parse_dec_of_dec(sp.extra_bits as nat, 0xFF);
}

/// The text of a whole selection: no whitespace, no `|`, and each item
/// decodes back.
proof fn lemma_objects_part(objects: Seq<ClipObjectView>)
    requires
        forall|i: int|
            0 <= i < objects.len() ==> (#[trigger] objects[i]).blocks.len() == objects[i].w
                * objects[i].h,
    ensures
        no_ws(join(objects.map_values(|o: ClipObjectView| object_text(o)), ';')),
        lacks(join(objects.map_values(|o: ClipObjectView| object_text(o)), ';'), '|'),
        lacks(join(objects.map_values(|o: ClipObjectView| object_text(o)), ';'), ':'),
        decode_objects_list(join(objects.map_values(|o: ClipObjectView| object_text(o)), ';'))
            == Some(objects),
{
    let texts = objects.map_values(|o: ClipObjectView| object_text(o));
    assert forall|i: int| 0 <= i < texts.len() implies no_ws(#[trigger] texts[i]) && lacks(
        texts[i],
        ':',
    ) && lacks(texts[i], '|') && lacks(texts[i], ';') && decode_object(texts[i]) == Some(
        objects[i],
    ) && texts[i].len() > 0 by {
        let o = objects[i];
        lemma_object_fields(o);
        let f = object_fields(o);
        assert(f.len() == 10);
        lemma_join_clean(f, ',');
        assert(f[0].len() > 0);
        lemma_join_nonempty(f, ',');
    }
    lemma_join_clean(texts, ';');
    let j = join(texts, ';');
    if objects.len() == 0 {
        assert(j == Seq::<char>::empty());
        assert(objects =~= Seq::<ClipObjectView>::empty());
    } else {
        lemma_join_nonempty(texts, ';');
        lemma_split_join(texts, ';');
        assert(Seq::new(texts.len(), |i: int| decode_object(texts[i])->0) =~= objects);
    }
}

proof fn lemma_sprites_part(sprites: Seq<ClipSprite>)
    ensures
        no_ws(join(sprites.map_values(|s: ClipSprite| sprite_text(s)), ';')),
        decode_sprites_list(join(sprites.map_values(|s: ClipSprite| sprite_text(s)), ';'))
            == Some(sprites),
{
    let texts = sprites.map_values(|s: ClipSprite| sprite_text(s));
    assert forall|i: int| 0 <= i < texts.len() implies no_ws(#[trigger] texts[i]) && lacks(
        texts[i],
        ':',
    ) && lacks(texts[i], '|') && lacks(texts[i], ';') && decode_sprite(texts[i]) == Some(
        sprites[i],
    ) && texts[i].len() > 0 by {
        let sp = sprites[i];
        lemma_sprite_fields(sp);
        let f = sprite_fields(sp);
        assert(f.len() == 5);
        lemma_join_clean(f, ',');
        assert(f[0].len() > 0);
        lemma_join_nonempty(f, ',');
    }
    lemma_join_clean(texts, ';');
    let j = join(texts, ';');
    if sprites.len() == 0 {
        assert(j == Seq::<char>::empty());
        assert(sprites =~= Seq::<ClipSprite>::empty());
    } else {
        lemma_join_nonempty(texts, ';');
        lemma_split_join(texts, ';');
        assert(Seq::new(texts.len(), |i: int| decode_sprite(texts[i])->0) =~= sprites);
    }
}

/// The header splits off and the kind selects the body's grammar.
proof fn lemma_decode_header(kind: Seq<char>, body: Seq<char>)
    requires
        clean(kind),
        no_ws(body),
    ensures
        decode_text(header(kind) + body) == decode_kind(kind, body),
{
    let t = header(kind) + body;
    assert(('s' as u32) == 0x73 && ('m' as u32) == 0x6D && ('w' as u32) == 0x77 && ('c' as u32)
        == 0x63 && ('l' as u32) == 0x6C && ('i' as u32) == 0x69 && ('p' as u32) == 0x70);
    assert(clean(magic()));
    assert(clean(version()));
    assert(no_ws(seq![':']));
    lemma_clean_concat(magic(), seq![':']);
    lemma_clean_concat(magic() + seq![':'], version());
    lemma_clean_concat(magic() + seq![':'] + version(), seq![':']);
    lemma_clean_concat(magic() + seq![':'] + version() + seq![':'], kind);
    lemma_clean_concat(magic() + seq![':'] + version() + seq![':'] + kind, seq![':']);
    lemma_clean_concat(header(kind), body);
    lemma_trim_no_ws(t);
    let r2 = kind + seq![':'] + body;
    let r1 = version() + seq![':'] + r2;
    assert(t =~= magic() + seq![':'] + r1);
    lemma_split_once_concat(magic(), r1, ':');
    lemma_split_once_concat(version(), r2, ':');
    lemma_split_once_concat(kind, body, ':');
}

proof fn lemma_kinds_clean()
    ensures
        clean(kind_objects()),
        clean(kind_map16()),
        clean(kind_map16words()),
        clean(kind_tile8x8()),
        clean(kind_owtiles()),
        kind_map16() != kind_objects(),
        kind_map16words() != kind_objects(),
        kind_map16words() != kind_map16(),
        kind_tile8x8() != kind_objects(),
        kind_tile8x8() != kind_map16(),
        kind_tile8x8() != kind_map16words(),
        kind_owtiles() != kind_objects(),
        kind_owtiles() != kind_map16(),
        kind_owtiles() != kind_map16words(),
        kind_owtiles() != kind_tile8x8(),
{
    assert(kind_owtiles()[1] != kind_objects()[1]);
    assert(kind_tile8x8()[0] != kind_objects()[0]);
    assert(kind_owtiles()[0] != kind_tile8x8()[0]);
    assert(kind_map16().len() != kind_objects().len());
    assert(kind_map16words().len() != kind_objects().len());
    assert(kind_map16words().len() != kind_map16().len());
    assert(kind_tile8x8().len() != kind_map16().len());
    assert(kind_tile8x8().len() != kind_map16words().len());
    assert(kind_owtiles().len() != kind_map16().len());
    assert(kind_owtiles().len() != kind_map16words().len());
}

proof fn lemma_hex16_list(ids: Seq<u16>)
    requires
        ids.len() > 0,
    ensures
        hex16_list(join(hex16_texts(ids), ',')) == Some(ids),
        no_ws(join(hex16_texts(ids), ',')),
{
    let texts = hex16_texts(ids);
    crate::text::lemma_pow16_small();
    assert forall|i: int| 0 <= i < texts.len() implies clean(#[trigger] texts[i]) && hex16(texts[i])
        == Some(ids[i] as nat) by {
        lemma_hex_width(ids[i] as nat, 4);
        lemma_digits_clean(texts[i], 16);
        lemma_parse_hex_of_hex(ids[i] as nat, 4, 0xFFFF);
    }
    lemma_join_clean(texts, ',');
    lemma_split_join(texts, ',');
    assert(Seq::new(texts.len(), |i: int| hex16(texts[i])->0 as u16) =~= ids);
}

proof fn lemma_dec8_list(ids: Seq<u8>)
    requires
        ids.len() > 0,
    ensures
        dec8_list(join(dec8_texts(ids), ',')) == Some(ids),
        no_ws(join(dec8_texts(ids), ',')),
{
    let texts = dec8_texts(ids);
    assert forall|i: int| 0 <= i < texts.len() implies clean(#[trigger] texts[i]) && parse_dec(
        texts[i],
        0xFF,
    ) == Some(ids[i] as nat) by {
        lemma_dec_clean(ids[i] as nat);
        lemma_parse_dec_of_dec(ids[i] as nat, 0xFF);
    }
    lemma_join_clean(texts, ',');
    lemma_split_join(texts, ',');
    assert(Seq::new(texts.len(), |i: int| parse_dec(texts[i], 0xFF)->0 as u8) =~= ids);
}

/// `cols,rows:<list>` gives back its parts.
proof fn lemma_grid_dims(cols: u32, rows: u32, list: Seq<char>)
    requires
        no_ws(list),
    ensures
        decode_grid_dims(dec(cols as nat) + seq![','] + dec(rows as nat) + seq![':'] + list) == Some(
            (cols as nat, rows as nat, list),
        ),
        no_ws(dec(cols as nat) + seq![','] + dec(rows as nat) + seq![':'] + list),
{
    let dc = dec(cols as nat);
    let dr = dec(rows as nat);
    lemma_dec_clean(cols as nat);
    lemma_dec_clean(rows as nat);
    let dims = dc + seq![','] + dr;
    lemma_clean_concat(dc, seq![',']);
    lemma_clean_concat(dc + seq![','], dr);
    lemma_clean_concat(dims, seq![':']);
    lemma_clean_concat(dims + seq![':'], list);
    lemma_split_once_concat(dims, list, ':');
    lemma_split_once_concat(dc, dr, ',');
    lemma_parse_dec_of_dec(cols as nat, 0xFFFF_FFFF);
    lemma_parse_dec_of_dec(rows as nat, 0xFFFF_FFFF);
}

proof fn lemma_roundtrip_objects(objects: Seq<ClipObjectView>, sprites: Seq<ClipSprite>)
    requires
        payload_wf(PayloadView::LevelObjects { objects, sprites }),
    ensures
        decode_text(encode_text(PayloadView::LevelObjects { objects, sprites })) == Some(
            PayloadView::LevelObjects { objects, sprites },
        ),
{
    let p = PayloadView::LevelObjects { objects, sprites };
    lemma_kinds_clean();
    lemma_objects_part(objects);
    lemma_sprites_part(sprites);
    let j1 = join(objects.map_values(|o: ClipObjectView| object_text(o)), ';');
    let j2 = join(sprites.map_values(|s: ClipSprite| sprite_text(s)), ';');
    let body = j1 + seq!['|'] + j2;
    assert(no_ws(seq!['|']));
    lemma_clean_concat(j1, seq!['|']);
    lemma_clean_concat(j1 + seq!['|'], j2);
    lemma_decode_header(kind_objects(), body);
    lemma_split_once_concat(j1, j2, '|');
    assert(encode_text(p) =~= header(kind_objects()) + body);
}

proof fn lemma_roundtrip_map16(cols: u32, rows: u32, ids: Seq<u16>)
    requires
        payload_wf(PayloadView::Map16Blocks { cols, rows, ids }),
    ensures
        decode_text(encode_text(PayloadView::Map16Blocks { cols, rows, ids })) == Some(
            PayloadView::Map16Blocks { cols, rows, ids },
        ),
{
    let p = PayloadView::Map16Blocks { cols, rows, ids };
    lemma_kinds_clean();
    lemma_hex16_list(ids);
    let list = join(hex16_texts(ids), ',');
    lemma_grid_dims(cols, rows, list);
    let body = dec(cols as nat) + seq![','] + dec(rows as nat) + seq![':'] + list;
    lemma_decode_header(kind_map16(), body);
    assert(encode_text(p) =~= header(kind_map16()) + body);
}

proof fn lemma_roundtrip_map16words(words: Seq<u16>)
    requires
        payload_wf(PayloadView::Map16BlockWords { words }),
    ensures
        decode_text(encode_text(PayloadView::Map16BlockWords { words })) == Some(
            PayloadView::Map16BlockWords { words },
        ),
{
    let p = PayloadView::Map16BlockWords { words };
    lemma_kinds_clean();
    lemma_hex16_list(words);
    let body = join(hex16_texts(words), ',');
    lemma_decode_header(kind_map16words(), body);
    assert(encode_text(p) =~= header(kind_map16words()) + body);
}

proof fn lemma_roundtrip_tile8x8(file: u8, pixels: Seq<u8>)
    requires
        payload_wf(PayloadView::Tile8x8 { file, pixels }),
    ensures
        decode_text(encode_text(PayloadView::Tile8x8 { file, pixels })) == Some(
            PayloadView::Tile8x8 { file, pixels },
        ),
{
    let p = PayloadView::Tile8x8 { file, pixels };
    lemma_kinds_clean();
    let px = pixels.map_values(|v: u8| v as nat);
    crate::text::lemma_pow16_small();
    lemma_hex_concat(px, 2, 0xFF, false);
    let hex = hex_concat(px, 2);
    lemma_digits_clean(hex, 16);
    let df = dec(file as nat);
    lemma_dec_clean(file as nat);
    lemma_clean_concat(df, seq![':']);
    lemma_clean_concat(df + seq![':'], hex);
    let body = df + seq![':'] + hex;
    lemma_decode_header(kind_tile8x8(), body);
    lemma_split_once_concat(df, hex, ':');
    lemma_parse_dec_of_dec(file as nat, 0xFF);
    assert(px.map_values(|v: nat| v as u8) =~= pixels);
    assert(encode_text(p) =~= header(kind_tile8x8()) + body);
}

proof fn lemma_roundtrip_owtiles(cols: u32, rows: u32, ids: Seq<u8>)
    requires
        payload_wf(PayloadView::OverworldTiles { cols, rows, ids }),
    ensures
        decode_text(encode_text(PayloadView::OverworldTiles { cols, rows, ids })) == Some(
            PayloadView::OverworldTiles { cols, rows, ids },
        ),
{
    let p = PayloadView::OverworldTiles { cols, rows, ids };
    lemma_kinds_clean();
    lemma_dec8_list(ids);
    let list = join(dec8_texts(ids), ',');
    lemma_grid_dims(cols, rows, list);
    let body = dec(cols as nat) + seq![','] + dec(rows as nat) + seq![':'] + list;
    lemma_decode_header(kind_owtiles(), body);
    assert(encode_text(p) =~= header(kind_owtiles()) + body);
}

/// Decoding the text of a well-formed payload gives the payload back.
pub proof fn lemma_decode_encode(p: PayloadView)
    requires
        payload_wf(p),
    ensures
        decode_text(encode_text(p)) == Some(p),
{
    match p {
        PayloadView::LevelObjects { objects, sprites } => lemma_roundtrip_objects(objects, sprites),
        PayloadView::Map16Blocks { cols, rows, ids } => lemma_roundtrip_map16(cols, rows, ids),
        PayloadView::Map16BlockWords { words } => lemma_roundtrip_map16words(words),
        PayloadView::Tile8x8 { file, pixels } => lemma_roundtrip_tile8x8(file, pixels),
        PayloadView::OverworldTiles { cols, rows, ids } => lemma_roundtrip_owtiles(cols, rows, ids),
    }
}


// ---------------------------------------------------------------------------
// Paste placement
// ---------------------------------------------------------------------------

/// `x as i32` for a `u32` (two's-complement reinterpretation).
pub open spec fn u32_as_i32(x: u32) -> int {
    if x <= 0x7FFF_FFFF {
        x as int
    } else {
        x - 0x1_0000_0000
    }
}

/// `a.saturating_sub(b)`.
pub open spec fn sat_sub(a: u32, b: u32) -> int {
    if a >= b {
        a - b
    } else {
        0
    }
}

/// `v.clamp(lo, hi)` (for `lo <= hi`).
pub open spec fn clamp(v: int, lo: int, hi: int) -> int {
    if v < lo {
        lo
    } else if v > hi {
        hi
    } else {
        v
    }
}

/// Where one axis of a footprint lands: the anchor moved by the offset,
/// clamped so that `size` tiles fit in `extent`.
pub open spec fn place_axis(anchor: u32, d: i32, size: u32, extent: u32) -> int {
    clamp(u32_as_i32(anchor) + d, 0, sat_sub(extent, size))
}

fn place_axis_exec(anchor: u32, d: i32, size: u32, extent: u32) -> (r: u32)
    requires
        i32::MIN <= u32_as_i32(anchor) + d <= i32::MAX,
        sat_sub(extent, size) <= i32::MAX,
    ensures
        r == place_axis(anchor, d, size, extent),
{
    let a: i64 = if anchor <= 0x7FFF_FFFF {
        anchor as i64
    } else {
        anchor as i64 - 0x1_0000_0000
    };
    let v: i64 = a + d as i64;
    let hi: i64 = if extent >= size {
        (extent - size) as i64
    } else {
        0
    };
    let c: i64 = if v < 0 {
        0
    } else if v > hi {
        hi
    } else {
        v
    };
    c as u32
}

/// Paste-anchor math shared by the UI and headless tools: a
/// selection-relative `(dx, dy)` offset becomes absolute tile coords, clamped
/// so a `w×h` footprint stays inside a `(level_w, level_h)` tile area.
pub fn place_footprint(anchor: (u32, u32), dx: i32, dy: i32, w: u32, h: u32, level_w: u32, level_h: u32) -> (r: (u32, u32))
    requires
        i32::MIN <= u32_as_i32(anchor.0) + dx <= i32::MAX,
        i32::MIN <= u32_as_i32(anchor.1) + dy <= i32::MAX,
        sat_sub(level_w, w) <= i32::MAX,
        sat_sub(level_h, h) <= i32::MAX,
    ensures
        r.0 == place_axis(anchor.0, dx, w, level_w),
        r.1 == place_axis(anchor.1, dy, h, level_h),
{
    (place_axis_exec(anchor.0, dx, w, level_w), place_axis_exec(anchor.1, dy, h, level_h))
}

/// A placed footprint lies inside the level whenever it fits at all, and
/// an in-range target is kept exactly.
pub proof fn lemma_place_inside(anchor: u32, d: i32, size: u32, extent: u32)
    ensures
        0 <= place_axis(anchor, d, size, extent),
        size <= extent ==> place_axis(anchor, d, size, extent) + size <= extent,
        0 <= u32_as_i32(anchor) + d <= sat_sub(extent, size) ==> place_axis(anchor, d, size, extent)
            == u32_as_i32(anchor) + d,
{
}

/// Decoding ignores whitespace around the text: a text decodes as its
/// trimmed form does.
pub proof fn lemma_decode_ignores_surrounding_whitespace(text: Seq<char>)
    ensures
        decode_text(text) == decode_text(trim(text)),
{
    lemma_trim_idempotent(text);
}

} // verus!
