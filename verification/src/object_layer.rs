//! Editable level object layers and their byte encodings.
//!
//! - The vanilla layer-1/2 object stream: 3-byte object entries, a
//!   screen-jump entry or the entry's new-screen flag wherever the screen
//!   changes, 4-byte exit entries, and a closing `0xFF`.
//! - The undo snapshots of an object layer and of the Direct Map16 objects.
use vstd::prelude::*;
use crate::le_bytes::{byte_of, le16, le32, lemma_le16_of, lemma_le32_of, push_u16, push_u32, read_u16, read_u32, u16_le, u32_le};
use crate::text::{dec, push_dec, push_str};
use crate::undo::Undo;

verus! {

/// Width (horizontal levels) or height (vertical levels) of a screen, in
/// tiles.
pub const SCREEN_WIDTH: u32 = 16;

/// One editable vanilla object, at absolute level tile coordinates.
#[derive(Clone, Copy, Debug, Default, PartialEq, Eq)]
pub struct EditableObject {
    pub x: u32,
    pub y: u32,
    pub id: u8,
    pub settings: u8,
    pub is_extended: bool,
    pub extended_id: u8,
}

/// One screen exit of the object stream.
#[derive(Clone, Copy, Debug, Default, PartialEq, Eq)]
pub struct EditableExit {
    pub screen: u8,
    pub midway: bool,
    pub secondary: bool,
    pub id: u16,
}

/// A level's vanilla object layer: its objects in stream order and its
/// screen exits.
#[derive(Clone, Debug, Default, PartialEq, Eq)]
pub struct EditableObjectLayer {
    pub objects: Vec<EditableObject>,
    pub exits: Vec<EditableExit>,
}

/// The model of an [`EditableObjectLayer`].
pub struct ObjectLayerView {
    pub objects: Seq<EditableObject>,
    pub exits: Seq<EditableExit>,
}

impl View for EditableObjectLayer {
    type V = ObjectLayerView;

    open spec fn view(&self) -> ObjectLayerView {
        ObjectLayerView { objects: self.objects@, exits: self.exits@ }
    }
}

/// Why an object cannot be laid out in the object stream. `vertical` tells
/// which level orientation the coordinates were read for; the number is the
/// value that is out of range.
#[derive(Clone, Copy, Debug, PartialEq, Eq)]
pub enum LayoutError {
    /// The object's screen number does not fit in a byte.
    ScreenOutOfRange { vertical: bool, screen: u32 },
    /// The coordinate across the screens does not fit in a byte.
    RowOutOfRange { vertical: bool, value: u32 },
    /// The coordinate across the screens is above the stream's `0x1F`.
    RowOutOfRawRange { vertical: bool, value: u32 },
}

// ---------------------------------------------------------------------------
// Specification of the stream layout
// ---------------------------------------------------------------------------

/// The coordinate along the screens (`x` in horizontal levels, `y` in
/// vertical ones).
pub open spec fn along(o: EditableObject, vertical: bool) -> u32 {
    if vertical { o.y } else { o.x }
}

/// The coordinate across the screens.
pub open spec fn across(o: EditableObject, vertical: bool) -> u32 {
    if vertical { o.x } else { o.y }
}

/// (screen, raw local coordinate along, raw coordinate across) of an object
/// in the stream, or why it has none.
pub open spec fn coords_spec(o: EditableObject, vertical: bool) -> Result<(u8, u8, u8), LayoutError> {
    let a = along(o, vertical);
    let c = across(o, vertical);
    if a / 16 >= 256 {
        Err(LayoutError::ScreenOutOfRange { vertical, screen: a / 16 })
    } else if c >= 256 {
        Err(LayoutError::RowOutOfRange { vertical, value: c })
    } else if c > 0x1F {
        Err(LayoutError::RowOutOfRawRange { vertical, value: c })
    } else {
        Ok(((a / 16) as u8, (a % 16) as u8, c as u8))
    }
}

pub open spec fn flag_bit(b: bool) -> u8 {
    if b { 1 } else { 0 }
}

/// The 3 stream bytes of an object entry.
pub open spec fn raw_bytes_spec(o: EditableObject, new_screen: bool, raw_x: u8, raw_y: u8) -> Seq<u8> {
    if o.is_extended {
        seq![(flag_bit(new_screen) << 7u8) | (raw_y & 0x1F), raw_x & 0x0F, o.extended_id]
    } else {
        seq![
            (flag_bit(new_screen) << 7u8) | ((o.id & 0x30) << 1u8) | (raw_y & 0x1F),
            ((o.id & 0x0F) << 4u8) | (raw_x & 0x0F),
            o.settings,
        ]
    }
}

/// The 3 bytes of a screen-jump entry.
pub open spec fn jump_bytes_spec(screen: u8) -> Seq<u8> {
    seq![screen & 0x1F, 0, 1]
}

/// The 4 stream bytes of an exit entry.
pub open spec fn exit_bytes_spec(e: EditableExit) -> Seq<u8> {
    seq![
        e.screen & 0x1F,
        (flag_bit(e.midway) << 3u8) | (flag_bit(e.secondary) << 1u8) | (((e.id >> 8u16) as u8) & 0x3F),
        0,
        e.id as u8,
    ]
}

pub open spec fn sat_inc(s: u8) -> u8 {
    if s == 255 { 255 } else { (s + 1) as u8 }
}

/// The stream bytes of an object on screen `target` when the stream is on
/// screen `cur`: the next screen is reached by the new-screen flag, any other
/// change of screen by a screen-jump entry first.
pub open spec fn entry_bytes(o: EditableObject, target: u8, raw_x: u8, raw_y: u8, cur: u8) -> Seq<u8> {
    if target != cur {
        if target == sat_inc(cur) {
            raw_bytes_spec(o, true, raw_x, raw_y)
        } else {
            jump_bytes_spec(target) + raw_bytes_spec(o, false, raw_x, raw_y)
        }
    } else {
        raw_bytes_spec(o, false, raw_x, raw_y)
    }
}

/// The stream bytes of the first `n` objects and the screen the stream is
/// on after them, or the first layout error among them.
pub open spec fn stream_prefix(objs: Seq<EditableObject>, vertical: bool, n: nat) -> Result<(Seq<u8>, u8), LayoutError>
    decreases n,
{
    if n == 0 {
        Ok((Seq::empty(), 0u8))
    } else {
        match stream_prefix(objs, vertical, (n - 1) as nat) {
            Err(e) => Err(e),
            Ok((bytes, cur)) => match coords_spec(objs[n - 1], vertical) {
                Err(e) => Err(e),
                Ok((t, rx, ry)) => Ok((bytes + entry_bytes(objs[n - 1], t, rx, ry, cur), t)),
            },
        }
    }
}

/// The bytes of all exit entries, in order.
pub open spec fn exits_stream(exits: Seq<EditableExit>) -> Seq<u8>
    decreases exits.len(),
{
    if exits.len() == 0 {
        Seq::empty()
    } else {
        exits_stream(exits.drop_last()) + exit_bytes_spec(exits.last())
    }
}

/// The whole object stream of a layer: objects, exits, and the closing
/// `0xFF`; or the first object's layout error.
pub open spec fn layer_stream(l: ObjectLayerView, vertical: bool) -> Result<Seq<u8>, LayoutError> {
    match stream_prefix(l.objects, vertical, l.objects.len()) {
        Err(e) => Err(e),
        Ok((bytes, _)) => Ok(bytes + exits_stream(l.exits) + seq![0xFFu8]),
    }
}

/// The 3 bytes of object `index` as they stand in the stream, or `None` when
/// there is no such object or an object up to it cannot be laid out.
pub open spec fn stream_entry(objs: Seq<EditableObject>, vertical: bool, index: int) -> Option<Seq<u8>> {
    if 0 <= index < objs.len() {
        match stream_prefix(objs, vertical, index as nat) {
            Err(_) => None,
            Ok((_, cur)) => match coords_spec(objs[index], vertical) {
                Err(_) => None,
                Ok((t, rx, ry)) => Some(raw_bytes_spec(objs[index], t != cur && t == sat_inc(cur), rx, ry)),
            },
        }
    } else {
        None
    }
}

/// The error text of a layout error.
pub open spec fn layout_message(e: LayoutError) -> Seq<char> {
    match e {
        LayoutError::ScreenOutOfRange { vertical, screen } => (if vertical {
            "vertical object screen out of range: "@
        } else {
            "horizontal object screen out of range: "@
        }) + dec(screen as nat),
        LayoutError::RowOutOfRange { vertical, value } => (if vertical {
            "vertical object x out of range: "@
        } else {
            "horizontal object y out of range: "@
        }) + dec(value as nat),
        LayoutError::RowOutOfRawRange { vertical, value } => (if vertical {
            "vertical object x out of range for raw format: "@
        } else {
            "horizontal object y out of range for raw format: "@
        }) + dec(value as nat),
    }
}

// ---------------------------------------------------------------------------
// Stream encoding
// ---------------------------------------------------------------------------

impl LayoutError {
    /// The error text.
    pub fn message(&self) -> (s: String)
        ensures
            s@ == layout_message(*self),
    {
        let mut s = String::new();
        match *self {
            LayoutError::ScreenOutOfRange { vertical, screen } => {
                if vertical {
                    push_str(&mut s, "vertical object screen out of range: ");
                } else {
                    push_str(&mut s, "horizontal object screen out of range: ");
                }
                push_dec(&mut s, screen as u64);
            },
            LayoutError::RowOutOfRange { vertical, value } => {
                if vertical {
                    push_str(&mut s, "vertical object x out of range: ");
                } else {
                    push_str(&mut s, "horizontal object y out of range: ");
                }
                push_dec(&mut s, value as u64);
            },
            LayoutError::RowOutOfRawRange { vertical, value } => {
                if vertical {
                    push_str(&mut s, "vertical object x out of range for raw format: ");
                } else {
                    push_str(&mut s, "horizontal object y out of range for raw format: ");
                }
                push_dec(&mut s, value as u64);
            },
        }
        s
    }
}

fn flag_bit_exec(b: bool) -> (r: u8)
    ensures
        r == flag_bit(b),
{
    if b { 1 } else { 0 }
}

impl EditableObject {
    /// (screen, raw local coordinate along the screens, raw coordinate across
    /// them) of this object in the object stream.
    pub fn screen_and_local_coords(&self, vertical_level: bool) -> (r: Result<(u8, u8, u8), LayoutError>)
        ensures
            r == coords_spec(*self, vertical_level),
    {
        let (a, c) = if vertical_level { (self.y, self.x) } else { (self.x, self.y) };
        if a / SCREEN_WIDTH >= 256 {
            return Err(LayoutError::ScreenOutOfRange { vertical: vertical_level, screen: a / SCREEN_WIDTH });
        }
        if c >= 256 {
            return Err(LayoutError::RowOutOfRange { vertical: vertical_level, value: c });
        }
        if c > 0x1F {
            return Err(LayoutError::RowOutOfRawRange { vertical: vertical_level, value: c });
        }
        Ok(((a / SCREEN_WIDTH) as u8, (a % SCREEN_WIDTH) as u8, c as u8))
    }

    /// The 3 stream bytes of this object's entry.
    pub fn raw_bytes(&self, new_screen: bool, raw_x: u8, raw_y: u8) -> (r: [u8; 3])
        ensures
            r@ == raw_bytes_spec(*self, new_screen, raw_x, raw_y),
    {
        let ns = flag_bit_exec(new_screen);
        let r = if self.is_extended {
            [(ns << 7u8) | (raw_y & 0x1F), raw_x & 0x0F, self.extended_id]
        } else {
            [
                (ns << 7u8) | ((self.id & 0x30) << 1u8) | (raw_y & 0x1F),
                ((self.id & 0x0F) << 4u8) | (raw_x & 0x0F),
                self.settings,
            ]
        };
        assert(r@ =~= raw_bytes_spec(*self, new_screen, raw_x, raw_y));
        r
    }
}

impl EditableExit {
    /// The 4 stream bytes of this exit's entry.
    pub fn to_raw_bytes(self) -> (r: [u8; 4])
        ensures
            r@ == exit_bytes_spec(self),
    {
        let r = [
            self.screen & 0x1F,
            (flag_bit_exec(self.midway) << 3u8) | (flag_bit_exec(self.secondary) << 1u8) | (((self.id >> 8u16) as u8) & 0x3F),
            0,
            self.id as u8,
        ];
        assert(r@ =~= exit_bytes_spec(self));
        r
    }
}

/// The 3 bytes of a screen-jump entry to `screen`.
pub fn screen_jump_bytes(screen: u8) -> (r: [u8; 3])
    ensures
        r@ == jump_bytes_spec(screen),
{
    let r = [screen & 0x1F, 0, 1];
    assert(r@ =~= jump_bytes_spec(screen));
    r
}

fn sat_inc_exec(s: u8) -> (r: u8)
    ensures
        r == sat_inc(s),
{
    s.saturating_add(1)
}

fn extend3(bytes: &mut Vec<u8>, b: [u8; 3])
    ensures
        final(bytes)@ == old(bytes)@ + b@,
{
    bytes.push(b[0]);
    bytes.push(b[1]);
    bytes.push(b[2]);
    assert(final(bytes)@ =~= old(bytes)@ + b@);
}

fn extend4(bytes: &mut Vec<u8>, b: [u8; 4])
    ensures
        final(bytes)@ == old(bytes)@ + b@,
{
    bytes.push(b[0]);
    bytes.push(b[1]);
    bytes.push(b[2]);
    bytes.push(b[3]);
    assert(final(bytes)@ =~= old(bytes)@ + b@);
}

/// Once the stream of a prefix fails, the stream of every longer prefix
/// fails with the same error.
proof fn lemma_prefix_error_persists(objs: Seq<EditableObject>, vertical: bool, k: nat, n: nat, e: LayoutError)
    requires
        k <= n,
        stream_prefix(objs, vertical, k) == Err::<(Seq<u8>, u8), LayoutError>(e),
    ensures
        stream_prefix(objs, vertical, n) == Err::<(Seq<u8>, u8), LayoutError>(e),
    decreases n - k,
{
    if k < n {
        lemma_prefix_error_persists(objs, vertical, k, (n - 1) as nat, e);
    }
}

/// The screen the stream is on before object `index`.
pub open spec fn screen_before(objs: Seq<EditableObject>, vertical: bool, index: int) -> u8 {
    stream_prefix(objs, vertical, index as nat)->Ok_0.1
}

/// The screen of object `index`.
pub open spec fn screen_of(objs: Seq<EditableObject>, vertical: bool, index: int) -> u8 {
    coords_spec(objs[index], vertical)->Ok_0.0
}

/// Where the entry of object `index` starts in the stream: after the
/// entries of the objects before it and after its own screen-jump entry,
/// if it has one.
pub open spec fn entry_offset(objs: Seq<EditableObject>, vertical: bool, index: int) -> int {
    let pre = stream_prefix(objs, vertical, index as nat)->Ok_0.0;
    let cur = screen_before(objs, vertical, index);
    let t = screen_of(objs, vertical, index);
    pre.len() + if t != cur && t != sat_inc(cur) { 3int } else { 0int }
}

/// The stream of a shorter prefix is a prefix of the stream of a longer one.
proof fn lemma_prefix_grows(objs: Seq<EditableObject>, vertical: bool, k: nat, n: nat)
    requires
        k <= n,
        stream_prefix(objs, vertical, n) is Ok,
    ensures
        stream_prefix(objs, vertical, k) is Ok,
        stream_prefix(objs, vertical, k)->Ok_0.0.len() <= stream_prefix(objs, vertical, n)->Ok_0.0.len(),
        stream_prefix(objs, vertical, k)->Ok_0.0 =~= stream_prefix(objs, vertical, n)->Ok_0.0.subrange(
            0,
            stream_prefix(objs, vertical, k)->Ok_0.0.len() as int,
        ),
    decreases n - k,
{
    if k < n {
        lemma_prefix_grows(objs, vertical, k + 1, n);
        let a = stream_prefix(objs, vertical, k)->Ok_0.0;
        let b = stream_prefix(objs, vertical, k + 1)->Ok_0.0;
        let c = stream_prefix(objs, vertical, n)->Ok_0.0;
        assert(b.subrange(0, a.len() as int) =~= a);
        assert(c.subrange(0, a.len() as int) =~= b.subrange(0, a.len() as int));
    }
}

proof fn lemma_exits_stream_at(exits: Seq<EditableExit>, k: int)
    requires
        0 <= k < exits.len(),
    ensures
        exits_stream(exits).len() == 4 * exits.len(),
        exits_stream(exits).subrange(4 * k, 4 * k + 4) == exit_bytes_spec(exits[k]),
    decreases exits.len(),
{
    let n = exits.len() as int;
    let init = exits.drop_last();
    if k < n - 1 {
        lemma_exits_stream_at(init, k);
        assert(exits_stream(exits).subrange(4 * k, 4 * k + 4) =~= exits_stream(init).subrange(4 * k, 4 * k + 4));
    } else {
        if n > 1 {
            lemma_exits_stream_at(init, 0);
        }
        assert(exits_stream(init).len() == 4 * init.len());
        assert(exits_stream(exits).subrange(4 * k, 4 * k + 4) =~= exit_bytes_spec(exits[k]));
    }
}

/// The fields read back from an exit's stream bytes.
proof fn lemma_exit_bytes_read(e: EditableExit)
    ensures
        exit_bytes_spec(e).len() == 4,
        exit_bytes_spec(e)[0] == e.screen % 32,
        exit_bytes_spec(e)[2] == 0,
        exit_bytes_spec(e)[3] == e.id % 256,
        e.id < 0x200 ==> {
            let b1 = exit_bytes_spec(e)[1];
            &&& ((b1 & 8) != 0) == e.midway
            &&& ((b1 & 2) != 0) == e.secondary
            &&& b1 & 1 == e.id / 256
            &&& b1 & 0xF4 == 0
        },
        e.id < 0x100 ==> exit_bytes_spec(e)[1] == (if e.midway { 8u8 } else { 0u8 }) + (if e.secondary { 2u8 } else { 0u8 }),
        e.id < 0x100 ==> exit_word_spec(e) as int == (e.screen % 32) * 0x1000000 + (if e.midway { 0x80000int } else { 0 })
            + (if e.secondary { 0x20000int } else { 0 }) + e.id,
{
    let m = flag_bit(e.midway);
    let sc = flag_bit(e.secondary);
    let id = e.id;
    let screen = e.screen;
    let b1 = (m << 3u8) | (sc << 1u8) | (((id >> 8u16) as u8) & 0x3F);
    assert(screen & 0x1F == screen % 32 && (id as u8) == id % 256) by (bit_vector);
    assert(id < 0x200 ==> (((b1 & 8) != 0) == (m == 1) && ((b1 & 2) != 0) == (sc == 1) && b1 & 1 == id / 256
        && b1 & 0xF4 == 0)) by (bit_vector)
        requires
            m <= 1,
            sc <= 1,
            b1 == (m << 3u8) | (sc << 1u8) | (((id >> 8u16) as u8) & 0x3F),
    ;
    assert(id < 0x100 ==> b1 == m * 8 + sc * 2) by (bit_vector)
        requires
            m <= 1,
            sc <= 1,
            b1 == (m << 3u8) | (sc << 1u8) | (((id >> 8u16) as u8) & 0x3F),
    ;
    let w = (((screen as u32) & 0x1F) << 24u32) | ((m as u32) << 19u32) | ((sc as u32) << 17u32) | ((id as u32)
        & 0x3FFF);
    assert(id < 0x100 ==> w as int == (screen % 32) * 0x1000000 + m * 0x80000 + sc * 0x20000 + id) by (bit_vector)
        requires
            m <= 1,
            sc <= 1,
            w == (((screen as u32) & 0x1F) << 24u32) | ((m as u32) << 19u32) | ((sc as u32) << 17u32) | ((id
                as u32) & 0x3FFF),
    ;
}

/// In a saved object stream, exit `k` of `n` stands in the 4 bytes at
/// `len - 1 - 4 * (n - k)`, before the later exits and the closing `0xFF`.
/// Read back, those bytes give the exit: byte 0 the screen (low 5 bits),
/// byte 2 zero, byte 3 the low byte of the level number; for a level
/// number below 0x200, byte 1 holds the midway flag in bit 3, the
/// secondary-exit flag in bit 1 and bit 8 of the level number in bit 0;
/// for one below 0x100 the 4 bytes, read big-endian, are the exit's raw
/// object word: `(screen & 0x1F) << 24 | midway << 19 | secondary << 17 | id`.
pub proof fn lemma_exit_entries_in_stream(l: ObjectLayerView, vertical: bool, k: int)
    requires
        layer_stream(l, vertical) is Ok,
        0 <= k < l.exits.len(),
    ensures
        ({
            let s = layer_stream(l, vertical)->Ok_0;
            let p = s.len() - 1 - 4 * (l.exits.len() - k);
            let e = l.exits[k];
            &&& s[s.len() - 1] == 0xFF
            &&& 0 <= p
            &&& s[p] == e.screen % 32
            &&& s[p + 2] == 0
            &&& s[p + 3] == e.id % 256
            &&& e.id < 0x200 ==> {
                &&& ((s[p + 1] & 8) != 0) == e.midway
                &&& ((s[p + 1] & 2) != 0) == e.secondary
                &&& s[p + 1] & 1 == e.id / 256
                &&& s[p + 1] & 0xF4 == 0
            }
            &&& e.id < 0x100 ==> s[p] * 0x1000000 + s[p + 1] * 0x10000 + s[p + 2] * 0x100 + s[p + 3] == (e.screen
                % 32) * 0x1000000 + (if e.midway { 0x80000int } else { 0 }) + (if e.secondary { 0x20000int } else { 0 })
                + e.id
            &&& e.id < 0x100 ==> s[p] * 0x1000000 + s[p + 1] * 0x10000 + s[p + 2] * 0x100 + s[p + 3]
                == exit_word_spec(e) as int
        }),
{
    let objs = l.objects;
    let pre = stream_prefix(objs, vertical, objs.len())->Ok_0.0;
    let ex = exits_stream(l.exits);
    let s = layer_stream(l, vertical)->Ok_0;
    assert(s == pre + ex + seq![0xFFu8]);
    lemma_exits_stream_at(l.exits, k);
    lemma_exit_bytes_read(l.exits[k]);
    let p = s.len() - 1 - 4 * (l.exits.len() - k);
    assert(p == pre.len() + 4 * k);
    let b = exit_bytes_spec(l.exits[k]);
    assert(s.subrange(p, p + 4) =~= ex.subrange(4 * k, 4 * k + 4));
    assert(s[p] == b[0] && s[p + 1] == b[1] && s[p + 2] == b[2] && s[p + 3] == b[3]) by {
        assert(s.subrange(p, p + 4)[0] == s[p]);
        assert(s.subrange(p, p + 4)[1] == s[p + 1]);
        assert(s.subrange(p, p + 4)[2] == s[p + 2]);
        assert(s.subrange(p, p + 4)[3] == s[p + 3]);
    }
}

/// The fields read back from an object entry's 3 bytes.
proof fn lemma_raw_bytes_read(o: EditableObject, ns: bool, rx: u8, ry: u8)
    requires
        rx < 16,
        ry < 32,
    ensures
        ({
            let b = raw_bytes_spec(o, ns, rx, ry);
            &&& b.len() == 3
            &&& b[0] & 0x1F == ry
            &&& b[1] & 0x0F == rx
            &&& (b[0] >= 0x80) == ns
            &&& !o.is_extended ==> b[2] == o.settings && ((b[0] >> 5u8) & 3) * 16 + (b[1] >> 4u8) == o.id % 64
            &&& o.is_extended ==> b[2] == o.extended_id && (b[0] >> 5u8) & 3 == 0 && b[1] >> 4u8 == 0
        }),
{
    let f = flag_bit(ns);
    let id = o.id;
    let b0v = (f << 7u8) | ((id & 0x30) << 1u8) | (ry & 0x1F);
    let b1v = ((id & 0x0F) << 4u8) | (rx & 0x0F);
    assert(b0v & 0x1F == ry && (b0v >= 0x80) == (f == 1) && b1v & 0x0F == rx && ((b0v >> 5u8) & 3) * 16 + (b1v
        >> 4u8) == id % 64) by (bit_vector)
        requires
            f <= 1,
            rx < 16,
            ry < 32,
            b0v == (f << 7u8) | ((id & 0x30) << 1u8) | (ry & 0x1F),
            b1v == ((id & 0x0F) << 4u8) | (rx & 0x0F),
    ;
    let e0 = (f << 7u8) | (ry & 0x1F);
    let e1 = rx & 0x0F;
    assert(e0 & 0x1F == ry && (e0 >= 0x80) == (f == 1) && e1 & 0x0F == rx && (e0 >> 5u8) & 3 == 0 && e1 >> 4u8
        == 0) by (bit_vector)
        requires
            f <= 1,
            rx < 16,
            ry < 32,
            e0 == (f << 7u8) | (ry & 0x1F),
            e1 == rx & 0x0F,
    ;
}

/// The screen the stream is on after the first `index` objects: that of
/// the last of them, or 0.
proof fn lemma_screen_before(objs: Seq<EditableObject>, vertical: bool, index: int)
    requires
        0 <= index,
        stream_prefix(objs, vertical, index as nat) is Ok,
    ensures
        screen_before(objs, vertical, index) == (if index == 0 {
            0
        } else {
            along(objs[index - 1], vertical) / 16
        }),
{
    if index > 0 {
        let p = stream_prefix(objs, vertical, (index - 1) as nat);
        assert(p is Ok);
    }
}

/// In a saved object stream, object `index` stands at `entry_offset` as 3
/// bytes that read back as the object: the low 5 bits of byte 0 are its
/// coordinate across the screens, the low 4 bits of byte 1 its position
/// within its screen; the new-screen flag (bit 7 of byte 0) is set exactly
/// when its screen is the one after the previous object's (the first
/// object's previous screen is 0); a vanilla object's id is bits 5-6 of
/// byte 0 and the high nibble of byte 1, and byte 2 its settings; an
/// extended object has those id bits clear and its extended id in byte 2.
/// When its screen is neither the previous one nor the next, a screen-jump
/// entry `[screen & 0x1F, 0, 1]` stands just before it.
pub proof fn lemma_object_entries_in_stream(l: ObjectLayerView, vertical: bool, index: int)
    requires
        layer_stream(l, vertical) is Ok,
        0 <= index < l.objects.len(),
    ensures
        ({
            let s = layer_stream(l, vertical)->Ok_0;
            let off = entry_offset(l.objects, vertical, index);
            let o = l.objects[index];
            let t = along(o, vertical) / 16;
            let prev = if index == 0 { 0 } else { along(l.objects[index - 1], vertical) / 16 };
            &&& 0 <= off && off + 3 <= s.len()
            &&& s[off] & 0x1F == across(o, vertical)
            &&& s[off + 1] & 0x0F == along(o, vertical) % 16
            &&& (s[off] >= 0x80) == (t == prev + 1)
            &&& !o.is_extended ==> s[off + 2] == o.settings && ((s[off] >> 5u8) & 3) * 16 + (s[off + 1] >> 4u8)
                == o.id % 64
            &&& o.is_extended ==> s[off + 2] == o.extended_id && (s[off] >> 5u8) & 3 == 0 && s[off + 1] >> 4u8 == 0
            &&& t != prev && t != prev + 1 ==> off >= 3 && s[off - 3] == t % 32 && s[off - 2] == 0 && s[off - 1] == 1
        }),
{
    let objs = l.objects;
    let n = objs.len();
    lemma_stream_entry_in_stream(l, vertical, index);
    lemma_prefix_grows(objs, vertical, (index + 1) as nat, n);
    lemma_prefix_grows(objs, vertical, index as nat, n);
    lemma_screen_before(objs, vertical, index);
    let s = layer_stream(l, vertical)->Ok_0;
    let off = entry_offset(objs, vertical, index);
    let o = objs[index];
    let pre = stream_prefix(objs, vertical, index as nat)->Ok_0.0;
    let cur = stream_prefix(objs, vertical, index as nat)->Ok_0.1;
    let next = stream_prefix(objs, vertical, (index + 1) as nat)->Ok_0.0;
    let all = stream_prefix(objs, vertical, n)->Ok_0.0;
    assert(objs[(index + 1) - 1] == o);
    let (t8, rx, ry) = coords_spec(o, vertical)->Ok_0;
    assert(t8 as int == along(o, vertical) / 16);
    let flag = t8 != cur && t8 == sat_inc(cur);
    lemma_raw_bytes_read(o, flag, rx, ry);
    let b = raw_bytes_spec(o, flag, rx, ry);
    assert(s.subrange(off, off + 3) == b);
    assert(s[off] == b[0] && s[off + 1] == b[1] && s[off + 2] == b[2]) by {
        assert(s.subrange(off, off + 3)[0] == s[off]);
        assert(s.subrange(off, off + 3)[1] == s[off + 1]);
        assert(s.subrange(off, off + 3)[2] == s[off + 2]);
    }
    assert(flag == (t8 == cur + 1));
    if t8 != cur && t8 != sat_inc(cur) {
        assert(next == pre + jump_bytes_spec(t8) + raw_bytes_spec(o, false, rx, ry));
        assert(s == all + exits_stream(l.exits) + seq![0xFFu8]);
        assert(s[off - 3] == next[pre.len() as int]);
        assert(s[off - 2] == next[pre.len() as int + 1]);
        assert(s[off - 1] == next[pre.len() as int + 2]);
        assert(t8 & 0x1F == t8 % 32) by (bit_vector);
    }
}

/// An exit's own 4 bytes (`to_raw_bytes`), read back, give the exit: the
/// screen's low 5 bits, zero, the level number's low byte; below level
/// 0x200 the midway flag in bit 3 and the secondary-exit flag in bit 1 of
/// byte 1, with bit 8 of the level number in bit 0.
pub proof fn lemma_exit_bytes_read_back(e: EditableExit)
    ensures
        exit_bytes_spec(e).len() == 4,
        exit_bytes_spec(e)[0] == e.screen % 32,
        exit_bytes_spec(e)[2] == 0,
        exit_bytes_spec(e)[3] == e.id % 256,
        e.id < 0x200 ==> {
            let b1 = exit_bytes_spec(e)[1];
            &&& ((b1 & 8) != 0) == e.midway
            &&& ((b1 & 2) != 0) == e.secondary
            &&& b1 & 1 == e.id / 256
            &&& b1 & 0xF4 == 0
        },
        e.id < 0x100 ==> exit_word_spec(e) as int == (e.screen % 32) * 0x1000000 + (if e.midway { 0x80000int } else {
            0
        }) + (if e.secondary { 0x20000int } else { 0 }) + e.id,
{
    lemma_exit_bytes_read(e);
}

/// The bytes that `stream_bytes_for_index` gives for an object are the
/// bytes of that object's entry in the serialized stream, at
/// `entry_offset`.
pub proof fn lemma_stream_entry_in_stream(l: ObjectLayerView, vertical: bool, index: int)
    requires
        0 <= index < l.objects.len(),
        layer_stream(l, vertical) is Ok,
    ensures
        stream_entry(l.objects, vertical, index) is Some,
        0 <= entry_offset(l.objects, vertical, index),
        entry_offset(l.objects, vertical, index) + 3 <= layer_stream(l, vertical)->Ok_0.len(),
        layer_stream(l, vertical)->Ok_0.subrange(
            entry_offset(l.objects, vertical, index),
            entry_offset(l.objects, vertical, index) + 3,
        ) == stream_entry(l.objects, vertical, index)->Some_0,
{
    let objs = l.objects;
    let n = objs.len();
    lemma_prefix_grows(objs, vertical, (index + 1) as nat, n);
    lemma_prefix_grows(objs, vertical, index as nat, n);
    let pre = stream_prefix(objs, vertical, index as nat)->Ok_0.0;
    let cur = stream_prefix(objs, vertical, index as nat)->Ok_0.1;
    let next = stream_prefix(objs, vertical, (index + 1) as nat)->Ok_0.0;
    let all = stream_prefix(objs, vertical, n)->Ok_0.0;
    let o = objs[index];
    let (t, rx, ry) = coords_spec(o, vertical)->Ok_0;
    assert(objs[(index + 1) - 1] == o);
    assert(next == pre + entry_bytes(o, t, rx, ry, cur));
    let off = entry_offset(objs, vertical, index);
    let stream = layer_stream(l, vertical)->Ok_0;
    assert(stream == all + exits_stream(l.exits) + seq![0xFFu8]);
    assert(stream.subrange(off, off + 3) =~= next.subrange(off, off + 3));
    if t != cur && t != sat_inc(cur) {
        assert(next.subrange(off, off + 3) =~= raw_bytes_spec(o, false, rx, ry));
    } else if t != cur {
        assert(next.subrange(off, off + 3) =~= raw_bytes_spec(o, true, rx, ry));
    } else {
        assert(next.subrange(off, off + 3) =~= raw_bytes_spec(o, false, rx, ry));
    }
}

/// The raw 32-bit object word of an object entry (the value the ROM's object
/// parser reads as big-endian bits: new-screen flag, id bits, row, column,
/// settings).
pub open spec fn object_word_spec(o: EditableObject, new_screen: bool) -> u32 {
    if o.is_extended {
        ((flag_bit(new_screen) as u32) << 31u32) | ((o.y & 0x1F) << 24u32) | ((o.x & 0x0F) << 16u32)
            | (o.extended_id as u32)
    } else {
        ((flag_bit(new_screen) as u32) << 31u32) | (((o.id as u32) & 0x30) << 30u32) | (((o.id as u32) & 0x0F)
            << 20u32) | ((o.y & 0x1F) << 24u32) | ((o.x & 0x0F) << 16u32) | (o.settings as u32)
    }
}

/// The raw 32-bit object word of an exit entry.
pub open spec fn exit_word_spec(e: EditableExit) -> u32 {
    (((e.screen as u32) & 0x1F) << 24u32) | ((flag_bit(e.midway) as u32) << 19u32) | ((flag_bit(e.secondary) as u32)
        << 17u32) | ((e.id as u32) & 0x3FFF)
}

impl EditableObject {
    /// The raw 32-bit object word of this object's entry.
    pub fn to_raw(self, new_screen: bool) -> (r: u32)
        ensures
            r == object_word_spec(self, new_screen),
    {
        let ns = flag_bit_exec(new_screen) as u32;
        if self.is_extended {
            (ns << 31u32) | ((self.y & 0x1F) << 24u32) | ((self.x & 0x0F) << 16u32) | (self.extended_id as u32)
        } else {
            (ns << 31u32) | (((self.id as u32) & 0x30) << 30u32) | (((self.id as u32) & 0x0F) << 20u32) | ((self.y
                & 0x1F) << 24u32) | ((self.x & 0x0F) << 16u32) | (self.settings as u32)
        }
    }
}

impl EditableExit {
    /// The raw 32-bit object word of this exit's entry.
    pub fn to_raw(self) -> (r: u32)
        ensures
            r == exit_word_spec(self),
    {
        (((self.screen as u32) & 0x1F) << 24u32) | ((flag_bit_exec(self.midway) as u32) << 19u32) | ((flag_bit_exec(
            self.secondary,
        ) as u32) << 17u32) | ((self.id as u32) & 0x3FFF)
    }
}

impl EditableObjectLayer {
    /// The layer's object stream: objects with screen changes, exits, and
    /// the closing `0xFF`; the first object that cannot be laid out makes it
    /// fail.
    pub fn serialize_layer1_bytes(&self, vertical_level: bool) -> (r: Result<Vec<u8>, LayoutError>)
        ensures
            match r {
                Ok(bytes) => layer_stream(self@, vertical_level) == Ok::<Seq<u8>, LayoutError>(bytes@),
                Err(e) => layer_stream(self@, vertical_level) == Err::<Seq<u8>, LayoutError>(e),
            },
    {
        let mut bytes: Vec<u8> = Vec::new();
        let mut current_screen: u8 = 0;
        let n = self.objects.len();
        let mut i: usize = 0;
        while i < n
            invariant
                n == self.objects.len(),
                i <= n,
                stream_prefix(self.objects@, vertical_level, i as nat) == Ok::<(Seq<u8>, u8), LayoutError>(
                    (bytes@, current_screen),
                ),
            decreases n - i,
        {
            let obj = self.objects[i];
            let (target_screen, raw_x, raw_y) = match obj.screen_and_local_coords(vertical_level) {
                Ok(t) => t,
                Err(e) => {
                    proof {
                        lemma_prefix_error_persists(self.objects@, vertical_level, (i + 1) as nat, n as nat, e);
                    }
                    return Err(e);
                },
            };
            let ghost before = bytes@;
            if target_screen != current_screen {
                if target_screen == sat_inc_exec(current_screen) {
                    current_screen = target_screen;
                    extend3(&mut bytes, obj.raw_bytes(true, raw_x, raw_y));
                } else {
                    extend3(&mut bytes, screen_jump_bytes(target_screen));
                    current_screen = target_screen;
                    extend3(&mut bytes, obj.raw_bytes(false, raw_x, raw_y));
                }
            } else {
                extend3(&mut bytes, obj.raw_bytes(false, raw_x, raw_y));
            }
            proof {
                assert(self.objects@[(i + 1) - 1] == obj);
                assert(bytes@ =~= before + entry_bytes(obj, target_screen, raw_x, raw_y, stream_prefix(
                    self.objects@,
                    vertical_level,
                    i as nat,
                ).unwrap().1));
            }
            i = i + 1;
        }
        let m = self.exits.len();
        let ghost obj_bytes = bytes@;
        let mut j: usize = 0;
        while j < m
            invariant
                m == self.exits.len(),
                j <= m,
                bytes@ == obj_bytes + exits_stream(self.exits@.subrange(0, j as int)),
            decreases m - j,
        {
            extend4(&mut bytes, self.exits[j].to_raw_bytes());
            proof {
                let s = self.exits@.subrange(0, j + 1);
                assert(s.drop_last() =~= self.exits@.subrange(0, j as int));
            }
            j = j + 1;
        }
        bytes.push(0xFF);
        proof {
            assert(self.exits@.subrange(0, m as int) =~= self.exits@);
            assert(bytes@ =~= obj_bytes + exits_stream(self.exits@) + seq![0xFFu8]);
        }
        Ok(bytes)
    }

    /// The 3 stream bytes of the object at `index`, with the new-screen flag
    /// as the stream tracks it; `None` when there is no such object or an
    /// object up to it cannot be laid out.
    pub fn stream_bytes_for_index(&self, index: usize, vertical_level: bool) -> (r: Option<[u8; 3]>)
        ensures
            match r {
                Some(b) => stream_entry(self.objects@, vertical_level, index as int) == Some(b@),
                None => stream_entry(self.objects@, vertical_level, index as int) is None,
            },
    {
        if index >= self.objects.len() {
            return None;
        }
        let mut current_screen: u8 = 0;
        let mut i: usize = 0;
        while i < index
            invariant
                index < self.objects.len(),
                i <= index,
                stream_prefix(self.objects@, vertical_level, i as nat) matches Ok((_, c)) && c == current_screen,
            decreases index - i,
        {
            match self.objects[i].screen_and_local_coords(vertical_level) {
                Ok((target_screen, _, _)) => {
                    current_screen = target_screen;
                },
                Err(e) => {
                    proof {
                        lemma_prefix_error_persists(self.objects@, vertical_level, (i + 1) as nat, index as nat, e);
                    }
                    return None;
                },
            }
            i = i + 1;
        }
        let o = self.objects[index];
        match o.screen_and_local_coords(vertical_level) {
            Ok((target_screen, raw_x, raw_y)) => {
                let new_screen = target_screen != current_screen && target_screen == sat_inc_exec(current_screen);
                Some(o.raw_bytes(new_screen, raw_x, raw_y))
            },
            Err(_) => None,
        }
    }
}

// ---------------------------------------------------------------------------
// Undo snapshots of an object layer
// ---------------------------------------------------------------------------

/// Byte `j` (0..12) of an object's snapshot record: `x` and `y` as
/// little-endian `u32`, then id, settings, extended flag and extended id.
pub open spec fn object_record_byte(o: EditableObject, j: int) -> u8 {
    if j < 4 {
        byte_of(o.x as int, j)
    } else if j < 8 {
        byte_of(o.y as int, j - 4)
    } else if j == 8 {
        o.id
    } else if j == 9 {
        o.settings
    } else if j == 10 {
        flag_bit(o.is_extended)
    } else {
        o.extended_id
    }
}

/// Byte `j` (0..5) of an exit's snapshot record: screen, midway flag,
/// secondary flag, and the id as little-endian `u16`.
pub open spec fn exit_record_byte(e: EditableExit, j: int) -> u8 {
    if j == 0 {
        e.screen
    } else if j == 1 {
        flag_bit(e.midway)
    } else if j == 2 {
        flag_bit(e.secondary)
    } else {
        byte_of(e.id as int, j - 3)
    }
}

/// The snapshot of a layer: the object and exit counts as little-endian
/// `u16` (truncated to 16 bits), then 12 bytes per object and 5 per exit.
pub open spec fn layer_snapshot(v: ObjectLayerView) -> Seq<u8> {
    u16_le((v.objects.len() % 65536) as u16) + u16_le((v.exits.len() % 65536) as u16) + Seq::new(
        12 * v.objects.len(),
        |i: int| object_record_byte(v.objects[i / 12], i % 12),
    ) + Seq::new(5 * v.exits.len(), |i: int| exit_record_byte(v.exits[i / 5], i % 5))
}

/// The object whose snapshot record starts at `at`.
pub open spec fn object_at(b: Seq<u8>, at: int) -> EditableObject {
    EditableObject {
        x: le32(b, at) as u32,
        y: le32(b, at + 4) as u32,
        id: b[at + 8],
        settings: b[at + 9],
        is_extended: b[at + 10] != 0,
        extended_id: b[at + 11],
    }
}

/// The exit whose snapshot record starts at `at`.
pub open spec fn exit_at(b: Seq<u8>, at: int) -> EditableExit {
    EditableExit { screen: b[at], midway: b[at + 1] != 0, secondary: b[at + 2] != 0, id: le16(b, at + 3) as u16 }
}

pub open spec fn min_int(a: int, b: int) -> int {
    if a <= b { a } else { b }
}

/// The layer read back from a snapshot: as many of the announced objects,
/// then exits, as there are whole records for; nothing at all when the
/// counts are missing.
pub open spec fn layer_from_snapshot(b: Seq<u8>) -> ObjectLayerView {
    if b.len() < 4 {
        ObjectLayerView { objects: Seq::empty(), exits: Seq::empty() }
    } else {
        let n = min_int(le16(b, 0), (b.len() - 4) / 12);
        let off = 4 + 12 * n;
        let m = min_int(le16(b, 2), (b.len() - off) / 5);
        ObjectLayerView {
            objects: Seq::new(n as nat, |k: int| object_at(b, 4 + 12 * k)),
            exits: Seq::new(m as nat, |k: int| exit_at(b, off + 5 * k)),
        }
    }
}

proof fn lemma_div_mod(i: int, k: int, d: int)
    requires
        0 <= i,
        0 <= k < d,
    ensures
        (d * i + k) / d == i,
        (d * i + k) % d == k,
{
    assert((d * i + k) / d == i && (d * i + k) % d == k) by (nonlinear_arith)
        requires
            0 <= i,
            0 <= k < d,
    ;
}

fn push_object_record(out: &mut Vec<u8>, o: EditableObject)
    ensures
        final(out)@.len() == old(out)@.len() + 12,
        final(out)@.subrange(0, old(out)@.len() as int) == old(out)@,
        forall|j: int| 0 <= j < 12 ==> #[trigger] final(out)@[old(out)@.len() + j] == object_record_byte(o, j),
{
    push_u32(out, o.x);
    push_u32(out, o.y);
    out.push(o.id);
    out.push(o.settings);
    out.push(flag_bit_exec(o.is_extended));
    out.push(o.extended_id);
    assert(final(out)@.subrange(0, old(out)@.len() as int) =~= old(out)@);
}

fn push_exit_record(out: &mut Vec<u8>, e: EditableExit)
    ensures
        final(out)@.len() == old(out)@.len() + 5,
        final(out)@.subrange(0, old(out)@.len() as int) == old(out)@,
        forall|j: int| 0 <= j < 5 ==> #[trigger] final(out)@[old(out)@.len() + j] == exit_record_byte(e, j),
{
    out.push(e.screen);
    out.push(flag_bit_exec(e.midway));
    out.push(flag_bit_exec(e.secondary));
    push_u16(out, e.id);
    assert(final(out)@.subrange(0, old(out)@.len() as int) =~= old(out)@);
}

/// Reading back the snapshot of a layer gives the layer, as long as its
/// object and exit counts fit the snapshot's 16-bit counters.
pub proof fn lemma_layer_snapshot_round_trip(v: ObjectLayerView)
    requires
        v.objects.len() < 65536,
        v.exits.len() < 65536,
    ensures
        layer_from_snapshot(layer_snapshot(v)) == v,
{
    let b = layer_snapshot(v);
    let n = v.objects.len() as int;
    let m = v.exits.len() as int;
    let objs_part = Seq::new(12 * v.objects.len(), |i: int| object_record_byte(v.objects[i / 12], i % 12));
    let exits_part = Seq::new(5 * v.exits.len(), |i: int| exit_record_byte(v.exits[i / 5], i % 5));
    assert(b.len() == 4 + 12 * n + 5 * m);
    lemma_le16_of(n as u16, b, 0);
    lemma_le16_of(m as u16, b, 2);
    assert((b.len() - 4) / 12 >= n) by (nonlinear_arith)
        requires
            b.len() == 4 + 12 * n + 5 * m,
            n >= 0,
            m >= 0,
    ;
    let off = 4 + 12 * n;
    assert((b.len() - off) / 5 == m) by (nonlinear_arith)
        requires
            b.len() == 4 + 12 * n + 5 * m,
            off == 4 + 12 * n,
            m >= 0,
    ;
    let r = layer_from_snapshot(b);
    assert forall|k: int| 0 <= k < n implies #[trigger] r.objects[k] == v.objects[k] by {
        let at = 4 + 12 * k;
        assert forall|j: int| 0 <= j < 12 implies #[trigger] b[at + j] == object_record_byte(v.objects[k], j) by {
            lemma_div_mod(k, j, 12);
            assert(b[at + j] == objs_part[12 * k + j]);
        }
        let o = v.objects[k];
        assert(b[at + 0] == object_record_byte(o, 0));
        assert(b[at + 1] == object_record_byte(o, 1));
        assert(b[at + 2] == object_record_byte(o, 2));
        assert(b[at + 3] == object_record_byte(o, 3));
        assert(b[at + 4] == object_record_byte(o, 4));
        assert(b[at + 5] == object_record_byte(o, 5));
        assert(b[at + 6] == object_record_byte(o, 6));
        assert(b[at + 7] == object_record_byte(o, 7));
        assert(b[at + 8] == object_record_byte(o, 8));
        assert(b[at + 9] == object_record_byte(o, 9));
        assert(b[at + 10] == object_record_byte(o, 10));
        assert(b[at + 11] == object_record_byte(o, 11));
        lemma_le32_of(o.x, b, at);
        lemma_le32_of(o.y, b, at + 4);
    }
    assert forall|k: int| 0 <= k < m implies #[trigger] r.exits[k] == v.exits[k] by {
        let at = off + 5 * k;
        assert forall|j: int| 0 <= j < 5 implies #[trigger] b[at + j] == exit_record_byte(v.exits[k], j) by {
            lemma_div_mod(k, j, 5);
            assert(b[at + j] == exits_part[5 * k + j]);
        }
        let e = v.exits[k];
        assert(b[at + 0] == exit_record_byte(e, 0));
        assert(b[at + 1] == exit_record_byte(e, 1));
        assert(b[at + 2] == exit_record_byte(e, 2));
        assert(b[at + 3] == exit_record_byte(e, 3));
        assert(b[at + 4] == exit_record_byte(e, 4));
        lemma_le16_of(e.id, b, at + 3);
    }
    assert(r.objects =~= v.objects);
    assert(r.exits =~= v.exits);
}

impl Undo for EditableObjectLayer {
    open spec fn encode(v: ObjectLayerView) -> Seq<u8> {
        layer_snapshot(v)
    }

    open spec fn decode(bytes: Seq<u8>) -> ObjectLayerView {
        layer_from_snapshot(bytes)
    }

    open spec fn size(v: ObjectLayerView) -> nat {
        layer_snapshot(v).len()
    }

    fn from_bytes(bytes: Vec<u8>) -> (r: Self) {
        let len = bytes.len();
        if len < 4 {
            let r = EditableObjectLayer { objects: Vec::new(), exits: Vec::new() };
            assert(r@.objects =~= layer_from_snapshot(bytes@).objects);
            assert(r@.exits =~= layer_from_snapshot(bytes@).exits);
            return r;
        }
        let num_objects = read_u16(&bytes, 0) as usize;
        let num_exits = read_u16(&bytes, 2) as usize;
        let ghost spec_n = min_int(num_objects as int, (len - 4) / 12);
        let mut objects: Vec<EditableObject> = Vec::new();
        let mut offset: usize = 4;
        let mut k: usize = 0;
        while k < num_objects
            invariant_except_break
                len == bytes@.len(),
                4 <= len,
                k <= num_objects,
                num_objects == le16(bytes@, 0),
                offset == 4 + 12 * k,
                offset <= len,
                k <= spec_n,
                spec_n == min_int(num_objects as int, (len - 4) / 12),
                objects@ =~= Seq::new(k as nat, |i: int| object_at(bytes@, 4 + 12 * i)),
            ensures
                k == spec_n,
                offset == 4 + 12 * k,
                offset <= len,
                objects@ =~= Seq::new(k as nat, |i: int| object_at(bytes@, 4 + 12 * i)),
            decreases num_objects - k,
        {
            if len - offset < 12 {
                assert((len - 4) / 12 == k as int) by (nonlinear_arith)
                    requires
                        offset == 4 + 12 * k,
                        offset <= len,
                        offset + 12 > len,
                ;
                break;
            }
            let x = read_u32(&bytes, offset);
            let y = read_u32(&bytes, offset + 4);
            let id = bytes[offset + 8];
            let settings = bytes[offset + 9];
            let is_extended = bytes[offset + 10] != 0;
            let extended_id = bytes[offset + 11];
            objects.push(EditableObject { x, y, id, settings, is_extended, extended_id });
            assert(k + 1 <= (len - 4) / 12) by (nonlinear_arith)
                requires
                    offset == 4 + 12 * k,
                    offset + 12 <= len,
            ;
            offset = offset + 12;
            k = k + 1;
        }
        let ghost off = offset as int;
        let ghost spec_m = min_int(num_exits as int, (len - off) / 5);
        let mut exits: Vec<EditableExit> = Vec::new();
        let mut q: usize = 0;
        while q < num_exits
            invariant_except_break
                len == bytes@.len(),
                q <= num_exits,
                num_exits == le16(bytes@, 2),
                off <= len,
                offset == off + 5 * q,
                offset <= len,
                q <= spec_m,
                spec_m == min_int(num_exits as int, (len - off) / 5),
                exits@ =~= Seq::new(q as nat, |i: int| exit_at(bytes@, off + 5 * i)),
            ensures
                q == spec_m,
                exits@ =~= Seq::new(q as nat, |i: int| exit_at(bytes@, off + 5 * i)),
            decreases num_exits - q,
        {
            if len - offset < 5 {
                assert((len - off) / 5 == q as int) by (nonlinear_arith)
                    requires
                        offset == off + 5 * q,
                        offset <= len,
                        offset + 5 > len,
                ;
                break;
            }
            let screen = bytes[offset];
            let midway = bytes[offset + 1] != 0;
            let secondary = bytes[offset + 2] != 0;
            let id = read_u16(&bytes, offset + 3);
            exits.push(EditableExit { screen, midway, secondary, id });
            assert(q + 1 <= (len - off) / 5) by (nonlinear_arith)
                requires
                    offset == off + 5 * q,
                    offset + 5 <= len,
            ;
            offset = offset + 5;
            q = q + 1;
        }
        let r = EditableObjectLayer { objects, exits };
        assert(r@.objects =~= layer_from_snapshot(bytes@).objects);
        assert(r@.exits =~= layer_from_snapshot(bytes@).exits);
        r
    }

    fn to_bytes(&self) -> (r: Vec<u8>) {
        let mut bytes: Vec<u8> = Vec::new();
        let n = self.objects.len();
        let m = self.exits.len();
        push_u16(&mut bytes, (n % 65536) as u16);
        push_u16(&mut bytes, (m % 65536) as u16);
        let ghost head = bytes@;
        assert(head =~= u16_le((n % 65536) as u16) + u16_le((m % 65536) as u16));
        let mut i: usize = 0;
        while i < n
            invariant
                n == self.objects.len(),
                i <= n,
                head.len() == 4,
                bytes@ =~= head + Seq::new(12 * i as nat, |j: int| object_record_byte(self.objects@[j / 12], j % 12)),
            decreases n - i,
        {
            let ghost before = bytes@;
            push_object_record(&mut bytes, self.objects[i]);
            proof {
                let target = head + Seq::new(12 * (i + 1) as nat, |j: int| object_record_byte(self.objects@[j / 12], j % 12));
                assert forall|idx: int| 0 <= idx < bytes@.len() implies #[trigger] bytes@[idx] == target[idx] by {
                    if idx >= before.len() {
                        let j = idx - 4;
                        lemma_div_mod(i as int, j - 12 * i, 12);
                        assert(bytes@[before.len() + (j - 12 * i)] == object_record_byte(self.objects@[i as int], j - 12 * i));
                    } else {
                        assert(bytes@.subrange(0, before.len() as int)[idx] == before[idx]);
                    }
                }
                assert(bytes@ =~= target);
            }
            i = i + 1;
        }
        let ghost mid = bytes@;
        let mut e: usize = 0;
        while e < m
            invariant
                m == self.exits.len(),
                e <= m,
                bytes@ =~= mid + Seq::new(5 * e as nat, |j: int| exit_record_byte(self.exits@[j / 5], j % 5)),
            decreases m - e,
        {
            let ghost before = bytes@;
            push_exit_record(&mut bytes, self.exits[e]);
            proof {
                let target = mid + Seq::new(5 * (e + 1) as nat, |j: int| exit_record_byte(self.exits@[j / 5], j % 5));
                assert forall|idx: int| 0 <= idx < bytes@.len() implies #[trigger] bytes@[idx] == target[idx] by {
                    if idx >= before.len() {
                        let j = idx - mid.len();
                        lemma_div_mod(e as int, j - 5 * e, 5);
                        assert(bytes@[before.len() + (j - 5 * e)] == exit_record_byte(self.exits@[e as int], j - 5 * e));
                    } else {
                        assert(bytes@.subrange(0, before.len() as int)[idx] == before[idx]);
                    }
                }
                assert(bytes@ =~= target);
            }
            e = e + 1;
        }
        bytes
    }

    fn size_bytes(&self) -> (n: usize) {
        4 + self.objects.len() * 12 + self.exits.len() * 5
    }
}

// ---------------------------------------------------------------------------
// Direct Map16 objects
// ---------------------------------------------------------------------------

/// Largest width or height of a Direct Map16 object or pattern, in tiles.
pub const DM16_MAX_DIM: u32 = 64;

/// The block the editor fills empty pattern cells with.
pub const DM16_FILL_TILE: u16 = 0x25;

/// One editable Direct Map16 object: a rectangular Map16 pattern placed as
/// a single resizable level object; the pattern repeats to fill the object.
#[derive(Clone, Debug, Default, PartialEq, Eq)]
pub struct EditableDm16Object {
    /// Absolute level tile coordinates of the top-left corner.
    pub x: u32,
    pub y: u32,
    /// Object size in tiles.
    pub w: u32,
    pub h: u32,
    /// Pattern size in tiles.
    pub pw: u32,
    pub ph: u32,
    /// Row-major Map16 block ids of the pattern (`pw * ph` of them).
    pub tiles: Vec<u16>,
    /// Optional condition: RAM address and bit (0..=7, 8 = nonzero).
    pub condition: Option<(u16, u8)>,
}

/// The model of an [`EditableDm16Object`].
pub struct Dm16View {
    pub x: u32,
    pub y: u32,
    pub w: u32,
    pub h: u32,
    pub pw: u32,
    pub ph: u32,
    pub tiles: Seq<u16>,
    pub condition: Option<(u16, u8)>,
}

impl View for EditableDm16Object {
    type V = Dm16View;

    open spec fn view(&self) -> Dm16View {
        Dm16View {
            x: self.x,
            y: self.y,
            w: self.w,
            h: self.h,
            pw: self.pw,
            ph: self.ph,
            tiles: self.tiles@,
            condition: self.condition,
        }
    }
}

/// The level's Direct Map16 objects.
#[derive(Clone, Debug, Default, PartialEq, Eq)]
pub struct EditableDirectMap16 {
    pub objects: Vec<EditableDm16Object>,
}

pub open spec fn dm16_views(s: Seq<EditableDm16Object>) -> Seq<Dm16View> {
    s.map_values(|o: EditableDm16Object| o@)
}

impl View for EditableDirectMap16 {
    type V = Seq<Dm16View>;

    open spec fn view(&self) -> Seq<Dm16View> {
        dm16_views(self.objects@)
    }
}

/// A dimension clamped into `1..=64`.
pub open spec fn clamp_dim(v: u32) -> u32 {
    if v < 1 {
        1
    } else if v > 64 {
        64
    } else {
        v
    }
}

pub open spec fn min8(b: u8) -> u8 {
    if b > 8 { 8 } else { b }
}

/// The first `want` pattern tiles, padded with the fill block.
pub open spec fn padded_tiles(t: Seq<u16>, want: int) -> Seq<u16> {
    Seq::new(want as nat, |k: int| if k < t.len() { t[k] } else { 0x25u16 })
}

pub open spec fn clamp_condition(c: Option<(u16, u8)>) -> Option<(u16, u8)> {
    match c {
        Some((a, b)) => Some((a, min8(b))),
        None => None,
    }
}

/// An object after `sanitize`: dimensions in `1..=64`, exactly `pw * ph`
/// pattern tiles, condition bit at most 8.
pub open spec fn sanitized(o: Dm16View) -> Dm16View {
    Dm16View {
        x: o.x,
        y: o.y,
        w: clamp_dim(o.w),
        h: clamp_dim(o.h),
        pw: clamp_dim(o.pw),
        ph: clamp_dim(o.ph),
        tiles: padded_tiles(o.tiles, clamp_dim(o.pw) * clamp_dim(o.ph)),
        condition: clamp_condition(o.condition),
    }
}

/// The block shown at local coordinates `(lx, ly)`: the pattern repeats;
/// an object without a pattern shows the fill block.
pub open spec fn tile_at_spec(o: Dm16View, lx: u32, ly: u32) -> u16 {
    if o.tiles.len() == 0 || o.pw == 0 || o.ph == 0 {
        0x25
    } else {
        o.tiles[(ly % o.ph) * o.pw + lx % o.pw]
    }
}

fn clamp_dim_exec(v: u32) -> (r: u32)
    ensures
        r == clamp_dim(v),
{
    if v < 1 {
        1
    } else if v > DM16_MAX_DIM {
        DM16_MAX_DIM
    } else {
        v
    }
}

fn min8_exec(b: u8) -> (r: u8)
    ensures
        r == min8(b),
{
    if b > 8 { 8 } else { b }
}

impl EditableDm16Object {
    /// The block shown at local coordinates `(lx, ly)`.
    pub fn tile_at(&self, lx: u32, ly: u32) -> (r: u16)
        requires
            !(self.tiles@.len() == 0 || self.pw == 0 || self.ph == 0) ==> (ly % self.ph) * self.pw + lx % self.pw
                < self.tiles@.len() && (ly % self.ph) * self.pw + lx % self.pw <= u32::MAX,
        ensures
            r == tile_at_spec(self@, lx, ly),
    {
        if self.tiles.len() == 0 || self.pw == 0 || self.ph == 0 {
            return DM16_FILL_TILE;
        }
        let row = ly % self.ph;
        let col = lx % self.pw;
        assert(row * self.pw <= u32::MAX) by (nonlinear_arith)
            requires
                row * self.pw + col <= u32::MAX,
                col >= 0,
        ;
        self.tiles[(row * self.pw + col) as usize]
    }

    /// Whether absolute tile `(tx, ty)` lies in this object.
    pub fn covers(&self, tx: u32, ty: u32) -> (r: bool)
        requires
            tx >= self.x && ty >= self.y ==> self.x + self.w <= u32::MAX,
            tx >= self.x && ty >= self.y && tx < self.x + self.w ==> self.y + self.h <= u32::MAX,
        ensures
            r == (self.x <= tx < self.x + self.w && self.y <= ty < self.y + self.h),
    {
        tx >= self.x && ty >= self.y && tx < self.x + self.w && ty < self.y + self.h
    }

    /// Clamps the dimensions into `1..=64`, resizes the pattern to exactly
    /// `pw * ph` tiles (padding with the fill block) and caps the condition
    /// bit at 8.
    pub fn sanitize(&mut self)
        ensures
            final(self)@ == sanitized(old(self)@),
    {
        self.w = clamp_dim_exec(self.w);
        self.h = clamp_dim_exec(self.h);
        self.pw = clamp_dim_exec(self.pw);
        self.ph = clamp_dim_exec(self.ph);
        let (pw, ph) = (self.pw, self.ph);
        assert(pw * ph <= 4096) by (nonlinear_arith)
            requires
                1 <= pw <= 64,
                1 <= ph <= 64,
        ;
        let want = (pw * ph) as usize;
        let ghost old_tiles = self.tiles@;
        self.tiles.resize(want, DM16_FILL_TILE);
        assert(self.tiles@ =~= padded_tiles(old_tiles, want as int));
        match self.condition {
            Some((a, bit)) => {
                self.condition = Some((a, min8_exec(bit)));
            },
            None => {},
        }
    }
}

/// The bytes of a Direct Map16 condition in a snapshot record.
pub open spec fn condition_bytes(c: Option<(u16, u8)>) -> Seq<u8> {
    match c {
        None => seq![0u8],
        Some((a, b)) => seq![1u8] + u16_le(a) + seq![min8(b)],
    }
}

/// Pattern tiles as little-endian `u16`s.
pub open spec fn tiles_bytes(t: Seq<u16>) -> Seq<u8> {
    Seq::new(2 * t.len(), |i: int| byte_of(t[i / 2] as int, i % 2))
}

/// Number of pattern tiles a snapshot record carries.
pub open spec fn record_tile_count(o: Dm16View) -> int {
    clamp_dim(o.pw) * clamp_dim(o.ph)
}

/// The snapshot record of one object: position as little-endian `u32`s,
/// the four dimensions clamped into `1..=64` as bytes, the condition, and
/// exactly `pw * ph` pattern tiles (cut or padded with the fill block).
pub open spec fn dm16_record(o: Dm16View) -> Seq<u8> {
    u32_le(o.x) + u32_le(o.y) + seq![
        clamp_dim(o.w) as u8,
        clamp_dim(o.h) as u8,
        clamp_dim(o.pw) as u8,
        clamp_dim(o.ph) as u8,
    ] + condition_bytes(o.condition) + tiles_bytes(padded_tiles(o.tiles, record_tile_count(o)))
}

pub open spec fn dm16_records(objs: Seq<Dm16View>) -> Seq<u8>
    decreases objs.len(),
{
    if objs.len() == 0 {
        Seq::empty()
    } else {
        dm16_records(objs.drop_last()) + dm16_record(objs.last())
    }
}

/// The snapshot of the Direct Map16 objects: the count of the first (at
/// most 1024) objects as little-endian `u16`, then their records.
pub open spec fn dm16_snapshot(objs: Seq<Dm16View>) -> Seq<u8> {
    let n = min_int(objs.len() as int, 1024);
    u16_le(n as u16) + dm16_records(objs.take(n))
}

/// The size the Direct Map16 objects report for their snapshot: every
/// object counts, also past the first 1024.
pub open spec fn dm16_size(objs: Seq<Dm16View>) -> nat
    decreases objs.len(),
{
    if objs.len() == 0 {
        2
    } else {
        dm16_size(objs.drop_last()) + dm16_record(objs.last()).len()
    }
}

/// The object whose snapshot record starts at `off`, and where the next
/// record starts; `None` when the bytes end inside the record.
pub open spec fn dm16_record_at(b: Seq<u8>, off: int) -> Option<(Dm16View, int)> {
    if off + 13 > b.len() {
        None
    } else if b[off + 12] != 0 && off + 16 > b.len() {
        None
    } else {
        let has_cond = b[off + 12] != 0;
        let t_off = if has_cond { off + 16 } else { off + 13 };
        let pw = b[off + 10] as u32;
        let ph = b[off + 11] as u32;
        let count = clamp_dim(pw) * clamp_dim(ph);
        if t_off + 2 * count > b.len() {
            None
        } else {
            let o = Dm16View {
                x: le32(b, off) as u32,
                y: le32(b, off + 4) as u32,
                w: b[off + 8] as u32,
                h: b[off + 9] as u32,
                pw,
                ph,
                tiles: Seq::new(count as nat, |i: int| le16(b, t_off + 2 * i) as u16),
                condition: if has_cond {
                    Some((le16(b, off + 13) as u16, min8(b[off + 15])))
                } else {
                    None
                },
            };
            Some((sanitized(o), t_off + 2 * count))
        }
    }
}

/// Up to `count` objects read from consecutive records from `off` on,
/// stopping at the first record the bytes end inside.
pub open spec fn dm16_parse(b: Seq<u8>, off: int, count: nat) -> Seq<Dm16View>
    decreases count,
{
    if count == 0 {
        Seq::empty()
    } else {
        match dm16_record_at(b, off) {
            None => Seq::empty(),
            Some((o, next)) => seq![o] + dm16_parse(b, next, (count - 1) as nat),
        }
    }
}

/// The Direct Map16 objects read back from a snapshot.
pub open spec fn dm16_from_snapshot(b: Seq<u8>) -> Seq<Dm16View> {
    if b.len() < 2 {
        Seq::empty()
    } else {
        dm16_parse(b, 2, le16(b, 0) as nat)
    }
}

fn push_dm16_record(out: &mut Vec<u8>, o: &EditableDm16Object)
    ensures
        final(out)@ == old(out)@ + dm16_record(o@),
{
    let ghost start = out@;
    push_u32(out, o.x);
    push_u32(out, o.y);
    let w = clamp_dim_exec(o.w);
    let h = clamp_dim_exec(o.h);
    let pw = clamp_dim_exec(o.pw);
    let ph = clamp_dim_exec(o.ph);
    out.push(w as u8);
    out.push(h as u8);
    out.push(pw as u8);
    out.push(ph as u8);
    match o.condition {
        None => {
            out.push(0);
        },
        Some((ram_addr, bit)) => {
            out.push(1);
            push_u16(out, ram_addr);
            out.push(min8_exec(bit));
        },
    }
    assert(pw * ph <= 4096) by (nonlinear_arith)
        requires
            1 <= pw <= 64,
            1 <= ph <= 64,
    ;
    let want = (pw * ph) as usize;
    let ghost head = out@;
    assert(head =~= start + u32_le(o.x) + u32_le(o.y) + seq![w as u8, h as u8, pw as u8, ph as u8]
        + condition_bytes(o.condition));
    let ghost padded = padded_tiles(o.tiles@, want as int);
    let mut k: usize = 0;
    while k < want
        invariant
            k <= want,
            want == record_tile_count(o@),
            padded == padded_tiles(o.tiles@, want as int),
            out@ =~= head + tiles_bytes(padded.take(k as int)),
        decreases want - k,
    {
        let t = if k < o.tiles.len() { o.tiles[k] } else { DM16_FILL_TILE };
        let ghost before = out@;
        push_u16(out, t);
        proof {
            let target = head + tiles_bytes(padded.take(k + 1));
            assert forall|idx: int| 0 <= idx < out@.len() implies #[trigger] out@[idx] == target[idx] by {
                if idx >= before.len() {
                    let j = idx - head.len();
                    lemma_div_mod(k as int, j - 2 * k, 2);
                } else {
                    let j = idx - head.len();
                    if j >= 0 {
                        assert(before[idx] == tiles_bytes(padded.take(k as int))[j]);
                    }
                }
            }
            assert(out@ =~= target);
        }
        k = k + 1;
    }
    assert(padded.take(want as int) =~= padded);
}

/// The records of a prefix, extended by one more object.
proof fn lemma_records_take(objs: Seq<Dm16View>, i: int)
    requires
        0 <= i < objs.len(),
    ensures
        dm16_records(objs.take(i + 1)) == dm16_records(objs.take(i)) + dm16_record(objs[i]),
{
    assert(objs.take(i + 1).drop_last() =~= objs.take(i));
}

/// The records of a concatenation are the concatenated records.
proof fn lemma_records_append(a: Seq<Dm16View>, c: Seq<Dm16View>)
    ensures
        dm16_records(a + c) == dm16_records(a) + dm16_records(c),
    decreases c.len(),
{
    if c.len() == 0 {
        assert(a + c =~= a);
        assert(dm16_records(a) + dm16_records(c) =~= dm16_records(a));
    } else {
        lemma_records_append(a, c.drop_last());
        assert((a + c).drop_last() =~= a + c.drop_last());
        assert(dm16_records(a) + dm16_records(c) =~= dm16_records(a) + dm16_records(c.drop_last()) + dm16_record(
            c.last(),
        ));
    }
}

proof fn lemma_record_len(o: Dm16View)
    ensures
        dm16_record(o).len() == 13 + (if o.condition is Some { 3int } else { 0int }) + 2 * record_tile_count(o),
{
}

proof fn lemma_size_take(objs: Seq<Dm16View>, i: int)
    requires
        0 <= i < objs.len(),
    ensures
        dm16_size(objs.take(i + 1)) == dm16_size(objs.take(i)) + dm16_record(objs[i]).len(),
        dm16_size(objs.take(i + 1)) <= dm16_size(objs),
    decreases objs.len() - i,
{
    assert(objs.take(i + 1).drop_last() =~= objs.take(i));
    if i + 1 < objs.len() {
        lemma_size_take(objs, i + 1);
    } else {
        assert(objs.take(i + 1) =~= objs);
    }
}

/// An object that `sanitize` leaves as it is.
pub open spec fn dm16_wf(o: Dm16View) -> bool {
    sanitized(o) == o
}

/// The record of a sanitized object reads back as the object.
proof fn lemma_record_at_of(b: Seq<u8>, off: int, o: Dm16View)
    requires
        0 <= off,
        off + dm16_record(o).len() <= b.len(),
        b.subrange(off, off + dm16_record(o).len()) == dm16_record(o),
        dm16_wf(o),
    ensures
        dm16_record_at(b, off) == Some((o, off + dm16_record(o).len())),
{
    let r = dm16_record(o);
    lemma_record_len(o);
    assert forall|i: int| 0 <= i < r.len() implies #[trigger] b[off + i] == r[i] by {
        assert(b.subrange(off, off + r.len())[i] == b[off + i]);
    }
    let has_cond = o.condition is Some;
    let t_off = if has_cond { off + 16 } else { off + 13 };
    let count = record_tile_count(o);
    let head = u32_le(o.x) + u32_le(o.y) + seq![
        clamp_dim(o.w) as u8,
        clamp_dim(o.h) as u8,
        clamp_dim(o.pw) as u8,
        clamp_dim(o.ph) as u8,
    ] + condition_bytes(o.condition);
    let tb = tiles_bytes(padded_tiles(o.tiles, count));
    assert(r == head + tb);
    assert(head.len() == t_off - off);
    assert(b[off + 12] == r[12]);
    assert(b[off + 8] == r[8]);
    assert(b[off + 9] == r[9]);
    assert(b[off + 10] == r[10]);
    assert(b[off + 11] == r[11]);
    assert(b[off + 0] == r[0]);
    assert(b[off + 1] == r[1]);
    assert(b[off + 2] == r[2]);
    assert(b[off + 3] == r[3]);
    assert(b[off + 4] == r[4]);
    assert(b[off + 5] == r[5]);
    assert(b[off + 6] == r[6]);
    assert(b[off + 7] == r[7]);
    lemma_le32_of(o.x, b, off);
    lemma_le32_of(o.y, b, off + 4);
    if has_cond {
        assert(b[off + 13] == r[13]);
        assert(b[off + 14] == r[14]);
        assert(b[off + 15] == r[15]);
        let (a, bit) = o.condition->Some_0;
        lemma_le16_of(a, b, off + 13);
    }
    let tiles = Seq::new(count as nat, |i: int| le16(b, t_off + 2 * i) as u16);
    assert forall|i: int| 0 <= i < count implies #[trigger] tiles[i] == o.tiles[i] by {
        lemma_div_mod(i, 0, 2);
        lemma_div_mod(i, 1, 2);
        assert(b[t_off + 2 * i] == r[head.len() + 2 * i]);
        assert(b[t_off + 2 * i + 1] == r[head.len() + 2 * i + 1]);
        assert(r[head.len() + 2 * i] == tb[2 * i]);
        assert(r[head.len() + 2 * i + 1] == tb[2 * i + 1]);
        lemma_le16_of(o.tiles[i], b, t_off + 2 * i);
    }
    assert(tiles =~= o.tiles);
}

/// Reading back the records from `off_k` on gives the remaining objects.
proof fn lemma_parse_records(b: Seq<u8>, objs: Seq<Dm16View>, k: int)
    requires
        0 <= k <= objs.len(),
        forall|i: int| 0 <= i < objs.len() ==> dm16_wf(#[trigger] objs[i]),
        b.len() >= 2 + dm16_records(objs).len(),
        b.subrange(2, 2 + dm16_records(objs).len() as int) == dm16_records(objs),
    ensures
        dm16_parse(b, 2 + dm16_records(objs.take(k)).len() as int, (objs.len() - k) as nat) == objs.skip(k),
    decreases objs.len() - k,
{
    if k < objs.len() {
        lemma_parse_records(b, objs, k + 1);
        let off = 2 + dm16_records(objs.take(k)).len() as int;
        let rec = dm16_record(objs[k]);
        lemma_records_take(objs, k);
        lemma_records_append(objs.take(k + 1), objs.skip(k + 1));
        assert(objs.take(k + 1) + objs.skip(k + 1) =~= objs);
        let all = dm16_records(objs);
        assert(all == dm16_records(objs.take(k)) + rec + dm16_records(objs.skip(k + 1)));
        assert(b.subrange(off, off + rec.len()) =~= rec) by {
            assert forall|i: int| 0 <= i < rec.len() implies b[off + i] == rec[i] by {
                assert(b.subrange(2, 2 + all.len() as int)[off - 2 + i] == b[off + i]);
                assert(all[off - 2 + i] == rec[i]);
            }
        }
        lemma_record_at_of(b, off, objs[k]);
        assert(objs.skip(k) =~= seq![objs[k]] + objs.skip(k + 1));
    } else {
        assert(objs.skip(k) =~= Seq::<Dm16View>::empty());
    }
}

/// Reading back the snapshot of at most 1024 sanitized Direct Map16 objects
/// gives the objects.
pub proof fn lemma_dm16_snapshot_round_trip(objs: Seq<Dm16View>)
    requires
        objs.len() <= 1024,
        forall|i: int| 0 <= i < objs.len() ==> dm16_wf(#[trigger] objs[i]),
    ensures
        dm16_from_snapshot(dm16_snapshot(objs)) == objs,
{
    let b = dm16_snapshot(objs);
    let n = objs.len();
    assert(objs.take(n as int) =~= objs);
    let recs = dm16_records(objs);
    assert(b == u16_le(n as u16) + recs);
    lemma_le16_of(n as u16, b, 0);
    assert(b.subrange(2, 2 + recs.len() as int) =~= recs);
    lemma_parse_records(b, objs, 0);
    assert(objs.take(0) =~= Seq::<Dm16View>::empty());
    assert(objs.skip(0) =~= objs);
}

proof fn lemma_records_len(objs: Seq<Dm16View>)
    ensures
        dm16_records(objs).len() + 2 == dm16_size(objs),
    decreases objs.len(),
{
    if objs.len() > 0 {
        lemma_records_len(objs.drop_last());
    }
}

/// For at most 1024 objects, the reported size is the snapshot's length.
pub proof fn lemma_dm16_size_is_snapshot_len(objs: Seq<Dm16View>)
    requires
        objs.len() <= 1024,
    ensures
        dm16_snapshot(objs).len() == dm16_size(objs),
{
    assert(objs.take(objs.len() as int) =~= objs);
    lemma_records_len(objs);
}

impl Undo for EditableDirectMap16 {
    open spec fn encode(v: Seq<Dm16View>) -> Seq<u8> {
        dm16_snapshot(v)
    }

    open spec fn decode(bytes: Seq<u8>) -> Seq<Dm16View> {
        dm16_from_snapshot(bytes)
    }

    open spec fn size(v: Seq<Dm16View>) -> nat {
        dm16_size(v)
    }

    fn from_bytes(bytes: Vec<u8>) -> (r: Self) {
        let len = bytes.len();
        if len < 2 {
            let r = EditableDirectMap16 { objects: Vec::new() };
            assert(r@ =~= dm16_from_snapshot(bytes@));
            return r;
        }
        let count = read_u16(&bytes, 0) as usize;
        let ghost b = bytes@;
        let ghost total = dm16_parse(b, 2, count as nat);
        let mut objects: Vec<EditableDm16Object> = Vec::new();
        let mut off: usize = 2;
        let mut k: usize = 0;
        while k < count
            invariant_except_break
                len == b.len(),
                b == bytes@,
                k <= count,
                off <= len,
                dm16_views(objects@) + dm16_parse(b, off as int, (count - k) as nat) == total,
            ensures
                dm16_views(objects@) == total,
            decreases count - k,
        {
            proof {
                assert(dm16_views(objects@) + Seq::<Dm16View>::empty() =~= dm16_views(objects@));
            }
            if len - off < 13 {
                break;
            }
            let x = read_u32(&bytes, off);
            let y = read_u32(&bytes, off + 4);
            let w = bytes[off + 8] as u32;
            let h = bytes[off + 9] as u32;
            let pw = bytes[off + 10] as u32;
            let ph = bytes[off + 11] as u32;
            let cond_present = bytes[off + 12] != 0;
            let ghost rec_off = off as int;
            off = off + 13;
            let condition = if cond_present {
                if len - off < 3 {
                    break;
                }
                let ram_addr = read_u16(&bytes, off);
                let bit = min8_exec(bytes[off + 2]);
                off = off + 3;
                Some((ram_addr, bit))
            } else {
                None
            };
            let cpw = clamp_dim_exec(pw);
            let cph = clamp_dim_exec(ph);
            assert(cpw * cph <= 4096) by (nonlinear_arith)
                requires
                    1 <= cpw <= 64,
                    1 <= cph <= 64,
            ;
            let tile_count = (cpw * cph) as usize;
            if (len - off) / 2 < tile_count {
                break;
            }
            let mut tiles: Vec<u16> = Vec::new();
            let mut i: usize = 0;
            while i < tile_count
                invariant
                    i <= tile_count,
                    off + 2 * tile_count <= len,
                    len == b.len(),
                    b == bytes@,
                    tiles@ =~= Seq::new(i as nat, |j: int| le16(b, off + 2 * j) as u16),
                decreases tile_count - i,
            {
                tiles.push(read_u16(&bytes, off + 2 * i));
                i = i + 1;
            }
            let ghost t_off = off as int;
            off = off + 2 * tile_count;
            let mut obj = EditableDm16Object { x, y, w, h, pw, ph, tiles, condition };
            obj.sanitize();
            proof {
                let rest = (count - k - 1) as nat;
                assert(dm16_record_at(b, rec_off) == Some((obj@, off as int)));
                assert(dm16_parse(b, rec_off, (count - k) as nat) == seq![obj@] + dm16_parse(b, off as int, rest));
                assert(dm16_views(objects@.push(obj)) =~= dm16_views(objects@).push(obj@));
                assert(dm16_views(objects@).push(obj@) + dm16_parse(b, off as int, rest) =~= dm16_views(objects@)
                    + (seq![obj@] + dm16_parse(b, off as int, rest)));
            }
            objects.push(obj);
            k = k + 1;
        }
        EditableDirectMap16 { objects }
    }

    fn to_bytes(&self) -> (r: Vec<u8>) {
        let n = self.objects.len();
        let take = if n < 1024 { n } else { 1024 };
        let mut bytes: Vec<u8> = Vec::new();
        push_u16(&mut bytes, take as u16);
        let ghost head = bytes@;
        let ghost objs = self@;
        let mut i: usize = 0;
        while i < take
            invariant
                take <= n,
                n == self.objects.len(),
                objs == self@,
                i <= take,
                bytes@ == head + dm16_records(objs.take(i as int)),
            decreases take - i,
        {
            push_dm16_record(&mut bytes, &self.objects[i]);
            proof {
                lemma_records_take(objs, i as int);
                assert(bytes@ =~= head + dm16_records(objs.take(i + 1)));
            }
            i = i + 1;
        }
        bytes
    }

    fn size_bytes(&self) -> (r: usize) {
        let ghost objs = self@;
        let mut total: usize = 2;
        let mut i: usize = 0;
        let n = self.objects.len();
        while i < n
            invariant
                n == self.objects.len(),
                objs == self@,
                i <= n,
                total == dm16_size(objs.take(i as int)),
                dm16_size(objs) <= usize::MAX,
            decreases n - i,
        {
            let o = &self.objects[i];
            let pw = clamp_dim_exec(o.pw);
            let ph = clamp_dim_exec(o.ph);
            assert(pw * ph <= 4096) by (nonlinear_arith)
                requires
                    1 <= pw <= 64,
                    1 <= ph <= 64,
            ;
            let want = (pw * ph) as usize;
            let cond: usize = if o.condition.is_some() { 3 } else { 0 };
            proof {
                lemma_size_take(objs, i as int);
                lemma_record_len(objs[i as int]);
            }
            let step = 13 + cond + want * 2;
            total = total + step;
            i = i + 1;
        }
        proof {
            assert(objs.take(n as int) =~= objs);
        }
        total
    }
}


/// Undoing an edit of an object layer puts the layer back as it was, for a
/// layer whose object and exit counts fit the snapshot's counters.
pub proof fn lemma_layer_undo_restores(h: crate::undo::History<ObjectLayerView>, before: ObjectLayerView, next: ObjectLayerView)
    requires
        before.objects.len() < 65536,
        before.exits.len() < 65536,
    ensures
        crate::undo::undo_spec::<EditableObjectLayer>(crate::undo::commit_spec::<EditableObjectLayer>(h, before, next)).current
            == before,
{
    crate::undo::lemma_undo_after_commit::<EditableObjectLayer>(h, before, next);
    lemma_layer_snapshot_round_trip(before);
}

/// Undoing an edit of the Direct Map16 objects puts them back as they were,
/// for at most 1024 sanitized objects.
pub proof fn lemma_dm16_undo_restores(h: crate::undo::History<Seq<Dm16View>>, before: Seq<Dm16View>, next: Seq<Dm16View>)
    requires
        before.len() <= 1024,
        forall|i: int| 0 <= i < before.len() ==> dm16_wf(#[trigger] before[i]),
    ensures
        crate::undo::undo_spec::<EditableDirectMap16>(crate::undo::commit_spec::<EditableDirectMap16>(h, before, next)).current
            == before,
{
    crate::undo::lemma_undo_after_commit::<EditableDirectMap16>(h, before, next);
    lemma_dm16_snapshot_round_trip(before);
}

} // verus!
