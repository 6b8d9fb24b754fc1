//! Level-wide editable values and little-endian ROM reads.
use vstd::prelude::*;
use crate::le_bytes::{le16, le24, le32, lemma_le32_of, push_u32, read_u32, u32_le};
use crate::undo::{commit_spec, History, Undo, UndoableData};

verus! {

/// Main-entrance position in absolute tile coordinates, kept as its own
/// undoable value.
#[derive(Clone, Debug, Default, PartialEq, Eq, Structural)]
pub struct SpawnPos {
    pub x: u32,
    pub y: u32,
}

impl View for SpawnPos {
    type V = (u32, u32);

    open spec fn view(&self) -> (u32, u32) {
        (self.x, self.y)
    }
}

/// The snapshot of an entrance position: `x` then `y`, little-endian.
pub open spec fn spawn_snapshot(p: (u32, u32)) -> Seq<u8> {
    u32_le(p.0) + u32_le(p.1)
}

/// The entrance position read back from a snapshot; a field the bytes end
/// inside reads as 0.
pub open spec fn spawn_from_snapshot(b: Seq<u8>) -> (u32, u32) {
    (
        if b.len() >= 4 { le32(b, 0) as u32 } else { 0 },
        if b.len() >= 8 { le32(b, 4) as u32 } else { 0 },
    )
}

impl Undo for SpawnPos {
    open spec fn encode(v: (u32, u32)) -> Seq<u8> {
        spawn_snapshot(v)
    }

    open spec fn decode(bytes: Seq<u8>) -> (u32, u32) {
        spawn_from_snapshot(bytes)
    }

    open spec fn size(v: (u32, u32)) -> nat {
        8
    }

    fn from_bytes(bytes: Vec<u8>) -> (r: Self) {
        let x = if bytes.len() >= 4 { read_u32(&bytes, 0) } else { 0 };
        let y = if bytes.len() >= 8 { read_u32(&bytes, 4) } else { 0 };
        SpawnPos { x, y }
    }

    fn to_bytes(&self) -> (r: Vec<u8>) {
        let mut out: Vec<u8> = Vec::new();
        push_u32(&mut out, self.x);
        push_u32(&mut out, self.y);
        assert(out@ =~= spawn_snapshot(self@));
        out
    }

    fn size_bytes(&self) -> (n: usize) {
        8
    }
}

/// Reading back the snapshot of an entrance position gives the position.
pub proof fn lemma_spawn_round_trip(p: (u32, u32))
    ensures
        spawn_from_snapshot(spawn_snapshot(p)) == p,
{
    let b = spawn_snapshot(p);
    assert(b[0] == u32_le(p.0)[0] && b[1] == u32_le(p.0)[1] && b[2] == u32_le(p.0)[2] && b[3] == u32_le(p.0)[3]);
    assert(b[4] == u32_le(p.1)[0] && b[5] == u32_le(p.1)[1] && b[6] == u32_le(p.1)[2] && b[7] == u32_le(p.1)[3]);
    lemma_le32_of(p.0, b, 0);
    lemma_le32_of(p.1, b, 4);
}

// ---------------------------------------------------------------------------
// Entrance position
// ---------------------------------------------------------------------------

/// Where a level without a configured entrance starts, and where deleting
/// the entrance puts it back.
pub const DEFAULT_SPAWN_X: u32 = 0;
pub const DEFAULT_SPAWN_Y: u32 = 22;

/// Absolute tile coordinates of an entrance given as screen and
/// half-resolution position: two screens side by side per row of screens
/// (32 tiles high) in vertical levels, one row of 16-tile-wide screens in
/// horizontal ones.
pub open spec fn entrance_tiles_spec(screen: u8, x_half: u8, y_half: u8, vertical: bool) -> (u32, u32) {
    if vertical {
        (((screen % 2) * 16 + x_half * 2) as u32, ((screen / 2) * 32 + y_half * 2) as u32)
    } else {
        ((screen * 16 + x_half * 2) as u32, (y_half * 2) as u32)
    }
}

/// Absolute tile coordinates of an entrance.
pub fn entrance_to_tiles(screen: u8, x_half: u8, y_half: u8, vertical: bool) -> (r: (u32, u32))
    ensures
        r == entrance_tiles_spec(screen, x_half, y_half, vertical),
{
    let x = x_half as u32 * 2;
    let y = y_half as u32 * 2;
    if vertical {
        ((screen as u32 % 2) * 16 + x, (screen as u32 / 2) * 32 + y)
    } else {
        (screen as u32 * 16 + x, y)
    }
}

/// The entrance screen and half-resolution position of absolute tile
/// coordinates (the position rounded down to even tiles and capped at the
/// header fields' 7 and 15).
pub open spec fn tiles_entrance_spec(abs_x: u32, abs_y: u32, vertical: bool) -> (u8, u8, u8) {
    let screen = if vertical { ((abs_y / 32) * 2 + abs_x / 16) as u8 } else { (abs_x / 16) as u8 };
    let x = ((abs_x % 16) as u8) / 2;
    let y = if vertical { ((abs_y % 32) as u8) / 2 } else { (abs_y as u8) / 2 };
    (screen, if x > 7 { 7 } else { x }, if y > 15 { 15 } else { y })
}

/// The entrance screen and half-resolution position of absolute tile
/// coordinates.
pub fn tiles_to_entrance(abs_x: u32, abs_y: u32, vertical: bool) -> (r: (u8, u8, u8))
    requires
        vertical ==> (abs_y / 32) * 2 + abs_x / 16 <= u32::MAX,
    ensures
        r == tiles_entrance_spec(abs_x, abs_y, vertical),
{
    let (screen, x, y) = if vertical {
        (((abs_y / 32) * 2 + abs_x / 16) as u8, (abs_x % 16) as u8, (abs_y % 32) as u8)
    } else {
        ((abs_x / 16) as u8, (abs_x % 16) as u8, abs_y as u8)
    };
    let x2 = x / 2;
    let y2 = y / 2;
    (screen, if x2 > 7 { 7 } else { x2 }, if y2 > 15 { 15 } else { y2 })
}

/// An entrance converted to tiles and back is the same entrance, for every
/// entrance the header fields can hold (and, in vertical levels, a screen
/// number that fits a byte after the round trip, which every `u8` does).
pub proof fn lemma_entrance_round_trip(screen: u8, x_half: u8, y_half: u8, vertical: bool)
    requires
        x_half <= 7,
        y_half <= 15,
    ensures
        ({
            let (ax, ay) = entrance_tiles_spec(screen, x_half, y_half, vertical);
            tiles_entrance_spec(ax, ay, vertical) == (screen, x_half, y_half)
        }),
{
    let (ax, ay) = entrance_tiles_spec(screen, x_half, y_half, vertical);
    if vertical {
        assert(ax / 16 == screen % 2 && ax % 16 == x_half * 2);
        assert(ay / 32 == screen / 2 && ay % 32 == y_half * 2);
    } else {
        assert(ax / 16 == screen && ax % 16 == x_half * 2);
    }
}

/// The main entrance of the edited level with its undo history and the
/// state of an entrance drag.
pub struct SpawnEditor {
    pub spawn: UndoableData<SpawnPos>,
    /// The position a drag started from, while a drag is going on.
    pub drag_before: Option<SpawnPos>,
    /// The newest undo step of the level is an entrance step.
    pub undo_pending: bool,
    /// The newest redo step of the level is an entrance step.
    pub redo_pending: bool,
    pub has_edits: bool,
}

impl SpawnEditor {
    /// An entrance at `(x, y)` with no history.
    pub fn new(x: u32, y: u32) -> (r: Self)
        ensures
            r.spawn.history() == (History::<(u32, u32)> { current: (x, y), undo: Seq::empty(), redo: Seq::empty() }),
            r.drag_before is None,
            !r.undo_pending && !r.redo_pending && !r.has_edits,
    {
        SpawnEditor {
            spawn: UndoableData::new(SpawnPos { x, y }),
            drag_before: None,
            undo_pending: false,
            redo_pending: false,
            has_edits: false,
        }
    }

    /// The entrance position.
    pub fn spawn_pos(&self) -> (r: (u32, u32))
        ensures
            r == self.spawn.history().current,
    {
        proof {
            self.spawn.lemma_current();
        }
        self.spawn.read(|s: &SpawnPos| -> (r: (u32, u32))
            ensures
                r == (s.x, s.y),
            { (s.x, s.y) })
    }

    /// Records an edit of the level: any edit makes the entrance's steps no
    /// longer the newest.
    pub fn mark_edited(&mut self)
        ensures
            final(self).has_edits,
            !final(self).undo_pending && !final(self).redo_pending,
            final(self).spawn == old(self).spawn,
            final(self).drag_before == old(self).drag_before,
    {
        self.has_edits = true;
        self.undo_pending = false;
        self.redo_pending = false;
    }

    fn snapshot(&self) -> (r: SpawnPos)
        ensures
            r@ == self.spawn.history().current,
    {
        let (x, y) = self.spawn_pos();
        SpawnPos { x, y }
    }

    /// Moves the entrance as one undo step; nothing happens when it is
    /// already there.
    pub fn set_spawn(&mut self, x: u32, y: u32)
        ensures
            old(self).spawn.history().current == (x, y) ==> final(self).spawn.history() == old(self).spawn.history()
                && final(self).undo_pending == old(self).undo_pending && final(self).has_edits == old(self).has_edits,
            old(self).spawn.history().current != (x, y) ==> {
                &&& final(self).spawn.history() == commit_spec::<SpawnPos>(
                    old(self).spawn.history(),
                    old(self).spawn.history().current,
                    (x, y),
                )
                &&& final(self).has_edits && final(self).undo_pending && !final(self).redo_pending
            },
            final(self).drag_before == old(self).drag_before,
    {
        let (cx, cy) = self.spawn_pos();
        if cx == x && cy == y {
            return;
        }
        let before = self.snapshot();
        proof {
            self.spawn.lemma_current();
        }
        {
            let p = self.spawn.data_mut();
            p.x = x;
            p.y = y;
        }
        proof {
            self.spawn.lemma_current();
        }
        self.spawn.commit_change(&before);
        self.mark_edited();
        self.undo_pending = true;
        self.redo_pending = false;
    }

    /// Deleting the entrance puts it back at the default position.
    pub fn reset_spawn_to_default(&mut self)
        ensures
            final(self).spawn.history().current == (DEFAULT_SPAWN_X, DEFAULT_SPAWN_Y),
            old(self).spawn.history().current != (DEFAULT_SPAWN_X, DEFAULT_SPAWN_Y) ==> final(self).spawn.history()
                == commit_spec::<SpawnPos>(
                old(self).spawn.history(),
                old(self).spawn.history().current,
                (DEFAULT_SPAWN_X, DEFAULT_SPAWN_Y),
            ),
    {
        self.set_spawn(DEFAULT_SPAWN_X, DEFAULT_SPAWN_Y);
    }

    /// Starts dragging the entrance: remembers where it was.
    pub fn begin_spawn_drag(&mut self)
        ensures
            final(self).drag_before is Some,
            final(self).drag_before->Some_0@ == old(self).spawn.history().current,
            final(self).spawn == old(self).spawn,
    {
        self.drag_before = Some(self.snapshot());
    }

    /// Moves the entrance during a drag, without an undo step.
    pub fn drag_spawn_to(&mut self, x: u32, y: u32)
        ensures
            final(self).spawn.history() == (History::<(u32, u32)> { current: (x, y), ..old(self).spawn.history() }),
            final(self).drag_before == old(self).drag_before,
            final(self).has_edits,
    {
        proof {
            self.spawn.lemma_current();
        }
        {
            let p = self.spawn.data_mut();
            p.x = x;
            p.y = y;
        }
        proof {
            self.spawn.lemma_current();
        }
        self.mark_edited();
    }

    /// Ends a drag: the whole drag becomes one undo step, unless the
    /// entrance ended where it started (a click, not a drag).
    pub fn end_spawn_drag(&mut self)
        ensures
            final(self).drag_before is None,
            old(self).drag_before is Some && old(self).drag_before->Some_0@ != old(self).spawn.history().current ==> {
                &&& final(self).spawn.history() == commit_spec::<SpawnPos>(
                    old(self).spawn.history(),
                    old(self).drag_before->Some_0@,
                    old(self).spawn.history().current,
                )
                &&& final(self).undo_pending && !final(self).redo_pending
            },
            !(old(self).drag_before is Some && old(self).drag_before->Some_0@ != old(self).spawn.history().current)
                ==> final(self).spawn.history() == old(self).spawn.history(),
    {
        let taken = self.drag_before.take();
        proof {
            self.spawn.lemma_current();
        }
        match taken {
            Some(before) => {
                let after = self.snapshot();
                if before != after {
                    self.spawn.commit_change(&before);
                    self.mark_edited();
                    self.undo_pending = true;
                    self.redo_pending = false;
                }
            },
            None => {},
        }
    }
}

/// The little-endian `u16` at `file_off`, if the bytes reach that far.
pub fn read_u16(rom_bytes: &Vec<u8>, file_off: usize) -> (r: Option<u16>)
    requires
        file_off + 2 <= usize::MAX,
    ensures
        r == (if file_off + 2 <= rom_bytes@.len() { Some(le16(rom_bytes@, file_off as int) as u16) } else { None }),
{
    if file_off + 2 > rom_bytes.len() {
        return None;
    }
    Some(rom_bytes[file_off] as u16 + (rom_bytes[file_off + 1] as u16) * 256)
}

/// The little-endian 24-bit value at `file_off`, if the bytes reach that
/// far.
pub fn read_u24(rom_bytes: &Vec<u8>, file_off: usize) -> (r: Option<u32>)
    requires
        file_off + 3 <= usize::MAX,
    ensures
        r == (if file_off + 3 <= rom_bytes@.len() { Some(le24(rom_bytes@, file_off as int) as u32) } else { None }),
{
    if file_off + 3 > rom_bytes.len() {
        return None;
    }
    Some(rom_bytes[file_off] as u32 + (rom_bytes[file_off + 1] as u32) * 256 + (rom_bytes[file_off + 2] as u32) * 65536)
}

/// Size of the copier header some ROM images carry: 0x200 bytes when the
/// image length is 0x200 past a multiple of 0x400, none otherwise.
pub fn smc_header_offset(rom_bytes: &Vec<u8>) -> (r: usize)
    ensures
        r == (if rom_bytes@.len() % 0x400 == 0x200 { 0x200int } else { 0int }),
{
    if rom_bytes.len() % 0x400 == 0x200 {
        0x200
    } else {
        0
    }
}


/// Undoing an entrance move puts the entrance back where it was.
pub proof fn lemma_spawn_undo_restores(h: History<(u32, u32)>, before: (u32, u32), next: (u32, u32))
    ensures
        crate::undo::undo_spec::<SpawnPos>(commit_spec::<SpawnPos>(h, before, next)).current == before,
{
    crate::undo::lemma_undo_after_commit::<SpawnPos>(h, before, next);
    lemma_spawn_round_trip(before);
}

} // verus!
