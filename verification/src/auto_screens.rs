//! "Auto-Set Number of Screens" on save: the level's number of screens
//! becomes the number of screens its objects, exits and sprites occupy.
//!
//! An object or sprite counts by its anchor tile along the level's long
//! axis (x in horizontal levels, y in vertical ones), an exit by its screen
//! number. An empty level keeps one screen; the result is clamped to the
//! 5-bit header field, 1 to 32 screens.
use vstd::prelude::*;
use crate::object_layer::{EditableExit, EditableObject, EditableObjectLayer};
use crate::sprite_layer::{EditableSprite, EditableSpriteLayer};

verus! {

/// Tiles per screen along the level's long axis.
pub const TILES_PER_SCREEN: u32 = 16;

/// Most screens the primary header's 5-bit length field can hold.
pub const MAX_SCREENS: u32 = 32;

/// The raw scroll-extension byte of a ROM whose `$06FA00` table was never
/// installed.
pub const SCROLL_EXT_ABSENT: u8 = 0xFF;

/// Screen index of an absolute tile coordinate along the long axis.
pub open spec fn axis_screen_spec(x: u32, y: u32, vertical: bool) -> u32 {
    if vertical { y / 16 } else { x / 16 }
}

pub open spec fn object_screens(objs: Seq<EditableObject>, vertical: bool) -> Seq<u32> {
    objs.map_values(|o: EditableObject| axis_screen_spec(o.x, o.y, vertical))
}

pub open spec fn exit_screens(exits: Seq<EditableExit>) -> Seq<u32> {
    exits.map_values(|e: EditableExit| e.screen as u32)
}

pub open spec fn sprite_screens(sprites: Seq<EditableSprite>, vertical: bool) -> Seq<u32> {
    sprites.map_values(|s: EditableSprite| axis_screen_spec(s.x, s.y, vertical))
}

/// The screens of a layer's objects and exits.
pub open spec fn layer_screens(l: &EditableObjectLayer, vertical: bool) -> Seq<u32> {
    object_screens(l.objects@, vertical) + exit_screens(l.exits@)
}

/// Every screen index the level's entries sit on.
pub open spec fn occupied_screens(
    l1: &EditableObjectLayer,
    l2: Option<&EditableObjectLayer>,
    sprites: &EditableSpriteLayer,
    vertical: bool,
) -> Seq<u32> {
    layer_screens(l1, vertical) + match l2 {
        Some(l) => layer_screens(l, vertical),
        None => Seq::empty(),
    } + sprite_screens(sprites.sprites@, vertical)
}

/// Largest value of a sequence (0 for none).
pub open spec fn seq_max(s: Seq<u32>) -> u32
    decreases s.len(),
{
    if s.len() == 0 {
        0
    } else {
        let m = seq_max(s.drop_last());
        if s.last() > m { s.last() } else { m }
    }
}

/// Number of screens for the given occupied screens: one past the largest,
/// clamped to `1..=32`; 1 when there is none.
pub open spec fn screens_for(s: Seq<u32>) -> u32 {
    if s.len() == 0 {
        1
    } else if seq_max(s) + 1 > 32 {
        32
    } else {
        (seq_max(s) + 1) as u32
    }
}

proof fn lemma_seq_max_push(s: Seq<u32>, v: u32)
    ensures
        seq_max(s.push(v)) == (if v > seq_max(s) { v } else { seq_max(s) }),
{
    assert(s.push(v).drop_last() =~= s);
}

proof fn lemma_seq_max_bound(s: Seq<u32>, i: int)
    requires
        0 <= i < s.len(),
    ensures
        s[i] <= seq_max(s),
    decreases s.len(),
{
    if i < s.len() - 1 {
        lemma_seq_max_bound(s.drop_last(), i);
    }
}

/// Screen index of an absolute tile coordinate along the long axis.
pub fn axis_screen(x: u32, y: u32, vertical: bool) -> (r: u32)
    ensures
        r == axis_screen_spec(x, y, vertical),
{
    if vertical {
        y / TILES_PER_SCREEN
    } else {
        x / TILES_PER_SCREEN
    }
}

/// Folds the screens of a layer into the running (seen, max).
fn consider_layer(l: &EditableObjectLayer, vertical: bool, seen: &mut bool, max_screen: &mut u32, acc: Ghost<Seq<u32>>)
    requires
        *old(seen) == (acc@.len() > 0),
        *old(max_screen) == seq_max(acc@),
    ensures
        *final(seen) == ((acc@ + layer_screens(l, vertical)).len() > 0),
        *final(max_screen) == seq_max(acc@ + layer_screens(l, vertical)),
{
    let ghost os = object_screens(l.objects@, vertical);
    let ghost es = exit_screens(l.exits@);
    let mut i: usize = 0;
    while i < l.objects.len()
        invariant
            i <= l.objects.len(),
            os == object_screens(l.objects@, vertical),
            *seen == ((acc@ + os.take(i as int)).len() > 0),
            *max_screen == seq_max(acc@ + os.take(i as int)),
        decreases l.objects.len() - i,
    {
        let o = l.objects[i];
        let s = axis_screen(o.x, o.y, vertical);
        proof {
            lemma_seq_max_push(acc@ + os.take(i as int), s);
            assert(acc@ + os.take(i + 1) =~= (acc@ + os.take(i as int)).push(s));
        }
        *seen = true;
        if s > *max_screen {
            *max_screen = s;
        }
        i = i + 1;
    }
    assert(os.take(l.objects.len() as int) =~= os);
    let mut j: usize = 0;
    while j < l.exits.len()
        invariant
            j <= l.exits.len(),
            es == exit_screens(l.exits@),
            *seen == ((acc@ + os + es.take(j as int)).len() > 0),
            *max_screen == seq_max(acc@ + os + es.take(j as int)),
        decreases l.exits.len() - j,
    {
        let s = l.exits[j].screen as u32;
        proof {
            lemma_seq_max_push(acc@ + os + es.take(j as int), s);
            assert(acc@ + os + es.take(j + 1) =~= (acc@ + os + es.take(j as int)).push(s));
        }
        *seen = true;
        if s > *max_screen {
            *max_screen = s;
        }
        j = j + 1;
    }
    assert(es.take(l.exits.len() as int) =~= es);
    assert(acc@ + os + es =~= acc@ + layer_screens(l, vertical));
}

/// Number of screens the level occupies: one past the largest screen of
/// any layer-1 or layer-2 object or exit or any sprite, clamped to
/// `1..=32`; 1 for an empty level.
pub fn screens_used(
    l1: &EditableObjectLayer,
    l2: Option<&EditableObjectLayer>,
    sprites: &EditableSpriteLayer,
    vertical: bool,
) -> (r: u32)
    ensures
        r == screens_for(occupied_screens(l1, l2, sprites, vertical)),
        1 <= r <= MAX_SCREENS,
        forall|i: int|
            0 <= i < occupied_screens(l1, l2, sprites, vertical).len() ==> #[trigger] occupied_screens(
                l1,
                l2,
                sprites,
                vertical,
            )[i] < r || r == MAX_SCREENS,
{
    let mut max_screen: u32 = 0;
    let mut seen = false;
    consider_layer(l1, vertical, &mut seen, &mut max_screen, Ghost(Seq::empty()));
    let ghost a1 = Seq::<u32>::empty() + layer_screens(l1, vertical);
    let ghost a2 = a1 + match l2 {
        Some(l) => layer_screens(l, vertical),
        None => Seq::<u32>::empty(),
    };
    match l2 {
        Some(l) => {
            consider_layer(l, vertical, &mut seen, &mut max_screen, Ghost(a1));
        },
        None => {
            assert(a2 =~= a1);
        },
    }
    let ghost ss = sprite_screens(sprites.sprites@, vertical);
    let mut k: usize = 0;
    while k < sprites.sprites.len()
        invariant
            k <= sprites.sprites.len(),
            ss == sprite_screens(sprites.sprites@, vertical),
            seen == ((a2 + ss.take(k as int)).len() > 0),
            max_screen == seq_max(a2 + ss.take(k as int)),
        decreases sprites.sprites.len() - k,
    {
        let sp = sprites.sprites[k];
        let s = axis_screen(sp.x, sp.y, vertical);
        proof {
            lemma_seq_max_push(a2 + ss.take(k as int), s);
            assert(a2 + ss.take(k + 1) =~= (a2 + ss.take(k as int)).push(s));
        }
        seen = true;
        if s > max_screen {
            max_screen = s;
        }
        k = k + 1;
    }
    let ghost all = occupied_screens(l1, l2, sprites, vertical);
    proof {
        assert(ss.take(sprites.sprites.len() as int) =~= ss);
        assert(a2 + ss =~= all);
        assert forall|i: int| 0 <= i < all.len() implies #[trigger] all[i] < screens_for(all) || screens_for(all) == 32 by {
            lemma_seq_max_bound(all, i);
        }
    }
    if !seen {
        return 1;
    }
    if max_screen >= MAX_SCREENS {
        MAX_SCREENS
    } else {
        max_screen + 1
    }
}

/// Whether a raw `$06FA00` scroll-extension byte means the table is
/// installed: a ROM that never had it installed reads `$FF`.
pub open spec fn scroll_ext_installed(raw: u8) -> bool {
    raw != 0xFF
}

fn is_installed(raw: u8) -> (b: bool)
    ensures
        b == scroll_ext_installed(raw),
{
    raw != SCROLL_EXT_ABSENT
}

/// Whether the Auto-Set Number of Screens recompute applies on this save:
/// the level's auto-set bit is on and the table is installed or is being
/// installed because the user touched a scroll-extension control.
pub fn auto_set_applies(scroll_ext_raw: u8, scroll_ext_dirty: bool, auto_set: bool) -> (b: bool)
    ensures
        b == ((scroll_ext_installed(scroll_ext_raw) || scroll_ext_dirty) && auto_set),
{
    (is_installed(scroll_ext_raw) || scroll_ext_dirty) && auto_set
}

/// Whether this save installs the `$06FA00` table: it was installed
/// already, separate H/V scroll mode is on, or a scroll-extension control
/// was touched.
pub fn scroll_ext_installs(scroll_ext_raw: u8, separate: bool, scroll_ext_dirty: bool) -> (b: bool)
    ensures
        b == (scroll_ext_installed(scroll_ext_raw) || separate || scroll_ext_dirty),
{
    is_installed(scroll_ext_raw) || separate || scroll_ext_dirty
}

} // verus!
