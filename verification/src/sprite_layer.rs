//! The editable sprite layer of a level and the pixel bounds of a sprite's
//! OAM tiles.
use vstd::prelude::*;

verus! {

/// One sprite, at absolute level tile coordinates.
#[derive(Clone, Copy, Debug, Default, PartialEq, Eq)]
pub struct EditableSprite {
    pub x: u32,
    pub y: u32,
    pub sprite_id: u8,
    pub extra_bits: u8,
}

/// A level's sprites, in sprite-data order.
#[derive(Clone, Debug, Default, PartialEq, Eq)]
pub struct EditableSpriteLayer {
    pub sprites: Vec<EditableSprite>,
}

/// One OAM tile of a sprite as drawn: its offset in pixels from the
/// sprite's position, and whether it is 16x16 (else 8x8).
#[derive(Clone, Copy, Debug, Default, PartialEq, Eq)]
pub struct OamTile {
    pub dx: i32,
    pub dy: i32,
    pub is_16x16: bool,
}

/// The side of an OAM tile in pixels.
pub open spec fn oam_size(t: OamTile) -> int {
    if t.is_16x16 {
        16
    } else {
        8
    }
}

pub open spec fn min_i(a: int, b: int) -> int {
    if a <= b {
        a
    } else {
        b
    }
}

pub open spec fn max_i(a: int, b: int) -> int {
    if a >= b {
        a
    } else {
        b
    }
}

/// `(min dx, min dy, max right edge, max bottom edge)` over the first `n`
/// tiles, starting from the empty bounds.
pub open spec fn bounds_below(tiles: Seq<OamTile>, n: int) -> (int, int, int, int)
    decreases n,
{
    if n <= 0 {
        (i32::MAX as int, i32::MAX as int, i32::MIN as int, i32::MIN as int)
    } else {
        let (a, b, c, d) = bounds_below(tiles, n - 1);
        let t = tiles[n - 1];
        (min_i(a, t.dx as int), min_i(b, t.dy as int), max_i(c, t.dx + oam_size(t)), max_i(d, t.dy + oam_size(t)))
    }
}

/// The tiles' offsets leave room for their size in `i32`.
pub open spec fn oam_fits(tiles: Seq<OamTile>) -> bool {
    forall|i: int| 0 <= i < tiles.len() ==> #[trigger] tiles[i].dx + 16 <= i32::MAX && tiles[i].dy + 16 <= i32::MAX
}

/// The pixel bounds `(left, top, right, bottom)` of a sprite's OAM tiles
/// relative to its position (right and bottom exclusive); none for a sprite
/// without tiles.
pub fn oam_pixel_bounds(tiles: &Vec<OamTile>) -> (r: Option<(i32, i32, i32, i32)>)
    requires
        oam_fits(tiles@),
    ensures
        tiles@.len() == 0 ==> r is None,
        tiles@.len() > 0 ==> (r matches Some((a, b, c, d)) && bounds_below(tiles@, tiles@.len() as int) == (
            a as int,
            b as int,
            c as int,
            d as int,
        )),
{
    if tiles.len() == 0 {
        return None;
    }
    let mut min_x = i32::MAX;
    let mut min_y = i32::MAX;
    let mut max_x = i32::MIN;
    let mut max_y = i32::MIN;
    let mut i: usize = 0;
    while i < tiles.len()
        invariant
            i <= tiles@.len(),
            oam_fits(tiles@),
            bounds_below(tiles@, i as int) == (min_x as int, min_y as int, max_x as int, max_y as int),
        decreases tiles.len() - i,
    {
        let t = tiles[i];
        assert(tiles@[i as int].dx + 16 <= i32::MAX);
        let size: i32 = if t.is_16x16 { 16 } else { 8 };
        min_x = if t.dx < min_x { t.dx } else { min_x };
        min_y = if t.dy < min_y { t.dy } else { min_y };
        max_x = if t.dx + size > max_x { t.dx + size } else { max_x };
        max_y = if t.dy + size > max_y { t.dy + size } else { max_y };
        i = i + 1;
    }
    Some((min_x, min_y, max_x, max_y))
}

} // verus!
