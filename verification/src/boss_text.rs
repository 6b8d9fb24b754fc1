//! Boss-message previews: the cache hash of a message's tiles and the
//! rendering of a strip of 2bpp font tiles.
use vstd::prelude::*;

verus! {

/// The tiles of a message's commands, one after the other.
pub open spec fn all_tiles(commands: Seq<Seq<u8>>) -> Seq<u8>
    decreases commands.len(),
{
    if commands.len() == 0 {
        Seq::empty()
    } else {
        all_tiles(commands.drop_last()) + commands.last()
    }
}

/// `hash * 31 + t` over the tiles, wrapping at 64 bits.
pub open spec fn tiles_hash(tiles: Seq<u8>) -> u64
    decreases tiles.len(),
{
    if tiles.len() == 0 {
        0
    } else {
        ((tiles_hash(tiles.drop_last()) * 31 + tiles.last()) % 0x1_0000_0000_0000_0000) as u64
    }
}

fn hash_step(h: u64, t: u8) -> (r: u64)
    ensures
        r == ((h * 31 + t) % 0x1_0000_0000_0000_0000) as u64,
{
    let m = h.wrapping_mul(31);
    let r = m.wrapping_add(t as u64);
    assert(m == (h * 31) % 0x1_0000_0000_0000_0000);
    assert(r == (m + t) % 0x1_0000_0000_0000_0000);
    assert(((h * 31) % 0x1_0000_0000_0000_0000 + t) % 0x1_0000_0000_0000_0000 == (h * 31 + t) % 0x1_0000_0000_0000_0000) by (nonlinear_arith);
    r
}

/// Hash of a message's tiles, for invalidating its cached preview.
pub fn byte_hash_msg(commands: &Vec<Vec<u8>>) -> (r: u64)
    ensures
        r == tiles_hash(all_tiles(commands@.map_values(|c: Vec<u8>| c@))),
{
    let ghost cs = commands@.map_values(|c: Vec<u8>| c@);
    let mut hash: u64 = 0;
    let mut i: usize = 0;
    while i < commands.len()
        invariant
            i <= commands.len(),
            cs == commands@.map_values(|c: Vec<u8>| c@),
            hash == tiles_hash(all_tiles(cs.take(i as int))),
        decreases commands.len() - i,
    {
        let cmd = &commands[i];
        let ghost base = all_tiles(cs.take(i as int));
        let mut j: usize = 0;
        while j < cmd.len()
            invariant
                j <= cmd.len(),
                hash == tiles_hash(base + cmd@.take(j as int)),
            decreases cmd.len() - j,
        {
            let ghost prev = base + cmd@.take(j as int);
            hash = hash_step(hash, cmd[j]);
            proof {
                assert((base + cmd@.take(j + 1)).drop_last() =~= prev);
            }
            j = j + 1;
        }
        proof {
            assert(cs.take(i + 1).drop_last() =~= cs.take(i as int));
            assert(cmd@.take(cmd@.len() as int) =~= cmd@);
            assert(cs[i as int] == cmd@);
        }
        i = i + 1;
    }
    assert(cs.take(commands.len() as int) =~= cs);
    hash
}

/// The gray levels of the four 2bpp font colors; a color past the last one
/// shows as the last.
pub open spec fn font_shade(c: u8) -> u8 {
    if c == 0 {
        0
    } else if c == 1 {
        255
    } else if c == 2 {
        128
    } else {
        192
    }
}

/// The font tile shown for tile number `t`: its number without the top bit,
/// modulo the font size `n`.
pub open spec fn font_slot(t: u8, n: int) -> int {
    (t % 128) as int % n
}

/// Pixel `(px, py)` of a strip of 8x8 font tiles: the tile under `px` (its
/// number without the top bit, modulo the font size), shaded, and black past
/// the last tile.
pub open spec fn strip_pixel(tiles: Seq<u8>, font: Seq<Seq<u8>>, px: int, py: int) -> u8 {
    if px < tiles.len() * 8 {
        let t = tiles[px / 8];
        let tile = font[font_slot(t, font.len() as int)];
        font_shade(tile[py * 8 + px % 8])
    } else {
        0
    }
}

/// Width in pixels of the strip image of `n` tiles (at least one tile wide).
pub open spec fn strip_width(n: int) -> int {
    if n * 8 > 8 {
        n * 8
    } else {
        8
    }
}

/// The RGB bytes of the strip image, `w` pixels wide and 8 high, row by
/// row, three equal bytes per pixel.
pub open spec fn strip_image(tiles: Seq<u8>, font: Seq<Seq<u8>>, w: int) -> Seq<u8> {
    Seq::new((w * 24) as nat, |j: int| strip_pixel(tiles, font, (j / 3) % w, (j / 3) / w))
}

proof fn lemma_strip_position(w: int, px: int, py: int, c: int)
    requires
        0 <= px < w,
        0 <= py,
        0 <= c < 3,
    ensures
        ((py * w + px) * 3 + c) / 3 == py * w + px,
        (py * w + px) % w == px,
        (py * w + px) / w == py,
{
    vstd::arithmetic::div_mod::lemma_fundamental_div_mod_converse((py * w + px) * 3 + c, 3, py * w + px, c);
    vstd::arithmetic::div_mod::lemma_fundamental_div_mod_converse(py * w + px, w, py, px);
}

/// Renders a strip of 8x8 font tiles (64 color indices each) as an RGB
/// image; returns its width with the bytes.
pub fn rasterize_tiles_strip(tiles: &Vec<u8>, font: &Vec<Vec<u8>>) -> (r: (u32, Vec<u8>))
    requires
        tiles@.len() * 8 <= u32::MAX,
        font@.len() > 0,
        forall|i: int| 0 <= i < tiles@.len() ==> #[trigger] font@[font_slot(tiles@[i], font@.len() as int)]@.len() >= 64,
    ensures
        r.0 == strip_width(tiles@.len() as int),
        r.1@ == strip_image(tiles@, font@.map_values(|f: Vec<u8>| f@), r.0 as int),
{
    let n = tiles.len();
    let w: u32 = if n * 8 > 8 { (n * 8) as u32 } else { 8 };
    let ghost fv = font@.map_values(|f: Vec<u8>| f@);
    let ghost target = strip_image(tiles@, fv, w as int);
    let mut img: Vec<u8> = Vec::new();
    let mut py: usize = 0;
    while py < 8
        invariant
            py <= 8,
            n == tiles@.len(),
            n * 8 <= u32::MAX,
            w == strip_width(n as int),
            w >= 8,
            fv == font@.map_values(|f: Vec<u8>| f@),
            target == strip_image(tiles@, fv, w as int),
            font@.len() > 0,
            forall|i: int| 0 <= i < tiles@.len() ==> #[trigger] font@[font_slot(tiles@[i], font@.len() as int)]@.len() >= 64,
            img@.len() == py * w * 3,
            img@ =~= target.take(img@.len() as int),
        decreases 8 - py,
    {
        let mut px: u32 = 0;
        while px < w
            invariant
                py < 8,
                px <= w,
                n == tiles@.len(),
                n * 8 <= u32::MAX,
                w == strip_width(n as int),
                w >= 8,
                fv == font@.map_values(|f: Vec<u8>| f@),
                target == strip_image(tiles@, fv, w as int),
                font@.len() > 0,
                forall|i: int| 0 <= i < tiles@.len() ==> #[trigger] font@[font_slot(tiles@[i], font@.len() as int)]@.len() >= 64,
                img@.len() == (py * w + px) * 3,
                img@ =~= target.take(img@.len() as int),
            decreases w - px,
        {
            let shade: u8 = if (px as usize) < n * 8 {
                let t = tiles[(px / 8) as usize];
                let slot = ((t % 128) as usize) % font.len();
                assert(font@[font_slot(tiles@[(px / 8) as int], font@.len() as int)]@.len() >= 64);
                assert(slot == font_slot(t, font@.len() as int));
                let f = &font[slot];
                let c = f[py * 8 + (px % 8) as usize];
                if c == 0 {
                    0
                } else if c == 1 {
                    255
                } else if c == 2 {
                    128
                } else {
                    192
                }
            } else {
                0
            };
            proof {
                assert(py * w + px < 8 * w) by (nonlinear_arith)
                    requires
                        py < 8,
                        px < w,
                ;
                assert(shade == strip_pixel(tiles@, fv, px as int, py as int));
            }
            let ghost base = img@.len() as int;
            let mut c: usize = 0;
            while c < 3
                invariant
                    c <= 3,
                    py < 8,
                    px < w,
                    base == (py * w + px) * 3,
                    (py * w + px) < 8 * w,
                    target == strip_image(tiles@, fv, w as int),
                    shade == strip_pixel(tiles@, fv, px as int, py as int),
                    img@.len() == base + c,
                    img@ =~= target.take(img@.len() as int),
                decreases 3 - c,
            {
                proof {
                    lemma_strip_position(w as int, px as int, py as int, c as int);
                    assert(base + c < w * 24) by (nonlinear_arith)
                        requires
                            base == (py * w + px) * 3,
                            py * w + px < 8 * w,
                            c < 3,
                    ;
                }
                img.push(shade);
                c = c + 1;
            }
            px = px + 1;
            proof {
                assert(img@.len() == (py * w + px) * 3) by (nonlinear_arith)
                    requires
                        img@.len() == base + 3,
                        base == (py * w + (px - 1)) * 3,
                ;
            }
        }
        py = py + 1;
        proof {
            assert(img@.len() == py * w * 3) by (nonlinear_arith)
                requires
                    img@.len() == ((py - 1) * w + w) * 3,
            ;
        }
    }
    proof {
        assert(img@.len() == w * 24);
        assert(target.len() == w * 24);
        assert(img@ =~= target);
    }
    (w, img)
}

} // verus!
