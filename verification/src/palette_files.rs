//! The shared palette tables and their `.spal` file bytes.
//!
//! The tables hold 8 rows of 12 colors for each of the BG, FG and sprite
//! groups; a file is the 288 colors as little-endian words, BG rows first,
//! then FG, then sprite, each row left to right.
use vstd::prelude::*;
use crate::le_bytes::{le16, push_u16, read_u16, words_le};

verus! {

/// Size of a shared palette file.
pub const SHARED_PALETTE_BYTES: usize = 576;

/// The shared palette tables.
#[derive(Clone, Copy, Debug, Default, PartialEq, Eq)]
pub struct SharedPaletteTables {
    pub bg: [[u16; 12]; 8],
    pub fg: [[u16; 12]; 8],
    pub sprite: [[u16; 12]; 8],
}

/// Color `j` (0..288) of the tables in file order.
pub open spec fn shared_word(t: SharedPaletteTables, j: int) -> u16 {
    let g = j / 96;
    let r = (j % 96) / 12;
    let c = j % 12;
    if g == 0 {
        t.bg[r][c]
    } else if g == 1 {
        t.fg[r][c]
    } else {
        t.sprite[r][c]
    }
}

impl View for SharedPaletteTables {
    type V = Seq<u16>;

    open spec fn view(&self) -> Seq<u16> {
        Seq::new(288, |j: int| shared_word(*self, j))
    }
}

/// Why a shared palette file was refused.
#[derive(Clone, Copy, Debug, PartialEq, Eq)]
pub enum PaletteFileError {
    /// The file is not exactly 576 bytes long.
    WrongSize(usize),
}

impl PaletteFileError {
    /// The message shown for the error.
    pub fn message(&self) -> (s: String)
        ensures
            s@ == "shared palette file must be exactly 576 bytes"@,
    {
        match self {
            PaletteFileError::WrongSize(_) => String::from_str("shared palette file must be exactly 576 bytes"),
        }
    }
}

impl SharedPaletteTables {
    /// All-black tables.
    pub fn zeroed() -> (t: Self)
        ensures
            t@ == Seq::new(288, |_j: int| 0u16),
    {
        let t = SharedPaletteTables { bg: [[0u16; 12]; 8], fg: [[0u16; 12]; 8], sprite: [[0u16; 12]; 8] };
        assert(t@ =~= Seq::new(288, |_j: int| 0u16));
        t
    }

    /// The tables of a 576-byte file.
    pub fn from_bytes(bytes: &Vec<u8>) -> (r: Result<Self, PaletteFileError>)
        ensures
            match r {
                Ok(t) => bytes@.len() == 576 && t@ == Seq::new(288, |j: int| le16(bytes@, 2 * j) as u16),
                Err(e) => bytes@.len() != 576 && e == PaletteFileError::WrongSize(bytes@.len() as usize),
            },
    {
        if bytes.len() != SHARED_PALETTE_BYTES {
            return Err(PaletteFileError::WrongSize(bytes.len()));
        }
        let mut t = SharedPaletteTables::zeroed();
        let mut j: usize = 0;
        while j < 288
            invariant
                j <= 288,
                bytes@.len() == 576,
                forall|k: int| 0 <= k < j ==> #[trigger] shared_word(t, k) == le16(bytes@, 2 * k) as u16,
            decreases 288 - j,
        {
            let w = read_u16(bytes, 2 * j);
            let g = j / 96;
            let r = (j % 96) / 12;
            let c = j % 12;
            let ghost t0 = t;
            if g == 0 {
                t.bg[r][c] = w;
            } else if g == 1 {
                t.fg[r][c] = w;
            } else {
                t.sprite[r][c] = w;
            }
            proof {
                assert forall|k: int| 0 <= k < j + 1 implies #[trigger] shared_word(t, k) == le16(bytes@, 2 * k) as u16 by {
                    if k < j {
                        assert(shared_word(t, k) == shared_word(t0, k));
                    }
                }
            }
            j = j + 1;
        }
        assert(t@ =~= Seq::new(288, |j: int| le16(bytes@, 2 * j) as u16));
        Ok(t)
    }

    /// The file bytes of the tables.
    pub fn to_bytes(&self) -> (r: Vec<u8>)
        ensures
            r@ == words_le(self@),
    {
        let mut out: Vec<u8> = Vec::new();
        let mut j: usize = 0;
        while j < 288
            invariant
                j <= 288,
                out@ == words_le(self@.take(j as int)),
            decreases 288 - j,
        {
            let g = j / 96;
            let r = (j % 96) / 12;
            let c = j % 12;
            let w = if g == 0 {
                self.bg[r][c]
            } else if g == 1 {
                self.fg[r][c]
            } else {
                self.sprite[r][c]
            };
            push_u16(&mut out, w);
            proof {
                crate::le_bytes::lemma_words_le_push(self@.take(j as int), w);
                assert(self@.take(j + 1) =~= self@.take(j as int).push(w));
            }
            j = j + 1;
        }
        assert(self@.take(288) =~= self@);
        out
    }
}

} // verus!
