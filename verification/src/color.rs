//! Color tables: packed 24-bit RGB entries in a borrowed byte slice.

use vstd::prelude::*;
use vstd::arithmetic::power2::{pow2, lemma2_to64};
use embedded_graphics::pixelcolor::raw::RawU24;
use embedded_graphics::pixelcolor::Rgb888;
use embedded_graphics::prelude::{RawData, RgbColor};

verus! {

/// A color of three 8-bit channels.
#[derive(Copy, Clone, Debug, PartialEq, Eq, Hash)]
pub struct Rgb {
    pub r: u8,
    pub g: u8,
    pub b: u8,
}

/// Makes an `Rgb888` of the low 24 bits of `raw`, as
/// `Rgb888::from(RawU24::from_u32(raw))` does, and reads its channels back:
/// red is bits 16 to 23, green bits 8 to 15, blue bits 0 to 7.
#[verifier::external_body]
fn rgb888_channels(raw: u32) -> (c: Rgb)
    ensures
        c.r == ((raw >> 16) & 0xff) as u8,
        c.g == ((raw >> 8) & 0xff) as u8,
        c.b == (raw & 0xff) as u8,
{
    let color: Rgb888 = RawU24::from_u32(raw).into();
    Rgb { r: color.r(), g: color.g(), b: color.b() }
}

/// The entry at `index` of a color table held in `bytes`: three bytes, red
/// first. `None` from the number of whole entries on.
pub open spec fn color_at(bytes: Seq<u8>, index: int) -> Option<Rgb> {
    if 0 <= index < bytes.len() / 3 {
        Some(Rgb { r: bytes[3 * index], g: bytes[3 * index + 1], b: bytes[3 * index + 2] })
    } else {
        None
    }
}

/// The number of entries of the color table that a packed flags byte
/// announces: none without bit 7, else two to the power of its low three
/// bits plus one.
pub open spec fn color_count(flags: u8) -> nat {
    if flags & 0x80 != 0 {
        pow2(((flags & 0x07) + 1) as nat)
    } else {
        0
    }
}

/// The number of bytes that the announced color table takes.
pub(crate) fn color_table_bytes(flags: u8) -> (n: usize)
    ensures
        n == 3 * color_count(flags),
        n <= 768,
        n > 0 <==> flags & 0x80 != 0,
{
    if flags & 0x80 != 0 {
        assert(flags & 0x07 <= 7) by (bit_vector);
        let exp: u8 = (flags & 0x07) + 1;
        proof {
            lemma2_to64();
        }
        assert(1 <= exp <= 8 ==> (1usize << (exp as usize)) == (if exp == 1 {
            2usize
        } else if exp == 2 {
            4usize
        } else if exp == 3 {
            8usize
        } else if exp == 4 {
            16usize
        } else if exp == 5 {
            32usize
        } else if exp == 6 {
            64usize
        } else if exp == 7 {
            128usize
        } else {
            256usize
        })) by (bit_vector);
        3 * (1usize << (exp as usize))
    } else {
        0
    }
}

/// A color table over borrowed bytes.
#[derive(Debug, Clone, Copy, PartialEq, Eq, PartialOrd, Ord, Hash)]
pub struct ColorTable<'a> {
    data: &'a [u8],
}

impl<'a> View for ColorTable<'a> {
    type V = Seq<u8>;

    /// The bytes of the table.
    closed spec fn view(&self) -> Seq<u8> {
        self.data@
    }
}

impl<'a> ColorTable<'a> {
    /// Reads `data` as a color table.
    pub fn new(data: &'a [u8]) -> (table: Self)
        ensures
            table@ == data@,
    {
        Self { data }
    }

    /// Returns the number of entries.
    pub fn len(&self) -> (n: usize)
        ensures
            n == self@.len() / 3,
    {
        self.data.len() / 3
    }

    /// Returns a color table entry.
    ///
    /// `None` is returned if `index` is out of bounds.
    pub fn get(&self, index: u8) -> (color: Option<Rgb>)
        ensures
            color == color_at(self@, index as int),
    {
        if index as usize >= self.data.len() / 3 {
            return None;
        }
        let base: usize = 3 * (index as usize);
        let r = self.data[base];
        let g = self.data[base + 1];
        let b = self.data[base + 2];
        let raw: u32 = (r as u32) << 16 | (g as u32) << 8 | (b as u32);
        assert(((raw >> 16) & 0xff) as u8 == r && ((raw >> 8) & 0xff) as u8 == g && (raw
            & 0xff) as u8 == b) by (bit_vector)
            requires
                raw == (r as u32) << 16 | (g as u32) << 8 | (b as u32),
        ;
        Some(rgb888_channels(raw))
    }
}

/// A color table entry depends on nothing but the table's bytes and the
/// index: tables over equal bytes hold equal entries.
pub proof fn lemma_color_is_function_of_bytes(a: ColorTable, b: ColorTable, index: u8)
    requires
        a@ == b@,
    ensures
        color_at(a@, index as int) == color_at(b@, index as int),
{
}

} // verus!
