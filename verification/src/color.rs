use vstd::prelude::*;

verus! {

/// An RGB color with one byte per channel.
#[derive(Clone, Copy, Debug, PartialEq, Eq, Structural)]
pub struct Color {
    pub r: u8,
    pub g: u8,
    pub b: u8,
}

/// The packed `0xRRGGBB` form of a color.
pub open spec fn hex_of(c: Color) -> u32 {
    (c.r as int * 65536 + c.g as int * 256 + c.b as int) as u32
}

/// The color whose channels are the low three bytes of `hex` (`0xRRGGBB`);
/// the top byte is ignored.
pub open spec fn color_of_hex(hex: u32) -> Color {
    Color {
        r: ((hex as int / 65536) % 256) as u8,
        g: ((hex as int / 256) % 256) as u8,
        b: (hex as int % 256) as u8,
    }
}

impl Color {
    /// Builds a color from its three channels.
    pub fn new(r: u8, g: u8, b: u8) -> (c: Color)
        ensures
            c == (Color { r, g, b }),
    {
        Color { r, g, b }
    }

    /// Unpacks a `0xRRGGBB` value.
    pub fn from_hex(hex: u32) -> (c: Color)
        ensures
            c == color_of_hex(hex),
    {
        let r = ((hex >> 16) & 0xFF) as u8;
        let g = ((hex >> 8) & 0xFF) as u8;
        let b = (hex & 0xFF) as u8;
        assert(((hex >> 16) & 0xFF) == (hex / 65536) % 256) by (bit_vector);
        assert(((hex >> 8) & 0xFF) == (hex / 256) % 256) by (bit_vector);
        assert((hex & 0xFF) == hex % 256) by (bit_vector);
        Color { r, g, b }
    }

    /// Packs the color as `0xRRGGBB`.
    pub fn to_hex(&self) -> (hex: u32)
        ensures
            hex == hex_of(*self),
            hex as int == self.r as int * 65536 + self.g as int * 256 + self.b as int,
    {
        let r = self.r as u32;
        let g = self.g as u32;
        let b = self.b as u32;
        assert(r < 256 && g < 256 && b < 256);
        assert((r << 16) | (g << 8) | b == r * 65536 + g * 256 + b) by (bit_vector)
            requires
                r < 256u32,
                g < 256u32,
                b < 256u32,
        ;
        (r << 16) | (g << 8) | b
    }
}

/// Unpacking a packed color gives the color back.
pub proof fn lemma_hex_round_trip(c: Color)
    ensures
        color_of_hex(hex_of(c)) == c,
{
    let h = c.r as int * 65536 + c.g as int * 256 + c.b as int;
    assert(0 <= h < 0x1000000);
    assert(h / 65536 == c.r as int) by (nonlinear_arith)
        requires
            h == c.r as int * 65536 + c.g as int * 256 + c.b as int,
            0 <= c.g < 256,
            0 <= c.b < 256,
    ;
    assert(h / 256 == c.r as int * 256 + c.g as int) by (nonlinear_arith)
        requires
            h == c.r as int * 65536 + c.g as int * 256 + c.b as int,
            0 <= c.b < 256,
    ;
    assert((c.r as int * 256 + c.g as int) % 256 == c.g as int) by (nonlinear_arith)
        requires
            0 <= c.g < 256,
            0 <= c.r,
    ;
    assert(h % 256 == c.b as int) by (nonlinear_arith)
        requires
            h == c.r as int * 65536 + c.g as int * 256 + c.b as int,
            0 <= c.b < 256,
            0 <= c.r,
            0 <= c.g,
    ;
}

/// Packing the unpacked value of `hex` keeps its low three bytes and clears the top one.
pub proof fn lemma_unpack_pack(hex: u32)
    ensures
        hex_of(color_of_hex(hex)) == hex % 0x1000000,
{
    let h = hex as int;
    let r = (h / 65536) % 256;
    let g = (h / 256) % 256;
    let b = h % 256;
    assert(r * 65536 + g * 256 + b == h % 0x1000000) by (nonlinear_arith)
        requires
            r == (h / 65536) % 256,
            g == (h / 256) % 256,
            b == h % 256,
            0 <= h,
    {
        assert(h == 256 * (h / 256) + h % 256);
        assert(h / 256 == 256 * (h / 65536) + (h / 256) % 256);
        assert(h / 65536 == 256 * (h / 0x1000000) + (h / 65536) % 256);
        assert(h == 0x1000000 * (h / 0x1000000) + h % 0x1000000);
    }
}

} // verus!
