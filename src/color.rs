//! Packed `0x00RRGGBB` pixels and 8-bit RGBA colours.
//!
//! A channel value `k` stands for the intensity `k / 255`; alpha likewise, so
//! `a == 255` is fully opaque and `a == 0` fully transparent.
use vstd::prelude::*;

verus! {

/// The largest channel value, standing for intensity 1.
pub const CHANNEL_MAX: u8 = 255;

/// The packed value of three 8-bit channels: red in bits 16..24, green in
/// bits 8..16, blue in bits 0..8.
pub open spec fn packed(r: int, g: int, b: int) -> int {
    r * 0x10000 + g * 0x100 + b
}

/// Red channel of a packed pixel.
pub open spec fn red_of(p: u32) -> int {
    (p as int / 0x10000) % 0x100
}

/// Green channel of a packed pixel.
pub open spec fn green_of(p: u32) -> int {
    (p as int / 0x100) % 0x100
}

/// Blue channel of a packed pixel.
pub open spec fn blue_of(p: u32) -> int {
    p as int % 0x100
}

/// One channel of `src` laid with opacity `a` over the channel `dst`:
/// `dst * (1 - a) + src * a` in units of `1 / 255`, rounded down.
pub open spec fn blend_channel(dst: int, src: int, a: int) -> int {
    (dst * (255 - a) + src * a) / 255
}

/// An RGBA colour with 8-bit channels.
#[derive(Clone, Copy, Debug, PartialEq, Eq, Structural)]
pub struct Color {
    pub r: u8,
    pub g: u8,
    pub b: u8,
    pub a: u8,
}

/// Packs three 8-bit channels into a `0x00RRGGBB` pixel.
pub fn rgb_u8_to_u32(r: u8, g: u8, b: u8) -> (p: u32)
    ensures
        p == packed(r as int, g as int, b as int),
{
    let p = ((r as u32) << 16u32) | ((g as u32) << 8u32) | (b as u32);
    assert(p == (r as u32) * 0x10000u32 + (g as u32) * 0x100u32 + (b as u32)) by (bit_vector)
        requires
            p == ((r as u32) << 16u32) | ((g as u32) << 8u32) | (b as u32),
    ;
    p
}

/// Packs three 8-bit channels into a `0x00RRGGBB` pixel.
pub fn rgb2u32(r: u8, g: u8, b: u8) -> (p: u32)
    ensures
        p == packed(r as int, g as int, b as int),
{
    rgb_u8_to_u32(r, g, b)
}

/// Splits a packed pixel into its red, green and blue channels; the top
/// eight bits are ignored.
pub fn rgb_u8_from_u32(p: u32) -> (rgb: (u8, u8, u8))
    ensures
        rgb.0 == red_of(p),
        rgb.1 == green_of(p),
        rgb.2 == blue_of(p),
{
    let r = ((p >> 16u32) & 0xFFu32) as u8;
    let g = ((p >> 8u32) & 0xFFu32) as u8;
    let b = (p & 0xFFu32) as u8;
    assert(((p >> 16u32) & 0xFFu32) == (p / 0x10000u32) % 0x100u32) by (bit_vector);
    assert(((p >> 8u32) & 0xFFu32) == (p / 0x100u32) % 0x100u32) by (bit_vector);
    assert((p & 0xFFu32) == p % 0x100u32) by (bit_vector);
    (r, g, b)
}

/// Packing and unpacking are inverse on the three channels.
pub proof fn lemma_packed_channels(r: int, g: int, b: int)
    requires
        0 <= r < 256,
        0 <= g < 256,
        0 <= b < 256,
    ensures
        0 <= packed(r, g, b) < 0x100_0000,
        red_of(packed(r, g, b) as u32) == r,
        green_of(packed(r, g, b) as u32) == g,
        blue_of(packed(r, g, b) as u32) == b,
{
    let p = packed(r, g, b);
    assert(p / 0x10000 == r) by (nonlinear_arith)
        requires p == r * 0x10000 + g * 0x100 + b, 0 <= g < 256, 0 <= b < 256, 0 <= r;
    assert(p / 0x100 == r * 0x100 + g) by (nonlinear_arith)
        requires p == r * 0x10000 + g * 0x100 + b, 0 <= b < 256, 0 <= r, 0 <= g;
    assert((r * 0x100 + g) % 0x100 == g) by (nonlinear_arith)
        requires 0 <= g < 256, 0 <= r;
    assert(p % 0x100 == b) by (nonlinear_arith)
        requires p == r * 0x10000 + g * 0x100 + b, 0 <= b < 256, 0 <= r, 0 <= g;
}

/// A pixel's packed value is determined by its three channels.
pub proof fn lemma_channels_packed(p: u32)
    requires
        p < 0x100_0000,
    ensures
        packed(red_of(p), green_of(p), blue_of(p)) == p,
{
    let q = p as int;
    assert(packed((q / 0x10000) % 0x100, (q / 0x100) % 0x100, q % 0x100) == q) by (nonlinear_arith)
        requires 0 <= q < 0x100_0000;
}

impl Color {
    pub fn new(r: u8, g: u8, b: u8, a: u8) -> (c: Color)
        ensures
            c == (Color { r, g, b, a }),
    {
        Color { r, g, b, a }
    }

    /// The packed `0x00RRGGBB` pixel of this colour; alpha is not kept.
    pub fn as_u32(&self) -> (p: u32)
        ensures
            p == packed(self.r as int, self.g as int, self.b as int),
    {
        rgb_u8_to_u32(self.r, self.g, self.b)
    }

    /// The opaque colour of a packed pixel: alpha is always set to 255.
    pub fn from_u32(p: u32) -> (c: Color)
        ensures
            c.r == red_of(p),
            c.g == green_of(p),
            c.b == blue_of(p),
            c.a == CHANNEL_MAX,
    {
        let (r, g, b) = rgb_u8_from_u32(p);
        Color { r, g, b, a: CHANNEL_MAX }
    }
}

/// `src` laid over `dst` with `src`'s opacity: each channel is
/// `dst * (1 - src.a) + src * src.a`, and the result takes `src.a`.
pub fn alpha_blend(dst: &Color, src: &Color) -> (c: Color)
    ensures
        c.r == blend_channel(dst.r as int, src.r as int, src.a as int),
        c.g == blend_channel(dst.g as int, src.g as int, src.a as int),
        c.b == blend_channel(dst.b as int, src.b as int, src.a as int),
        c.a == src.a,
{
    Color {
        r: blend_u8(dst.r, src.r, src.a),
        g: blend_u8(dst.g, src.g, src.a),
        b: blend_u8(dst.b, src.b, src.a),
        a: src.a,
    }
}

fn blend_u8(dst: u8, src: u8, a: u8) -> (c: u8)
    ensures
        c == blend_channel(dst as int, src as int, a as int),
{
    let d = dst as u32;
    let s = src as u32;
    let t = a as u32;
    assert(d * (255 - t) + s * t <= 255 * 255) by (nonlinear_arith)
        requires d <= 255, s <= 255, t <= 255;
    let v = (d * (255 - t) + s * t) / 255;
    v as u8
}

/// Decoding a packed pixel and packing it again gives the same pixel, and
/// decoding always yields an opaque colour.
pub proof fn lemma_color_round_trip(r: u8, g: u8, b: u8)
    ensures
        ({
            let p = packed(r as int, g as int, b as int);
            &&& 0 <= p < 0x100_0000
            &&& packed(red_of(p as u32), green_of(p as u32), blue_of(p as u32)) == p
            &&& red_of(p as u32) == r && green_of(p as u32) == g && blue_of(p as u32) == b
        }),
{
    lemma_packed_channels(r as int, g as int, b as int);
}

} // verus!
