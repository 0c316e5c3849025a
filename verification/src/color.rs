//! The renderer's packed pixel format.
//!
//! A pixel is a `u32` holding three 10-bit sRGB channels and a 2-bit alpha:
//! red in bits 22..32, green in bits 12..22, blue in bits 2..12 and alpha in
//! bits 0..2. Eight-bit channels are widened to ten bits with rounding, so
//! every 8-bit colour survives a pack/unpack round trip.

use vstd::prelude::*;

verus! {

/// Largest 10-bit channel value.
pub const TEN_BIT_MAX: u32 = 1023;
/// Largest 2-bit alpha value (fully opaque).
pub const TWO_BIT_MAX: u32 = 3;

/// An 8-bit-per-channel sRGB colour with straight alpha.
#[derive(Clone, Copy, Debug, PartialEq, Eq, Structural)]
pub struct Color {
    pub r: u8,
    pub g: u8,
    pub b: u8,
    pub a: u8,
}

impl Color {
    /// An opaque colour.
    pub fn rgb(r: u8, g: u8, b: u8) -> (c: Color)
        ensures
            c == (Color { r, g, b, a: 255 }),
    {
        Color { r, g, b, a: 255 }
    }

    /// A colour with the given alpha.
    pub fn rgba(r: u8, g: u8, b: u8, a: u8) -> (c: Color)
        ensures
            c == (Color { r, g, b, a }),
    {
        Color { r, g, b, a }
    }
}

// ---------------------------------------------------------------------------
// Mathematical model of the channel conversions and the bit layout.
// ---------------------------------------------------------------------------

/// `round(channel * 1023 / 255)`, rounding halves up.
pub open spec fn u8_to_u10(channel: int) -> int {
    (channel * 1023 + 127) / 255
}

/// `round(min(channel, 1023) * 255 / 1023)`, rounding halves up.
pub open spec fn u10_to_u8(channel: int) -> int {
    let c = if channel < 1023 { channel } else { 1023 };
    (c * 255 + 511) / 1023
}

/// `round(alpha * 3 / 255)`.
pub open spec fn u8_to_u2(alpha: int) -> int {
    (alpha * 3 + 127) / 255
}

/// The packed pixel with the given channels; each channel keeps only its
/// low bits (10 for colour, 2 for alpha).
pub open spec fn packed(red: int, green: int, blue: int, alpha: int) -> int {
    (red % 1024) * 4194304 + (green % 1024) * 4096 + (blue % 1024) * 4 + alpha % 4
}

/// The 10-bit red channel of a pixel.
pub open spec fn red_of(pixel: u32) -> int {
    (pixel as int / 4194304) % 1024
}

/// The 10-bit green channel of a pixel.
pub open spec fn green_of(pixel: u32) -> int {
    (pixel as int / 4096) % 1024
}

/// The 10-bit blue channel of a pixel.
pub open spec fn blue_of(pixel: u32) -> int {
    (pixel as int / 4) % 1024
}

/// The 2-bit alpha of a pixel.
pub open spec fn alpha_of(pixel: u32) -> int {
    pixel as int % 4
}

/// The pixel that `pack_rgb` produces for a colour.
pub open spec fn packed_rgb(color: Color) -> int {
    packed(u8_to_u10(color.r as int), u8_to_u10(color.g as int), u8_to_u10(color.b as int), 3)
}

/// The colour that `unpack_rgb` reads back from a pixel.
pub open spec fn unpacked_rgb(pixel: u32) -> Color {
    Color {
        r: u10_to_u8(red_of(pixel)) as u8,
        g: u10_to_u8(green_of(pixel)) as u8,
        b: u10_to_u8(blue_of(pixel)) as u8,
        a: 255,
    }
}

/// The `0x00RRGGBB` word of three 8-bit channels.
pub open spec fn softbuffer_word(red: int, green: int, blue: int) -> int {
    red * 65536 + green * 256 + blue
}

proof fn lemma_u8_to_u10_range(channel: int)
    requires
        0 <= channel <= 255,
    ensures
        0 <= u8_to_u10(channel) <= 1023,
{
}

// ---------------------------------------------------------------------------
// Channel conversions.
// ---------------------------------------------------------------------------

/// Widens an 8-bit channel to ten bits, rounding to the nearest value.
pub fn u8_to_u10_channel(channel: u8) -> (r: u16)
    ensures
        r as int == u8_to_u10(channel as int),
        r <= 1023,
{
    ((channel as u32 * TEN_BIT_MAX + 127) / 255) as u16
}

/// Narrows a 10-bit channel to eight bits, rounding to the nearest value;
/// values above 1023 count as 1023.
pub fn u10_to_u8_channel(channel: u16) -> (r: u8)
    ensures
        r as int == u10_to_u8(channel as int),
{
    let c: u32 = if (channel as u32) < TEN_BIT_MAX { channel as u32 } else { TEN_BIT_MAX };
    ((c * 255 + (TEN_BIT_MAX / 2)) / TEN_BIT_MAX) as u8
}

/// Narrows an 8-bit alpha to the two alpha bits of a pixel.
pub fn u8_to_u2_alpha(alpha: u8) -> (r: u16)
    ensures
        r as int == u8_to_u2(alpha as int),
        r <= 3,
{
    ((alpha as u32 * TWO_BIT_MAX + 127) / 255) as u16
}

// ---------------------------------------------------------------------------
// Bit layout.
// ---------------------------------------------------------------------------

/// Packs three 10-bit channels and a 2-bit alpha into a pixel, keeping the
/// low bits of each argument.
pub fn pack_internal_rgb_u10(red: u16, green: u16, blue: u16, alpha: u16) -> (r: u32)
    ensures
        r as int == packed(red as int, green as int, blue as int, alpha as int),
{
    let r32 = red as u32;
    let g32 = green as u32;
    let b32 = blue as u32;
    let a32 = alpha as u32;
    let result = ((r32 & 1023) << 22) | ((g32 & 1023) << 12) | ((b32 & 1023) << 2) | (a32 & 3);
    assert(result == (r32 % 1024) * 4194304 + (g32 % 1024) * 4096 + (b32 % 1024) * 4 + a32 % 4)
        by (bit_vector)
        requires
            r32 < 65536,
            g32 < 65536,
            b32 < 65536,
            a32 < 65536,
            result == ((r32 & 1023) << 22) | ((g32 & 1023) << 12) | ((b32 & 1023) << 2) | (a32
                & 3),
    ;
    result
}

/// The red channel of a pixel.
pub fn extract_red(pixel: u32) -> (r: u16)
    ensures
        r as int == red_of(pixel),
        r <= 1023,
{
    let v = (pixel >> 22) & 1023;
    assert(v == (pixel / 4194304) % 1024 && v <= 1023) by (bit_vector)
        requires
            v == (pixel >> 22) & 1023,
    ;
    v as u16
}

/// The green channel of a pixel.
pub fn extract_green(pixel: u32) -> (r: u16)
    ensures
        r as int == green_of(pixel),
        r <= 1023,
{
    let v = (pixel >> 12) & 1023;
    assert(v == (pixel / 4096) % 1024 && v <= 1023) by (bit_vector)
        requires
            v == (pixel >> 12) & 1023,
    ;
    v as u16
}

/// The blue channel of a pixel.
pub fn extract_blue(pixel: u32) -> (r: u16)
    ensures
        r as int == blue_of(pixel),
        r <= 1023,
{
    let v = (pixel >> 2) & 1023;
    assert(v == (pixel / 4) % 1024 && v <= 1023) by (bit_vector)
        requires
            v == (pixel >> 2) & 1023,
    ;
    v as u16
}

/// The alpha bits of a pixel.
pub fn extract_alpha(pixel: u32) -> (r: u16)
    ensures
        r as int == alpha_of(pixel),
        r <= 3,
{
    let v = pixel & 3;
    assert(v == pixel % 4 && v <= 3) by (bit_vector)
        requires
            v == pixel & 3,
    ;
    v as u16
}

/// Reading a channel back out of a packed pixel gives the low bits that
/// went in.
pub proof fn lemma_packed_channels(red: int, green: int, blue: int, alpha: int)
    requires
        0 <= red,
        0 <= green,
        0 <= blue,
        0 <= alpha,
    ensures
        0 <= packed(red, green, blue, alpha) <= u32::MAX,
        red_of(packed(red, green, blue, alpha) as u32) == red % 1024,
        green_of(packed(red, green, blue, alpha) as u32) == green % 1024,
        blue_of(packed(red, green, blue, alpha) as u32) == blue % 1024,
        alpha_of(packed(red, green, blue, alpha) as u32) == alpha % 4,
{
    let r = red % 1024;
    let g = green % 1024;
    let b = blue % 1024;
    let a = alpha % 4;
    let p = r * 4194304 + g * 4096 + b * 4 + a;
    assert(p == packed(red, green, blue, alpha));
    assert(0 <= p <= u32::MAX);
    assert(p / 4194304 == r) by (nonlinear_arith)
        requires
            p == r * 4194304 + g * 4096 + b * 4 + a,
            0 <= r < 1024,
            0 <= g < 1024,
            0 <= b < 1024,
            0 <= a < 4,
    ;
    assert(p / 4096 == r * 1024 + g) by (nonlinear_arith)
        requires
            p == r * 4194304 + g * 4096 + b * 4 + a,
            0 <= g < 1024,
            0 <= b < 1024,
            0 <= a < 4,
    ;
    assert((r * 1024 + g) % 1024 == g) by (nonlinear_arith)
        requires
            0 <= r,
            0 <= g < 1024,
    ;
    assert(p / 4 == r * 1048576 + g * 1024 + b) by (nonlinear_arith)
        requires
            p == r * 4194304 + g * 4096 + b * 4 + a,
            0 <= b < 1024,
            0 <= a < 4,
    ;
    assert((r * 1048576 + g * 1024 + b) % 1024 == b) by (nonlinear_arith)
        requires
            0 <= r,
            0 <= g,
            0 <= b < 1024,
    ;
    assert(p % 4 == a) by (nonlinear_arith)
        requires
            p == r * 4194304 + g * 4096 + b * 4 + a,
            0 <= r,
            0 <= g,
            0 <= b,
            0 <= a < 4,
    ;
}

// ---------------------------------------------------------------------------
// Packing colours.
// ---------------------------------------------------------------------------

/// Packs an opaque colour (its alpha is ignored).
pub fn pack_rgb(color: Color) -> (r: u32)
    ensures
        r as int == packed_rgb(color),
{
    pack_internal_rgb_u10(
        u8_to_u10_channel(color.r),
        u8_to_u10_channel(color.g),
        u8_to_u10_channel(color.b),
        TWO_BIT_MAX as u16,
    )
}

/// Packs a colour, quantising its alpha to two bits.
pub fn pack_rgba(color: Color) -> (r: u32)
    ensures
        r as int == packed(
            u8_to_u10(color.r as int),
            u8_to_u10(color.g as int),
            u8_to_u10(color.b as int),
            u8_to_u2(color.a as int),
        ),
{
    pack_internal_rgb_u10(
        u8_to_u10_channel(color.r),
        u8_to_u10_channel(color.g),
        u8_to_u10_channel(color.b),
        u8_to_u2_alpha(color.a),
    )
}

/// The fully transparent pixel: every bit clear.
pub fn pack_transparent() -> (r: u32)
    ensures
        r == 0,
{
    pack_internal_rgb_u10(0, 0, 0, 0)
}

/// Whether a pixel's alpha bits are all clear.
pub fn is_transparent(pixel: u32) -> (r: bool)
    ensures
        r == (alpha_of(pixel) == 0),
{
    extract_alpha(pixel) == 0
}

/// Reads an opaque 8-bit colour back from a pixel.
pub fn unpack_rgb(pixel: u32) -> (c: Color)
    ensures
        c == unpacked_rgb(pixel),
{
    Color::rgb(
        u10_to_u8_channel(extract_red(pixel)),
        u10_to_u8_channel(extract_green(pixel)),
        u10_to_u8_channel(extract_blue(pixel)),
    )
}

/// The three 10-bit channels of a pixel.
pub fn unpack_rgb10(pixel: u32) -> (r: (u16, u16, u16))
    ensures
        r.0 as int == red_of(pixel),
        r.1 as int == green_of(pixel),
        r.2 as int == blue_of(pixel),
{
    (extract_red(pixel), extract_green(pixel), extract_blue(pixel))
}

/// The pixel's alpha widened back to eight bits: 0, 85, 170 or 255.
pub fn unpack_alpha8(pixel: u32) -> (r: u8)
    ensures
        r as int == (alpha_of(pixel) * 255 + 1) / 3,
{
    ((extract_alpha(pixel) as u32 * 255 + (TWO_BIT_MAX / 2)) / TWO_BIT_MAX) as u8
}

/// The `0x00RRGGBB` word that a window surface expects, from a colour.
pub fn pack_softbuffer_rgb(color: Color) -> (r: u32)
    ensures
        r as int == softbuffer_word(color.r as int, color.g as int, color.b as int),
{
    pack_softbuffer_channels(color.r, color.g, color.b)
}

/// The `0x00RRGGBB` word of three 8-bit channels.
pub fn pack_softbuffer_channels(red: u8, green: u8, blue: u8) -> (r: u32)
    ensures
        r as int == softbuffer_word(red as int, green as int, blue as int),
{
    let r32 = red as u32;
    let g32 = green as u32;
    let b32 = blue as u32;
    let result = (r32 << 16) | (g32 << 8) | b32;
    assert(result == r32 * 65536 + g32 * 256 + b32) by (bit_vector)
        requires
            r32 < 256,
            g32 < 256,
            b32 < 256,
            result == (r32 << 16) | (g32 << 8) | b32,
    ;
    result
}

// ---------------------------------------------------------------------------
// Laws.
// ---------------------------------------------------------------------------

/// Narrowing a widened 8-bit channel gives the channel back.
pub proof fn lemma_u8_u10_round_trip(channel: int)
    requires
        0 <= channel <= 255,
    ensures
        u10_to_u8(u8_to_u10(channel)) == channel,
{
    let v = u8_to_u10(channel);
    assert(255 * v <= channel * 1023 + 127 && channel * 1023 + 127 < 255 * v + 255);
    assert(v <= 1023);
    let u = (v * 255 + 511) / 1023;
    assert(1023 * u <= v * 255 + 511 && v * 255 + 511 < 1023 * u + 1023);
}

/// Widening is monotonic: a larger 8-bit channel never maps below a smaller one.
pub proof fn lemma_u8_to_u10_monotonic(a: int, b: int)
    requires
        0 <= a <= b <= 255,
    ensures
        u8_to_u10(a) <= u8_to_u10(b),
{
    vstd::arithmetic::div_mod::lemma_div_is_ordered(a * 1023 + 127, b * 1023 + 127, 255);
}

/// Widening is strictly increasing, so distinct 8-bit channels get distinct
/// 10-bit values.
pub proof fn lemma_u8_to_u10_strictly_increasing(a: int, b: int)
    requires
        0 <= a < b <= 255,
    ensures
        u8_to_u10(a) < u8_to_u10(b),
{
    lemma_u8_u10_round_trip(a);
    lemma_u8_u10_round_trip(b);
    lemma_u8_to_u10_monotonic(a, b);
}

/// Every opaque 8-bit colour comes back unchanged from `pack_rgb` followed by
/// `unpack_rgb`.
pub proof fn lemma_pack_unpack_rgb_round_trip(color: Color)
    ensures
        0 <= packed_rgb(color) <= u32::MAX,
        unpacked_rgb(packed_rgb(color) as u32) == Color::rgb_spec(color),
{
    lemma_u8_to_u10_range(color.r as int);
    lemma_u8_to_u10_range(color.g as int);
    lemma_u8_to_u10_range(color.b as int);
    lemma_packed_channels(
        u8_to_u10(color.r as int),
        u8_to_u10(color.g as int),
        u8_to_u10(color.b as int),
        3,
    );
    lemma_u8_u10_round_trip(color.r as int);
    lemma_u8_u10_round_trip(color.g as int);
    lemma_u8_u10_round_trip(color.b as int);
}

/// `pack_rgb` gives an opaque pixel and `pack_transparent` a transparent one.
pub proof fn lemma_transparency_of_packed_colors(color: Color)
    ensures
        alpha_of(packed_rgb(color) as u32) == 3,
        alpha_of(0) == 0,
{
    lemma_u8_to_u10_range(color.r as int);
    lemma_u8_to_u10_range(color.g as int);
    lemma_u8_to_u10_range(color.b as int);
    lemma_packed_channels(
        u8_to_u10(color.r as int),
        u8_to_u10(color.g as int),
        u8_to_u10(color.b as int),
        3,
    );
}

/// `pack_rgba` keeps a pixel transparent exactly when its 8-bit alpha is
/// below 43, and fully opaque exactly when it is at least 213.
pub proof fn lemma_pack_rgba_alpha(color: Color)
    ensures
        0 <= packed(
            u8_to_u10(color.r as int),
            u8_to_u10(color.g as int),
            u8_to_u10(color.b as int),
            u8_to_u2(color.a as int),
        ) <= u32::MAX,
        alpha_of(
            packed(
                u8_to_u10(color.r as int),
                u8_to_u10(color.g as int),
                u8_to_u10(color.b as int),
                u8_to_u2(color.a as int),
            ) as u32,
        ) == u8_to_u2(color.a as int),
        (u8_to_u2(color.a as int) == 0) == (color.a < 43),
        (u8_to_u2(color.a as int) == 3) == (color.a >= 213),
{
    lemma_u8_to_u10_range(color.r as int);
    lemma_u8_to_u10_range(color.g as int);
    lemma_u8_to_u10_range(color.b as int);
    lemma_packed_channels(
        u8_to_u10(color.r as int),
        u8_to_u10(color.g as int),
        u8_to_u10(color.b as int),
        u8_to_u2(color.a as int),
    );
}

impl Color {
    /// The opaque version of a colour.
    pub open spec fn rgb_spec(self) -> Color {
        Color { r: self.r, g: self.g, b: self.b, a: 255 }
    }
}

/// The coverage of a pixel of which `hits` of `total` samples fall inside a
/// shape: none, full, or the fraction scaled to 255 and rounded to the
/// nearest value, halves up.
pub open spec fn sample_coverage(hits: int, total: int) -> int {
    if hits == 0 {
        0
    } else if hits >= total {
        255
    } else {
        (hits * 510 + total) / (2 * total)
    }
}

/// The alpha coverage of a pixel from its sample hits (see
/// `sample_coverage`).
pub fn coverage_from_sample_hits(hits: u8, total_samples: u8) -> (r: u8)
    ensures
        r == sample_coverage(hits as int, total_samples as int),
{
    if hits == 0 {
        return 0;
    }
    if hits >= total_samples {
        return 255;
    }
    let h = hits as u32;
    let t = total_samples as u32;
    let q = (h * 510 + t) / (2 * t);
    proof {
        assert((h * 510 + t) / (2 * t) <= 255) by (nonlinear_arith)
            requires
                0 < h < t,
                t <= 255,
        {
            assert(h * 510 + t < 256 * (2 * t));
        }
    }
    q as u8
}

} // verus!
