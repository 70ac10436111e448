//! Turning a colour into the pixel that a frame buffer holds.

use vstd::prelude::*;
use crate::fixed::{quot, quotient, ONE};
use crate::vec3::Vec3;

verus! {

/// The fixed-point representation of 255.99: a channel of 1.0 reaches the
/// brightest byte, and no channel below it does.
pub const CHANNEL_SCALE: i64 = 255_990_000;

/// The byte for a colour channel: 255.99 times the channel, cut to a whole
/// number and kept between 0 and 255.
pub open spec fn channel_byte(channel: i64) -> int {
    let level = quot(channel * CHANNEL_SCALE, ONE * ONE);
    if level < 0 {
        0
    } else if level > 255 {
        255
    } else {
        level
    }
}

/// The pixel `0x00RRGGBB` of three bytes.
pub open spec fn packed(red: int, green: int, blue: int) -> int {
    red * 65_536 + green * 256 + blue
}

/// The pixel of a colour.
pub open spec fn pixel_of(colour: Vec3) -> int {
    packed(channel_byte(colour.x), channel_byte(colour.y), channel_byte(colour.z))
}

/// Quantizes one channel.
pub fn to_byte(channel: i64) -> (byte: u32)
    ensures
        byte == channel_byte(channel),
        byte <= 255,
{
    assert(-0x8000_0000_0000_0000 * 255_990_000 <= channel * 255_990_000 <= 0x8000_0000_0000_0000
        * 255_990_000) by (nonlinear_arith)
        requires
            -0x8000_0000_0000_0000 <= channel <= 0x8000_0000_0000_0000,
    ;
    let level: i128 = quotient(channel as i128 * 255_990_000, 1_000_000_000_000);
    if level < 0 {
        0
    } else if level > 255 {
        255
    } else {
        level as u32
    }
}

/// Packs a colour into one pixel: red in bits 16 to 23, green in bits 8 to
/// 15, blue in bits 0 to 7. Each channel is clamped before it is cut, so a
/// channel beyond 1.0 gives 255 and a negative one 0.
pub fn to_color(col: Vec3) -> (pixel: u32)
    ensures
        pixel == pixel_of(col),
        pixel <= 0xff_ffff,
{
    let ir: u32 = to_byte(col.x);
    let ig: u32 = to_byte(col.y);
    let ib: u32 = to_byte(col.z);
    assert((ir << 16) | (ig << 8) | ib == ir * 65_536 + ig * 256 + ib) by (bit_vector)
        requires
            ir <= 255,
            ig <= 255,
            ib <= 255,
    ;
    (ir << 16) | (ig << 8) | ib
}

} // verus!
