//! The pixel format: one `u32` per pixel, red in bits 16..24, green in bits
//! 8..16, blue in bits 0..8; the top byte is unused.

use vstd::prelude::*;

verus! {

/// Background colour of a cleared canvas.
pub const BLACK: u32 = 0;

/// Colour of the wireframe.
pub const WHITE: u32 = 0x00FF_FFFF;

/// The packed value of a colour with the given channels.
pub open spec fn packed(r: u8, g: u8, b: u8) -> u32 {
    ((r as u32) << 16) | ((g as u32) << 8) | (b as u32)
}

/// Packs three channels into one pixel.
pub fn pack_rgb(r: u8, g: u8, b: u8) -> (pixel: u32)
    ensures
        pixel == packed(r, g, b),
        pixel == r as int * 65536 + g as int * 256 + b as int,
{
    let pixel: u32 = ((r as u32) << 16) | ((g as u32) << 8) | (b as u32);
    assert(((r as u32) << 16) | ((g as u32) << 8) | (b as u32) == (r as u32) * 65536 + (g as u32)
        * 256 + (b as u32)) by (bit_vector);
    pixel
}

/// The two colours of a frame are the packed forms of full and of no
/// intensity.
pub proof fn lemma_frame_colours()
    ensures
        WHITE == packed(255, 255, 255),
        BLACK == packed(0, 0, 0),
        WHITE != BLACK,
{
    assert(((255u8 as u32) << 16) | ((255u8 as u32) << 8) | (255u8 as u32) == 0x00FF_FFFFu32)
        by (bit_vector);
    assert(((0u8 as u32) << 16) | ((0u8 as u32) << 8) | (0u8 as u32) == 0u32) by (bit_vector);
}

} // verus!
