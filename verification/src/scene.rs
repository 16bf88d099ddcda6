//! Texel lookup in the environment backdrop.
//!
//! The backdrop is a pre-decoded equirectangular image: `width * height`
//! interleaved RGB byte triples, row-major, top row first. The caller maps a
//! ray direction to fractional image coordinates; this module does the
//! discrete part of the lookup, including the vertical flip from
//! bottom-origin elevation to top-origin image rows.

use vstd::prelude::*;

verus! {

/// The texel of the backdrop at column `iu` and elevation row `iv`, where
/// `iv` counts from the bottom of the image: row `height - 1 - iv` of the
/// stored top-to-bottom buffer is read.
pub fn environment_texel(width: u32, height: u32, data: &Vec<u8>, iu: u32, iv: u32) -> (rgb: (
    u8,
    u8,
    u8,
))
    requires
        data.len() == width as int * height as int * 3,
        iu < width,
        iv < height,
    ensures
        rgb.0 == data[(iu + (height - 1 - iv) * width as int) * 3],
        rgb.1 == data[(iu + (height - 1 - iv) * width as int) * 3 + 1],
        rgb.2 == data[(iu + (height - 1 - iv) * width as int) * 3 + 2],
{
    let row: u32 = height - 1 - iv;
    proof {
        crate::renderer::lemma_pix_index_in_bounds(
            iu as int,
            row as int,
            width as int,
            height as int,
        );
    }
    let base: usize = ((iu as usize) + (row as usize) * (width as usize)) * 3;
    (data[base], data[base + 1], data[base + 2])
}

} // verus!
