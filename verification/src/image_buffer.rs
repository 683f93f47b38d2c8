//! Projection of a grid into an RGBA pixel buffer for display, one pixel
//! per cell, colour-coded by classification.

use vstd::prelude::*;
use crate::grid::{Field, Grid};

verus! {

/// An RGBA pixel buffer from the image crate, held opaquely: Verus
/// refuses the buffer type's own declaration, so it lives behind this
/// struct and is spoken of only through `buffer_bytes`.
#[verifier::external_body]
pub struct MapImage {
    inner: image::RgbaImage,
}

/// The raw bytes an RGBA buffer holds, row-major, four per pixel.
pub uninterp spec fn buffer_bytes(b: MapImage) -> Seq<u8>;

/// The display colour of a cell classification, channel by channel
/// (red, green, blue, alpha).
pub open spec fn field_channel(field: Field, c: int) -> u8 {
    let rgba: (u8, u8, u8, u8) = match field {
        Field::Start => (0, 255, 0, 255),
        Field::Goal => (255, 0, 0, 255),
        Field::Path => (255, 255, 255, 255),
        Field::Current => (220, 10, 100, 255),
        Field::Passable => (0, 0, 0, 255),
        Field::Impassable => (0, 0, 255, 255),
        Field::Visited => (128, 128, 128, 255),
        Field::Frontier => (255, 255, 0, 255),
    };
    if c == 0 {
        rgba.0
    } else if c == 1 {
        rgba.1
    } else if c == 2 {
        rgba.2
    } else {
        rgba.3
    }
}

/// The display colour of a cell classification, as one RGBA pixel.
pub fn field_to_pixel(field: Field) -> (r: [u8; 4])
    ensures
        r@ == seq![
            field_channel(field, 0),
            field_channel(field, 1),
            field_channel(field, 2),
            field_channel(field, 3),
        ],
{
    let r = match field {
        Field::Start => [0u8, 255u8, 0u8, 255u8],
        Field::Goal => [255u8, 0u8, 0u8, 255u8],
        Field::Path => [255u8, 255u8, 255u8, 255u8],
        Field::Current => [220u8, 10u8, 100u8, 255u8],
        Field::Passable => [0u8, 0u8, 0u8, 255u8],
        Field::Impassable => [0u8, 0u8, 255u8, 255u8],
        Field::Visited => [128u8, 128u8, 128u8, 255u8],
        Field::Frontier => [255u8, 255u8, 0u8, 255u8],
    };
    proof {
        assert(r@ =~= seq![
            field_channel(field, 0),
            field_channel(field, 1),
            field_channel(field, 2),
            field_channel(field, 3),
        ]);
    }
    r
}

/// Relies on image's `ImageBuffer::from_fn` and its row-major RGBA
/// layout: the buffer holds, for each cell in row-major order, the four
/// bytes of that cell's display colour.
#[verifier::external_body]
pub fn map_to_image_buffer(map: &Grid) -> (r: MapImage)
    requires
        map.wf(),
    ensures
        buffer_bytes(r).len() == 4 * map.width * map.height,
        forall|i: int, c: int|
            0 <= i < map.width * map.height && 0 <= c < 4 ==> buffer_bytes(r)[4 * i + c]
                == field_channel(map.fields@[i], c),
{
    MapImage {
        inner: image::ImageBuffer::from_fn(
            map.width as u32,
            map.height as u32,
            |x, y| image::Rgba(field_to_pixel(map.at((x as usize, y as usize)))),
        ),
    }
}

/// Relies on image's `ImageBuffer::into_raw`: the buffer's raw bytes,
/// handed out as they are stored.
#[verifier::external_body]
pub fn image_bytes(b: MapImage) -> (r: Vec<u8>)
    ensures
        r@ == buffer_bytes(b),
{
    b.inner.into_raw()
}

} // verus!
