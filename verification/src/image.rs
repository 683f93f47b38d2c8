//! The in-memory picture model a search can be projected onto: an RGB
//! byte buffer, the colour coding of cells, and the drawing of position
//! sets. Decoding a file into bytes and encoding bytes back into a file
//! are left to the callers that own the I/O.

use vstd::prelude::*;
use vstd::arithmetic::div_mod::lemma_fundamental_div_mod_converse;
use crate::Position;
use crate::grid::{Field, Grid};

verus! {

/// One colour, as red, green and blue bytes.
pub type ColorRGB8 = (u8, u8, u8);

pub const WHITE: ColorRGB8 = (255, 255, 255);

pub const GRAY: ColorRGB8 = (128, 128, 128);

pub const BLACK: ColorRGB8 = (0, 0, 0);

pub const RED: ColorRGB8 = (255, 0, 0);

pub const GREEN: ColorRGB8 = (0, 255, 0);

pub const BLUE: ColorRGB8 = (0, 0, 255);

/// A pixel buffer; only 8-bit RGB is carried.
pub enum Pixels {
    RGB8(Vec<u8>),
}

/// A picture: dimensions and a row-major pixel buffer.
pub struct Image {
    pub width: u32,
    pub height: u32,
    pub pixels: Pixels,
}

impl Image {
    /// The raw bytes of the buffer.
    pub open spec fn bytes(&self) -> Seq<u8> {
        match self.pixels {
            Pixels::RGB8(v) => v@,
        }
    }

    /// Three bytes per cell of a `width` by `height` grid, with
    /// dimensions small enough to index.
    pub open spec fn wf(&self) -> bool {
        &&& self.bytes().len() == 3 * self.width * self.height
        &&& self.width <= 0x4000_0000
        &&& self.height <= 0x4000_0000
        &&& 3 * self.width * self.height <= usize::MAX
    }

    /// The position whose pixel the byte at `j` belongs to.
    pub open spec fn cell_of(&self, j: int) -> Position {
        (((j / 3) % (self.width as int)) as usize, ((j / 3) / (self.width as int)) as usize)
    }
}

/// The byte a colour contributes to channel `c` (red, green, blue).
pub open spec fn channel_byte(color: ColorRGB8, c: int) -> u8 {
    if c == 0 {
        color.0
    } else if c == 1 {
        color.1
    } else {
        color.2
    }
}

/// The colour coding of cells when a grid is decoded from pixels: red
/// marks a goal, green a start, blue an impassable wall, anything else is
/// passable ground.
pub open spec fn pixel_to_field_spec(color: ColorRGB8) -> Field {
    if color == RED {
        Field::Goal
    } else if color == GREEN {
        Field::Start
    } else if color == BLUE {
        Field::Impassable
    } else {
        Field::Passable
    }
}

/// Decode one pixel into a cell classification.
pub fn pixel_to_field(color: ColorRGB8) -> (r: Field)
    ensures
        r == pixel_to_field_spec(color),
{
    let (red, green, blue): (u8, u8, u8) = color;
    if red == 255 && green == 0 && blue == 0 {
        Field::Goal
    } else if red == 0 && green == 255 && blue == 0 {
        Field::Start
    } else if red == 0 && green == 0 && blue == 255 {
        Field::Impassable
    } else {
        Field::Passable
    }
}

/// Decode a row-major pixel buffer into `width * height` cells, reading
/// the first three bytes of each `bytes_per_pixel`-wide pixel.
pub fn pixels_to_fields(pixels: &Vec<u8>, width: usize, height: usize, bytes_per_pixel: usize) -> (r:
    Vec<Field>)
    requires
        3 <= bytes_per_pixel,
        width * height * bytes_per_pixel <= usize::MAX,
        pixels@.len() >= width * height * bytes_per_pixel,
    ensures
        r@.len() == width * height,
        forall|i: int|
            0 <= i < r@.len() ==> r@[i] == pixel_to_field_spec(
                (
                    pixels@[i * bytes_per_pixel],
                    pixels@[i * bytes_per_pixel + 1],
                    pixels@[i * bytes_per_pixel + 2],
                ),
            ),
{
    proof {
        assert(width * height <= width * height * bytes_per_pixel) by (nonlinear_arith)
            requires
                bytes_per_pixel >= 1,
                width >= 0,
                height >= 0,
        ;
    }
    let n = width * height;
    proof {
        assert(n * bytes_per_pixel == width * height * bytes_per_pixel) by (nonlinear_arith)
            requires
                n == width * height,
        ;
    }
    let mut r: Vec<Field> = Vec::new();
    let mut i: usize = 0;
    while i < n
        invariant
            i <= n,
            3 <= bytes_per_pixel,
            n * bytes_per_pixel <= usize::MAX,
            pixels@.len() >= n * bytes_per_pixel,
            r@.len() == i,
            forall|k: int|
                0 <= k < i ==> r@[k] == pixel_to_field_spec(
                    (
                        pixels@[k * bytes_per_pixel],
                        pixels@[k * bytes_per_pixel + 1],
                        pixels@[k * bytes_per_pixel + 2],
                    ),
                ),
        decreases n - i,
    {
        proof {
            assert((i + 1) * bytes_per_pixel <= n * bytes_per_pixel) by (nonlinear_arith)
                requires
                    i + 1 <= n,
                    bytes_per_pixel >= 0,
            ;
            assert(i * bytes_per_pixel + 3 <= (i + 1) * bytes_per_pixel) by (nonlinear_arith)
                requires
                    bytes_per_pixel >= 3,
                    i >= 0,
            ;
        }
        let j = i * bytes_per_pixel;
        let color: ColorRGB8 = (pixels[j], pixels[j + 1], pixels[j + 2]);
        r.push(pixel_to_field(color));
        i = i + 1;
    }
    r
}

/// Decode a picture into a grid of cells.
pub fn from_png(img: &Image) -> (r: Grid)
    requires
        img.wf(),
    ensures
        r.width == img.width,
        r.height == img.height,
        r.fields@.len() == r.width * r.height,
        forall|i: int|
            0 <= i < r.fields@.len() ==> r.fields@[i] == pixel_to_field_spec(
                (img.bytes()[i * 3], img.bytes()[i * 3 + 1], img.bytes()[i * 3 + 2]),
            ),
{
    let w = img.width as usize;
    let h = img.height as usize;
    proof {
        assert(w * h * 3 == 3 * w * h) by (nonlinear_arith);
    }
    let fields = match &img.pixels {
        Pixels::RGB8(pixels) => pixels_to_fields(pixels, w, h, 3),
    };
    Grid { width: w, height: h, fields }
}

/// Encode a grid's world definition as a picture: impassable cells in
/// blue, every other cell in black.
pub fn map_to_png(map: &Grid) -> (r: Image)
    requires
        map.wf(),
        3 * map.width * map.height <= usize::MAX,
    ensures
        r.width == map.width,
        r.height == map.height,
        r.wf(),
        forall|i: int|
            0 <= i < map.fields@.len() ==> (r.bytes()[3 * i], r.bytes()[3 * i + 1], r.bytes()[3 * i
                + 2]) == (if map.fields@[i] is Impassable {
                BLUE
            } else {
                BLACK
            }),
{
    let n = map.fields.len();
    let mut pixels: Vec<u8> = Vec::new();
    let mut i: usize = 0;
    proof {
        assert(3 * n <= usize::MAX) by (nonlinear_arith)
            requires
                n == map.width * map.height,
                3 * map.width * map.height <= usize::MAX,
        ;
    }
    while i < n
        invariant
            i <= n,
            n == map.fields@.len(),
            3 * n <= usize::MAX,
            pixels@.len() == 3 * i,
            forall|k: int|
                0 <= k < i ==> (pixels@[3 * k], pixels@[3 * k + 1], pixels@[3 * k + 2]) == (
                if map.fields@[k] is Impassable {
                    BLUE
                } else {
                    BLACK
                }),
        decreases n - i,
    {
        let f = map.fields[i];
        if f.eq_tag(Field::Impassable) {
            pixels.push(0);
            pixels.push(0);
            pixels.push(255);
        } else {
            pixels.push(0);
            pixels.push(0);
            pixels.push(0);
        }
        i = i + 1;
    }
    let r = Image {
        width: map.width as u32,
        height: map.height as u32,
        pixels: Pixels::RGB8(pixels),
    };
    proof {
        assert(r.bytes().len() == 3 * r.width * r.height) by (nonlinear_arith)
            requires
                r.bytes().len() == 3 * (map.width * map.height),
                r.width == map.width,
                r.height == map.height,
        ;
        assert(3 * r.width * r.height <= usize::MAX) by (nonlinear_arith)
            requires
                3 * map.width * map.height <= usize::MAX,
                r.width == map.width,
                r.height == map.height,
        ;
    }
    r
}

/// The byte offset of a position's pixel in a row-major buffer with the
/// given bytes per colour.
pub fn index(pos: Position, width: usize, bytes_per_color: u8) -> (r: usize)
    requires
        1 <= bytes_per_color,
        (pos.1 * width + pos.0) * bytes_per_color <= usize::MAX,
    ensures
        r == (pos.1 * width + pos.0) * bytes_per_color,
{
    let (x, y): (usize, usize) = pos;
    proof {
        assert(y * width * bytes_per_color + x * bytes_per_color == (y * width + x)
            * bytes_per_color && y * width <= (y * width + x) * bytes_per_color && y * width
            * bytes_per_color <= (y * width + x) * bytes_per_color && x * bytes_per_color <= (y
            * width + x) * bytes_per_color) by (nonlinear_arith)
            requires
                x >= 0,
                y >= 0,
                width >= 0,
                bytes_per_color >= 1,
        ;
    }
    y * width * (bytes_per_color as usize) + x * (bytes_per_color as usize)
}

/// One channel of `color` as written for a pixel `pixel_width` bytes
/// wide. The grey modes need the channel sum to fit a byte, as the
/// arithmetic is eight-bit.
pub fn color_by_width(color: ColorRGB8, pixel_width: u8, channel_index: u8) -> (r: u8)
    requires
        pixel_width == 1 || pixel_width == 2 || pixel_width == 3 || pixel_width == 4,
        channel_index < pixel_width,
        pixel_width <= 2 && channel_index == 0 ==> color.0 + color.1 + color.2 <= 255,
    ensures
        pixel_width <= 2 && channel_index == 0 ==> r == (color.0 + color.1 + color.2) as u8 / 3,
        channel_index == pixel_width - 1 && pixel_width == 2 ==> r == 255,
        pixel_width >= 3 ==> r == (if channel_index == 0 {
            color.0
        } else if channel_index == 1 {
            color.1
        } else if channel_index == 2 {
            color.2
        } else {
            255u8
        }),
{
    let (red, green, blue): (u8, u8, u8) = color;
    match (pixel_width, channel_index) {
        (1, _) => (red + green + blue) / 3,
        (2, 0) => (red + green + blue) / 3,
        (2, 1) => 255,
        (3, 0) => red,
        (3, 1) => green,
        (3, 2) => blue,
        (4, 0) => red,
        (4, 1) => green,
        (4, 2) => blue,
        (4, 3) => 255,
        (_, _) => {
            proof {
                assert(false);
            }
            0
        },
    }
}

/// Paint one pixel of an RGB picture.
fn putpixel(pos: Position, color: ColorRGB8, img: &mut Image)
    requires
        old(img).wf(),
        pos.0 < old(img).width,
        pos.1 < old(img).height,
    ensures
        final (img).wf(),
        final (img).width == old(img).width,
        final (img).height == old(img).height,
        forall|j: int|
            0 <= j < final (img).bytes().len() ==> final (img).bytes()[j] == (if old(
                img,
            ).cell_of(j) == pos {
                channel_byte(color, j % 3)
            } else {
                old(img).bytes()[j]
            }),
{
    let w = img.width as usize;
    let ghost ww: int = old(img).width as int;
    let ghost hh: int = old(img).height as int;
    proof {
        crate::tables::lemma_index_range(pos, ww, hh);
        assert((pos.1 * ww + pos.0) * 3 + 3 <= 3 * ww * hh) by (nonlinear_arith)
            requires
                pos.1 * ww + pos.0 < ww * hh,
                ww >= 0,
                hh >= 0,
        ;
    }
    let base = index(pos, w, 3);
    let ghost c = (pos.1 * w + pos.0) as int;
    match &mut img.pixels {
        Pixels::RGB8(pixels) => {
            vstd::pervasive::VecAdditionalExecFns::set(pixels, base, color.0);
            vstd::pervasive::VecAdditionalExecFns::set(pixels, base + 1, color.1);
            vstd::pervasive::VecAdditionalExecFns::set(pixels, base + 2, color.2);
        },
    }
    proof {
        lemma_fundamental_div_mod_converse(c, ww, pos.1 as int, pos.0 as int);
        assert forall|j: int| 0 <= j < img.bytes().len() implies img.bytes()[j] == (if old(
            img,
        ).cell_of(j) == pos {
            channel_byte(color, j % 3)
        } else {
            old(img).bytes()[j]
        }) by {
            if 3 * c <= j < 3 * c + 3 {
                assert(j / 3 == c && j % 3 == j - 3 * c) by (nonlinear_arith)
                    requires
                        3 * c <= j < 3 * c + 3,
                ;
                assert(old(img).cell_of(j) == pos);
            } else {
                assert(j / 3 != c) by (nonlinear_arith)
                    requires
                        0 <= j,
                        c >= 0,
                        !(3 * c <= j < 3 * c + 3),
                ;
                if old(img).cell_of(j) == pos {
                    vstd::arithmetic::div_mod::lemma_fundamental_div_mod(j / 3, ww);
                    assert(ww * ((j / 3) / ww) == ((j / 3) / ww) * ww) by (nonlinear_arith);
                    assert(j / 3 == c);
                }
            }
        }
    }
}

/// What a batch paint leaves at byte `j`: the colour's channel where the
/// byte's cell is among the painted points, the old byte elsewhere.
pub open spec fn painted_byte(
    img0: Image,
    pts: Seq<Position>,
    color: ColorRGB8,
    j: int,
) -> u8 {
    if pts.contains(img0.cell_of(j)) {
        channel_byte(color, j % 3)
    } else {
        img0.bytes()[j]
    }
}

/// Paint every given position of an RGB picture in one colour.
pub fn draw_points(points: &Vec<Position>, color: ColorRGB8, img: &mut Image)
    requires
        old(img).wf(),
        forall|k: int|
            0 <= k < points@.len() ==> (#[trigger] points@[k]).0 < old(img).width
                && points@[k].1 < old(img).height,
    ensures
        final (img).wf(),
        final (img).width == old(img).width,
        final (img).height == old(img).height,
        forall|j: int|
            0 <= j < final (img).bytes().len() ==> final (img).bytes()[j] == painted_byte(
                *old(img),
                points@,
                color,
                j,
            ),
{
    let mut i: usize = 0;
    while i < points.len()
        invariant
            img.wf(),
            img.width == old(img).width,
            img.height == old(img).height,
            i <= points@.len(),
            forall|k: int|
                0 <= k < points@.len() ==> (#[trigger] points@[k]).0 < img.width && points@[k].1
                    < img.height,
            forall|j: int|
                0 <= j < img.bytes().len() ==> img.bytes()[j] == painted_byte(
                    *old(img),
                    points@.take(i as int),
                    color,
                    j,
                ),
        decreases points@.len() - i,
    {
        let ghost before = *img;
        let p = points[i];
        putpixel(p, color, img);
        proof {
            assert forall|j: int| 0 <= j < img.bytes().len() implies img.bytes()[j]
                == painted_byte(*old(img), points@.take(i + 1), color, j) by {
                assert(points@.take(i + 1).drop_last() =~= points@.take(i as int));
                assert(points@.take(i + 1).last() == p);
                if before.cell_of(j) == p {
                    assert(points@.take(i + 1)[i as int] == p);
                    assert(points@.take(i + 1).contains(p));
                } else {
                    assert(points@.take(i + 1).contains(old(img).cell_of(j)) == points@.take(
                        i as int,
                    ).contains(old(img).cell_of(j))) by {
                        let q = old(img).cell_of(j);
                        if points@.take(i as int).contains(q) {
                            let k = choose|k: int|
                                0 <= k < i && #[trigger] points@.take(i as int)[k] == q;
                            assert(points@.take(i + 1)[k] == q);
                        }
                        if points@.take(i + 1).contains(q) {
                            let k = choose|k: int|
                                0 <= k < i + 1 && #[trigger] points@.take(i + 1)[k] == q;
                            if k < i {
                                assert(points@.take(i as int)[k] == q);
                            }
                        }
                    }
                }
            }
        }
        i = i + 1;
    }
    proof {
        assert(points@.take(points@.len() as int) =~= points@);
    }
}

/// Paint every impassable cell of the world blue.
pub fn draw_map(map: &Grid, img: &mut Image)
    requires
        old(img).wf(),
        map.wf(),
        map.width == old(img).width,
        map.height == old(img).height,
    ensures
        final (img).wf(),
        final (img).width == old(img).width,
        final (img).height == old(img).height,
        forall|j: int|
            0 <= j < final (img).bytes().len() ==> final (img).bytes()[j] == (if map.in_bounds(
                old(img).cell_of(j),
            ) && map.field_at(old(img).cell_of(j)) is Impassable {
                channel_byte(BLUE, j % 3)
            } else {
                old(img).bytes()[j]
            }),
{
    let points = map.tagged(Field::Impassable);
    draw_points(&points, BLUE, img);
    proof {
        assert forall|j: int| 0 <= j < img.bytes().len() implies img.bytes()[j] == (
        if map.in_bounds(old(img).cell_of(j)) && map.field_at(old(img).cell_of(j))
            is Impassable {
            channel_byte(BLUE, j % 3)
        } else {
            old(img).bytes()[j]
        }) by {
            let q = old(img).cell_of(j);
            if map.in_bounds(q) && map.field_at(q) is Impassable {
                assert(points@.contains(q));
            } else {
                if points@.contains(q) {
                    let k = choose|k: int| 0 <= k < points@.len() && points@[k] == q;
                    assert(map.in_bounds(points@[k]) && map.field_at(points@[k])
                        == Field::Impassable);
                }
            }
        }
    }
}

/// Paint a found path white.
pub fn draw_path(path: crate::Path, img: &mut Image)
    requires
        old(img).wf(),
        forall|k: int|
            0 <= k < path@.len() ==> (#[trigger] path@[k]).0 < old(img).width && path@[k].1 < old(
                img,
            ).height,
    ensures
        final (img).wf(),
        final (img).width == old(img).width,
        final (img).height == old(img).height,
        forall|j: int|
            0 <= j < final (img).bytes().len() ==> final (img).bytes()[j] == painted_byte(
                *old(img),
                path@,
                WHITE,
                j,
            ),
{
    draw_points(&path, WHITE, img)
}

/// Paint the start cells green.
pub fn draw_start(start: Vec<Position>, img: &mut Image)
    requires
        old(img).wf(),
        forall|k: int|
            0 <= k < start@.len() ==> (#[trigger] start@[k]).0 < old(img).width && start@[k].1
                < old(img).height,
    ensures
        final (img).wf(),
        final (img).width == old(img).width,
        final (img).height == old(img).height,
        forall|j: int|
            0 <= j < final (img).bytes().len() ==> final (img).bytes()[j] == painted_byte(
                *old(img),
                start@,
                GREEN,
                j,
            ),
{
    draw_points(&start, GREEN, img)
}

/// Paint the goal cells red.
pub fn draw_goals(goals: Vec<Position>, img: &mut Image)
    requires
        old(img).wf(),
        forall|k: int|
            0 <= k < goals@.len() ==> (#[trigger] goals@[k]).0 < old(img).width && goals@[k].1
                < old(img).height,
    ensures
        final (img).wf(),
        final (img).width == old(img).width,
        final (img).height == old(img).height,
        forall|j: int|
            0 <= j < final (img).bytes().len() ==> final (img).bytes()[j] == painted_byte(
                *old(img),
                goals@,
                RED,
                j,
            ),
{
    draw_points(&goals, RED, img)
}

} // verus!
