use search::{
    draw_points, from_png, image_bytes, map_to_image_buffer, map_to_png, Field, Grid, Image,
    Pixels,
};

#[test]
fn map_to_png_codes_walls_blue() {
    let g = Grid { width: 2, height: 1, fields: vec![Field::Passable, Field::Impassable] };
    let img = map_to_png(&g);
    assert_eq!(img.width, 2);
    assert_eq!(img.height, 1);
    let Pixels::RGB8(bytes) = img.pixels;
    assert_eq!(bytes, vec![0, 0, 0, 0, 0, 255]);
}

#[test]
fn from_png_decodes_the_colour_coding() {
    let bytes = vec![
        255, 0, 0, // red: goal
        0, 255, 0, // green: start
        0, 0, 255, // blue: wall
        7, 7, 7, // anything else: passable
    ];
    let img = Image { width: 2, height: 2, pixels: Pixels::RGB8(bytes) };
    let g = from_png(&img);
    assert_eq!(g.width, 2);
    assert_eq!(g.height, 2);
    assert_eq!(
        g.fields,
        vec![Field::Goal, Field::Start, Field::Impassable, Field::Passable]
    );
}

#[test]
fn draw_points_paints_only_the_given_cells() {
    let mut img = Image { width: 2, height: 1, pixels: Pixels::RGB8(vec![0; 6]) };
    draw_points(&vec![(1, 0)], (255, 0, 0), &mut img);
    let Pixels::RGB8(bytes) = img.pixels;
    assert_eq!(bytes, vec![0, 0, 0, 255, 0, 0]);
}

#[test]
fn map_to_image_buffer_codes_cells_rgba() {
    let g = Grid { width: 2, height: 1, fields: vec![Field::Start, Field::Impassable] };
    let buf = map_to_image_buffer(&g);
    let bytes = image_bytes(buf);
    assert_eq!(bytes, vec![0, 255, 0, 255, 0, 0, 255, 255]);
}
