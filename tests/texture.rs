use palette_texture::{generate_texture, grid_side, parse_colors, Color};

fn rgb(c: Color) -> [u8; 3] {
    [c.r, c.g, c.b]
}

#[test]
fn grid_side_is_rounded_up_root() {
    let cases: [(usize, u64); 9] =
        [(0, 0), (1, 1), (2, 2), (3, 2), (4, 2), (5, 3), (9, 3), (10, 4), (16, 4)];
    for (n, l) in cases {
        assert_eq!(grid_side(n), l, "n = {n}");
    }
}

#[test]
fn four_colors_fill_a_two_by_two_grid() {
    let colors = parse_colors("#FF0000,#00FF00,#0000FF,#FFFFFF").unwrap();
    let image = generate_texture(&colors, 5).image;
    assert_eq!(image.dimensions(), (10, 10));
    for y in 0..10u32 {
        for x in 0..10u32 {
            let i = (y / 5) * 2 + x / 5;
            assert_eq!(image.get_pixel(x, y).0, rgb(colors[i as usize]), "({x}, {y})");
        }
    }
}

#[test]
fn three_colors_leave_one_black_cell() {
    let colors = vec![Color::new(1, 2, 3), Color::new(4, 5, 6), Color::new(7, 8, 9)];
    let image = generate_texture(&colors, 1).image;
    assert_eq!(image.dimensions(), (2, 2));
    assert_eq!(image.get_pixel(0, 0).0, [1, 2, 3]);
    assert_eq!(image.get_pixel(1, 0).0, [4, 5, 6]);
    assert_eq!(image.get_pixel(0, 1).0, [7, 8, 9]);
    assert_eq!(image.get_pixel(1, 1).0, [0, 0, 0]);
}

#[test]
fn one_color_is_one_tile() {
    let image = generate_texture(&[Color::new(10, 20, 30)], 3).image;
    assert_eq!(image.dimensions(), (3, 3));
    assert!(image.pixels().all(|p| p.0 == [10, 20, 30]));
}

#[test]
fn zero_size_gives_an_empty_image() {
    let image = generate_texture(&[Color::new(10, 20, 30), Color::new(1, 1, 1)], 0).image;
    assert_eq!(image.dimensions(), (0, 0));
}

#[test]
fn five_colors_use_a_three_wide_grid() {
    let colors: Vec<Color> = (1..=5u8).map(|k| Color::new(k, k, k)).collect();
    let image = generate_texture(&colors, 2).image;
    assert_eq!(image.dimensions(), (6, 6));
    assert_eq!(image.get_pixel(5, 1).0, [3, 3, 3]);
    assert_eq!(image.get_pixel(3, 3).0, [5, 5, 5]);
    assert_eq!(image.get_pixel(4, 2).0, [0, 0, 0]);
    assert_eq!(image.get_pixel(5, 5).0, [0, 0, 0]);
}

#[test]
fn saved_png_reads_back_the_same_pixels() {
    let colors = parse_colors("#FF5733,33FF57,#5733FF").unwrap();
    let image = generate_texture(&colors, 4).image;
    let mut bytes: Vec<u8> = Vec::new();
    image
        .write_to(&mut std::io::Cursor::new(&mut bytes), image::ImageFormat::Png)
        .unwrap();
    let decoded = image::load_from_memory(&bytes).unwrap().to_rgb8();
    assert_eq!(decoded.dimensions(), image.dimensions());
    assert_eq!(decoded.as_raw(), image.as_raw());
}
