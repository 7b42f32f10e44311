use dither_rust::image::{colour_bars, resized_dimensions, Image, Rgb8};

fn rgb(r: u8, g: u8, b: u8) -> Rgb8 {
    Rgb8 { r, g, b }
}

#[test]
fn filled_image_has_one_colour() {
    let img = Image::filled(3, 2, rgb(1, 2, 3)).unwrap();
    assert_eq!((img.width, img.height), (3, 2));
    assert_eq!(img.pixels, vec![rgb(1, 2, 3); 6]);
    let empty = Image::filled(0, 7, 5u8).unwrap();
    assert_eq!((empty.width, empty.height), (0, 7));
    assert!(empty.pixels.is_empty());
}

#[test]
fn buffers_must_fill_the_grid() {
    assert!(Image::from_pixels(2, 2, vec![0u8; 4]).is_some());
    assert!(Image::from_pixels(2, 2, vec![0u8; 3]).is_none());
    assert!(Image::from_pixels(2, 2, vec![0u8; 5]).is_none());
    assert!(Image::from_pixels(0, 9, Vec::<u8>::new()).is_some());
    assert!(Image::from_pixels(u32::MAX, u32::MAX, vec![0u8; 1]).is_none());
}

#[test]
fn pixels_are_stored_row_by_row() {
    let mut img = Image::from_pixels(3, 2, vec![10u8, 11, 12, 20, 21, 22]).unwrap();
    assert_eq!(img.index_of(0, 0), 0);
    assert_eq!(img.index_of(2, 0), 2);
    assert_eq!(img.index_of(0, 1), 3);
    assert_eq!(img.index_of(2, 1), 5);
    assert_eq!(img.get_pixel(1, 0), 11);
    assert_eq!(img.get_pixel(1, 1), 21);
    for i in 0..6 {
        let (x, y) = img.position_of(i);
        assert_eq!(img.index_of(x, y), i);
    }
    assert_eq!(img.position_of(4), (1, 1));
    img.put_pixel(2, 1, 99);
    assert_eq!(img.pixels, vec![10, 11, 12, 20, 21, 99]);
    assert_eq!((img.width, img.height), (3, 2));
}

#[test]
fn longer_side_takes_the_requested_size() {
    assert_eq!(resized_dimensions(800, 600, 400), (400, 300));
    assert_eq!(resized_dimensions(600, 800, 400), (300, 400));
    assert_eq!(resized_dimensions(500, 500, 400), (400, 400));
    assert_eq!(resized_dimensions(3, 1, 3), (3, 1));
    assert_eq!(resized_dimensions(3, 2, 10), (10, 6));
    assert_eq!(resized_dimensions(1, 3, 10), (3, 10));
    assert_eq!(resized_dimensions(1000, 1, 10), (10, 0));
}

#[test]
fn degenerate_sizes_do_not_divide_by_zero() {
    assert_eq!(resized_dimensions(0, 0, 400), (0, 400));
    assert_eq!(resized_dimensions(5, 0, 400), (400, 0));
    assert_eq!(resized_dimensions(0, 5, 400), (0, 400));
    assert_eq!(resized_dimensions(u32::MAX, u32::MAX - 1, u32::MAX), (u32::MAX, u32::MAX - 1));
    assert_eq!(resized_dimensions(7, 9, 0), (0, 0));
}

#[test]
fn bars_sit_left_of_the_image() {
    let mut pixels = Vec::new();
    for i in 0..10u8 {
        pixels.push(rgb(100 + i, 0, 0));
    }
    let img = Image::from_pixels(2, 5, pixels).unwrap();
    let colours = [rgb(0, 1, 0), rgb(0, 2, 0)];
    let canvas = colour_bars(&img, &colours, 3);
    assert_eq!((canvas.width, canvas.height), (5, 5));
    let black = rgb(0, 0, 0);
    for y in 0..5 {
        let bar = match y {
            0 | 1 => colours[0],
            2 | 3 => colours[1],
            _ => black,
        };
        for x in 0..3 {
            assert_eq!(canvas.get_pixel(x, y), bar, "bar at {} {}", x, y);
        }
        for x in 3..5 {
            assert_eq!(canvas.get_pixel(x, y), img.get_pixel(x - 3, y), "image at {} {}", x, y);
        }
    }
}

#[test]
fn more_colours_than_rows_leaves_the_bars_black() {
    let img = Image::filled(1, 2, rgb(9, 9, 9)).unwrap();
    let colours = [rgb(1, 0, 0), rgb(2, 0, 0), rgb(3, 0, 0)];
    let canvas = colour_bars(&img, &colours, 2);
    assert_eq!(
        canvas.pixels,
        vec![rgb(0, 0, 0), rgb(0, 0, 0), rgb(9, 9, 9), rgb(0, 0, 0), rgb(0, 0, 0), rgb(9, 9, 9)]
    );
    let narrow = colour_bars(&img, &colours, 0);
    assert_eq!(narrow.pixels, img.pixels);
}
