use dither_rust::colour::Lab;
use dither_rust::dither::{
    dither, dither_linear, get_dither_matrix, nearest_entry, select_colour_rgb, widen,
    DitherMatrix, DitherPattern, Ditherer, LinearRgb, PaletteEntry, WideRgb,
};
use dither_rust::image::{Image, Rgb8};
use dither_rust::transfer::to_srgb;
use oklab::{linear_srgb_to_oklab, oklab_to_linear_srgb, srgb_to_oklab, Oklab, RGB};

fn fixed(x: f32) -> i32 {
    (x as f64 * 1_000_000.0).round() as i32
}

fn lab_of(c: Oklab) -> Lab {
    Lab { l: fixed(c.l), a: fixed(c.a), b: fixed(c.b) }
}

/// A palette entry for an 8-bit sRGB colour.
fn entry(r: u8, g: u8, b: u8) -> PaletteEntry {
    let c = srgb_to_oklab(RGB { r, g, b });
    let linear = oklab_to_linear_srgb(c);
    PaletteEntry {
        lab: lab_of(c),
        linear: LinearRgb { r: fixed(linear.r), g: fixed(linear.g), b: fixed(linear.b) },
    }
}

/// A channel as a float, clamped to the range the conversion is defined on.
fn unit(channel: i128) -> f32 {
    (channel as f64 / 1_000_000.0).clamp(0.0, 1.0) as f32
}

/// The perceptual coordinates of a linear-light colour.
fn to_perceptual(c: WideRgb) -> Lab {
    lab_of(linear_srgb_to_oklab(RGB { r: unit(c.r), g: unit(c.g), b: unit(c.b) }))
}

fn grey(level: i32) -> LinearRgb {
    LinearRgb { r: level, g: level, b: level }
}

fn wide(r: i128, g: i128, b: i128) -> WideRgb {
    WideRgb { r, g, b }
}

/// A palette of black and white whose perceptual coordinates are just the
/// lightness, so that tests can steer the choice by hand.
fn plain_palette() -> Vec<PaletteEntry> {
    vec![
        PaletteEntry { lab: Lab { l: 0, a: 0, b: 0 }, linear: grey(0) },
        PaletteEntry { lab: Lab { l: 1_000_000, a: 0, b: 0 }, linear: grey(1_000_000) },
    ]
}

fn lightness(l: i32) -> Lab {
    Lab { l, a: 0, b: 0 }
}

#[test]
fn floyd_steinberg_weights() {
    let matrix = get_dither_matrix(DitherPattern::FloydSteinberg);
    assert_eq!(matrix, DitherMatrix { right: 7, below_left: 3, below: 5, below_right: 1 });
    assert_eq!(
        matrix.right as u32 + matrix.below_left as u32 + matrix.below as u32 + matrix.below_right as u32,
        16
    );
}

#[test]
fn widening_keeps_channels() {
    assert_eq!(widen(LinearRgb { r: i32::MIN, g: 0, b: i32::MAX }), wide(i32::MIN as i128, 0, i32::MAX as i128));
}

#[test]
fn nearest_entry_goes_by_perceptual_distance() {
    let palette = plain_palette();
    assert_eq!(nearest_entry(&lightness(499_999), &palette), 0);
    assert_eq!(nearest_entry(&lightness(500_000), &palette), 0);
    assert_eq!(nearest_entry(&lightness(500_001), &palette), 1);
}

#[test]
fn select_colour_rgb_subtracts_in_linear_light() {
    let palette = plain_palette();
    let (chosen, left) = select_colour_rgb(&wide(600_000, 610_000, 590_000), &lightness(800_000), &palette);
    assert_eq!(chosen, grey(1_000_000));
    assert_eq!(left, wide(-400_000, -390_000, -410_000));
    let (chosen, left) = select_colour_rgb(&wide(600_000, 610_000, 590_000), &lightness(100_000), &palette);
    assert_eq!(chosen, grey(0));
    assert_eq!(left, wide(600_000, 610_000, 590_000));
}

#[test]
fn a_step_quantizes_and_diffuses() {
    let img = Image::filled(3, 3, grey(600_000)).unwrap();
    let mut scan = Ditherer::new(&img, &plain_palette(), DitherPattern::FloydSteinberg);
    assert_eq!(scan.len(), 9);
    assert_eq!(scan.position(), 0);
    assert!(!scan.is_done());
    assert_eq!(scan.current(), wide(600_000, 600_000, 600_000));

    // Top left corner: nothing below left, so 3/16 of the residual is lost.
    assert_eq!(scan.step(&lightness(600_000)), grey(1_000_000));
    assert_eq!(scan.position(), 1);
    assert_eq!(scan.pixel(0), wide(1_000_000, 1_000_000, 1_000_000));
    assert_eq!(scan.pixel(1), wide(425_000, 425_000, 425_000));
    assert_eq!(scan.pixel(2), wide(600_000, 600_000, 600_000));
    assert_eq!(scan.pixel(3), wide(475_000, 475_000, 475_000));
    assert_eq!(scan.pixel(4), wide(575_000, 575_000, 575_000));
    assert_eq!(scan.pixel(5), wide(600_000, 600_000, 600_000));

    // Top middle: all four neighbours exist.
    assert_eq!(scan.current(), wide(425_000, 425_000, 425_000));
    assert_eq!(scan.step(&lightness(425_000)), grey(0));
    assert_eq!(scan.pixel(1), wide(0, 0, 0));
    assert_eq!(scan.pixel(2), wide(785_937, 785_937, 785_937));
    assert_eq!(scan.pixel(3), wide(554_687, 554_687, 554_687));
    assert_eq!(scan.pixel(4), wide(707_812, 707_812, 707_812));
    assert_eq!(scan.pixel(5), wide(626_564, 626_564, 626_564));
}

#[test]
fn parts_round_towards_zero_and_the_last_takes_the_rest() {
    let img = Image::from_pixels(
        3,
        2,
        vec![grey(0), LinearRgb { r: 100_001, g: 1_000_000 - 100_001, b: 15 }, grey(0), grey(0), grey(0), grey(0)],
    )
    .unwrap();
    let mut scan = Ditherer::new(&img, &plain_palette(), DitherPattern::FloydSteinberg);
    scan.step(&lightness(0));
    assert_eq!(scan.current(), wide(100_001, 899_999, 15));
    // Residual against black: 100_001 in red, 899_999 in green, 15 in blue.
    scan.step(&lightness(0));
    assert_eq!(scan.pixel(2), wide(43_750, 393_749, 6));
    assert_eq!(scan.pixel(3), wide(18_750, 168_749, 2));
    assert_eq!(scan.pixel(4), wide(31_250, 281_249, 4));
    assert_eq!(scan.pixel(5), wide(6_251, 56_252, 3));

    let img = Image::from_pixels(
        3,
        2,
        vec![grey(0), LinearRgb { r: 1_000_000 - 100_001, g: 1_000_000, b: 1_000_000 }, grey(0), grey(0), grey(0), grey(0)],
    )
    .unwrap();
    let mut scan = Ditherer::new(&img, &plain_palette(), DitherPattern::FloydSteinberg);
    scan.step(&lightness(0));
    // Residual against white: -100_001 in red, nothing in green and blue.
    scan.step(&lightness(1_000_000));
    assert_eq!(scan.pixel(2), wide(-43_750, 0, 0));
    assert_eq!(scan.pixel(3), wide(-18_750, 0, 0));
    assert_eq!(scan.pixel(4), wide(-31_250, 0, 0));
    assert_eq!(scan.pixel(5), wide(-6_251, 0, 0));
}

fn totals(scan: &Ditherer) -> (i128, i128, i128) {
    let mut sum = (0, 0, 0);
    for i in 0..scan.len() {
        let p = scan.pixel(i);
        sum = (sum.0 + p.r, sum.1 + p.g, sum.2 + p.b);
    }
    sum
}

#[test]
fn interior_steps_conserve_every_channel_total() {
    let mut pixels = Vec::new();
    for i in 0..30i32 {
        pixels.push(LinearRgb { r: (i * 123_457) % 1_000_003, g: (i * 77_773) % 999_983, b: (i * 31_337) % 500_009 });
    }
    let img = Image::from_pixels(6, 5, pixels).unwrap();
    let mut scan = Ditherer::new(&img, &plain_palette(), DitherPattern::FloydSteinberg);
    let mut interior = 0;
    while !scan.is_done() {
        let before = totals(&scan);
        let at = scan.position();
        let (x, y) = (at % 6, at / 6);
        let current = scan.current();
        scan.step(&lightness(((current.r + current.g + current.b) / 3) as i32));
        let after = totals(&scan);
        if x >= 1 && x + 1 < 6 && y + 1 < 5 {
            assert_eq!(before, after);
            interior += 1;
        }
    }
    assert_eq!(interior, 16);
}

#[test]
fn edge_steps_drop_what_has_nowhere_to_go() {
    let img = Image::filled(2, 1, grey(160_000)).unwrap();
    let mut scan = Ditherer::new(&img, &plain_palette(), DitherPattern::FloydSteinberg);
    scan.step(&lightness(0));
    // Only the right neighbour exists: 7/16 of 160_000 arrives.
    assert_eq!(scan.pixel(1), wide(230_000, 230_000, 230_000));
    assert_eq!(totals(&scan), (230_000, 230_000, 230_000));
    scan.step(&lightness(0));
    assert_eq!(totals(&scan), (0, 0, 0));
    assert!(scan.is_done());
}

#[test]
fn finished_scan_holds_palette_colours_only() {
    let img = Image::filled(5, 4, grey(350_000)).unwrap();
    let palette = plain_palette();
    let mut scan = Ditherer::new(&img, &palette, DitherPattern::FloydSteinberg);
    let mut chosen = Vec::new();
    while !scan.is_done() {
        let current = scan.current();
        chosen.push(scan.step(&lightness(current.r as i32)));
    }
    let out = scan.finish();
    assert_eq!((out.width, out.height), (5, 4));
    assert_eq!(out.pixels, chosen);
    assert!(out.pixels.iter().all(|p| *p == grey(0) || *p == grey(1_000_000)));
    let white = out.pixels.iter().filter(|p| **p == grey(1_000_000)).count();
    assert!(white >= 5 && white <= 9);
}

#[test]
fn single_entry_palette_takes_every_pixel() {
    let img = Image::filled(7, 3, grey(900_000)).unwrap();
    let only = [entry(255, 0, 0)];
    let out = dither_linear(&img, &only, DitherPattern::FloydSteinberg, &to_perceptual);
    assert_eq!(out.pixels, vec![only[0].linear; 21]);
}

#[test]
fn empty_image_dithers_to_an_empty_image() {
    let img: Image<LinearRgb> = Image::from_pixels(0, 5, vec![]).unwrap();
    let out = dither_linear(&img, &plain_palette(), DitherPattern::FloydSteinberg, &to_perceptual);
    assert_eq!((out.width, out.height), (0, 5));
    assert!(out.pixels.is_empty());
}

#[test]
fn grey_dither() {
    let img = Image::filled(16, 16, Rgb8 { r: 128, g: 128, b: 128 }).unwrap();
    let palette = [entry(0, 0, 0), entry(255, 255, 255)];

    let res = dither(&img, &palette, DitherPattern::FloydSteinberg, &to_perceptual);
    assert_eq!((res.width, res.height), (16, 16));
    assert_eq!(res.pixels.len(), 256);
    let black = Rgb8 { r: 0, g: 0, b: 0 };
    let white = Rgb8 { r: 255, g: 255, b: 255 };
    assert!(res.pixels.iter().all(|p| *p == black || *p == white));
    assert!(res.pixels.contains(&black));
    assert!(res.pixels.contains(&white));
}

#[test]
fn eight_bit_dither_is_the_linear_one_between_two_conversions() {
    let mut pixels = Vec::new();
    for i in 0..48u32 {
        pixels.push(Rgb8 { r: (i * 5) as u8, g: (255 - i * 3) as u8, b: (i * 11 % 256) as u8 });
    }
    let img = Image::from_pixels(8, 6, pixels).unwrap();
    let palette = [entry(0, 0, 0), entry(255, 255, 255), entry(255, 0, 0), entry(0, 0, 255)];
    let direct = dither(&img, &palette, DitherPattern::FloydSteinberg, &to_perceptual);
    let linear = dither_rust::transfer::to_linear(&img);
    let staged = to_srgb(&dither_linear(&linear, &palette, DitherPattern::FloydSteinberg, &to_perceptual));
    assert_eq!(direct.pixels, staged.pixels);
    let allowed: Vec<Rgb8> = [(0, 0, 0), (255, 255, 255), (255, 0, 0), (0, 0, 255)]
        .iter()
        .map(|&(r, g, b)| Rgb8 { r, g, b })
        .collect();
    assert!(direct.pixels.iter().all(|p| allowed.contains(p)));
}

fn pattern(pixels: &[LinearRgb], palette: &[PaletteEntry]) -> Vec<String> {
    pixels
        .chunks(16)
        .map(|row| row.iter().map(|p| if *p == palette[0].linear { '#' } else { '.' }).collect())
        .collect()
}

#[test]
fn uniform_grey_comes_out_half_black() {
    let img = Image::filled(16, 16, grey(fixed(128.0 / 255.0))).unwrap();
    let palette = [entry(0, 0, 0), entry(255, 255, 255)];
    let res = dither_linear(&img, &palette, DitherPattern::FloydSteinberg, &to_perceptual);
    let black = res.pixels.iter().filter(|p| **p == palette[0].linear).count();
    let white = res.pixels.iter().filter(|p| **p == palette[1].linear).count();
    assert_eq!(black + white, 256);
    let fraction = black as f64 / 256.0;
    assert!((fraction - 0.5).abs() < 0.05, "black fraction {}", fraction);
    // The two colours are mixed: none of them fills a whole row.
    for row in res.pixels.chunks(16) {
        assert!(row.iter().any(|p| *p != row[0]), "pattern {:?}", pattern(&res.pixels, &palette));
    }
}

#[test]
fn test_dither() {
    let mut pixels = Vec::new();
    for y in 0..640u32 {
        for x in 0..640u32 {
            pixels.push(Rgb8 { r: (x * 255 / 639) as u8, g: (y * 255 / 639) as u8, b: ((x + y) % 256) as u8 });
        }
    }
    let img = Image::from_pixels(640, 640, pixels).unwrap();
    let palette = [entry(0, 0, 0), entry(255, 255, 255), entry(255, 0, 0)];

    let res = dither(&img, &palette, DitherPattern::FloydSteinberg, &to_perceptual);
    assert_eq!((res.width, res.height), (640, 640));
    for (r, g, b) in [(0, 0, 0), (255, 255, 255), (255, 0, 0)] {
        assert!(res.pixels.contains(&Rgb8 { r, g, b }));
    }
}
