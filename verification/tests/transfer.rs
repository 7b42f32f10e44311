use dither_rust::dither::LinearRgb;
use dither_rust::fixed::iroot;
use dither_rust::image::{Image, Rgb8};
use dither_rust::transfer::{
    channel_to_fixed, fixed_to_channel, linear_to_srgb, srgb_to_linear, to_linear, to_srgb,
    ENCODED_KNEE, LINEAR_KNEE,
};

#[test]
fn roots_round_down() {
    assert_eq!(iroot(26, 3, 100), 2);
    assert_eq!(iroot(27, 3, 100), 3);
    assert_eq!(iroot(31, 5, 100), 1);
    assert_eq!(iroot(32, 5, 100), 2);
    assert_eq!(iroot(0, 7, 10), 0);
    assert_eq!(iroot(12_345, 1, 20_000), 12_345);
    assert_eq!(iroot(1_000_000_000_000_000_000_000_000_000_000, 5, 0x200_0000), 1_000_000);
    assert_eq!(iroot(999_999_999_999_999_999_999_999_999_999, 5, 0x200_0000), 999_999);
    assert_eq!(iroot(u64::MAX as u128, 3, 0x20_0000 * 2), 2_642_245);
}

#[test]
fn knees_of_the_curve() {
    assert_eq!(ENCODED_KNEE, 40_450);
    assert_eq!(LINEAR_KNEE, 3_130);
    assert_eq!(srgb_to_linear(40_450), 3_130);
    assert_eq!(srgb_to_linear(40_451), 3_130);
    assert_eq!(linear_to_srgb(3_130), 40_439);
    assert_eq!(linear_to_srgb(3_131), 40_451);
}

#[test]
fn decoding_follows_the_curve() {
    let cases: [(i32, i64); 16] = [
        (0, 0),
        (1, 0),
        (12, 0),
        (13, 1),
        (100_000, 10_022),
        (214_041, 37_649),
        (500_000, 214_040),
        (501_960, 215_859),
        (735_357, 499_998),
        (999_999, 999_997),
        (1_000_000, 1_000_000),
        (-1_292, -100),
        (-1, 0),
        (2_000_000, 4_953_840),
        (i32::MAX, 87_267_484_325_622),
        (i32::MIN, -166_213_904),
    ];
    for (encoded, linear) in cases {
        assert_eq!(srgb_to_linear(encoded), linear, "decoding {}", encoded);
    }
}

#[test]
fn encoding_follows_the_curve() {
    let cases: [(i32, i64); 16] = [
        (0, 0),
        (1, 12),
        (77, 994),
        (78, 1_007),
        (10_022, 99_992),
        (214_040, 499_996),
        (215_859, 501_955),
        (499_998, 735_351),
        (999_999, 999_994),
        (1_000_000, 1_000_000),
        (-100, -1_292),
        (-1, -12),
        (2_000_000, 1_353_247),
        (i32::MAX, 25_741_235),
        (i32::MIN, -27_745_488_732),
        (3_130, 40_439),
    ];
    for (linear, encoded) in cases {
        assert_eq!(linear_to_srgb(linear), encoded, "encoding {}", linear);
    }
}

#[test]
fn both_directions_stay_close_to_the_real_curve() {
    let mut x = 0;
    while x <= 1_000_000 {
        let f = x as f64 / 1e6;
        let decoded = if f <= 0.04045 { f / 12.92 } else { ((f + 0.055) / 1.055).powf(2.4) };
        assert!((srgb_to_linear(x) as f64 - decoded * 1e6).abs() < 10.0, "decoding {}", x);
        let encoded = if f <= 0.0031308 { f * 12.92 } else { 1.055 * f.powf(1.0 / 2.4) - 0.055 };
        assert!((linear_to_srgb(x) as f64 - encoded * 1e6).abs() < 15.0, "encoding {}", x);
        x += 101;
    }
}

#[test]
fn decoding_then_encoding_returns_close_to_the_start() {
    let mut worst = 0;
    let mut x = 0;
    while x <= 1_000_000 {
        let back = linear_to_srgb(srgb_to_linear(x) as i32);
        assert!(back <= x as i64, "at {}", x);
        assert!(x as i64 - back < 100, "at {}", x);
        worst = worst.max(x as i64 - back);
        x += 13;
    }
    assert!(worst <= 17);
    for x in [0, 40_449, 40_450, 40_451, 40_934, 999_999, 1_000_000] {
        assert!((linear_to_srgb(srgb_to_linear(x) as i32) - x as i64).abs() <= 17);
    }
}

#[test]
fn both_directions_never_decrease() {
    let mut previous = (srgb_to_linear(-50), linear_to_srgb(-50));
    let mut x = -49;
    while x <= 1_100_000 {
        let now = (srgb_to_linear(x), linear_to_srgb(x));
        assert!(now.0 >= previous.0 && now.1 >= previous.1, "at {}", x);
        previous = now;
        x += 17;
    }
}

#[test]
fn channels_scale_to_millionths() {
    assert_eq!(channel_to_fixed(0), 0);
    assert_eq!(channel_to_fixed(1), 3_921);
    assert_eq!(channel_to_fixed(128), 501_960);
    assert_eq!(channel_to_fixed(255), 1_000_000);
}

#[test]
fn intensities_round_to_the_nearest_channel_value() {
    let cases: [(i64, u8); 12] = [
        (i64::MIN, 0),
        (-5, 0),
        (0, 0),
        (1_960, 0),
        (1_961, 1),
        (3_921, 1),
        (500_000, 128),
        (998_039, 254),
        (998_040, 255),
        (1_000_000, 255),
        (5_000_000, 255),
        (i64::MAX, 255),
    ];
    for (intensity, channel) in cases {
        assert_eq!(fixed_to_channel(intensity), channel, "intensity {}", intensity);
    }
}

#[test]
fn eight_bit_images_survive_the_round_trip() {
    let mut pixels = Vec::new();
    for v in 0..=255u8 {
        pixels.push(Rgb8 { r: v, g: 255 - v, b: v / 2 });
    }
    let img = Image::from_pixels(16, 16, pixels).unwrap();
    let linear = to_linear(&img);
    assert_eq!((linear.width, linear.height), (16, 16));
    assert_eq!(linear.pixels[0], LinearRgb { r: 0, g: 1_000_000, b: 0 });
    assert_eq!(linear.pixels[128], LinearRgb { r: 215_859, g: 212_229, b: 51_269 });
    assert_eq!(linear.pixels[255], LinearRgb { r: 1_000_000, g: 0, b: 212_229 });
    let back = to_srgb(&linear);
    assert_eq!(back.pixels, img.pixels);
}

#[test]
fn out_of_range_intensities_are_clipped_on_output() {
    let img = Image::from_pixels(
        2,
        1,
        vec![LinearRgb { r: -400_000, g: 2_000_000, b: 1_000_000 }, LinearRgb { r: 0, g: 214_040, b: 3_130 }],
    )
    .unwrap();
    let out = to_srgb(&img);
    assert_eq!(out.pixels, vec![Rgb8 { r: 0, g: 255, b: 255 }, Rgb8 { r: 0, g: 127, b: 10 }]);
}
