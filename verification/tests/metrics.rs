use std::cmp::Ordering;

use dither_rust::colour::{
    average_lab, lab_equal, nearest, oklab_distance, oklab_distance2, select_colour,
    unique_colours, Lab, LabDelta,
};
use dither_rust::fixed::{compare_f32, f32_equal, isqrt, EPSILON, EPSILON_SQUARED, SCALE};
use oklab::{srgb_to_oklab, Oklab, RGB};

fn fixed(x: f32) -> i32 {
    (x as f64 * 1_000_000.0).round() as i32
}

fn lab_of(c: Oklab) -> Lab {
    Lab { l: fixed(c.l), a: fixed(c.a), b: fixed(c.b) }
}

fn lab(l: i32, a: i32, b: i32) -> Lab {
    Lab { l, a, b }
}

#[test]
fn constants_describe_millionths() {
    assert_eq!(SCALE, 1_000_000);
    assert_eq!(EPSILON, 10);
    assert_eq!(EPSILON_SQUARED as i128 * 100_000, SCALE as i128 * SCALE as i128);
}

#[test]
fn isqrt_rounds_down() {
    assert_eq!(isqrt(0), 0);
    assert_eq!(isqrt(1), 1);
    assert_eq!(isqrt(3), 1);
    assert_eq!(isqrt(4), 2);
    assert_eq!(isqrt(99), 9);
    assert_eq!(isqrt(100), 10);
    assert_eq!(isqrt(1_800_000_000), 42_426);
    assert_eq!(isqrt(0xffff_ffff), 0xffff);
    assert_eq!(isqrt(0x1_0000_0000), 0x1_0000);
    assert_eq!(isqrt(u64::MAX as u128), 0xffff_ffff);
    assert_eq!(isqrt(u64::MAX as u128 + 1), 0x1_0000_0000);
    assert_eq!(isqrt(u128::MAX), u64::MAX);
}

#[test]
fn scalars_within_tolerance_are_equal() {
    assert!(f32_equal(0, 0));
    assert!(f32_equal(100, 109));
    assert!(f32_equal(109, 100));
    assert!(!f32_equal(100, 110));
    assert!(!f32_equal(110, 100));
    assert!(f32_equal(-5, 4));
    assert!(!f32_equal(i64::MIN, i64::MAX));
}

#[test]
fn compare_orders_beyond_tolerance() {
    assert_eq!(compare_f32(5, 5), Ordering::Equal);
    assert_eq!(compare_f32(5, 14), Ordering::Equal);
    assert_eq!(compare_f32(5, 15), Ordering::Less);
    assert_eq!(compare_f32(15, 5), Ordering::Greater);
    assert_eq!(compare_f32(i64::MIN, i64::MAX), Ordering::Less);
    assert_eq!(compare_f32(i64::MAX, i64::MIN), Ordering::Greater);
}

#[test]
fn colour_equality_is_reflexive_and_symmetric() {
    let colours = [
        lab(0, 0, 0),
        lab(9, -9, 9),
        lab(10, 0, 0),
        lab(599_871, 12, -40),
        lab(i32::MAX, i32::MIN, 0),
    ];
    for c in &colours {
        assert!(lab_equal(c, c));
        for d in &colours {
            assert_eq!(lab_equal(c, d), lab_equal(d, c));
        }
    }
    assert!(lab_equal(&colours[0], &colours[1]));
    assert!(!lab_equal(&colours[0], &colours[2]));
}

#[test]
fn every_channel_must_agree() {
    let base = lab(500_000, 100_000, -100_000);
    assert!(!lab_equal(&base, &lab(500_010, 100_000, -100_000)));
    assert!(!lab_equal(&base, &lab(500_000, 100_010, -100_000)));
    assert!(!lab_equal(&base, &lab(500_000, 100_000, -100_010)));
    assert!(lab_equal(&base, &lab(500_009, 99_991, -100_009)));
}

#[test]
fn distance_of_lightness_only() {
    assert_eq!(oklab_distance(&lab(0, 0, 0), &lab(1_000_000, 0, 0)), 1_000_000);
    assert_eq!(oklab_distance(&lab(1_000_000, 0, 0), &lab(0, 0, 0)), 1_000_000);
}

#[test]
fn distance_of_chroma_only() {
    let d = oklab_distance(&lab(500_000, 30_000, 40_000), &lab(500_000, 0, 0));
    assert_eq!(d, 50_000);
}

#[test]
fn distance_of_hue_only() {
    let d = oklab_distance(&lab(500_000, 30_000, 0), &lab(500_000, 0, 30_000));
    assert_eq!(d, 42_426);
}

#[test]
fn distance_is_zero_for_equal_colours() {
    assert_eq!(oklab_distance(&lab(5, 5, 5), &lab(0, 0, 0)), 0);
    assert_eq!(oklab_distance2(&lab(5, 5, 5), &lab(0, 0, 0)), 8);
    let c = lab(123_456, -7_890, 12);
    assert_eq!(oklab_distance(&c, &c), 0);
}

#[test]
fn small_hue_terms_are_flattened() {
    let c1 = lab(0, 1_000, 0);
    let c2 = lab(0, 0, 1_000);
    assert!(!lab_equal(&c1, &c2));
    assert_eq!(oklab_distance(&c1, &c2), 0);
    assert_eq!(oklab_distance2(&c1, &c2), 1_414);
}

#[test]
fn distance_combines_all_three_terms() {
    let c1 = lab(600_000, 30_000, 40_000);
    let c2 = lab(300_000, -40_000, 30_000);
    // Both chromas are 50_000, so the chroma delta vanishes and the hue
    // term is 70_000^2 + 10_000^2.
    assert_eq!(oklab_distance(&c1, &c2), isqrt(300_000u128 * 300_000 + 5_000_000_000) as i64);
    assert_eq!(oklab_distance(&c1, &c2), 308_220);
    assert_eq!(oklab_distance2(&c1, &c2), 308_220);
}

#[test]
fn distances_agree_on_extreme_channels() {
    let c1 = lab(i32::MAX, i32::MAX, i32::MAX);
    let c2 = lab(i32::MIN, i32::MIN, i32::MIN);
    let d2 = oklab_distance2(&c1, &c2);
    assert_eq!(d2, isqrt(3 * (u32::MAX as u128) * (u32::MAX as u128)) as i64);
    assert!(oklab_distance(&c1, &c2) >= 0);
}

#[test]
fn both_metrics_rank_greys_alike() {
    let grey = lab_of(srgb_to_oklab(RGB { r: 128, g: 128, b: 128 }));
    let black = lab_of(srgb_to_oklab(RGB { r: 0, g: 0, b: 0 }));
    let white = lab_of(srgb_to_oklab(RGB { r: 255, g: 255, b: 255 }));
    assert!(oklab_distance(&grey, &white) < oklab_distance(&grey, &black));
    assert!(oklab_distance2(&grey, &white) < oklab_distance2(&grey, &black));
}

#[test]
fn unique_keeps_first_seen_order() {
    let colours = [
        lab(100, 0, 0),
        lab(500_000, 0, 0),
        lab(105, 3, -3),
        lab(500_000, 0, 0),
        lab(0, 900_000, 0),
        lab(109, 0, 0),
        lab(110, 0, 0),
    ];
    let unique = unique_colours(&colours);
    assert_eq!(unique, vec![lab(100, 0, 0), lab(500_000, 0, 0), lab(0, 900_000, 0), lab(110, 0, 0)]);
}

#[test]
fn unique_of_nothing_is_nothing() {
    assert_eq!(unique_colours(&[]), Vec::<Lab>::new());
}

#[test]
fn unique_leaves_no_two_equal() {
    let mut colours = Vec::new();
    for i in 0..200 {
        colours.push(lab((i * 7) % 100, (i * 13) % 50, (i * 29) % 30));
    }
    let unique = unique_colours(&colours);
    for (i, c) in unique.iter().enumerate() {
        for d in &unique[..i] {
            assert!(!lab_equal(c, d));
        }
    }
    for c in &colours {
        assert!(unique.iter().any(|u| lab_equal(c, u)));
    }
}

#[test]
fn average_of_nothing_is_the_origin() {
    assert_eq!(average_lab(&[]), lab(0, 0, 0));
}

#[test]
fn average_is_channel_wise() {
    let pixels = [(0, 0, lab(100, -40, 7)), (1, 0, lab(300, -20, 8)), (2, 0, lab(500, 0, 10))];
    assert_eq!(average_lab(&pixels), lab(300, -20, 8));
}

#[test]
fn average_rounds_towards_zero() {
    let pixels = [(0, 0, lab(1, -1, 0)), (1, 0, lab(2, -2, 0))];
    assert_eq!(average_lab(&pixels), lab(1, -1, 0));
    let pixels = [(0, 0, lab(-5, 5, 1)), (0, 1, lab(-5, 5, 1)), (0, 2, lab(-6, 6, 0))];
    assert_eq!(average_lab(&pixels), lab(-5, 5, 0));
}

#[test]
fn average_survives_extreme_channels() {
    let pixels = [(0, 0, lab(i32::MAX, i32::MIN, 0)); 5];
    assert_eq!(average_lab(&pixels), lab(i32::MAX, i32::MIN, 0));
}

#[test]
fn nearest_is_never_farther_than_any_entry() {
    let palette = [
        lab(0, 0, 0),
        lab(1_000_000, 0, 0),
        lab(627_955, 224_863, 125_846),
        lab(500_000, -100_000, 100_000),
        lab(500_000, 100_000, -100_000),
    ];
    for l in (0..=1_000_000).step_by(125_000) {
        for a in (-300_000..=300_000).step_by(150_000) {
            for b in (-300_000..=300_000).step_by(150_000) {
                let c = lab(l, a, b);
                let best = nearest(&c, &palette);
                for p in &palette {
                    assert!(oklab_distance(&c, &palette[best]) <= oklab_distance(&c, p));
                }
                for p in &palette[..best] {
                    assert!(oklab_distance(&c, &palette[best]) < oklab_distance(&c, p));
                }
            }
        }
    }
}

#[test]
fn nearest_breaks_ties_by_order() {
    let palette = [lab(400_000, 0, 0), lab(600_000, 0, 0), lab(400_000, 0, 0)];
    assert_eq!(nearest(&lab(500_000, 0, 0), &palette), 0);
    let palette = [lab(600_000, 0, 0), lab(400_000, 0, 0)];
    assert_eq!(nearest(&lab(500_000, 0, 0), &palette), 0);
    assert_eq!(nearest(&lab(500_000, 0, 0), &[lab(123, 456, 789)]), 0);
}

#[test]
fn quantize() {
    let colour = lab_of(srgb_to_oklab(RGB { r: 128, g: 128, b: 128 }));
    let palette = [
        lab_of(srgb_to_oklab(RGB { r: 0, g: 0, b: 0 })),
        lab_of(srgb_to_oklab(RGB { r: 255, g: 255, b: 255 })),
    ];

    let (colour, _) = select_colour(&colour, &palette);

    assert_eq!(colour, lab_of(srgb_to_oklab(RGB { r: 255, g: 255, b: 255 })));
}

#[test]
fn select_colour_reports_what_is_left() {
    let palette = [lab(0, 0, 0), lab(1_000_000, 10, -10)];
    let (chosen, left) = select_colour(&lab(700_000, 5, 5), &palette);
    assert_eq!(chosen, palette[1]);
    assert_eq!(left, LabDelta { l: -300_000, a: -5, b: 15 });
    let (chosen, left) = select_colour(&lab(i32::MIN, 0, 0), &[lab(i32::MAX, 0, 0)]);
    assert_eq!(chosen, lab(i32::MAX, 0, 0));
    assert_eq!(left.l, i32::MIN as i64 - i32::MAX as i64);
}
