use dither_rust::colour::{average_lab, lab_equal, nearest, oklab_distance, Lab};
use dither_rust::image::{Image, Rgb8};
use dither_rust::k_means::{
    cluster, filter_matching_pixels, fresh_clusters, lloyd_step, refine, score, seed_centres,
    seed_weights, Cluster, ClusterError,
};
use oklab::{linear_srgb_to_oklab, Oklab, RGB};
use rand::rngs::StdRng;
use rand::SeedableRng;

fn fixed(x: f32) -> i32 {
    (x as f64 * 1_000_000.0).round() as i32
}

fn lab_of(c: Oklab) -> Lab {
    Lab { l: fixed(c.l), a: fixed(c.a), b: fixed(c.b) }
}

fn lab(l: i32, a: i32, b: i32) -> Lab {
    Lab { l, a, b }
}

/// The perceptual colour of an 8-bit linear-light pixel.
fn lab_of_linear8(r: u8, g: u8, b: u8) -> Lab {
    lab_of(linear_srgb_to_oklab(RGB {
        r: r as f32 / 255.0,
        g: g as f32 / 255.0,
        b: b as f32 / 255.0,
    }))
}

fn solid(width: u32, height: u32, c: Lab) -> Image<Lab> {
    Image::filled(width, height, c).unwrap()
}

fn image_of(width: u32, height: u32, pixels: Vec<Lab>) -> Image<Lab> {
    Image::from_pixels(width, height, pixels).unwrap()
}

fn four_colour_image() -> Image<Lab> {
    let dark = lab(100_000, 0, 0);
    let dim = lab(150_000, 0, 0);
    let bright = lab(850_000, 0, 0);
    let light = lab(900_000, 0, 0);
    image_of(4, 2, vec![dark, dim, bright, light, light, bright, dim, dark])
}

#[test]
fn solid_grey_between_black_and_white_converges_in_one_round() {
    let grey = lab_of_linear8(128, 128, 128);
    let black = lab_of_linear8(0, 0, 0);
    let white = lab_of_linear8(255, 255, 255);
    let img = solid(16, 16, grey);

    let mut clusters = fresh_clusters(&vec![black, white]);
    let settled = lloyd_step(&img, &mut clusters);
    assert!(settled);
    assert_eq!(clusters.len(), 2);
    assert_eq!(clusters[0].members.len(), 0);
    assert_eq!(clusters[0].average_pixel, lab(0, 0, 0));
    assert_eq!(clusters[0].score, 0);
    assert_eq!(clusters[1].members.len(), 256);
    assert_eq!(clusters[1].average_pixel, grey);
    assert_eq!(clusters[1].score, 0);

    let refined = refine(&img, fresh_clusters(&vec![black, white]), None);
    assert_eq!(refined.len(), 2);
    assert_eq!(refined[0].members.len(), 0);
    assert_eq!(refined[1].members.len(), 256);
    assert_eq!(refined[1].average_pixel, grey);

    let capped = refine(&img, fresh_clusters(&vec![black, white]), Some(1));
    assert_eq!(capped[0].members, refined[0].members);
    assert_eq!(capped[1].members, refined[1].members);
}

#[test]
fn equally_distant_centres_give_the_pixel_to_the_first() {
    let img = solid(3, 3, lab(500_000, 0, 0));
    let mut clusters = fresh_clusters(&vec![lab(400_000, 0, 0), lab(600_000, 0, 0)]);
    lloyd_step(&img, &mut clusters);
    assert_eq!(clusters[0].members.len(), 9);
    assert_eq!(clusters[1].members.len(), 0);
}

#[test]
fn members_carry_their_coordinates() {
    let a = lab(100_000, 0, 0);
    let b = lab(900_000, 0, 0);
    let img = image_of(3, 2, vec![a, b, a, b, b, a]);
    let mut clusters = fresh_clusters(&vec![a, b]);
    lloyd_step(&img, &mut clusters);
    assert_eq!(clusters[0].members, vec![(0, 0, a), (2, 0, a), (2, 1, a)]);
    assert_eq!(clusters[1].members, vec![(1, 0, b), (0, 1, b), (1, 1, b)]);
}

#[test]
fn a_round_moves_centres_to_the_mean_and_scores_the_spread() {
    let img = four_colour_image();
    let mut clusters = fresh_clusters(&vec![lab(0, 0, 0), lab(1_000_000, 0, 0)]);
    let settled = lloyd_step(&img, &mut clusters);
    assert!(!settled);
    assert_eq!(clusters[0].average_pixel, lab(125_000, 0, 0));
    assert_eq!(clusters[0].members.len(), 4);
    assert_eq!(clusters[0].score, 25_000);
    assert_eq!(clusters[1].average_pixel, lab(875_000, 0, 0));
    assert_eq!(clusters[1].members.len(), 4);
    assert_eq!(clusters[1].score, 25_000);
    let settled = lloyd_step(&img, &mut clusters);
    assert!(settled);
    assert_eq!(clusters[0].average_pixel, lab(125_000, 0, 0));
    assert_eq!(clusters[1].score, 25_000);
}

#[test]
fn score_is_mean_distance_rounded_down() {
    let centre = lab(0, 0, 0);
    let members = [(0, 0, lab(10, 0, 0)), (1, 0, lab(11, 0, 0)), (2, 0, lab(12, 0, 0)), (3, 0, lab(14, 0, 0))];
    assert_eq!(score(&members, &centre), 11);
    assert_eq!(score(&[], &centre), 0);
    assert_eq!(score(&[(0, 0, lab(5, 0, 0))], &centre), 0);
}

#[test]
fn refinement_stops_at_the_cap() {
    let img = four_colour_image();
    let start = vec![lab(0, 0, 0), lab(1_000_000, 0, 0)];
    let untouched = refine(&img, fresh_clusters(&start), Some(0));
    assert_eq!(untouched[0].average_pixel, lab(0, 0, 0));
    assert_eq!(untouched[0].members.len(), 0);
    assert_eq!(untouched[1].average_pixel, lab(1_000_000, 0, 0));
    let once = refine(&img, fresh_clusters(&start), Some(1));
    assert_eq!(once[0].average_pixel, lab(125_000, 0, 0));
    let free = refine(&img, fresh_clusters(&start), None);
    assert_eq!(free[0].average_pixel, lab(125_000, 0, 0));
    assert_eq!(free[1].average_pixel, lab(875_000, 0, 0));
    assert_eq!(free[0].score, 25_000);
}

#[test]
fn scores_do_not_grow_on_a_separated_sample() {
    let mut pixels = Vec::new();
    for i in 0..64i32 {
        let base = if i % 2 == 0 { 150_000 } else { 800_000 };
        pixels.push(lab(base + (i % 7) * 9_000, (i % 5) * 4_000, -(i % 3) * 5_000));
    }
    let img = image_of(8, 8, pixels);
    let mut clusters = fresh_clusters(&vec![lab(0, 0, 0), lab(1_000_000, 0, 0)]);
    lloyd_step(&img, &mut clusters);
    let mut previous: Vec<i64> = clusters.iter().map(|c| c.score).collect();
    let mut rounds = 1;
    loop {
        let settled = lloyd_step(&img, &mut clusters);
        rounds += 1;
        let now: Vec<i64> = clusters.iter().map(|c| c.score).collect();
        for (n, p) in now.iter().zip(&previous) {
            assert!(n <= p);
        }
        previous = now;
        if settled {
            break;
        }
        assert!(rounds < 50);
    }
}

#[test]
fn a_score_can_rise_when_pixels_move_away() {
    let pixels = vec![lab(0, 0, 0), lab(0, 0, 0), lab(100_000, 0, 0), lab(400_000, 0, 0)];
    let img = image_of(4, 1, pixels);
    let mut clusters = fresh_clusters(&vec![lab(100_000, 0, 0), lab(700_000, 0, 0)]);
    assert!(!lloyd_step(&img, &mut clusters));
    assert_eq!(clusters[0].members.len(), 4);
    assert_eq!(clusters[0].average_pixel, lab(125_000, 0, 0));
    assert_eq!(clusters[0].score, 137_500);
    assert_eq!(clusters[1].members.len(), 0);
    assert!(!lloyd_step(&img, &mut clusters));
    assert_eq!(clusters[0].members.len(), 2);
    assert_eq!(clusters[0].average_pixel, lab(250_000, 0, 0));
    assert_eq!(clusters[0].score, 150_000);
    assert_eq!(clusters[1].members.len(), 2);
    assert_eq!(clusters[1].score, 0);
}

#[test]
fn zero_clusters_is_a_configuration_error() {
    let img = four_colour_image();
    let mut rng = StdRng::seed_from_u64(1);
    assert_eq!(cluster(&img, 0, None, None, &mut rng).unwrap_err(), ClusterError::InvalidClusterCount);
    assert_eq!(
        cluster(&img, 0, Some(3), Some(lab(1, 2, 3)), &mut rng).unwrap_err(),
        ClusterError::InvalidClusterCount
    );
    assert_eq!(
        seed_centres(&vec![], 0, None, &mut rng).unwrap_err(),
        ClusterError::InvalidClusterCount
    );
}

#[test]
fn few_colours_each_become_a_centre() {
    let img = four_colour_image();
    let mut rng = StdRng::seed_from_u64(2);
    let clusters = cluster(&img, 6, None, None, &mut rng).unwrap();
    assert_eq!(clusters.len(), 4);
    for c in &clusters {
        assert_eq!(c.members.len(), 2);
        assert_eq!(c.score, 0);
        assert_eq!(c.average_pixel, c.members[0].2);
    }
    assert_eq!(clusters[0].average_pixel, lab(100_000, 0, 0));
    assert_eq!(clusters[3].average_pixel, lab(900_000, 0, 0));
}

#[test]
fn solid_image_gives_a_single_cluster() {
    let grey = lab_of_linear8(128, 128, 128);
    let img = solid(16, 16, grey);
    let mut rng = StdRng::seed_from_u64(3);
    let clusters = cluster(&img, 2, None, None, &mut rng).unwrap();
    assert_eq!(clusters.len(), 1);
    assert_eq!(clusters[0].members.len(), 256);
    assert_eq!(clusters[0].average_pixel, grey);
    assert_eq!(clusters[0].score, 0);
}

#[test]
fn empty_image_gives_no_cluster() {
    let img = image_of(0, 0, vec![]);
    let mut rng = StdRng::seed_from_u64(4);
    assert_eq!(cluster(&img, 3, None, None, &mut rng).unwrap().len(), 0);
    let pinned = cluster(&img, 3, None, Some(lab(1, 2, 3)), &mut rng).unwrap();
    assert_eq!(pinned.len(), 1);
    assert_eq!(pinned[0].members.len(), 0);
}

#[test]
fn seed_colour_is_pinned_first() {
    let unique = vec![lab(100_000, 0, 0), lab(500_000, 0, 0), lab(900_000, 0, 0), lab(300_000, 0, 0)];
    let accent = lab(627_955, 224_863, 125_846);
    for seed in 0..20 {
        let mut rng = StdRng::seed_from_u64(seed);
        let centres = seed_centres(&unique, 3, Some(accent), &mut rng).unwrap();
        assert_eq!(centres.len(), 3);
        assert_eq!(centres[0], accent);
        assert!(unique.contains(&centres[1]));
        assert!(unique.contains(&centres[2]));
        assert_ne!(centres[1], centres[2]);
    }
    let mut rng = StdRng::seed_from_u64(5);
    assert_eq!(seed_centres(&unique, 5, Some(accent), &mut rng).unwrap(), {
        let mut all = vec![accent];
        all.extend(unique.iter().copied());
        all
    });
    assert_eq!(seed_centres(&unique, 1, Some(accent), &mut rng).unwrap(), vec![accent]);
}

#[test]
fn drawn_centres_are_distinct_colours_of_the_image() {
    let mut unique = Vec::new();
    for i in 0..50 {
        unique.push(lab(i * 20_000, (i % 7) * 30_000, -(i % 5) * 30_000));
    }
    for seed in 0..20 {
        let mut rng = StdRng::seed_from_u64(seed);
        let centres = seed_centres(&unique, 8, None, &mut rng).unwrap();
        assert_eq!(centres.len(), 8);
        for (i, c) in centres.iter().enumerate() {
            assert!(unique.contains(c));
            for d in &centres[..i] {
                assert!(oklab_distance(c, d) > 0);
            }
        }
    }
}

#[test]
fn weights_are_a_hundred_times_the_nearest_distance() {
    let unique = vec![lab(0, 0, 0), lab(250_000, 0, 0), lab(1_000_000, 0, 0)];
    let centres = vec![lab(0, 0, 0), lab(1_000_000, 0, 0)];
    assert_eq!(seed_weights(&unique, &centres), vec![0, 25_000_000, 0]);
}

#[test]
fn coinciding_colours_cannot_be_drawn_twice() {
    // Not equal up to tolerance, yet at distance zero from one another.
    let unique = vec![lab(0, 1_000, 0), lab(0, 0, 1_000), lab(0, -1_000, 0)];
    assert!(!lab_equal(&unique[0], &unique[1]));
    assert_eq!(oklab_distance(&unique[0], &unique[1]), 0);
    assert_eq!(oklab_distance(&unique[0], &unique[2]), 0);
    assert_eq!(oklab_distance(&unique[1], &unique[2]), 0);
    let mut rng = StdRng::seed_from_u64(6);
    assert_eq!(seed_centres(&unique, 2, None, &mut rng).unwrap_err(), ClusterError::DegenerateWeights);
    let img = image_of(3, 1, unique.clone());
    assert_eq!(cluster(&img, 2, None, None, &mut rng).unwrap_err(), ClusterError::DegenerateWeights);
    assert_eq!(cluster(&img, 3, None, None, &mut rng).unwrap().len(), 3);
}

#[test]
fn clustering_accounts_for_every_pixel() {
    let mut pixels = Vec::new();
    for i in 0..120i32 {
        pixels.push(lab((i % 12) * 80_000, (i % 5) * 40_000 - 80_000, (i % 3) * 60_000 - 60_000));
    }
    let img = image_of(12, 10, pixels.clone());
    for seed in 0..5 {
        let mut rng = StdRng::seed_from_u64(seed);
        let clusters = cluster(&img, 4, Some(25), None, &mut rng).unwrap();
        assert_eq!(clusters.len(), 4);
        let mut seen = vec![false; pixels.len()];
        for c in &clusters {
            if !c.members.is_empty() {
                assert_eq!(c.average_pixel, average_lab(&c.members));
            }
            assert_eq!(c.score, score(&c.members, &c.average_pixel));
            for &(x, y, colour) in &c.members {
                let i = (y * 12 + x) as usize;
                assert!(!seen[i]);
                seen[i] = true;
                assert_eq!(colour, pixels[i]);
            }
        }
        assert!(seen.iter().all(|&s| s));
    }
}

#[test]
fn pixels_sit_in_the_cluster_nearest_before_the_round() {
    let img = four_colour_image();
    let centres = vec![lab(120_000, 0, 0), lab(860_000, 0, 0), lab(500_000, 0, 0)];
    let mut clusters = fresh_clusters(&centres);
    lloyd_step(&img, &mut clusters);
    for (k, c) in clusters.iter().enumerate() {
        for m in &c.members {
            assert_eq!(nearest(&m.2, &centres), k);
        }
    }
    assert_eq!(clusters[2].members.len(), 0);
    assert_eq!(clusters[2].average_pixel, lab(0, 0, 0));
}

fn rgb(r: u8, g: u8, b: u8) -> Rgb8 {
    Rgb8 { r, g, b }
}

fn two_clusters() -> (Image<Rgb8>, Vec<Cluster>) {
    let img = Image::from_pixels(
        3,
        2,
        vec![rgb(1, 1, 1), rgb(2, 2, 2), rgb(3, 3, 3), rgb(4, 4, 4), rgb(5, 5, 5), rgb(6, 6, 6)],
    )
    .unwrap();
    let red = lab(627_955, 224_863, 125_846);
    let grey = lab(599_871, 0, 0);
    let clusters = vec![
        Cluster { average_pixel: red, members: vec![(0, 0, red), (2, 1, red)], score: 0 },
        Cluster {
            average_pixel: grey,
            members: vec![(1, 0, grey), (2, 0, grey), (0, 1, grey), (1, 1, grey)],
            score: 0,
        },
    ];
    (img, clusters)
}

#[test]
fn no_cluster_near_the_reference_is_no_match() {
    let (img, clusters) = two_clusters();
    let blue = lab(452_014, -32_457, -311_528);
    assert!(filter_matching_pixels(&img, &clusters, &blue, 150_000).is_none());
    assert!(filter_matching_pixels(&img, &[], &blue, 150_000).is_none());
    let red = lab(627_955, 224_863, 125_846);
    assert!(filter_matching_pixels(&img, &clusters, &red, 0).is_none());
}

#[test]
fn matching_pixels_are_split_from_the_rest() {
    let (img, clusters) = two_clusters();
    let reference = lab(630_000, 220_000, 120_000);
    let (matched, rest) = filter_matching_pixels(&img, &clusters, &reference, 150_000).unwrap();
    let black = rgb(0, 0, 0);
    assert_eq!((matched.width, matched.height), (3, 2));
    assert_eq!((rest.width, rest.height), (3, 2));
    assert_eq!(matched.pixels, vec![rgb(1, 1, 1), black, black, black, black, rgb(6, 6, 6)]);
    assert_eq!(rest.pixels, vec![black, rgb(2, 2, 2), rgb(3, 3, 3), rgb(4, 4, 4), rgb(5, 5, 5), black]);
}

#[test]
fn threshold_is_exclusive() {
    let (img, clusters) = two_clusters();
    let reference = lab(627_955 - 1_000, 224_863, 125_846);
    assert!(filter_matching_pixels(&img, &clusters, &reference, 1_000).is_none());
    assert!(filter_matching_pixels(&img, &clusters, &reference, 1_001).is_some());
}

#[test]
fn every_matching_cluster_contributes() {
    let (img, clusters) = two_clusters();
    let reference = lab(600_000, 100_000, 60_000);
    let (matched, rest) = filter_matching_pixels(&img, &clusters, &reference, 1_000_000).unwrap();
    assert_eq!(matched.pixels, img.pixels);
    assert_eq!(rest.pixels, vec![rgb(0, 0, 0); 6]);
}
