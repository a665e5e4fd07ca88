use theme_palette::color::Color;
use theme_palette::error::ClusterError;
use theme_palette::kmeans::{kmeans, refine, settled};
use theme_palette::lloyd::{assign, lloyd_round, movement_of, nearest_center, ClusterStats};
use theme_palette::palette::PaletteEntry;
use theme_palette::pixels::PixelBuffer;
use theme_palette::random::{RandomSource, ScriptedSource, ThreadSource};
use theme_palette::render::quantize_nearest;
use theme_palette::seeding::{
    nearest, pick_weighted, seed_centroids, seed_weights, total_weight_of,
};

fn px(r: u8, g: u8, b: u8) -> Color {
    Color { r, g, b }
}

fn gray(v: u8) -> Color {
    Color { r: v, g: v, b: v }
}

fn swatch(v: u8, weight: u64) -> PaletteEntry {
    PaletteEntry { color: gray(v), weight }
}

fn four_grays() -> PixelBuffer {
    PixelBuffer::new(2, 2, vec![gray(0), gray(255), gray(10), gray(245)]).unwrap()
}

#[test]
fn scripted_source_hands_out_its_script() {
    let mut source = ScriptedSource::new(vec![3, 12, 7]);
    assert_eq!(source.draw_below(10), 3);
    assert_eq!(source.draw_below(10), 2);
    assert_eq!(source.draw_below(7), 0);
}

#[test]
fn scripted_source_gives_zero_when_it_has_run_out() {
    let mut source = ScriptedSource::new(vec![5]);
    assert_eq!(source.draw_below(100), 5);
    assert_eq!(source.draw_below(100), 0);
    assert_eq!(source.draw_below(1), 0);
    let mut empty = ScriptedSource::new(Vec::new());
    assert_eq!(empty.draw_below(9), 0);
}

#[test]
fn thread_source_draws_below_the_bound() {
    let mut source = ThreadSource::new();
    for _ in 0..50 {
        assert_eq!(source.draw_below(1), 0);
    }
    for bound in [2u128, 3, 10, 1000, 1 << 70] {
        for _ in 0..200 {
            assert!(source.draw_below(bound) < bound);
        }
    }
}

#[test]
fn thread_source_draws_more_than_one_value() {
    let mut source = ThreadSource::new();
    let first = source.draw_below(1 << 100);
    let mut differs = false;
    for _ in 0..20 {
        if source.draw_below(1 << 100) != first {
            differs = true;
        }
    }
    assert!(differs);
}

#[test]
fn nearest_is_the_least_distance() {
    let centers = vec![gray(0), gray(255), gray(100)];
    assert_eq!(nearest(&centers, &gray(90)), 17);
    assert_eq!(nearest(&centers, &gray(255)), 0);
    assert_eq!(nearest(&centers, &gray(5)), 8);
}

#[test]
fn nearest_of_no_centers_is_the_largest_distance() {
    assert_eq!(nearest(&Vec::new(), &gray(90)), 441);
}

#[test]
fn seed_weights_are_squares_of_truncated_distances() {
    let pixels = vec![gray(0), gray(255), gray(10), gray(245)];
    // distances 0, 441, 17, 424
    assert_eq!(seed_weights(&pixels, &vec![gray(0)]), vec![0, 194481, 289, 179776]);
    // distances 0, 0, 17, 17
    assert_eq!(seed_weights(&pixels, &vec![gray(0), gray(255)]), vec![0, 0, 289, 289]);
}

#[test]
fn total_weight_of_adds_up() {
    assert_eq!(total_weight_of(&vec![0, 194481, 289, 179776]), 374546);
    assert_eq!(total_weight_of(&Vec::new()), 0);
    assert_eq!(total_weight_of(&vec![u64::MAX, u64::MAX]), 2 * (u64::MAX as u128));
}

#[test]
fn pick_weighted_walks_until_the_sum_exceeds_the_draw() {
    let weights = vec![0, 5, 0, 3, 2];
    assert_eq!(pick_weighted(&weights, 0), Some(1));
    assert_eq!(pick_weighted(&weights, 4), Some(1));
    assert_eq!(pick_weighted(&weights, 5), Some(3));
    assert_eq!(pick_weighted(&weights, 7), Some(3));
    assert_eq!(pick_weighted(&weights, 8), Some(4));
    assert_eq!(pick_weighted(&weights, 9), Some(4));
    assert_eq!(pick_weighted(&weights, 10), None);
    assert_eq!(pick_weighted(&Vec::new(), 0), None);
    assert_eq!(pick_weighted(&vec![0, 0], 0), None);
}

#[test]
fn seed_centroids_follows_the_draws() {
    let pixels = vec![gray(0), gray(255), gray(10), gray(245)];
    let mut source = ScriptedSource::new(vec![0, 0]);
    assert_eq!(seed_centroids(&pixels, 2, &mut source), Ok(vec![gray(0), gray(255)]));
    // weights against gray(0): 0, 194481, 289, 179776
    let mut source = ScriptedSource::new(vec![0, 194481]);
    assert_eq!(seed_centroids(&pixels, 2, &mut source), Ok(vec![gray(0), gray(10)]));
    let mut source = ScriptedSource::new(vec![0, 194770]);
    assert_eq!(seed_centroids(&pixels, 2, &mut source), Ok(vec![gray(0), gray(245)]));
    // first pixel 3; weights against gray(245): 179776, 289, 165649, 0
    let mut source = ScriptedSource::new(vec![3, 180065]);
    assert_eq!(seed_centroids(&pixels, 2, &mut source), Ok(vec![gray(245), gray(10)]));
}

#[test]
fn seed_centroids_never_repeats_a_color() {
    let pixels = vec![gray(1), gray(1), gray(1), gray(2), gray(1), gray(3)];
    for first in 0..6u128 {
        for draw in 0..20u128 {
            let mut source = ScriptedSource::new(vec![first, draw, draw]);
            let seeds = seed_centroids(&pixels, 3, &mut source).unwrap();
            assert_eq!(seeds.len(), 3);
            assert_ne!(seeds[0], seeds[1]);
            assert_ne!(seeds[0], seeds[2]);
            assert_ne!(seeds[1], seeds[2]);
        }
    }
}

#[test]
fn seed_centroids_wants_a_cluster() {
    let mut source = ScriptedSource::new(Vec::new());
    assert_eq!(seed_centroids(&vec![gray(1)], 0, &mut source), Err(ClusterError::NoClusters));
    assert_eq!(seed_centroids(&Vec::new(), 0, &mut source), Err(ClusterError::NoClusters));
}

#[test]
fn seed_centroids_wants_a_pixel() {
    let mut source = ScriptedSource::new(Vec::new());
    assert_eq!(seed_centroids(&Vec::new(), 2, &mut source), Err(ClusterError::EmptyImage));
}

#[test]
fn seed_centroids_wants_as_many_colors_as_clusters() {
    let mut source = ScriptedSource::new(vec![1, 2, 3]);
    let pixels = vec![gray(1), gray(2), gray(1), gray(2)];
    assert_eq!(
        seed_centroids(&pixels, 3, &mut source),
        Err(ClusterError::DegenerateClustering)
    );
    let mut source = ScriptedSource::new(vec![1, 2, 3]);
    assert!(seed_centroids(&pixels, 2, &mut source).is_ok());
    let mut source = ScriptedSource::new(vec![0]);
    assert_eq!(
        seed_centroids(&vec![gray(9); 5], 2, &mut source),
        Err(ClusterError::DegenerateClustering)
    );
}

#[test]
fn nearest_center_gives_ties_to_the_later_center_on_demand() {
    let centers = vec![px(0, 0, 0), px(2, 0, 0), px(9, 9, 9)];
    assert_eq!(nearest_center(&centers, &px(1, 0, 0), true), Some(1));
    assert_eq!(nearest_center(&centers, &px(1, 0, 0), false), Some(0));
    assert_eq!(nearest_center(&centers, &px(8, 8, 8), true), Some(2));
    assert_eq!(nearest_center(&centers, &px(8, 8, 8), false), Some(2));
    let same = vec![gray(5), gray(5), gray(5)];
    assert_eq!(nearest_center(&same, &gray(5), true), Some(2));
    assert_eq!(nearest_center(&same, &gray(5), false), Some(0));
}

#[test]
fn nearest_center_of_no_centers_is_none() {
    assert_eq!(nearest_center(&Vec::new(), &px(1, 0, 0), true), None);
    assert_eq!(nearest_center(&Vec::new(), &px(1, 0, 0), false), None);
}

#[test]
fn nearest_center_ties_after_truncation() {
    // sqrt(2) and sqrt(3) both truncate to 1
    let centers = vec![px(1, 1, 0), px(1, 1, 1)];
    assert_eq!(nearest_center(&centers, &px(0, 0, 0), true), Some(1));
    let centers = vec![px(1, 1, 1), px(1, 1, 0)];
    assert_eq!(nearest_center(&centers, &px(0, 0, 0), true), Some(1));
}

#[test]
fn assign_sums_up_each_cluster() {
    let pixels = vec![gray(0), gray(255), gray(10), gray(245), px(1, 2, 3)];
    let stats = assign(&pixels, &vec![gray(0), gray(255)]);
    assert_eq!(
        stats,
        vec![
            ClusterStats { count: 3, red: 11, green: 12, blue: 13 },
            ClusterStats { count: 2, red: 500, green: 500, blue: 500 },
        ]
    );
}

#[test]
fn assign_gives_ties_to_the_later_center() {
    let stats = assign(&vec![px(1, 0, 0)], &vec![px(0, 0, 0), px(2, 0, 0)]);
    assert_eq!(stats[0].count, 0);
    assert_eq!(stats[1].count, 1);
}

#[test]
fn assign_without_centers_has_no_clusters() {
    assert_eq!(assign(&vec![gray(1)], &Vec::new()), Vec::new());
}

#[test]
fn lloyd_round_moves_centers_to_truncated_means() {
    let pixels = vec![gray(0), gray(255), gray(10), gray(245), px(1, 2, 3)];
    let round = lloyd_round(&pixels, &vec![gray(0), gray(255)]);
    // 11 / 3, 12 / 3, 13 / 3 and 500 / 2
    assert_eq!(round.centers, vec![px(3, 4, 4), gray(250)]);
    assert_eq!(round.sizes, vec![3, 2]);
    // sqrt(9 + 16 + 16) = 6.4.., sqrt(75) = 8.6..
    assert_eq!(round.movement, 14);
}

#[test]
fn lloyd_round_leaves_a_center_without_pixels_where_it_is() {
    let pixels = vec![gray(10), gray(12)];
    let round = lloyd_round(&pixels, &vec![gray(200), gray(11), gray(201)]);
    assert_eq!(round.centers, vec![gray(200), gray(11), gray(201)]);
    assert_eq!(round.sizes, vec![0, 2, 0]);
    assert_eq!(round.movement, 0);
}

#[test]
fn lloyd_round_starves_the_earlier_of_two_equal_centers() {
    let pixels = vec![gray(10), gray(20)];
    let round = lloyd_round(&pixels, &vec![gray(15), gray(15)]);
    assert_eq!(round.centers, vec![gray(15), gray(15)]);
    assert_eq!(round.sizes, vec![0, 2]);
}

#[test]
fn movement_of_adds_the_distances() {
    assert_eq!(movement_of(&vec![gray(5), gray(250)], &vec![gray(0), gray(255)]), 16);
    assert_eq!(movement_of(&Vec::new(), &Vec::new()), 0);
}

#[test]
fn movement_of_goes_as_far_as_both_have_centers() {
    assert_eq!(movement_of(&vec![gray(5), gray(250)], &vec![gray(0)]), 8);
    assert_eq!(movement_of(&vec![gray(5)], &vec![gray(0), gray(255)]), 8);
    assert_eq!(movement_of(&vec![gray(5)], &Vec::new()), 0);
}

#[test]
fn settled_compares_with_the_root_of_the_longer_side() {
    assert!(settled(0, 0, 0));
    assert!(settled(1, 1, 1));
    assert!(settled(1, 2, 2));
    assert!(!settled(2, 2, 2));
    assert!(!settled(2, 3, 1));
    assert!(settled(2, 1, 4));
    assert!(settled(2, 4, 1));
    assert!(settled(31, 1000, 10));
    assert!(!settled(32, 1000, 10));
    assert!(settled(65535, u32::MAX, 0));
    assert!(!settled(65536, u32::MAX, u32::MAX));
    assert!(!settled(u128::MAX, u32::MAX, u32::MAX));
}

#[test]
fn refine_runs_until_the_centers_rest() {
    let img = four_grays();
    assert_eq!(
        refine(&img, &vec![gray(0), gray(255)], 10),
        Ok(vec![swatch(250, 2), swatch(5, 2)])
    );
    assert_eq!(
        refine(&img, &vec![gray(0), gray(255)], 2),
        Ok(vec![swatch(250, 2), swatch(5, 2)])
    );
}

#[test]
fn refine_gives_up_after_the_rounds_allowed() {
    let img = four_grays();
    // the first round moves the centers by 16 in all
    assert_eq!(refine(&img, &vec![gray(0), gray(255)], 1), Err(ClusterError::NotConverged));
    assert_eq!(refine(&img, &vec![gray(0), gray(255)], 0), Err(ClusterError::NotConverged));
}

#[test]
fn refine_stops_at_once_where_nothing_moves() {
    let img = four_grays();
    assert_eq!(
        refine(&img, &vec![gray(5), gray(250)], 1),
        Ok(vec![swatch(250, 2), swatch(5, 2)])
    );
}

#[test]
fn refine_tolerates_more_movement_in_a_larger_image() {
    // one row of 256 pixels: the root of the longer side is 16
    let mut pixels = vec![gray(0); 128];
    pixels.extend(vec![gray(255); 126]);
    pixels.push(gray(10));
    pixels.push(gray(245));
    let img = PixelBuffer::new(256, 1, pixels).unwrap();
    // 10 / 129 = 0 and 32375 / 127 = 254: the centers move by 0 and 1
    assert_eq!(
        refine(&img, &vec![gray(0), gray(255)], 1),
        Ok(vec![swatch(0, 129), swatch(254, 127)])
    );
}

#[test]
fn refine_ranks_by_cluster_size() {
    let img = PixelBuffer::new(
        5,
        1,
        vec![gray(0), gray(200), gray(201), gray(202), gray(100)],
    )
    .unwrap();
    assert_eq!(
        refine(&img, &vec![gray(0), gray(100), gray(201)], 5),
        Ok(vec![swatch(201, 3), swatch(100, 1), swatch(0, 1)])
    );
}

#[test]
fn kmeans_of_four_grays_finds_the_two_pairs() {
    let img = four_grays();
    let mut source = ScriptedSource::new(vec![0, 0]);
    let palette = kmeans(&img, 2, &mut source, 100).unwrap();
    assert_eq!(palette, vec![swatch(250, 2), swatch(5, 2)]);
    let out = quantize_nearest(&img, &palette);
    assert_eq!(out.width(), 2);
    assert_eq!(out.height(), 2);
    assert_eq!(out.pixels(), &vec![gray(5), gray(250), gray(5), gray(250)]);
}

#[test]
fn kmeans_is_the_same_for_the_same_draws() {
    let mut pixels = Vec::new();
    for i in 0..400u32 {
        pixels.push(px((i * 7 % 256) as u8, (i * 13 % 256) as u8, (i * 29 % 256) as u8));
    }
    let img = PixelBuffer::new(20, 20, pixels).unwrap();
    let script = vec![17, 123456, 98765, 4242, 7];
    let mut first_source = ScriptedSource::new(script.clone());
    let mut second_source = ScriptedSource::new(script);
    let first = kmeans(&img, 5, &mut first_source, 1000);
    let second = kmeans(&img, 5, &mut second_source, 1000);
    assert_eq!(first, second);
    let palette = first.unwrap();
    assert_eq!(palette.len(), 5);
    assert_eq!(palette.iter().map(|e| e.weight).sum::<u64>(), 400);
    for w in palette.windows(2) {
        assert!(w[0].weight >= w[1].weight);
    }
}

#[test]
fn kmeans_with_the_thread_source_accounts_for_every_pixel() {
    let mut pixels = Vec::new();
    for i in 0..100u32 {
        pixels.push(gray(if i % 2 == 0 { 0 } else { 255 }));
    }
    let img = PixelBuffer::new(10, 10, pixels).unwrap();
    let mut source = ThreadSource::new();
    let palette = kmeans(&img, 2, &mut source, 100).unwrap();
    assert_eq!(palette.len(), 2);
    assert_eq!(palette[0].weight, 50);
    assert_eq!(palette[1].weight, 50);
    assert_ne!(palette[0].color, palette[1].color);
}

#[test]
fn kmeans_passes_the_errors_of_the_seeding_on() {
    let img = four_grays();
    let mut source = ScriptedSource::new(vec![0, 0, 0, 0, 0, 0]);
    assert_eq!(kmeans(&img, 0, &mut source, 100), Err(ClusterError::NoClusters));
    assert_eq!(kmeans(&img, 5, &mut source, 100), Err(ClusterError::DegenerateClustering));
    let empty = PixelBuffer::new(0, 0, Vec::new()).unwrap();
    assert_eq!(kmeans(&empty, 2, &mut source, 100), Err(ClusterError::EmptyImage));
}

#[test]
fn kmeans_fails_where_the_rounds_do_not_suffice() {
    let img = four_grays();
    let mut source = ScriptedSource::new(vec![0, 0]);
    assert_eq!(kmeans(&img, 2, &mut source, 1), Err(ClusterError::NotConverged));
}

#[test]
fn kmeans_with_as_many_clusters_as_colors_keeps_the_colors() {
    let img = four_grays();
    let mut source = ScriptedSource::new(vec![2, 5, 5, 5]);
    let palette = kmeans(&img, 4, &mut source, 10).unwrap();
    assert_eq!(palette.len(), 4);
    for v in [0u8, 10, 245, 255] {
        assert!(palette.contains(&swatch(v, 1)));
    }
}

#[test]
fn refine_stops_in_the_first_round_in_which_the_centers_rest() {
    let mut pixels = Vec::new();
    for i in 0..900u32 {
        pixels.push(px((i * 7 % 256) as u8, (i * 13 % 256) as u8, (i * 29 % 256) as u8));
    }
    let img = PixelBuffer::new(30, 30, pixels).unwrap();
    let seeds = vec![px(0, 0, 0), px(255, 255, 255), px(255, 0, 0), px(0, 0, 255)];
    let mut centers = seeds.clone();
    let mut rounds = 0u64;
    let last = loop {
        let round = lloyd_round(img.pixels(), &centers);
        rounds += 1;
        assert_eq!(round.movement, movement_of(&round.centers, &centers));
        if settled(round.movement, 30, 30) {
            // 5 * 5 <= 30 < 6 * 6
            assert!(round.movement <= 5);
            break round;
        }
        assert!(round.movement > 5);
        centers = round.centers;
    };
    let palette = refine(&img, &seeds, rounds).unwrap();
    let mut expected: Vec<PaletteEntry> = Vec::new();
    for c in 0..4 {
        expected.push(PaletteEntry { color: last.centers[c], weight: last.sizes[c] });
    }
    assert_eq!(palette.len(), 4);
    for e in expected.iter() {
        assert!(palette.contains(e));
    }
    assert_eq!(refine(&img, &seeds, rounds - 1), Err(ClusterError::NotConverged));
    assert_eq!(refine(&img, &seeds, rounds + 7), Ok(palette));
}

#[test]
fn seed_centroids_with_the_thread_source_picks_distinct_pixels() {
    let pixels = vec![gray(1), gray(1), gray(2), gray(3), gray(3), gray(3), gray(4)];
    let mut source = ThreadSource::new();
    for _ in 0..50 {
        let seeds = seed_centroids(&pixels, 4, &mut source).unwrap();
        let mut values: Vec<u8> = seeds.iter().map(|c| c.r).collect();
        values.sort();
        assert_eq!(values, vec![1, 2, 3, 4]);
    }
    assert_eq!(
        seed_centroids(&pixels, 5, &mut source),
        Err(ClusterError::DegenerateClustering)
    );
}
