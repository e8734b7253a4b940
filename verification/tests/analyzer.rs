use minipng::dithering::{
    analyze_image, calculate_color_diversity, calculate_edge_density,
    calculate_gradient_smoothness, calculate_local_variance, recommend_dithering_mode,
    select_optimal_mode, ImageAnalysis,
};
use minipng::minify::{apply_quantization, DitheringMode};
use minipng::raster::Image;

fn solid(width: u32, height: u32, rgba: [u8; 4]) -> Image {
    let mut data = Vec::new();
    for _ in 0..(width * height) {
        data.extend_from_slice(&rgba);
    }
    Image { width, height, data }
}

fn checkerboard(width: u32, height: u32, a: [u8; 4], b: [u8; 4]) -> Image {
    let mut data = Vec::new();
    for y in 0..height {
        for x in 0..width {
            data.extend_from_slice(if (x + y) % 2 == 0 { &a } else { &b });
        }
    }
    Image { width, height, data }
}

fn analysis(
    gradient_smoothness: u32,
    edge_density: u32,
    color_diversity: u32,
    local_variance: u64,
    detail_frequency: u32,
) -> ImageAnalysis {
    ImageAnalysis {
        gradient_smoothness,
        edge_density,
        color_diversity,
        local_variance,
        detail_frequency,
    }
}

#[test]
fn gradient_smoothness_exact_on_two_pixels() {
    // one sample: the pair (0,0)-(1,0) differs by 30 per channel
    let img = Image {
        width: 2,
        height: 1,
        data: vec![0, 0, 0, 255, 30, 30, 30, 255],
    };
    assert_eq!(calculate_gradient_smoothness(&img), 90000);
}

#[test]
fn color_diversity_counts_distinct_buckets() {
    let img = Image {
        width: 2,
        height: 1,
        data: vec![0, 0, 0, 255, 30, 30, 30, 255],
    };
    // buckets (0,0,0) and (1,1,1)
    assert_eq!(calculate_color_diversity(&img), 2);
    let flat = solid(8, 8, [200, 200, 200, 255]);
    assert_eq!(calculate_color_diversity(&flat), 1);
}

#[test]
fn solid_image_has_all_zero_metrics() {
    let img = solid(64, 64, [128, 128, 128, 255]);
    let a = analyze_image(&img);
    assert_eq!(a.gradient_smoothness, 0);
    assert_eq!(a.edge_density, 0);
    assert_eq!(a.color_diversity, 1);
    assert_eq!(a.local_variance, 0);
    assert_eq!(a.detail_frequency, 0);
}

#[test]
fn empty_image_degenerates_to_zero_metrics() {
    let img = Image { width: 0, height: 5, data: Vec::new() };
    let a = analyze_image(&img);
    assert_eq!(a.color_diversity, 0);
    assert_eq!(a.gradient_smoothness, 0);
}

#[test]
fn selector_is_deterministic() {
    let a = analysis(4000, 100, 50, 100, 10);
    assert_eq!(select_optimal_mode(&a), select_optimal_mode(&a));
}

#[test]
fn selector_smooth_low_complexity_picks_flat() {
    let a = analysis(4999, 149, 1000, 199_999_999, 0);
    assert_eq!(select_optimal_mode(&a), DitheringMode::Flat);
}

#[test]
fn selector_edge_density_boundary_at_fifteen_percent() {
    // just below the threshold: the smooth rule fires
    let below = analysis(4999, 149, 1000, 100, 0);
    assert_eq!(select_optimal_mode(&below), DitheringMode::Flat);
    // exactly at the threshold: the smooth and few-color rules no longer fire
    let at = analysis(4999, 150, 50, 100, 0);
    assert_eq!(select_optimal_mode(&at), DitheringMode::Ordered);
}

#[test]
fn selector_few_colors_picks_flat() {
    let a = analysis(20000, 100, 99, 500_000_000, 0);
    assert_eq!(select_optimal_mode(&a), DitheringMode::Flat);
    // at exactly 100 colors the rule no longer fires
    let at = analysis(20000, 100, 100, 500_000_000, 0);
    assert_ne!(select_optimal_mode(&at), DitheringMode::Flat);
}

#[test]
fn selector_distinct_regions_pick_median_cut() {
    let a = analysis(20000, 200, 300, 0, 0);
    assert_eq!(select_optimal_mode(&a), DitheringMode::MedianCut);
    let below = analysis(20000, 200, 300, 0, 249);
    assert_eq!(select_optimal_mode(&below), DitheringMode::MedianCut);
    // at the detail threshold the rule closes
    let at = analysis(20000, 200, 300, 0, 250);
    assert_ne!(select_optimal_mode(&at), DitheringMode::MedianCut);
}

#[test]
fn selector_high_detail_picks_floyd_steinberg() {
    let a = analysis(20000, 400, 400, 0, 300);
    assert_eq!(select_optimal_mode(&a), DitheringMode::FloydSteinberg);
}

#[test]
fn selector_high_complexity_picks_floyd_steinberg() {
    let a = analysis(20000, 401, 501, 600_000_001, 0);
    assert_eq!(select_optimal_mode(&a), DitheringMode::FloydSteinberg);
}

#[test]
fn selector_default_is_ordered() {
    let a = analysis(20000, 350, 200, 0, 300);
    assert_eq!(select_optimal_mode(&a), DitheringMode::Ordered);
}

#[test]
fn solid_gray_end_to_end_picks_flat_and_rounds_to_step() {
    let img = solid(64, 64, [128, 128, 128, 255]);
    let mode = recommend_dithering_mode(&img);
    assert_eq!(mode, DitheringMode::Flat);
    let out = apply_quantization(&img, 40, mode, false).unwrap();
    // 128 is already a multiple of 32 and darkening leaves it alone
    assert_eq!(out.data, img.data);
}

#[test]
fn checkerboard_end_to_end_stays_two_colors() {
    let img = checkerboard(64, 64, [0, 0, 0, 255], [255, 255, 255, 255]);
    let mode = recommend_dithering_mode(&img);
    assert!(mode != DitheringMode::Auto);
    let out = apply_quantization(&img, 40, mode, false).unwrap();
    let mut colors = std::collections::BTreeSet::new();
    for y in 0..64u32 {
        for x in 0..64u32 {
            let i = (4 * (y * 64 + x)) as usize;
            colors.insert((out.data[i], out.data[i + 1], out.data[i + 2]));
        }
    }
    assert!(colors.len() <= 2);
    for c in colors {
        assert!(c == (0, 0, 0) || c == (255, 255, 255));
    }
}

#[test]
fn local_variance_exact_on_a_tiny_block() {
    // one clipped block of two samples: lumas 0 and 30000 (scaled), mean
    // 15000, squared deviations 2 * 15000^2, variance 225 million
    let img = Image {
        width: 2,
        height: 1,
        data: vec![0, 0, 0, 255, 30, 30, 30, 255],
    };
    assert_eq!(calculate_local_variance(&img), 225_000_000);
}

#[test]
fn edge_density_zero_on_solid() {
    let img = solid(32, 32, [10, 10, 10, 255]);
    assert_eq!(calculate_edge_density(&img), 0);
}
