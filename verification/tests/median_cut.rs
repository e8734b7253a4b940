use minipng::median::{
    build_palette, color_distance, find_closest_palette_color, quantize_image_with_median, Color,
    ColorBox,
};
use minipng::raster::Image;

fn banded(width: u32, height: u32, colors: &[[u8; 4]]) -> Image {
    let mut data = Vec::new();
    let band = height / colors.len() as u32;
    for y in 0..height {
        let idx = ((y / band) as usize).min(colors.len() - 1);
        for _ in 0..width {
            data.extend_from_slice(&colors[idx]);
        }
    }
    Image { width, height, data }
}

fn px(img: &Image, x: u32, y: u32) -> [u8; 4] {
    let i = (4 * (y * img.width + x)) as usize;
    [img.data[i], img.data[i + 1], img.data[i + 2], img.data[i + 3]]
}

#[test]
fn color_distance_is_squared_euclidean_rgb() {
    let a = Color::new(0, 0, 0, 0);
    let b = Color::new(3, 4, 0, 200);
    assert_eq!(color_distance(&a, &b), 25);
    assert_eq!(color_distance(&a, &a), 0);
}

#[test]
fn find_closest_picks_minimal_distance() {
    let palette = vec![
        Color::new(0, 0, 0, 255),
        Color::new(100, 100, 100, 255),
        Color::new(255, 255, 255, 255),
    ];
    let c = Color::new(90, 95, 101, 8);
    let best = find_closest_palette_color(&c, &palette);
    assert_eq!(best, Color::new(100, 100, 100, 255));
}

#[test]
fn color_box_splits_at_median_of_widest_channel() {
    let colors = vec![
        (Color::new(0, 0, 0, 255), 1u32),
        (Color::new(60, 0, 0, 255), 1),
        (Color::new(120, 0, 0, 255), 1),
        (Color::new(200, 0, 0, 255), 1),
    ];
    let mut bx = ColorBox::new(colors);
    assert_eq!(bx.find_widest_channel(), 0);
    let right = bx.split().unwrap();
    assert_eq!(bx.colors.len(), 2);
    assert_eq!(right.colors.len(), 2);
    for (c, _) in &bx.colors {
        for (r, _) in &right.colors {
            assert!(c.r <= r.r);
        }
    }
}

#[test]
fn color_box_with_one_member_cannot_split() {
    let mut bx = ColorBox::new(vec![(Color::new(1, 2, 3, 255), 9)]);
    assert!(bx.split().is_none());
}

#[test]
fn weighted_average_favors_frequent_colors() {
    let bx = ColorBox::new(vec![
        (Color::new(0, 0, 0, 255), 3u32),
        (Color::new(100, 100, 100, 255), 1),
    ]);
    let avg = bx.get_average_color();
    assert_eq!(avg, Color::new(25, 25, 25, 255));
}

#[test]
fn palette_is_bounded_by_request_and_distinct_colors() {
    let img = banded(
        64,
        64,
        &[[250, 0, 0, 255], [0, 250, 0, 255], [0, 0, 250, 255]],
    );
    let palette = build_palette(&img, 16);
    // three RGB-distinct sampled colors fit in sixteen slots, so the
    // palette is exactly those colors, opaque
    assert_eq!(palette.len(), 3);
    for c in &palette {
        assert_eq!(c.a, 255);
        assert!(
            [(250, 0, 0), (0, 250, 0), (0, 0, 250)].contains(&(c.r, c.g, c.b))
        );
    }
    for rgb in [(250u8, 0u8, 0u8), (0, 250, 0), (0, 0, 250)] {
        assert!(palette.iter().any(|c| (c.r, c.g, c.b) == rgb));
    }
}

#[test]
fn three_color_image_keeps_its_colors_under_median_cut() {
    let colors = [[250, 0, 0, 255], [0, 250, 0, 255], [0, 0, 250, 255]];
    let img = banded(64, 64, &colors);
    let out = quantize_image_with_median(&img, 16);
    assert_eq!(out.width, 64);
    assert_eq!(out.height, 64);
    for y in 0..64 {
        for x in 0..64 {
            // each input color survives: it is its own nearest palette entry
            assert_eq!(px(&out, x, y), px(&img, x, y));
        }
    }
}

#[test]
fn median_cut_forces_alpha_to_255() {
    let img = banded(16, 16, &[[10, 20, 30, 0], [200, 100, 50, 128]]);
    let out = quantize_image_with_median(&img, 4);
    for y in 0..16 {
        for x in 0..16 {
            assert_eq!(px(&out, x, y)[3], 255);
        }
    }
}

#[test]
fn single_color_image_yields_single_entry_palette() {
    let img = banded(32, 32, &[[77, 88, 99, 255]]);
    let palette = build_palette(&img, 256);
    assert_eq!(palette.len(), 1);
    assert_eq!(palette[0], Color::new(77, 88, 99, 255));
}
