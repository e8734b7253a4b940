use minipng::diffusion::apply_floyd_steinberg_dithering;
use minipng::minify::{
    apply_darkening, apply_no_dithering, apply_ordered_dithering, apply_quantization,
    downsampling_factor, quantize_channel, DitheringMode, MinifyError,
};
use minipng::raster::Image;

fn solid(width: u32, height: u32, rgba: [u8; 4]) -> Image {
    let mut data = Vec::new();
    for _ in 0..(width * height) {
        data.extend_from_slice(&rgba);
    }
    Image { width, height, data }
}

fn px(img: &Image, x: u32, y: u32) -> [u8; 4] {
    let i = (4 * (y * img.width + x)) as usize;
    [img.data[i], img.data[i + 1], img.data[i + 2], img.data[i + 3]]
}

#[test]
fn quantize_channel_is_multiple_of_step_in_range() {
    for factor in [8u8, 12, 16, 32] {
        for v in -300i16..600i16 {
            let q = quantize_channel(v, factor);
            assert!(q == 255 || q % factor == 0);
        }
    }
}

#[test]
fn quantize_channel_exact_values() {
    assert_eq!(quantize_channel(100, 32), 96);
    assert_eq!(quantize_channel(-5, 8), 0);
    assert_eq!(quantize_channel(255, 32), 255);
    assert_eq!(quantize_channel(0, 32), 0);
    assert_eq!(quantize_channel(16, 32), 32);
    assert_eq!(quantize_channel(15, 32), 0);
    assert_eq!(quantize_channel(130, 12), 132);
}

#[test]
fn downsampling_factor_matches_quality_bands() {
    assert_eq!(downsampling_factor(1), 32);
    assert_eq!(downsampling_factor(40), 32);
    assert_eq!(downsampling_factor(41), 16);
    assert_eq!(downsampling_factor(55), 16);
    assert_eq!(downsampling_factor(56), 12);
    assert_eq!(downsampling_factor(70), 12);
    assert_eq!(downsampling_factor(71), 8);
    assert_eq!(downsampling_factor(100), 8);
}

#[test]
fn darkening_scales_shadows_and_keeps_alpha() {
    let mut img = solid(2, 2, [10, 20, 100, 77]);
    apply_darkening(&mut img);
    assert_eq!(px(&img, 0, 0), [8, 18, 100, 77]);
    assert_eq!(px(&img, 1, 1), [8, 18, 100, 77]);
}

#[test]
fn no_dithering_keeps_alpha_and_quantizes() {
    let img = solid(3, 3, [100, 200, 50, 137]);
    let out = apply_no_dithering(&img, 32);
    for y in 0..3 {
        for x in 0..3 {
            assert_eq!(px(&out, x, y), [96, 192, 64, 137]);
        }
    }
}

#[test]
fn ordered_dithering_keeps_alpha_and_applies_threshold() {
    let img = solid(4, 4, [100, 100, 100, 9]);
    let out = apply_ordered_dithering(&img, 32);
    // at (0, 0) the threshold is -8, scaled by 32/32: quantize(92)
    assert_eq!(px(&out, 0, 0), [96, 96, 96, 9]);
    // at (3, 1) the threshold is -2: quantize(98)
    assert_eq!(px(&out, 3, 1), [96, 96, 96, 9]);
    // at (0, 3) the threshold is 7: quantize(107)
    assert_eq!(px(&out, 0, 3), [96, 96, 96, 9]);
    for y in 0..4 {
        for x in 0..4 {
            assert_eq!(px(&out, x, y)[3], 9);
        }
    }
}

#[test]
fn floyd_steinberg_keeps_alpha_and_bounds_accumulated_error() {
    // a gradient-ish pattern that forces plenty of diffusion
    let mut data = Vec::new();
    for y in 0..16u32 {
        for x in 0..16u32 {
            let v = ((x * 16 + y * 3) % 256) as u8;
            data.extend_from_slice(&[v, v.wrapping_add(40), v / 2, 200]);
        }
    }
    let img = Image { width: 16, height: 16, data };
    let factor = 8u8;
    let out = apply_floyd_steinberg_dithering(&img, factor);
    for y in 0..16 {
        for x in 0..16 {
            let a = px(&img, x, y);
            let b = px(&out, x, y);
            assert_eq!(a[3], b[3]);
            for c in 0..3 {
                let diff = (a[c] as i32 - b[c] as i32).abs();
                // accumulated error stays within half a step of 4 steps
                assert!(diff <= 4 * factor as i32 + factor as i32 / 2 + 1);
            }
        }
    }
}

#[test]
fn floyd_steinberg_on_flat_image_is_plain_quantization() {
    let img = solid(8, 8, [100, 150, 200, 255]);
    let out = apply_floyd_steinberg_dithering(&img, 32);
    // quantize(100) = 96: the first pixel has no incoming error
    assert_eq!(px(&out, 0, 0), [96, 160, 192, 255]);
}

#[test]
fn apply_quantization_refuses_unresolved_auto() {
    let img = solid(4, 4, [1, 2, 3, 4]);
    let r = apply_quantization(&img, 40, DitheringMode::Auto, false);
    assert!(matches!(r, Err(MinifyError::UnresolvedAuto)));
}

#[test]
fn apply_quantization_flat_path_end_to_end() {
    let img = solid(4, 4, [128, 128, 128, 255]);
    let out = apply_quantization(&img, 40, DitheringMode::Flat, false).unwrap();
    // darkening leaves 128 alone and 128 is a multiple of 32
    for y in 0..4 {
        for x in 0..4 {
            assert_eq!(px(&out, x, y), [128, 128, 128, 255]);
        }
    }
}
