use minipng::minify::{analyze_block, apply_selective_denoising};
use minipng::raster::Image;

fn solid(width: u32, height: u32, rgba: [u8; 4]) -> Image {
    let mut data = Vec::new();
    for _ in 0..(width * height) {
        data.extend_from_slice(&rgba);
    }
    Image { width, height, data }
}

fn speckled(width: u32, height: u32) -> Image {
    // alternating speckle, the kind dithering leaves behind
    let mut data = Vec::new();
    for y in 0..height {
        for x in 0..width {
            let v = (100 + ((x + y) % 2) * 24) as u8;
            data.extend_from_slice(&[v, v, v, 255]);
        }
    }
    Image { width, height, data }
}

fn speckled_with_spike(width: u32, height: u32) -> Image {
    // speckle plus one isolated bright outlier inside the first block
    let mut img = speckled(width, height);
    let i = (4 * (3 * width + 3)) as usize;
    img.data[i] = 200;
    img.data[i + 1] = 200;
    img.data[i + 2] = 200;
    img
}

#[test]
fn denoiser_is_identity_on_uniform_images() {
    let img = solid(32, 32, [90, 91, 92, 37]);
    let out = apply_selective_denoising(&img);
    assert_eq!(out.data, img.data);
}

#[test]
fn denoiser_is_idempotent_on_flat_regions() {
    let img = solid(24, 24, [200, 10, 10, 255]);
    let once = apply_selective_denoising(&img);
    let twice = apply_selective_denoising(&once);
    assert_eq!(once.data, twice.data);
}

#[test]
fn denoiser_removes_an_isolated_outlier_in_a_noisy_gradient_block() {
    let img = speckled_with_spike(8, 8);
    let out = apply_selective_denoising(&img);
    // the outlier becomes the median of its neighborhood
    let i = (4 * (3 * 8 + 3)) as usize;
    assert_eq!(&out.data[i..i + 4], &[124, 124, 124, 255]);
    // the outlier also tips the median of its diagonal neighbors
    for (x, y) in [(2u32, 2u32), (4, 2), (2, 4), (4, 4), (3, 3)] {
        let j = (4 * (y * 8 + x)) as usize;
        assert_eq!(&out.data[j..j + 4], &[124, 124, 124, 255]);
    }
    // every other pixel is already its own neighborhood median and stays
    for y in 0..8u32 {
        for x in 0..8u32 {
            let changed = matches!((x, y), (2, 2) | (4, 2) | (2, 4) | (4, 4) | (3, 3));
            if !changed {
                let j = (4 * (y * 8 + x)) as usize;
                assert_eq!(&out.data[j..j + 4], &img.data[j..j + 4]);
            }
        }
    }
}

#[test]
fn denoiser_keeps_a_plain_checkerboard_fixed() {
    // every pixel of a one-pixel checkerboard is its own neighborhood median
    let img = speckled(16, 16);
    let out = apply_selective_denoising(&img);
    assert_eq!(out.data, img.data);
}

#[test]
fn block_border_pixels_are_never_filtered() {
    // two blocks side by side; the outlier sits on the right block's left
    // border, so even though that block is filtered, the border pixel and
    // every in-block median stay as they are
    let mut img = speckled(16, 8);
    let i = (4 * (3 * 16 + 8)) as usize;
    img.data[i] = 200;
    img.data[i + 1] = 200;
    img.data[i + 2] = 200;
    let out = apply_selective_denoising(&img);
    assert_eq!(out.data, img.data);
}

#[test]
fn analyze_block_counts_solid_block_as_quiet() {
    let img = solid(8, 8, [50, 50, 50, 255]);
    let (edges, total, noise) = analyze_block(&img, 0, 0, 8, 8);
    assert_eq!(edges, 0);
    assert_eq!(total, 36);
    assert_eq!(noise, 0);
}

#[test]
fn analyze_block_sees_speckle_noise() {
    let img = speckled(8, 8);
    let (edges, total, noise) = analyze_block(&img, 0, 0, 8, 8);
    // neighbors differ by 24 levels, below the 30-level edge threshold
    assert_eq!(edges, 0);
    assert_eq!(total, 36);
    // every considered pixel sees four neighbors at distance 72 summed RGB
    assert_eq!(noise, 36 * 4 * 72);
}
