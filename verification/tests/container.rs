use minipng::marker::{
    add_minification_marker_with_info, crc32, is_already_minified, parse_minification_info,
};
use minipng::minify::{
    apply_quality_lossless_minification, apply_quality_lossy_minification, DitheringMode,
    MinifyError,
};

fn png_bytes(width: u32, height: u32, rgba: [u8; 4]) -> Vec<u8> {
    let mut img = image::RgbaImage::new(width, height);
    for p in img.pixels_mut() {
        *p = image::Rgba(rgba);
    }
    let mut out = Vec::new();
    let mut cursor = std::io::Cursor::new(&mut out);
    image::DynamicImage::ImageRgba8(img)
        .write_to(&mut cursor, image::ImageFormat::Png)
        .unwrap();
    out
}

#[test]
fn crc32_matches_the_standard_check_value() {
    let data: Vec<u8> = b"123456789".to_vec();
    assert_eq!(crc32(&data), 0xCBF43926);
}

#[test]
fn crc32_of_empty_data_is_zero() {
    assert_eq!(crc32(&Vec::new()), 0);
}

#[test]
fn fresh_png_is_not_marked() {
    let bytes = png_bytes(8, 8, [1, 2, 3, 255]);
    let (found, info) = is_already_minified(&bytes);
    assert!(!found);
    assert!(info.is_none());
}

#[test]
fn garbage_is_not_marked() {
    let bytes = vec![0u8; 64];
    let (found, info) = is_already_minified(&bytes);
    assert!(!found);
    assert!(info.is_none());
}

#[test]
fn marker_roundtrip_preserves_info() {
    let bytes = png_bytes(8, 8, [9, 9, 9, 255]);
    let marked = add_minification_marker_with_info(&bytes, false, 40, 731).unwrap();
    let (found, info) = is_already_minified(&marked);
    assert!(found);
    let info = info.unwrap();
    assert_eq!(info.quality, Some(40));
    assert!(!info.lossless);
    assert_eq!(info.reduction_pct_tenths, 731);
    let ts = info.timestamp.unwrap();
    assert_eq!(ts.len(), 20);
}

#[test]
fn lossless_marker_roundtrip() {
    let bytes = png_bytes(8, 8, [9, 9, 9, 255]);
    let marked = add_minification_marker_with_info(&bytes, true, 0, 105).unwrap();
    let (found, info) = is_already_minified(&marked);
    assert!(found);
    let info = info.unwrap();
    assert_eq!(info.quality, None);
    assert!(info.lossless);
    assert_eq!(info.reduction_pct_tenths, 105);
}

#[test]
fn marked_png_still_decodes_with_a_valid_checksum() {
    let bytes = png_bytes(8, 8, [120, 130, 140, 255]);
    let marked = add_minification_marker_with_info(&bytes, false, 55, 500).unwrap();
    // the decoder verifies chunk checksums, so this exercises the CRC
    let decoded = image::load_from_memory(&marked).unwrap();
    assert_eq!(decoded.to_rgba8().get_pixel(3, 3).0, [120, 130, 140, 255]);
}

#[test]
fn add_marker_refuses_bad_signature() {
    let bytes = vec![1u8, 2, 3, 4, 5, 6, 7, 8, 9];
    let r = add_minification_marker_with_info(&bytes, false, 40, 0);
    assert!(matches!(r, Err(MinifyError::InvalidSignature)));
}

#[test]
fn add_marker_reports_missing_image_end() {
    let bytes = vec![137u8, 80, 78, 71, 13, 10, 26, 10];
    let r = add_minification_marker_with_info(&bytes, false, 40, 0);
    assert!(matches!(r, Err(MinifyError::MissingImageEnd)));
}

#[test]
fn add_marker_reports_oversized_chunk() {
    let mut bytes = vec![137u8, 80, 78, 71, 13, 10, 26, 10];
    // one chunk declaring far more data than any sane container holds
    bytes.extend_from_slice(&[0x00, 0x98, 0x96, 0x81]); // 10000001
    bytes.extend_from_slice(b"ABCD");
    bytes.extend_from_slice(&[0u8; 8]);
    let r = add_minification_marker_with_info(&bytes, false, 40, 0);
    assert!(matches!(r, Err(MinifyError::OversizedChunk)));
}

#[test]
fn parse_info_requires_the_marker_prefix() {
    let r = parse_minification_info(&b"quality=40".to_vec());
    assert!(r.is_none());
}

#[test]
fn parse_info_reads_pairs_after_the_marker() {
    let mut data = b"MiniPNG by P. Andrian.".to_vec();
    data.push(0);
    data.extend_from_slice(b"quality=63,lossless=false,reduction=12.5,timestamp=2026-02-06T20:15:30Z");
    let info = parse_minification_info(&data).unwrap();
    assert_eq!(info.quality, Some(63));
    assert!(!info.lossless);
    assert_eq!(info.reduction_pct_tenths, 125);
    assert_eq!(info.timestamp.as_deref(), Some("2026-02-06T20:15:30Z"));
}

#[test]
fn lossy_minification_rejects_undecodable_bytes() {
    let garbage = vec![0u8; 100];
    let r = apply_quality_lossy_minification(&garbage, 40, DitheringMode::Flat, false);
    assert!(matches!(r, Err(MinifyError::Decode)));
}

#[test]
fn lossy_minification_produces_a_quantized_png() {
    let bytes = png_bytes(16, 16, [100, 150, 200, 255]);
    let out = apply_quality_lossy_minification(&bytes, 40, DitheringMode::Flat, false).unwrap();
    let decoded = image::load_from_memory(&out).unwrap().to_rgba8();
    assert_eq!(decoded.width(), 16);
    assert_eq!(decoded.height(), 16);
    // darkening leaves these values alone; quantization rounds to step 32
    assert_eq!(decoded.get_pixel(5, 5).0, [96, 160, 192, 255]);
}

#[test]
fn lossless_minification_keeps_the_pixels() {
    let bytes = png_bytes(8, 8, [77, 88, 99, 255]);
    let out = apply_quality_lossless_minification(&bytes).unwrap();
    let decoded = image::load_from_memory(&out).unwrap().to_rgba8();
    assert_eq!(decoded.get_pixel(2, 2).0, [77, 88, 99, 255]);
}

#[test]
fn lossy_minification_with_auto_mode_resolves_itself() {
    let bytes = png_bytes(64, 64, [128, 128, 128, 255]);
    let out = apply_quality_lossy_minification(&bytes, 40, DitheringMode::Auto, false).unwrap();
    let decoded = image::load_from_memory(&out).unwrap().to_rgba8();
    assert_eq!(decoded.get_pixel(10, 10).0, [128, 128, 128, 255]);
}
