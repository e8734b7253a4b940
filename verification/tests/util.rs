use minipng::args::{parse_dithering_mode, Mode};
use minipng::file_utils::{is_png_file, prepare_specific_png_files};
use minipng::minify::DitheringMode;
use minipng::time_utils::{
    convert_days_to_date, format_timestamp, format_unix_timestamp, get_iso8601_timestamp,
    is_leap_year,
};

#[test]
fn leap_years_follow_the_gregorian_rule() {
    assert!(is_leap_year(2000));
    assert!(is_leap_year(2024));
    assert!(!is_leap_year(1900));
    assert!(!is_leap_year(2026));
}

#[test]
fn day_zero_is_the_epoch() {
    assert_eq!(convert_days_to_date(0), (1970, 1, 1));
}

#[test]
fn date_conversion_handles_month_and_leap_boundaries() {
    assert_eq!(convert_days_to_date(30), (1970, 1, 31));
    assert_eq!(convert_days_to_date(31), (1970, 2, 1));
    assert_eq!(convert_days_to_date(365), (1971, 1, 1));
    // 1972 is a leap year: its 60th day is the 29th of February
    assert_eq!(convert_days_to_date(365 * 2 + 31 + 28), (1972, 2, 29));
    assert_eq!(convert_days_to_date(20000), (2024, 10, 4));
}

#[test]
fn unix_timestamp_formatting_is_exact() {
    assert_eq!(format_unix_timestamp(0), "1970-01-01T00:00:00Z");
    assert_eq!(format_unix_timestamp(86399), "1970-01-01T23:59:59Z");
    assert_eq!(format_unix_timestamp(1_770_000_000), "2026-02-02T02:40:00Z");
}

#[test]
fn current_timestamp_has_the_iso_shape() {
    let ts = get_iso8601_timestamp();
    assert_eq!(ts.len(), 20);
    let b = ts.as_bytes();
    assert_eq!(b[4], b'-');
    assert_eq!(b[7], b'-');
    assert_eq!(b[10], b'T');
    assert_eq!(b[13], b':');
    assert_eq!(b[16], b':');
    assert_eq!(b[19], b'Z');
}

#[test]
fn timestamp_formatting_keeps_date_and_minutes() {
    assert_eq!(
        format_timestamp("2026-02-06T20:15:30Z"),
        "2026-02-06 at 20:15"
    );
    assert_eq!(format_timestamp("no separator"), "no separator");
    assert_eq!(format_timestamp("2026-02-06T20Z"), "2026-02-06 at 20");
}

#[test]
fn png_extension_check_is_case_insensitive() {
    assert!(is_png_file("photo.png"));
    assert!(is_png_file("photo.PNG"));
    assert!(is_png_file("dir/photo.pNg"));
    assert!(!is_png_file("photo.jpg"));
    assert!(!is_png_file("photo.apng"));
    assert!(!is_png_file(".png"));
    assert!(!is_png_file("dir/.png"));
    assert!(!is_png_file("png"));
}

#[test]
fn specific_files_become_in_place_work_items() {
    let files = vec![String::from("a.png"), String::from("b/c.png")];
    let items = prepare_specific_png_files(&files);
    assert_eq!(items.len(), 2);
    assert_eq!(items[0].source_path, "a.png");
    assert_eq!(items[0].target_path, "a.png");
    assert_eq!(items[1].source_path, "b/c.png");
}

#[test]
fn dithering_mode_names_parse_case_insensitively() {
    assert_eq!(parse_dithering_mode("auto"), Some(DitheringMode::Auto));
    assert_eq!(parse_dithering_mode("NONE"), Some(DitheringMode::Flat));
    assert_eq!(parse_dithering_mode("Ordered"), Some(DitheringMode::Ordered));
    assert_eq!(
        parse_dithering_mode("floyd"),
        Some(DitheringMode::FloydSteinberg)
    );
    assert_eq!(
        parse_dithering_mode("Floyd-Steinberg"),
        Some(DitheringMode::FloydSteinberg)
    );
    assert_eq!(
        parse_dithering_mode("median"),
        Some(DitheringMode::MedianCut)
    );
    assert_eq!(
        parse_dithering_mode("MedianCut"),
        Some(DitheringMode::MedianCut)
    );
    assert_eq!(parse_dithering_mode("fancy"), None);
}

#[test]
fn directory_mode_carries_the_optional_path() {
    let m = Mode::Directory(Some(String::from(".")));
    match m {
        Mode::Directory(Some(d)) => assert_eq!(d, "."),
        _ => panic!("expected a directory mode"),
    }
}
