use stitch::catalog::{day_ceiling, filter_primary, filter_secondary, Filter, Image, ImageFile};

#[test]
fn day_ceiling_rounds_up_to_boundary() {
    assert_eq!(day_ceiling(0), 0);
    assert_eq!(day_ceiling(1), 86_400);
    assert_eq!(day_ceiling(86_399), 86_400);
    assert_eq!(day_ceiling(86_400), 86_400);
    assert_eq!(day_ceiling(86_401), 172_800);
    assert_eq!(day_ceiling(-1), 0);
    assert_eq!(day_ceiling(-86_400), -86_400);
    assert_eq!(day_ceiling(-86_401), -86_400);
}

#[test]
fn primary_window_filter_fields() {
    let f = Filter::primary_window(b"primary".to_vec(), b"u0p0x".to_vec(), 1_000_000);
    assert_eq!(f.platform, Some(b"primary".to_vec()));
    assert_eq!(f.geocode, Some(b"u0p0x".to_vec()));
    // 1_000_000 rounds up to the 12th day boundary.
    assert_eq!(f.end_timestamp, Some(1_036_800));
    assert_eq!(f.start_timestamp, Some(1_036_800 - 15 * 86_400 + 1));
    assert_eq!(f.min_pixel_coverage, Some(1000));
    assert_eq!(f.max_cloud_coverage, None);
    assert!(!f.recurse);
    assert_eq!(f.source, None);
}

#[test]
fn secondary_window_filter_fields() {
    let f = Filter::secondary_window(b"secondary".to_vec(), b"u0p0x".to_vec(), 1_000_000);
    assert_eq!(f.platform, Some(b"secondary".to_vec()));
    assert_eq!(f.end_timestamp, Some(1_036_800));
    assert_eq!(f.start_timestamp, Some(1_036_800 - 15 * 86_400 + 1));
    assert_eq!(f.min_pixel_coverage, None);
}

fn record(geocode: &[u8], file_count: usize) -> Image {
    let mut files: Vec<ImageFile> = Vec::new();
    for _ in 0..file_count {
        files.push(ImageFile { path: b"p".to_vec(), subdataset: 0, pixel_coverage: 1000 });
    }
    Image {
        platform: Vec::new(),
        geocode: geocode.to_vec(),
        timestamp: 0,
        cloud_coverage: None,
        pixel_coverage: 1000,
        files,
    }
}

#[test]
fn platform_signatures_filter_records() {
    let records = vec![
        record(b"u0p0x", 4),
        record(b"u0p0x", 3),
        record(b"u0p0x", 2),
        record(b"u0p0", 2),
    ];
    let primary = filter_primary(&records);
    assert_eq!(primary.len(), 1);
    assert_eq!(primary[0].files.len(), 4);
    let secondary = filter_secondary(&records, 5);
    assert_eq!(secondary.len(), 1);
    assert_eq!(secondary[0].geocode, b"u0p0x".to_vec());
}
