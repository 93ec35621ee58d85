use stitch::catalog::{Image, ImageFile};
use stitch::join::{chunk_pairs, composite_of_pair, temporal_join};
use stitch::order::sort_by_key;

const DAY: i64 = 86_400;

fn record(geocode: &[u8], timestamp: i64, file_count: usize) -> Image {
    let mut files: Vec<ImageFile> = Vec::new();
    for k in 0..file_count {
        let mut path = geocode.to_vec();
        path.push(b'-');
        path.push(b'0' + k as u8);
        files.push(ImageFile { path, subdataset: 0, pixel_coverage: 1000 });
    }
    Image {
        platform: Vec::new(),
        geocode: geocode.to_vec(),
        timestamp,
        cloud_coverage: None,
        pixel_coverage: 1000,
        files,
    }
}

#[test]
fn sort_orders_by_geocode_then_timestamp() {
    let records = vec![
        record(b"u0p1x", 300, 4),
        record(b"u0p0x", 200, 4),
        record(b"u0p1x", 100, 4),
        record(b"u0p0x", 100, 4),
    ];
    let sorted = sort_by_key(records);
    let keys: Vec<(Vec<u8>, i64)> = sorted.iter().map(|r| (r.geocode.clone(), r.timestamp)).collect();
    assert_eq!(
        keys,
        vec![
            (b"u0p0x".to_vec(), 100),
            (b"u0p0x".to_vec(), 200),
            (b"u0p1x".to_vec(), 100),
            (b"u0p1x".to_vec(), 300),
        ],
    );
}

#[test]
fn sort_puts_prefix_geocode_first() {
    // A proper prefix sorts before its extensions, whatever the
    // timestamps say.
    let records = vec![
        record(b"u0p0x", 100, 4),
        record(b"u0p0", 900, 4),
    ];
    let sorted = sort_by_key(records);
    assert_eq!(sorted[0].geocode, b"u0p0".to_vec());
    assert_eq!(sorted[1].geocode, b"u0p0x".to_vec());
}

#[test]
fn join_pairs_three_most_recent() {
    // One geocode with four primary records inside the horizon, one with
    // too few; each emitted pairing must satisfy geocode equality, the
    // timestamp order, and the trailing horizon.
    let primary = vec![
        record(b"u0p0x", 1 * DAY, 4),
        record(b"u0p0x", 2 * DAY, 4),
        record(b"u0p0x", 3 * DAY, 4),
        record(b"u0p0x", 4 * DAY, 4),
        record(b"u0p1x", 4 * DAY, 4),
        record(b"u0p1x", 5 * DAY, 4),
    ];
    let secondary = vec![
        record(b"u0p0x", 5 * DAY, 2),
        record(b"u0p1x", 6 * DAY, 2),
    ];
    let pairs = temporal_join(&primary, &secondary);
    assert_eq!(pairs.len(), 1);
    let pair = &pairs[0];
    assert_eq!(pair.secondary.geocode, b"u0p0x".to_vec());
    assert_eq!(pair.primaries.len(), 3);
    let times: Vec<i64> = pair.primaries.iter().map(|p| p.timestamp).collect();
    assert_eq!(times, vec![4 * DAY, 3 * DAY, 2 * DAY]);
    for p in pair.primaries.iter() {
        assert_eq!(p.geocode, pair.secondary.geocode);
        assert!(p.timestamp <= pair.secondary.timestamp);
        assert!(p.timestamp >= pair.secondary.timestamp - 15 * DAY);
    }
}

#[test]
fn join_respects_horizon() {
    // Three primary records share the geocode, but one is older than the
    // fifteen-day horizon, so only two qualify and nothing is emitted.
    let primary = vec![
        record(b"u0p0x", 1 * DAY, 4),
        record(b"u0p0x", 20 * DAY, 4),
        record(b"u0p0x", 21 * DAY, 4),
    ];
    let secondary = vec![record(b"u0p0x", 22 * DAY, 2)];
    let pairs = temporal_join(&primary, &secondary);
    assert_eq!(pairs.len(), 0);
}

#[test]
fn join_skips_later_primaries() {
    // Primary records after the secondary timestamp never pair with it.
    let primary = vec![
        record(b"u0p0x", 1 * DAY, 4),
        record(b"u0p0x", 2 * DAY, 4),
        record(b"u0p0x", 3 * DAY, 4),
        record(b"u0p0x", 9 * DAY, 4),
    ];
    let secondary = vec![record(b"u0p0x", 4 * DAY, 2)];
    let pairs = temporal_join(&primary, &secondary);
    assert_eq!(pairs.len(), 1);
    let times: Vec<i64> = pairs[0].primaries.iter().map(|p| p.timestamp).collect();
    assert_eq!(times, vec![3 * DAY, 2 * DAY, 1 * DAY]);
}

#[test]
fn join_walks_geocodes_in_order() {
    // Two geocodes, each with enough primaries: one pairing per secondary
    // record, in stream order, with matching geocodes.
    let primary = vec![
        record(b"u0p0x", 1 * DAY, 4),
        record(b"u0p0x", 2 * DAY, 4),
        record(b"u0p0x", 3 * DAY, 4),
        record(b"u0p1x", 1 * DAY, 4),
        record(b"u0p1x", 2 * DAY, 4),
        record(b"u0p1x", 3 * DAY, 4),
    ];
    let secondary = vec![
        record(b"u0p0x", 4 * DAY, 2),
        record(b"u0p1x", 4 * DAY, 2),
    ];
    let pairs = temporal_join(&primary, &secondary);
    assert_eq!(pairs.len(), 2);
    assert_eq!(pairs[0].secondary.geocode, b"u0p0x".to_vec());
    assert_eq!(pairs[1].secondary.geocode, b"u0p1x".to_vec());
    for pair in pairs.iter() {
        for p in pair.primaries.iter() {
            assert_eq!(p.geocode, pair.secondary.geocode);
        }
    }
}

#[test]
fn pair_becomes_composite_request() {
    let primary = vec![
        record(b"u0p0x", 1 * DAY, 4),
        record(b"u0p0x", 2 * DAY, 4),
        record(b"u0p0x", 3 * DAY, 4),
    ];
    let secondary = vec![record(b"u0p0x", 4 * DAY, 2)];
    let pairs = temporal_join(&primary, &secondary);
    assert_eq!(pairs.len(), 1);
    let c = composite_of_pair(&pairs[0]).expect("complete signatures");
    assert_eq!(c.geocode, b"u0p0x".to_vec());
    assert_eq!(c.timestamp, 4 * DAY);
    // Each primary contributes its fourth file, the secondary its second.
    assert_eq!(c.primary_paths.len(), 3);
    assert_eq!(c.primary_paths[0], b"u0p0x-3".to_vec());
    assert_eq!(c.secondary_path, b"u0p0x-1".to_vec());
}

#[test]
fn chunks_fill_then_remainder() {
    let primary = vec![
        record(b"u0p0x", 1 * DAY, 4),
        record(b"u0p0x", 2 * DAY, 4),
        record(b"u0p0x", 3 * DAY, 4),
    ];
    let mut secondary: Vec<Image> = Vec::new();
    for d in 4..9 {
        secondary.push(record(b"u0p0x", d * DAY, 2));
    }
    let pairs = temporal_join(&primary, &secondary);
    assert_eq!(pairs.len(), 5);
    let batches = chunk_pairs(&pairs, 2);
    assert_eq!(batches.len(), 3);
    assert_eq!(batches[0].len(), 2);
    assert_eq!(batches[1].len(), 2);
    assert_eq!(batches[2].len(), 1);
    assert_eq!(batches[0][0].secondary.timestamp, 4 * DAY);
    assert_eq!(batches[2][0].secondary.timestamp, 8 * DAY);
}
