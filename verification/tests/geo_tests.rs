use stitch::error::StitchError;
use stitch::geo::{encode_geohash, partition, BoundingBox};

#[test]
fn known_geohash_cell() {
    // The precision-5 cell with center (-5.60302734375, 42.60498046875).
    let geocode = encode_geohash(3968, 3017, 5);
    assert_eq!(geocode, b"ezs42".to_vec());
}

#[test]
fn invalid_bounds_rejected() {
    let flipped = BoundingBox {
        min_lon: 10_100_000,
        max_lon: 10_000_000,
        min_lat: 45_000_000,
        max_lat: 45_100_000,
    };
    match partition(&flipped, 5) {
        Err(StitchError::InvalidBounds) => {}
        _ => panic!("a flipped box must be rejected"),
    }
    let out_of_world = BoundingBox {
        min_lon: 170_000_000,
        max_lon: 190_000_000,
        min_lat: 45_000_000,
        max_lat: 45_100_000,
    };
    match partition(&out_of_world, 5) {
        Err(StitchError::InvalidBounds) => {}
        _ => panic!("a box beyond the world range must be rejected"),
    }
}

#[test]
fn single_cell_box() {
    // At precision 4 exactly one cell center falls in this box.
    let bbox = BoundingBox {
        min_lon: 10_000_000,
        max_lon: 10_100_000,
        min_lat: 45_000_000,
        max_lat: 45_100_000,
    };
    let windows = partition(&bbox, 4).expect("valid box");
    assert_eq!(windows.len(), 1);
    assert_eq!(windows[0].precision, 4);
    assert_eq!(windows[0].geocode, b"u0p0".to_vec());
}

#[test]
fn row_major_and_disjoint() {
    // A box two cells wide and two tall at precision 4: columns 540..541,
    // rows 768..769.
    let bbox = BoundingBox {
        min_lon: 10_000_000,
        max_lon: 10_400_000,
        min_lat: 45_000_000,
        max_lat: 45_300_000,
    };
    let windows = partition(&bbox, 4).expect("valid box");
    assert_eq!(windows.len(), 4);
    let cells: Vec<(u32, u32)> = windows.iter().map(|w| (w.ix, w.iy)).collect();
    assert_eq!(cells, vec![(540, 768), (541, 768), (540, 769), (541, 769)]);
    for a in 0..windows.len() {
        for b in 0..windows.len() {
            if a != b {
                assert_ne!(windows[a].geocode, windows[b].geocode);
            }
        }
    }
}

#[test]
fn partition_deterministic() {
    let bbox = BoundingBox {
        min_lon: -5_700_000,
        max_lon: -5_500_000,
        min_lat: 42_500_000,
        max_lat: 42_700_000,
    };
    let first = partition(&bbox, 5).expect("valid box");
    let second = partition(&bbox, 5).expect("valid box");
    assert_eq!(first.len(), second.len());
    for k in 0..first.len() {
        assert_eq!(first[k].ix, second[k].ix);
        assert_eq!(first[k].iy, second[k].iy);
        assert_eq!(first[k].geocode, second[k].geocode);
    }
}

#[test]
fn centers_lie_in_box() {
    // Check the center of every produced window against the box, in
    // microdegree arithmetic scaled by the grid denominator.
    let bbox = BoundingBox {
        min_lon: 9_000_000,
        max_lon: 11_000_000,
        min_lat: 44_000_000,
        max_lat: 46_000_000,
    };
    let precision: u8 = 3;
    let total_bits: u32 = 5 * precision as u32;
    let lon_bits: u32 = (total_bits + 1) / 2;
    let lat_bits: u32 = total_bits / 2;
    let windows = partition(&bbox, precision).expect("valid box");
    assert!(windows.len() > 0);
    for w in windows.iter() {
        let lon_scale: i128 = 1i128 << (lon_bits + 1);
        let lat_scale: i128 = 1i128 << (lat_bits + 1);
        let center_lon_scaled: i128 = (2 * w.ix as i128 + 1) * 360_000_000;
        let center_lat_scaled: i128 = (2 * w.iy as i128 + 1) * 180_000_000;
        assert!((bbox.min_lon as i128 + 180_000_000) * lon_scale <= center_lon_scaled);
        assert!(center_lon_scaled <= (bbox.max_lon as i128 + 180_000_000) * lon_scale);
        assert!((bbox.min_lat as i128 + 90_000_000) * lat_scale <= center_lat_scaled);
        assert!(center_lat_scaled <= (bbox.max_lat as i128 + 90_000_000) * lat_scale);
    }
}
