use stitch::catalog::{Image, ImageFile, Node};
use stitch::select::select_tile;
use stitch::tile::Tile;

fn file(path: &[u8]) -> ImageFile {
    ImageFile { path: path.to_vec(), subdataset: 0, pixel_coverage: 1000 }
}

fn record(geocode: &[u8], timestamp: i64, file_count: usize) -> Image {
    let mut files: Vec<ImageFile> = Vec::new();
    for k in 0..file_count {
        let mut path = geocode.to_vec();
        path.push(b'-');
        path.push(b'0' + k as u8);
        files.push(file(&path));
    }
    Image {
        platform: b"primary".to_vec(),
        geocode: geocode.to_vec(),
        timestamp,
        cloud_coverage: None,
        pixel_coverage: 1000,
        files,
    }
}

fn node() -> Node {
    Node { id: 7, rpc_addr: b"10.0.0.1:15606".to_vec(), xfer_addr: b"10.0.0.1:15616".to_vec() }
}

#[test]
fn direct_exact_timestamp_wins() {
    let target: i64 = 1_000_000;
    let primaries = vec![
        record(b"u0p0x", target - 50_000, 4),
        record(b"u0p0x", target, 4),
        record(b"u0p0x", target + 50_000, 4),
    ];
    let secondaries: Vec<Image> = Vec::new();
    match select_tile(node(), b"u0p0x".to_vec(), &primaries, &secondaries, target) {
        Tile::Stip(n, im) => {
            assert_eq!(n.id, 7);
            assert_eq!(im.timestamp, target);
        }
        _ => panic!("a record at the target with full signature must be selected directly"),
    }
}

#[test]
fn direct_tie_later_timestamp_wins() {
    let target: i64 = 1_000_000;
    let primaries = vec![
        record(b"u0p0x", target - 100, 4),
        record(b"u0p0x", target + 100, 4),
    ];
    let secondaries: Vec<Image> = Vec::new();
    match select_tile(node(), b"u0p0x".to_vec(), &primaries, &secondaries, target) {
        Tile::Stip(_, im) => assert_eq!(im.timestamp, target + 100),
        _ => panic!("equidistant records must resolve to the later one"),
    }
}

#[test]
fn direct_ignores_incomplete_records() {
    // The record at the target has the wrong file count, so it is
    // filtered out before selection; nothing else qualifies.
    let target: i64 = 1_000_000;
    let primaries = vec![record(b"u0p0x", target, 3)];
    let secondaries: Vec<Image> = Vec::new();
    match select_tile(node(), b"u0p0x".to_vec(), &primaries, &secondaries, target) {
        Tile::Unavailable(geocode) => assert_eq!(geocode, b"u0p0x".to_vec()),
        _ => panic!("an incomplete record must not be selected"),
    }
}

#[test]
fn composite_two_primaries_one_secondary() {
    // No primary lies within a day of the target, but two usable primary
    // records and one usable secondary exist in the window.
    let target: i64 = 10_000_000;
    let primaries = vec![
        record(b"u0p0x", target - 400_000, 4),
        record(b"u0p0x", target - 300_000, 4),
    ];
    let secondaries = vec![record(b"u0p0x", target - 200_000, 2)];
    match select_tile(node(), b"u0p0x".to_vec(), &primaries, &secondaries, target) {
        Tile::Stitch(n, ps, s) => {
            assert_eq!(n.id, 7);
            assert_eq!(ps.len(), 2);
            assert_eq!(ps[0].timestamp, target - 300_000);
            assert_eq!(ps[1].timestamp, target - 400_000);
            assert_eq!(s.timestamp, target - 200_000);
        }
        _ => panic!("two usable primaries and one usable secondary must compose"),
    }
}

#[test]
fn composite_needs_two_primaries() {
    let target: i64 = 10_000_000;
    let primaries = vec![record(b"u0p0x", target - 400_000, 4)];
    let secondaries = vec![record(b"u0p0x", target - 200_000, 2)];
    match select_tile(node(), b"u0p0x".to_vec(), &primaries, &secondaries, target) {
        Tile::Unavailable(geocode) => assert_eq!(geocode, b"u0p0x".to_vec()),
        _ => panic!("one usable primary is not enough for a composite"),
    }
}

#[test]
fn composite_rejects_coarser_secondary() {
    // The secondary record covers a coarser cell (shorter geocode), so it
    // is not usable for this cell.
    let target: i64 = 10_000_000;
    let primaries = vec![
        record(b"u0p0x", target - 400_000, 4),
        record(b"u0p0x", target - 300_000, 4),
    ];
    let secondaries = vec![record(b"u0p0", target - 200_000, 2)];
    match select_tile(node(), b"u0p0x".to_vec(), &primaries, &secondaries, target) {
        Tile::Unavailable(_) => {}
        _ => panic!("an aggregated coarser-cell record must not be used"),
    }
}
