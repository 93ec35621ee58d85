use stitch::catalog::{Filter, Image, ImageFile, Node};
use stitch::error::StitchError;
use stitch::geo::{partition, BoundingBox};
use stitch::mosaic::{plan_assembly, Dataset, MosaicPlan};
use stitch::pool::RunLedger;
use stitch::select::select_tile;
use stitch::tile::Tile;
use stitch::wire::decode_response;

#[test]
fn it_works() {
    assert_eq!(2 + 2, 4);
}

fn dataset(byte: u8) -> Dataset {
    Dataset { bytes: vec![byte, byte, byte] }
}

#[test]
fn ledger_accounts_for_every_cell() {
    let mut ledger = RunLedger::new(3);
    assert!(ledger.record_resolved(b"u0p0".to_vec(), dataset(1)));
    assert!(!ledger.is_complete());
    assert!(ledger.record_unavailable(b"u0p1".to_vec()));
    assert!(!ledger.is_complete());
    assert!(ledger.record_resolved(b"u0p2".to_vec(), dataset(2)));
    assert!(ledger.is_complete());
    let results = ledger.into_results();
    assert_eq!(results.len(), 2);
    assert_eq!(results[0].geocode, b"u0p0".to_vec());
    assert_eq!(results[1].geocode, b"u0p2".to_vec());
}

#[test]
fn ledger_rejects_duplicates() {
    let mut ledger = RunLedger::new(3);
    assert!(ledger.record_resolved(b"u0p0".to_vec(), dataset(1)));
    assert!(!ledger.record_resolved(b"u0p0".to_vec(), dataset(2)));
    assert!(!ledger.record_unavailable(b"u0p0".to_vec()));
    let results = ledger.into_results();
    assert_eq!(results.len(), 1);
    assert_eq!(results[0].dataset.bytes, vec![1, 1, 1]);
}

#[test]
fn ledger_rejects_beyond_expected() {
    let mut ledger = RunLedger::new(1);
    assert!(ledger.record_unavailable(b"u0p0".to_vec()));
    assert!(ledger.is_complete());
    assert!(!ledger.record_resolved(b"u0p1".to_vec(), dataset(1)));
}

#[test]
fn assembly_of_nothing_fails() {
    let bbox = BoundingBox {
        min_lon: 10_000_000,
        max_lon: 10_100_000,
        min_lat: 45_000_000,
        max_lat: 45_100_000,
    };
    match plan_assembly(Vec::new(), bbox) {
        Err(StitchError::NoDatasets) => {}
        _ => panic!("an empty collection has nothing to assemble"),
    }
}

#[test]
fn assembly_of_many_merges_then_crops() {
    let bbox = BoundingBox {
        min_lon: 10_000_000,
        max_lon: 10_100_000,
        min_lat: 45_000_000,
        max_lat: 45_100_000,
    };
    match plan_assembly(vec![dataset(1), dataset(2)], bbox) {
        Ok(MosaicPlan::MergeThenCrop(ds, b)) => {
            assert_eq!(ds.len(), 2);
            assert_eq!(b.min_lon, bbox.min_lon);
        }
        _ => panic!("several datasets must be merged before the crop"),
    }
}

#[test]
fn single_cell_end_to_end() {
    // One cell, one primary record at the target with full coverage and
    // the complete signature: the pipeline fetches exactly one dataset,
    // and assembling one dataset degenerates to a crop of that dataset.
    let bbox = BoundingBox {
        min_lon: 10_000_000,
        max_lon: 10_100_000,
        min_lat: 45_000_000,
        max_lat: 45_100_000,
    };
    let target: i64 = 1_600_000_000;
    let windows = partition(&bbox, 4).expect("valid box");
    assert_eq!(windows.len(), 1);
    let geocode = windows[0].geocode.clone();
    assert_eq!(geocode, b"u0p0".to_vec());

    // The filter a worker sends for this cell.
    let filter = Filter::primary_window(b"primary".to_vec(), geocode.clone(), target);
    assert_eq!(filter.min_pixel_coverage, Some(1000));
    let end = filter.end_timestamp.expect("window end");
    let start = filter.start_timestamp.expect("window start");
    assert_eq!(end % 86_400, 0);
    assert!(target <= end && end < target + 86_400);
    assert_eq!(start, end - 15 * 86_400 + 1);

    // What the catalog returns for that filter.
    let mut files: Vec<ImageFile> = Vec::new();
    for k in 0..4 {
        files.push(ImageFile {
            path: vec![b'f', b'0' + k],
            subdataset: 0,
            pixel_coverage: 1000,
        });
    }
    let record = Image {
        platform: b"primary".to_vec(),
        geocode: geocode.clone(),
        timestamp: target,
        cloud_coverage: None,
        pixel_coverage: 1000,
        files,
    };
    let node = Node { id: 1, rpc_addr: b"n1:15606".to_vec(), xfer_addr: b"n1:15616".to_vec() };

    let tile = select_tile(node, geocode.clone(), &vec![record], &Vec::new(), target);
    assert_eq!(tile.cell_geocode(), &geocode);
    let request = match &tile {
        Tile::Stip(_, im) => {
            assert_eq!(im.timestamp, target);
            tile.request_bytes().expect("encodable")
        }
        _ => panic!("the record at the target must be selected directly"),
    };
    // The single-record fetch of the record's fourth file.
    assert_eq!(request, vec![0u8, 2, b'f', b'3', 0u8]);

    // The endpoint answers success followed by the raster payload.
    let mut response: Vec<u8> = vec![0u8];
    response.extend_from_slice(&[9, 9, 9, 9]);
    let payload = decode_response(&response).expect("success");

    let mut ledger = RunLedger::new(windows.len());
    assert!(ledger.record_resolved(geocode, Dataset { bytes: payload }));
    assert!(ledger.is_complete());
    let results = ledger.into_results();
    assert_eq!(results.len(), 1);

    let mut datasets: Vec<Dataset> = Vec::new();
    for r in results {
        datasets.push(r.dataset);
    }
    match plan_assembly(datasets, bbox) {
        Ok(MosaicPlan::CropSingle(d, b)) => {
            assert_eq!(d.bytes, vec![9, 9, 9, 9]);
            assert_eq!(b.max_lat, bbox.max_lat);
        }
        _ => panic!("a single dataset is only cropped, never merged"),
    }
}
