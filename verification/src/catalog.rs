//! The catalog data model: image records, cluster nodes, and the filter
//! that a catalog query carries.
//!
//! Coordinates and coverages are plain integers. A coverage is given in
//! thousandths (1000 is full coverage); a timestamp is in seconds. Byte
//! strings (geocodes, paths, addresses, platform names) are `Vec<u8>`.
//! Each type has a mathematical model (`FileModel`, `ImageModel`,
//! `NodeModel`) over `Seq`, and every contract of the library speaks of
//! those models through `deep_view`.

use vstd::prelude::*;

verus! {

/// Seconds in one day.
pub const DAY_SECONDS: i64 = 86400;

/// Length, in days, of the trailing window searched for composite
/// candidates.
pub const TRAILING_DAYS: i64 = 15;

/// Symmetric tolerance, in seconds, around the target timestamp inside
/// which a primary record qualifies for direct selection.
pub const DIRECT_TOLERANCE_SECONDS: i64 = 86400;

/// Number of file entries that signals a complete primary-platform
/// record.
pub const PRIMARY_FILE_COUNT: usize = 4;

/// Number of file entries that signals a complete secondary-platform
/// record.
pub const SECONDARY_FILE_COUNT: usize = 2;

/// A coverage of one: the whole cell is covered.
pub const FULL_COVERAGE_THOUSANDTHS: u32 = 1000;

/// One file of an image record.
pub struct ImageFile {
    /// Path of the file on its owning node.
    pub path: Vec<u8>,
    /// Subdataset index inside the file.
    pub subdataset: i64,
    /// Fraction of the cell the file covers, in thousandths.
    pub pixel_coverage: u32,
}

/// The mathematical model of an `ImageFile`.
pub struct FileModel {
    /// Model of `ImageFile::path`.
    pub path: Seq<u8>,
    /// Model of `ImageFile::subdataset`.
    pub subdataset: i64,
    /// Model of `ImageFile::pixel_coverage`.
    pub pixel_coverage: u32,
}

impl View for ImageFile {
    type V = FileModel;

    open spec fn view(&self) -> FileModel {
        FileModel { path: self.path@, subdataset: self.subdataset, pixel_coverage: self.pixel_coverage }
    }
}

impl DeepView for ImageFile {
    type V = FileModel;

    open spec fn deep_view(&self) -> FileModel {
        self@
    }
}

/// One catalog record: an image of one cell captured by one platform.
pub struct Image {
    /// Platform that captured the image.
    pub platform: Vec<u8>,
    /// Geocode of the covered cell.
    pub geocode: Vec<u8>,
    /// Capture timestamp, in seconds.
    pub timestamp: i64,
    /// Cloud coverage in thousandths, when the platform reports one.
    pub cloud_coverage: Option<u32>,
    /// Fraction of the cell the record covers, in thousandths.
    pub pixel_coverage: u32,
    /// The record's files; length and order are platform-specific.
    pub files: Vec<ImageFile>,
}

/// The mathematical model of an `Image`.
pub struct ImageModel {
    /// Model of `Image::platform`.
    pub platform: Seq<u8>,
    /// Model of `Image::geocode`.
    pub geocode: Seq<u8>,
    /// Model of `Image::timestamp`.
    pub timestamp: i64,
    /// Model of `Image::cloud_coverage`.
    pub cloud_coverage: Option<u32>,
    /// Model of `Image::pixel_coverage`.
    pub pixel_coverage: u32,
    /// Models of `Image::files`, in order.
    pub files: Seq<FileModel>,
}

impl View for Image {
    type V = ImageModel;

    open spec fn view(&self) -> ImageModel {
        ImageModel {
            platform: self.platform@,
            geocode: self.geocode@,
            timestamp: self.timestamp,
            cloud_coverage: self.cloud_coverage,
            pixel_coverage: self.pixel_coverage,
            files: self.files.deep_view(),
        }
    }
}

impl DeepView for Image {
    type V = ImageModel;

    open spec fn deep_view(&self) -> ImageModel {
        self@
    }
}

/// A cluster node that owns a set of cells.
pub struct Node {
    /// Node identifier.
    pub id: u32,
    /// Address of the node's RPC endpoint.
    pub rpc_addr: Vec<u8>,
    /// Address of the node's transfer endpoint.
    pub xfer_addr: Vec<u8>,
}

/// The mathematical model of a `Node`.
pub struct NodeModel {
    /// Model of `Node::id`.
    pub id: u32,
    /// Model of `Node::rpc_addr`.
    pub rpc_addr: Seq<u8>,
    /// Model of `Node::xfer_addr`.
    pub xfer_addr: Seq<u8>,
}

impl View for Node {
    type V = NodeModel;

    open spec fn view(&self) -> NodeModel {
        NodeModel { id: self.id, rpc_addr: self.rpc_addr@, xfer_addr: self.xfer_addr@ }
    }
}

impl DeepView for Node {
    type V = NodeModel;

    open spec fn deep_view(&self) -> NodeModel {
        self@
    }
}

/// The filter of a catalog `list` query.
pub struct Filter {
    /// Keep records of this platform only.
    pub platform: Option<Vec<u8>>,
    /// Keep records of this cell only.
    pub geocode: Option<Vec<u8>>,
    /// Keep records with `timestamp >= start_timestamp`.
    pub start_timestamp: Option<i64>,
    /// Keep records with `timestamp <= end_timestamp`.
    pub end_timestamp: Option<i64>,
    /// Keep records with at least this pixel coverage, in thousandths.
    pub min_pixel_coverage: Option<u32>,
    /// Keep records with at most this cloud coverage, in thousandths.
    pub max_cloud_coverage: Option<u32>,
    /// Also return records of cells nested inside the given geocode.
    pub recurse: bool,
    /// Keep records of this source only.
    pub source: Option<Vec<u8>>,
}

/// The smallest multiple of a day at or after `t`.
pub open spec fn spec_day_ceiling(t: int) -> int {
    if t % (DAY_SECONDS as int) == 0 {
        t
    } else {
        t + (DAY_SECONDS as int) - t % (DAY_SECONDS as int)
    }
}

/// The smallest multiple-of-a-day boundary at or after `timestamp`: the
/// end of the trailing window anchored at `timestamp`.
pub fn day_ceiling(timestamp: i64) -> (r: i64)
    requires
        spec_day_ceiling(timestamp as int) <= i64::MAX,
    ensures
        r == spec_day_ceiling(timestamp as int),
        r % 86400 == 0,
        timestamp <= r < timestamp + 86400,
{
    let rem: i64 = timestamp % 86400;
    if rem == 0 {
        timestamp
    } else if timestamp > 0 {
        timestamp + (86400 - rem)
    } else {
        timestamp - rem
    }
}

/// Start of the trailing window that ends at `end`: the window holds the
/// timestamps `start..=end`, spanning `TRAILING_DAYS` days.
pub fn trailing_window_start(end: i64) -> (start: i64)
    requires
        end - 15 * 86400 + 1 >= i64::MIN,
    ensures
        start == end - 15 * 86400 + 1,
{
    end - (15 * 86400 - 1)
}

impl Filter {
    /// The primary-platform filter for one cell: a trailing window ending
    /// at the day boundary at or after `target`, full pixel coverage
    /// required.
    pub fn primary_window(platform: Vec<u8>, geocode: Vec<u8>, target: i64) -> (r: Filter)
        requires
            spec_day_ceiling(target as int) <= i64::MAX,
            spec_day_ceiling(target as int) - 15 * 86400 + 1 >= i64::MIN,
        ensures
            r.platform == Some(platform),
            r.geocode == Some(geocode),
            r.start_timestamp == Some((spec_day_ceiling(target as int) - 15 * 86400 + 1) as i64),
            r.end_timestamp == Some(spec_day_ceiling(target as int) as i64),
            r.min_pixel_coverage == Some(FULL_COVERAGE_THOUSANDTHS),
            r.max_cloud_coverage == None::<u32>,
            r.recurse == false,
            r.source == None::<Vec<u8>>,
    {
        let end: i64 = day_ceiling(target);
        let start: i64 = trailing_window_start(end);
        Filter {
            platform: Some(platform),
            geocode: Some(geocode),
            start_timestamp: Some(start),
            end_timestamp: Some(end),
            min_pixel_coverage: Some(FULL_COVERAGE_THOUSANDTHS),
            max_cloud_coverage: None,
            recurse: false,
            source: None,
        }
    }

    /// The secondary-platform filter for one cell: the same trailing
    /// window, with no coverage requirement.
    pub fn secondary_window(platform: Vec<u8>, geocode: Vec<u8>, target: i64) -> (r: Filter)
        requires
            spec_day_ceiling(target as int) <= i64::MAX,
            spec_day_ceiling(target as int) - 15 * 86400 + 1 >= i64::MIN,
        ensures
            r.platform == Some(platform),
            r.geocode == Some(geocode),
            r.start_timestamp == Some((spec_day_ceiling(target as int) - 15 * 86400 + 1) as i64),
            r.end_timestamp == Some(spec_day_ceiling(target as int) as i64),
            r.min_pixel_coverage == None::<u32>,
            r.max_cloud_coverage == None::<u32>,
            r.recurse == false,
            r.source == None::<Vec<u8>>,
    {
        let end: i64 = day_ceiling(target);
        let start: i64 = trailing_window_start(end);
        Filter {
            platform: Some(platform),
            geocode: Some(geocode),
            start_timestamp: Some(start),
            end_timestamp: Some(end),
            min_pixel_coverage: None,
            max_cloud_coverage: None,
            recurse: false,
            source: None,
        }
    }
}

/// Whether a primary-platform record is usable: its file list carries the
/// complete multi-band signature.
pub open spec fn spec_primary_usable(im: ImageModel) -> bool {
    im.files.len() == PRIMARY_FILE_COUNT
}

/// Whether a secondary-platform record is usable for a cell of geocode
/// length `geocode_len`: it carries the two-band signature and is not an
/// aggregated coarser-cell record.
pub open spec fn spec_secondary_usable(im: ImageModel, geocode_len: nat) -> bool {
    im.files.len() == SECONDARY_FILE_COUNT && im.geocode.len() == geocode_len
}

/// The predicate that `filter_primary` keeps.
pub open spec fn primary_pred() -> spec_fn(ImageModel) -> bool {
    |im: ImageModel| spec_primary_usable(im)
}

/// The predicate that `filter_secondary` keeps.
pub open spec fn secondary_pred(geocode_len: nat) -> spec_fn(ImageModel) -> bool {
    |im: ImageModel| spec_secondary_usable(im, geocode_len)
}

/// Keep the usable primary-platform records, in order.
pub fn filter_primary(records: &Vec<Image>) -> (r: Vec<Image>)
    ensures
        r.deep_view() == records.deep_view().filter(primary_pred()),
{
    let mut r: Vec<Image> = Vec::new();
    let mut i: usize = 0;
    while i < records.len()
        invariant
            0 <= i <= records.len(),
            r.deep_view() == records.deep_view().take(i as int).filter(primary_pred()),
        decreases records.len() - i,
    {
        proof {
            assert(records.deep_view().take((i + 1) as int).drop_last() =~= records.deep_view().take(i as int));
            assert(records.deep_view().take((i + 1) as int).last() == records@[i as int]@);
            reveal(Seq::filter);
        }
        if records[i].files.len() == PRIMARY_FILE_COUNT {
            let im = records[i].clone_image();
            r.push(im);
            proof {
                assert(r.deep_view() =~= records.deep_view().take((i + 1) as int).filter(primary_pred()));
            }
        } else {
            proof {
                assert(r.deep_view() =~= records.deep_view().take((i + 1) as int).filter(primary_pred()));
            }
        }
        i = i + 1;
    }
    proof {
        assert(records.deep_view().take(records@.len() as int) =~= records.deep_view());
    }
    r
}

/// Keep the usable secondary-platform records for a cell of geocode
/// length `geocode_len`, in order.
pub fn filter_secondary(records: &Vec<Image>, geocode_len: usize) -> (r: Vec<Image>)
    ensures
        r.deep_view() == records.deep_view().filter(secondary_pred(geocode_len as nat)),
{
    let mut r: Vec<Image> = Vec::new();
    let mut i: usize = 0;
    while i < records.len()
        invariant
            0 <= i <= records.len(),
            r.deep_view() == records.deep_view().take(i as int).filter(secondary_pred(geocode_len as nat)),
        decreases records.len() - i,
    {
        proof {
            assert(records.deep_view().take((i + 1) as int).drop_last() =~= records.deep_view().take(i as int));
            assert(records.deep_view().take((i + 1) as int).last() == records@[i as int]@);
            reveal(Seq::filter);
        }
        if records[i].files.len() == SECONDARY_FILE_COUNT && records[i].geocode.len() == geocode_len {
            let im = records[i].clone_image();
            r.push(im);
            proof {
                assert(r.deep_view() =~= records.deep_view().take((i + 1) as int).filter(
                    secondary_pred(geocode_len as nat),
                ));
            }
        } else {
            proof {
                assert(r.deep_view() =~= records.deep_view().take((i + 1) as int).filter(
                    secondary_pred(geocode_len as nat),
                ));
            }
        }
        i = i + 1;
    }
    proof {
        assert(records.deep_view().take(records@.len() as int) =~= records.deep_view());
    }
    r
}

impl ImageFile {
    /// A copy whose model equals the original's.
    pub fn clone_file(&self) -> (r: ImageFile)
        ensures
            r@ == self@,
    {
        ImageFile {
            path: clone_bytes(&self.path),
            subdataset: self.subdataset,
            pixel_coverage: self.pixel_coverage,
        }
    }
}

impl Image {
    /// A copy whose model equals the original's.
    pub fn clone_image(&self) -> (r: Image)
        ensures
            r@ == self@,
    {
        let mut files: Vec<ImageFile> = Vec::new();
        let mut i: usize = 0;
        while i < self.files.len()
            invariant
                0 <= i <= self.files.len(),
                files.deep_view() =~= self.files.deep_view().take(i as int),
            decreases self.files.len() - i,
        {
            let f = self.files[i].clone_file();
            proof {
                assert(files.deep_view().len() == i);
            }
            files.push(f);
            proof {
                assert(files.deep_view() =~= self.files.deep_view().take(i + 1));
            }
            i = i + 1;
        }
        proof {
            assert(files.deep_view() =~= self.files.deep_view());
        }
        Image {
            platform: clone_bytes(&self.platform),
            geocode: clone_bytes(&self.geocode),
            timestamp: self.timestamp,
            cloud_coverage: self.cloud_coverage,
            pixel_coverage: self.pixel_coverage,
            files,
        }
    }
}

impl Node {
    /// A copy whose model equals the original's.
    pub fn clone_node(&self) -> (r: Node)
        ensures
            r@ == self@,
    {
        Node {
            id: self.id,
            rpc_addr: clone_bytes(&self.rpc_addr),
            xfer_addr: clone_bytes(&self.xfer_addr),
        }
    }
}

/// A copy of a byte string.
pub fn clone_bytes(v: &Vec<u8>) -> (r: Vec<u8>)
    ensures
        r@ == v@,
{
    let mut r: Vec<u8> = Vec::new();
    let mut i: usize = 0;
    while i < v.len()
        invariant
            0 <= i <= v.len(),
            r@ =~= v@.take(i as int),
        decreases v.len() - i,
    {
        r.push(v[i]);
        i = i + 1;
    }
    proof {
        assert(r@ =~= v@);
    }
    r
}

} // verus!
