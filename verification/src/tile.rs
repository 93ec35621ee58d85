//! The per-cell resolution outcome and its transfer request.
//!
//! A `Tile` is what source selection produces for one cell: a direct
//! capture to fetch from its node, a composite of primary and secondary
//! records for an external synthesis service, or nothing. `request_bytes`
//! builds the exact wire request that fetches the tile; the socket that
//! carries it lives outside the library.

use vstd::prelude::*;

use crate::catalog::{Image, ImageModel, Node, NodeModel, PRIMARY_FILE_COUNT, SECONDARY_FILE_COUNT};
use crate::catalog::clone_bytes;
use crate::wire::{CompositeRequest, CompositeRequestModel, MAX_FIELD_LEN};
use crate::wire::{encode_composite_request, encode_single_request, spec_composite_ok, spec_encode_composite, spec_encode_single};

verus! {

/// The resolution outcome for one cell.
pub enum Tile {
    /// A direct capture: fetch this record from its owning node.
    Stip(Node, Image),
    /// A composite: the most recent usable primary records and one
    /// secondary record, to be synthesised into one raster.
    Stitch(Node, Vec<Image>, Image),
    /// No qualifying source exists for the cell with this geocode.
    Unavailable(Vec<u8>),
}

/// The mathematical model of a `Tile`.
pub enum TileModel {
    /// Model of `Tile::Stip`.
    Stip(NodeModel, ImageModel),
    /// Model of `Tile::Stitch`.
    Stitch(NodeModel, Seq<ImageModel>, ImageModel),
    /// Model of `Tile::Unavailable`.
    Unavailable(Seq<u8>),
}

impl View for Tile {
    type V = TileModel;

    open spec fn view(&self) -> TileModel {
        match self {
            Tile::Stip(node, image) => TileModel::Stip(node@, image@),
            Tile::Stitch(node, primaries, secondary) => TileModel::Stitch(
                node@,
                primaries.deep_view(),
                secondary@,
            ),
            Tile::Unavailable(geocode) => TileModel::Unavailable(geocode@),
        }
    }
}

impl DeepView for Tile {
    type V = TileModel;

    open spec fn deep_view(&self) -> TileModel {
        self@
    }
}

/// Whether a direct tile's record can be encoded on the wire: the
/// complete primary signature, and a path that fits its length field.
pub open spec fn spec_stip_encodable(im: ImageModel) -> bool {
    &&& im.files.len() == PRIMARY_FILE_COUNT
    &&& im.files[PRIMARY_FILE_COUNT - 1].path.len() <= MAX_FIELD_LEN
}

/// The wire request of a direct tile: a single-record fetch of the
/// record's last file.
pub open spec fn spec_stip_request(im: ImageModel) -> Seq<u8> {
    spec_encode_single(im.files[PRIMARY_FILE_COUNT - 1].path)
}

/// The primary paths of a composite tile: the last file of each primary
/// record, in order.
pub open spec fn spec_stitch_paths(ps: Seq<ImageModel>) -> Seq<Seq<u8>> {
    Seq::new(ps.len(), |i: int| ps[i].files[PRIMARY_FILE_COUNT - 1].path)
}

/// The composite fetch of a composite tile: keyed by the secondary
/// record's geocode and timestamp, carrying the primary paths and the
/// secondary record's second file.
pub open spec fn spec_stitch_model(ps: Seq<ImageModel>, s: ImageModel) -> CompositeRequestModel {
    CompositeRequestModel {
        geocode: s.geocode,
        timestamp: s.timestamp,
        primary_paths: spec_stitch_paths(ps),
        secondary_path: s.files[SECONDARY_FILE_COUNT - 1].path,
    }
}

/// Whether a composite tile can be encoded on the wire: complete file
/// signatures on every record, and every field fits its length byte.
pub open spec fn spec_stitch_encodable(ps: Seq<ImageModel>, s: ImageModel) -> bool {
    &&& forall|i: int| 0 <= i < ps.len() ==> (#[trigger] ps[i].files.len()) == PRIMARY_FILE_COUNT
    &&& s.files.len() == SECONDARY_FILE_COUNT
    &&& spec_composite_ok(spec_stitch_model(ps, s))
}

impl Tile {
    /// The geocode of the cell this outcome is for.
    pub fn cell_geocode(&self) -> (r: &Vec<u8>)
        ensures
            r@ == spec_tile_geocode(self@),
    {
        match self {
            Tile::Stip(_, image) => &image.geocode,
            Tile::Stitch(_, _, secondary) => &secondary.geocode,
            Tile::Unavailable(geocode) => geocode,
        }
    }

    /// Whether no qualifying source was found for the cell.
    pub fn is_unavailable(&self) -> (r: bool)
        ensures
            r == (self@ is Unavailable),
    {
        match self {
            Tile::Unavailable(_) => true,
            _ => false,
        }
    }

    /// The wire request that fetches this tile, or `None` when the tile
    /// is unavailable, a record misses its platform's file signature, or
    /// a field does not fit its one-byte length.
    pub fn request_bytes(&self) -> (r: Option<Vec<u8>>)
        ensures
            match self@ {
                TileModel::Stip(_, im) => {
                    match r {
                        Some(b) => spec_stip_encodable(im) && b@ == spec_stip_request(im),
                        None => !spec_stip_encodable(im),
                    }
                },
                TileModel::Stitch(_, ps, s) => {
                    match r {
                        Some(b) => spec_stitch_encodable(ps, s) && b@ == spec_encode_composite(
                            spec_stitch_model(ps, s),
                        ),
                        None => !spec_stitch_encodable(ps, s),
                    }
                },
                TileModel::Unavailable(_) => r is None,
            },
    {
        match self {
            Tile::Stip(_, image) => {
                proof {
                    assert(image@.files.len() == image.files@.len());
                }
                if image.files.len() != PRIMARY_FILE_COUNT {
                    return None;
                }
                proof {
                    assert(image@.files[PRIMARY_FILE_COUNT - 1].path == image.files@[
                        PRIMARY_FILE_COUNT - 1
                    ].path@);
                }
                encode_single_request(&image.files[PRIMARY_FILE_COUNT - 1].path)
            },
            Tile::Stitch(_, primaries, secondary) => {
                proof {
                    assert(secondary@.files.len() == secondary.files@.len());
                }
                if secondary.files.len() != SECONDARY_FILE_COUNT {
                    return None;
                }
                let mut paths: Vec<Vec<u8>> = Vec::new();
                let mut k: usize = 0;
                while k < primaries.len()
                    invariant
                        (self@ matches TileModel::Stitch(_, ps, s) && ps == primaries.deep_view()
                            && s == secondary@),
                        0 <= k <= primaries@.len(),
                        primaries.deep_view().len() == primaries@.len(),
                        forall|i: int| 0 <= i < k ==> (#[trigger] primaries.deep_view()[i].files.len())
                            == PRIMARY_FILE_COUNT,
                        paths@.len() == k,
                        forall|j: int| 0 <= j < k ==> (#[trigger] paths@[j]@) == primaries.deep_view()[
                            j
                        ].files[PRIMARY_FILE_COUNT - 1].path,
                    decreases primaries@.len() - k,
                {
                    proof {
                        assert(primaries.deep_view()[k as int] == primaries@[k as int]@);
                        assert(primaries.deep_view()[k as int].files.len() == primaries@[
                            k as int
                        ].files@.len());
                    }
                    if primaries[k].files.len() != PRIMARY_FILE_COUNT {
                        proof {
                            assert(!spec_stitch_encodable(primaries.deep_view(), secondary@)) by {
                                assert(0 <= k < primaries.deep_view().len());
                                assert(primaries.deep_view()[k as int].files.len() != PRIMARY_FILE_COUNT);
                            }
                        }
                        return None;
                    }
                    let p = clone_bytes(&primaries[k].files[PRIMARY_FILE_COUNT - 1].path);
                    proof {
                        assert(primaries.deep_view()[k as int].files[PRIMARY_FILE_COUNT - 1]
                            == primaries@[k as int].files@[PRIMARY_FILE_COUNT - 1]@);
                        assert(p@ == primaries.deep_view()[k as int].files[PRIMARY_FILE_COUNT - 1].path);
                    }
                    paths.push(p);
                    k = k + 1;
                }
                proof {
                    assert(paths.deep_view() =~~= spec_stitch_paths(primaries.deep_view())) by {
                        assert(forall|j: int| 0 <= j < paths@.len() ==> (#[trigger] paths.deep_view()[j])
                            =~= paths@[j]@);
                    }
                }
                let c = CompositeRequest {
                    geocode: clone_bytes(&secondary.geocode),
                    timestamp: secondary.timestamp,
                    primary_paths: paths,
                    secondary_path: clone_bytes(&secondary.files[SECONDARY_FILE_COUNT - 1].path),
                };
                proof {
                    assert(secondary@.files[SECONDARY_FILE_COUNT - 1].path == secondary.files@[
                        SECONDARY_FILE_COUNT - 1
                    ].path@);
                    assert(c@ =~~= spec_stitch_model(primaries.deep_view(), secondary@));
                }
                encode_composite_request(&c)
            },
            Tile::Unavailable(_) => None,
        }
    }
}

/// The geocode of the cell a tile is for.
pub open spec fn spec_tile_geocode(t: TileModel) -> Seq<u8> {
    match t {
        TileModel::Stip(_, im) => im.geocode,
        TileModel::Stitch(_, _, s) => s.geocode,
        TileModel::Unavailable(g) => g,
    }
}

} // verus!
