//! The assembly plan for the final mosaic.
//!
//! Raster pixel work — merging, cropping, writing — is the business of an
//! external raster capability. The library decides what that capability
//! must do: merge all collected datasets and crop to the requested box,
//! or, with a single dataset, just crop it (a merge of one item is the
//! identity).

use vstd::prelude::*;

use crate::error::StitchError;
use crate::geo::BoundingBox;

verus! {

/// An opaque encoded raster, as a transfer endpoint returned it.
pub struct Dataset {
    /// The encoded raster payload.
    pub bytes: Vec<u8>,
}

impl View for Dataset {
    type V = Seq<u8>;

    open spec fn view(&self) -> Seq<u8> {
        self.bytes@
    }
}

impl DeepView for Dataset {
    type V = Seq<u8>;

    open spec fn deep_view(&self) -> Seq<u8> {
        self@
    }
}

/// What the raster capability is asked to do.
pub enum MosaicPlan {
    /// One dataset was collected: crop it to the box; no merge is needed.
    CropSingle(Dataset, BoundingBox),
    /// Several datasets were collected: merge them, then crop the merge
    /// to the box.
    MergeThenCrop(Vec<Dataset>, BoundingBox),
}

/// The mathematical model of a `MosaicPlan`.
pub enum PlanModel {
    /// Model of `MosaicPlan::CropSingle`.
    CropSingle(Seq<u8>, BoundingBox),
    /// Model of `MosaicPlan::MergeThenCrop`.
    MergeThenCrop(Seq<Seq<u8>>, BoundingBox),
}

impl View for MosaicPlan {
    type V = PlanModel;

    open spec fn view(&self) -> PlanModel {
        match self {
            MosaicPlan::CropSingle(d, b) => PlanModel::CropSingle(d@, *b),
            MosaicPlan::MergeThenCrop(ds, b) => PlanModel::MergeThenCrop(ds.deep_view(), *b),
        }
    }
}

impl DeepView for MosaicPlan {
    type V = PlanModel;

    open spec fn deep_view(&self) -> PlanModel {
        self@
    }
}

/// Plan the assembly of the collected datasets over the requested box.
///
/// Fails with `NoDatasets` exactly when nothing was collected. A single
/// dataset degenerates to a crop alone; more than one is merged first and
/// the merge then cropped.
pub fn plan_assembly(datasets: Vec<Dataset>, bbox: BoundingBox) -> (r: Result<
    MosaicPlan,
    StitchError,
>)
    ensures
        match r {
            Ok(plan) => {
                &&& datasets.deep_view().len() >= 1
                &&& if datasets.deep_view().len() == 1 {
                    plan@ == PlanModel::CropSingle(datasets.deep_view()[0], bbox)
                } else {
                    plan@ == PlanModel::MergeThenCrop(datasets.deep_view(), bbox)
                }
            },
            Err(e) => datasets.deep_view().len() == 0 && e is NoDatasets,
        },
{
    if datasets.len() == 0 {
        return Err(StitchError::NoDatasets);
    }
    if datasets.len() == 1 {
        let mut ds = datasets;
        let ghost dv: Seq<Seq<u8>> = ds.deep_view();
        let first = ds.remove(0);
        proof {
            assert(first@ == dv[0]);
        }
        return Ok(MosaicPlan::CropSingle(first, bbox));
    }
    Ok(MosaicPlan::MergeThenCrop(datasets, bbox))
}

} // verus!
