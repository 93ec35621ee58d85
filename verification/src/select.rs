//! The per-cell source-selection policy.
//!
//! Given the primary-platform and secondary-platform candidates that the
//! catalog returned for one cell and a target timestamp, pick exactly one
//! outcome, in this order: a direct capture whose timestamp lies within
//! the tolerance of the target (closest first, later timestamp on a tie),
//! else a composite of the two most recent usable primary records and the
//! most recent usable secondary record, else nothing.

use vstd::prelude::*;

use crate::catalog::DIRECT_TOLERANCE_SECONDS;
use crate::catalog::{Image, ImageModel, Node, filter_primary, filter_secondary, primary_pred, secondary_pred};
use crate::tile::{Tile, TileModel};

verus! {

/// Distance, in seconds, between a record's timestamp and the target.
pub open spec fn spec_dist(t: i64, target: i64) -> int {
    if t >= target {
        t - target
    } else {
        target - t
    }
}

/// Whether a record's timestamp lies within the direct-selection
/// tolerance of the target.
pub open spec fn spec_within_tolerance(im: ImageModel, target: i64) -> bool {
    spec_dist(im.timestamp, target) <= DIRECT_TOLERANCE_SECONDS
}

/// Whether `a` is a strictly better direct pick than `b`: closer to the
/// target, or as close with a later timestamp.
pub open spec fn spec_strictly_better(a: ImageModel, b: ImageModel, target: i64) -> bool {
    ||| spec_dist(a.timestamp, target) < spec_dist(b.timestamp, target)
    ||| (spec_dist(a.timestamp, target) == spec_dist(b.timestamp, target) && a.timestamp > b.timestamp)
}

/// The index of the direct pick among `s`: the first record within
/// tolerance that no other record strictly betters.
pub open spec fn spec_direct_choice(s: Seq<ImageModel>, target: i64) -> Option<int>
    decreases s.len(),
{
    if s.len() == 0 {
        None
    } else {
        let prev = spec_direct_choice(s.drop_last(), target);
        let li = s.len() - 1;
        if !spec_within_tolerance(s[li], target) {
            prev
        } else {
            match prev {
                None => Some(li as int),
                Some(i) => {
                    if spec_strictly_better(s[li], s[i], target) {
                        Some(li as int)
                    } else {
                        Some(i)
                    }
                },
            }
        }
    }
}

/// The direct pick is within tolerance and at least as good as every
/// record within tolerance; a pick exists exactly when some record is
/// within tolerance. Among equally distant records the later timestamp
/// wins, and among equal timestamps the earliest index wins.
pub proof fn lemma_direct_choice_sound(s: Seq<ImageModel>, target: i64)
    ensures
        match spec_direct_choice(s, target) {
            Some(i) => {
                &&& 0 <= i < s.len()
                &&& spec_within_tolerance(s[i], target)
                &&& forall|j: int| 0 <= j < s.len() && spec_within_tolerance(#[trigger] s[j], target)
                    ==> !spec_strictly_better(s[j], s[i], target)
                &&& forall|j: int| 0 <= j < i && spec_within_tolerance(#[trigger] s[j], target)
                    ==> spec_strictly_better(s[i], s[j], target)
            },
            None => forall|j: int| 0 <= j < s.len() ==> !spec_within_tolerance(#[trigger] s[j], target),
        },
    decreases s.len(),
{
    if s.len() > 0 {
        lemma_direct_choice_sound(s.drop_last(), target);
        assert(forall|j: int| 0 <= j < s.len() - 1 ==> s.drop_last()[j] == #[trigger] s[j]);
    }
}

/// A record at exactly the target timestamp wins direct selection when
/// no other record sits at the target.
pub proof fn lemma_direct_choice_exact(s: Seq<ImageModel>, target: i64, i: int)
    requires
        0 <= i < s.len(),
        s[i].timestamp == target,
        forall|j: int| 0 <= j < s.len() && j != i ==> (#[trigger] s[j]).timestamp != target,
    ensures
        spec_direct_choice(s, target) == Some(i),
{
    lemma_direct_choice_sound(s, target);
    assert(spec_within_tolerance(s[i], target));
    match spec_direct_choice(s, target) {
        Some(c) => {
            assert(!spec_strictly_better(s[i], s[c], target));
            assert(spec_dist(s[i].timestamp, target) == 0);
            assert(spec_dist(s[c].timestamp, target) == 0);
            assert(s[c].timestamp == target);
            if c != i {
                assert(false);
            }
        },
        None => {
            assert(false);
        },
    }
}

/// The index of the record with the greatest timestamp, skipping the
/// excluded index; the first such index on ties.
pub open spec fn spec_best_ts_except(s: Seq<ImageModel>, ex: Option<int>) -> Option<int>
    decreases s.len(),
{
    if s.len() == 0 {
        None
    } else {
        let prev = spec_best_ts_except(s.drop_last(), ex);
        let li = s.len() - 1;
        if ex == Some(li as int) {
            prev
        } else {
            match prev {
                None => Some(li as int),
                Some(i) => {
                    if s[li].timestamp > s[i].timestamp {
                        Some(li as int)
                    } else {
                        Some(i)
                    }
                },
            }
        }
    }
}

/// The most-recent pick is in range, not the excluded index, and at
/// least as recent as every other record; it exists exactly when some
/// index other than the excluded one exists.
pub proof fn lemma_best_ts_except_sound(s: Seq<ImageModel>, ex: Option<int>)
    ensures
        match spec_best_ts_except(s, ex) {
            Some(i) => {
                &&& 0 <= i < s.len()
                &&& ex != Some(i)
                &&& forall|j: int| 0 <= j < s.len() && ex != Some(j) ==> (#[trigger] s[j]).timestamp
                    <= s[i].timestamp
                &&& forall|j: int| 0 <= j < i && ex != Some(j) ==> (#[trigger] s[j]).timestamp
                    < s[i].timestamp
            },
            None => forall|j: int| 0 <= j < s.len() ==> ex == Some(j),
        },
    decreases s.len(),
{
    if s.len() > 0 {
        lemma_best_ts_except_sound(s.drop_last(), ex);
        assert(forall|j: int| 0 <= j < s.len() - 1 ==> s.drop_last()[j] == #[trigger] s[j]);
    }
}

/// Of exactly two usable primary records, the composite takes both: the
/// more recent one first, then the other.
pub proof fn lemma_composite_pair(pf: Seq<ImageModel>)
    requires
        pf.len() == 2,
    ensures
        match spec_best_ts_except(pf, None) {
            Some(a) => (a == 0 || a == 1) && match spec_best_ts_except(pf, Some(a)) {
                Some(b) => (a == 0 && b == 1) || (a == 1 && b == 0),
                None => false,
            },
            None => false,
        },
{
    lemma_best_ts_except_sound(pf, None);
    let a = spec_best_ts_except(pf, None)->Some_0;
    lemma_best_ts_except_sound(pf, Some(a));
    match spec_best_ts_except(pf, Some(a)) {
        Some(b) => {
        },
        None => {
            assert(Some(a) == Some(0int));
            assert(Some(a) == Some(1int));
            assert(false);
        },
    }
}

/// Of a single usable secondary record, the composite takes that record.
pub proof fn lemma_most_recent_singleton(sf: Seq<ImageModel>)
    requires
        sf.len() == 1,
    ensures
        spec_best_ts_except(sf, None) == Some(0int),
{
    lemma_best_ts_except_sound(sf, None);
    match spec_best_ts_except(sf, None) {
        Some(c) => {
            assert(c == 0);
        },
        None => {
            assert(None::<int> == Some(0int));
            assert(false);
        },
    }
}

/// Pick the direct record among the candidates: the one closest to the
/// target within tolerance, later timestamp on ties, earliest index on
/// full ties. `None` when no candidate is within tolerance.
pub fn select_direct(candidates: &Vec<Image>, target: i64) -> (r: Option<usize>)
    ensures
        match r {
            Some(i) => spec_direct_choice(candidates.deep_view(), target) == Some(i as int),
            None => spec_direct_choice(candidates.deep_view(), target) is None,
        },
{
    let mut best: Option<usize> = None;
    let mut k: usize = 0;
    while k < candidates.len()
        invariant
            0 <= k <= candidates@.len(),
            candidates.deep_view().len() == candidates@.len(),
            match best {
                Some(bi) => bi < k && spec_direct_choice(candidates.deep_view().take(k as int), target)
                    == Some(bi as int),
                None => spec_direct_choice(candidates.deep_view().take(k as int), target) is None,
            },
        decreases candidates@.len() - k,
    {
        proof {
            assert(candidates.deep_view()[k as int] == candidates@[k as int]@);
            assert(candidates.deep_view().take((k + 1) as int).drop_last() =~= candidates.deep_view()
                .take(k as int));
            assert(candidates.deep_view().take((k + 1) as int).last() == candidates.deep_view()[
                k as int
            ]);
        }
        let dk: i128 = dist128(candidates[k].timestamp, target);
        proof {
            assert(dk as int == spec_dist(candidates.deep_view()[k as int].timestamp, target));
        }
        if dk <= DIRECT_TOLERANCE_SECONDS as i128 {
            match best {
                None => {
                    best = Some(k);
                },
                Some(bi) => {
                    let db: i128 = dist128(candidates[bi].timestamp, target);
                    proof {
                        assert(candidates.deep_view()[bi as int] == candidates@[bi as int]@);
                        assert(db as int == spec_dist(candidates.deep_view()[bi as int].timestamp, target));
                    }
                    if dk < db || (dk == db && candidates[k].timestamp > candidates[bi].timestamp) {
                        best = Some(k);
                    }
                },
            }
        }
        k = k + 1;
    }
    proof {
        assert(candidates.deep_view().take(candidates.deep_view().len() as int) =~= candidates
            .deep_view());
    }
    best
}

/// The distance, in seconds, between a timestamp and the target.
fn dist128(t: i64, target: i64) -> (r: i128)
    ensures
        r as int == spec_dist(t, target),
{
    let d: i128 = t as i128 - target as i128;
    if d < 0 {
        -d
    } else {
        d
    }
}

/// Pick the most recent record, skipping the excluded index; the
/// earliest index on ties. `None` when nothing remains.
pub fn select_most_recent(candidates: &Vec<Image>, ex: Option<usize>) -> (r: Option<usize>)
    ensures
        match r {
            Some(i) => spec_best_ts_except(candidates.deep_view(), spec_ex(ex)) == Some(i as int),
            None => spec_best_ts_except(candidates.deep_view(), spec_ex(ex)) is None,
        },
{
    let mut best: Option<usize> = None;
    let mut k: usize = 0;
    while k < candidates.len()
        invariant
            0 <= k <= candidates@.len(),
            candidates.deep_view().len() == candidates@.len(),
            match best {
                Some(bi) => bi < k && spec_best_ts_except(
                    candidates.deep_view().take(k as int),
                    spec_ex(ex),
                ) == Some(bi as int),
                None => spec_best_ts_except(candidates.deep_view().take(k as int), spec_ex(ex)) is None,
            },
        decreases candidates@.len() - k,
    {
        proof {
            assert(candidates.deep_view()[k as int] == candidates@[k as int]@);
            assert(candidates.deep_view().take((k + 1) as int).drop_last() =~= candidates.deep_view()
                .take(k as int));
            assert(candidates.deep_view().take((k + 1) as int).last() == candidates.deep_view()[
                k as int
            ]);
        }
        let skip: bool = match ex {
            Some(e) => e == k,
            None => false,
        };
        if !skip {
            match best {
                None => {
                    best = Some(k);
                },
                Some(bi) => {
                    proof {
                        assert(candidates.deep_view()[bi as int] == candidates@[bi as int]@);
                    }
                    if candidates[k].timestamp > candidates[bi].timestamp {
                        best = Some(k);
                    }
                },
            }
        }
        k = k + 1;
    }
    proof {
        assert(candidates.deep_view().take(candidates.deep_view().len() as int) =~= candidates
            .deep_view());
    }
    best
}

/// The excluded index as the specification sees it.
pub open spec fn spec_ex(ex: Option<usize>) -> Option<int> {
    match ex {
        Some(e) => Some(e as int),
        None => None,
    }
}

/// Select the outcome for one cell.
///
/// `primary_candidates` and `secondary_candidates` are what the catalog
/// returned for the cell's trailing windows; `geocode` is the cell's
/// geocode and `target` the requested timestamp. The records with the
/// wrong platform signature are discarded here; the policy then picks a
/// direct record, a composite, or reports the cell unavailable.
pub fn select_tile(
    node: Node,
    geocode: Vec<u8>,
    primary_candidates: &Vec<Image>,
    secondary_candidates: &Vec<Image>,
    target: i64,
) -> (r: Tile)
    ensures
        ({
            let pf = primary_candidates.deep_view().filter(primary_pred());
            let sf = secondary_candidates.deep_view().filter(secondary_pred(geocode@.len()));
            match r@ {
                TileModel::Stip(n, im) => {
                    &&& n == node@
                    &&& spec_direct_choice(pf, target) matches Some(i) && im == pf[i]
                },
                TileModel::Stitch(n, ps, s) => {
                    &&& n == node@
                    &&& spec_direct_choice(pf, target) is None
                    &&& pf.len() >= 2
                    &&& sf.len() >= 1
                    &&& ps.len() == 2
                    &&& match spec_best_ts_except(pf, None) {
                        Some(a) => ps[0] == pf[a] && match spec_best_ts_except(pf, Some(a)) {
                            Some(b) => ps[1] == pf[b],
                            None => false,
                        },
                        None => false,
                    }
                    &&& match spec_best_ts_except(sf, None) {
                        Some(c) => s == sf[c],
                        None => false,
                    }
                },
                TileModel::Unavailable(g) => {
                    &&& g == geocode@
                    &&& spec_direct_choice(pf, target) is None
                    &&& !(pf.len() >= 2 && sf.len() >= 1)
                },
            }
        }),
{
    let p = filter_primary(primary_candidates);
    match select_direct(&p, target) {
        Some(i) => {
            proof {
                lemma_direct_choice_sound(p.deep_view(), target);
                assert(p.deep_view()[i as int] == p@[i as int]@);
            }
            return Tile::Stip(node, p[i].clone_image());
        },
        None => {
        },
    }
    let s = filter_secondary(secondary_candidates, geocode.len());
    if p.len() >= 2 && s.len() >= 1 {
        let a = match select_most_recent(&p, None) {
            Some(a) => a,
            None => {
                proof {
                    lemma_best_ts_except_sound(p.deep_view(), None);
                    assert(p.deep_view().len() == p@.len());
                    assert(false);
                }
                return Tile::Unavailable(geocode);
            },
        };
        let b = match select_most_recent(&p, Some(a)) {
            Some(b) => b,
            None => {
                proof {
                    lemma_best_ts_except_sound(p.deep_view(), Some(a as int));
                    assert(p.deep_view().len() == p@.len());
                    assert(Some(a as int) == Some(0int));
                    assert(Some(a as int) == Some(1int));
                    assert(false);
                }
                return Tile::Unavailable(geocode);
            },
        };
        let c = match select_most_recent(&s, None) {
            Some(c) => c,
            None => {
                proof {
                    lemma_best_ts_except_sound(s.deep_view(), None);
                    assert(s.deep_view().len() == s@.len());
                    assert(false);
                }
                return Tile::Unavailable(geocode);
            },
        };
        proof {
            lemma_best_ts_except_sound(p.deep_view(), None);
            lemma_best_ts_except_sound(p.deep_view(), Some(a as int));
            lemma_best_ts_except_sound(s.deep_view(), None);
            assert(p.deep_view()[a as int] == p@[a as int]@);
            assert(p.deep_view()[b as int] == p@[b as int]@);
            assert(s.deep_view()[c as int] == s@[c as int]@);
        }
        let mut primaries: Vec<Image> = Vec::new();
        primaries.push(p[a].clone_image());
        primaries.push(p[b].clone_image());
        proof {
            assert(primaries.deep_view() =~= seq![p.deep_view()[a as int], p.deep_view()[b as int]]);
        }
        return Tile::Stitch(node, primaries, s[c].clone_image());
    }
    proof {
        assert(p.deep_view().len() == p@.len());
        assert(s.deep_view().len() == s@.len());
    }
    Tile::Unavailable(geocode)
}

} // verus!
