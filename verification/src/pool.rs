//! Accounting for a pool of workers draining a queue of cells.
//!
//! Workers resolve cells concurrently and report, per cell, either a
//! fetched dataset or that the cell had no qualifying source. The ledger
//! is the shared result collection: append-only, one entry per cell, a
//! cell never recorded twice. The threads themselves and the lock that
//! serialises access live outside the library; the ledger carries the
//! invariant that assembly relies on once every worker has terminated.

use vstd::prelude::*;

use crate::mosaic::Dataset;
use crate::order::{lemma_lex_props, lex_cmp};

verus! {

/// One resolved cell: its geocode and the dataset fetched for it.
pub struct CellResult {
    /// Geocode of the resolved cell.
    pub geocode: Vec<u8>,
    /// The dataset fetched for the cell.
    pub dataset: Dataset,
}

/// The mathematical model of a `CellResult`.
pub struct CellResultModel {
    /// Model of `CellResult::geocode`.
    pub geocode: Seq<u8>,
    /// Model of `CellResult::dataset`.
    pub dataset: Seq<u8>,
}

impl View for CellResult {
    type V = CellResultModel;

    open spec fn view(&self) -> CellResultModel {
        CellResultModel { geocode: self.geocode@, dataset: self.dataset@ }
    }
}

impl DeepView for CellResult {
    type V = CellResultModel;

    open spec fn deep_view(&self) -> CellResultModel {
        self@
    }
}

/// The shared result collection of one run.
pub struct RunLedger {
    /// Number of cells the run queued.
    pub expected: usize,
    /// The resolved cells, in completion order.
    pub resolved: Vec<CellResult>,
    /// The geocodes of the cells with no qualifying source, in
    /// completion order.
    pub unavailable: Vec<Vec<u8>>,
}

/// The mathematical model of a `RunLedger`.
pub struct LedgerModel {
    /// Model of `RunLedger::expected`.
    pub expected: usize,
    /// Models of `RunLedger::resolved`, in order.
    pub resolved: Seq<CellResultModel>,
    /// Models of `RunLedger::unavailable`, in order.
    pub unavailable: Seq<Seq<u8>>,
}

impl View for RunLedger {
    type V = LedgerModel;

    open spec fn view(&self) -> LedgerModel {
        LedgerModel {
            expected: self.expected,
            resolved: self.resolved.deep_view(),
            unavailable: self.unavailable.deep_view(),
        }
    }
}

/// Every geocode a ledger has recorded, resolved cells first.
pub open spec fn spec_ledger_keys(m: LedgerModel) -> Seq<Seq<u8>> {
    m.resolved.map_values(|c: CellResultModel| c.geocode) + m.unavailable
}

/// How many cells a ledger has recorded.
pub open spec fn spec_ledger_recorded(m: LedgerModel) -> int {
    m.resolved.len() + m.unavailable.len() as int
}

/// The ledger's invariant: it never records more cells than the run
/// queued, and never records a cell twice.
pub open spec fn spec_ledger_wf(m: LedgerModel) -> bool {
    &&& spec_ledger_recorded(m) <= m.expected
    &&& forall|i: int, j: int| 0 <= i < j < spec_ledger_keys(m).len() ==> spec_ledger_keys(m)[i]
        != spec_ledger_keys(m)[j]
}

/// Inserting a geocode that is not yet recorded keeps the recorded
/// geocodes pairwise distinct.
proof fn lemma_keys_insert_distinct(keys: Seq<Seq<u8>>, pos: int, g: Seq<u8>)
    requires
        0 <= pos <= keys.len(),
        !keys.contains(g),
        forall|i: int, j: int| 0 <= i < j < keys.len() ==> keys[i] != keys[j],
    ensures
        forall|i: int, j: int| 0 <= i < j < keys.insert(pos, g).len() ==> keys.insert(pos, g)[i]
            != keys.insert(pos, g)[j],
{
    let keys2 = keys.insert(pos, g);
    assert(keys2.len() == keys.len() + 1);
    assert forall|i: int| 0 <= i < keys2.len() implies #[trigger] keys2[i] == (if i < pos {
        keys[i]
    } else if i == pos {
        g
    } else {
        keys[i - 1]
    }) by {
    }
    assert forall|i: int, j: int| 0 <= i < j < keys2.len() implies keys2[i] != keys2[j] by {
        if keys2[i] == g && i != pos {
            let w = if i < pos {
                i
            } else {
                i - 1
            };
            assert(keys[w] == g);
        }
        if keys2[j] == g && j != pos {
            let w = if j < pos {
                j
            } else {
                j - 1
            };
            assert(keys[w] == g);
        }
    }
}

impl RunLedger {
    /// An empty ledger for a run over `expected` cells.
    pub fn new(expected: usize) -> (r: RunLedger)
        ensures
            r@.expected == expected,
            r@.resolved == Seq::<CellResultModel>::empty(),
            r@.unavailable == Seq::<Seq<u8>>::empty(),
            spec_ledger_wf(r@),
    {
        let r = RunLedger { expected, resolved: Vec::new(), unavailable: Vec::new() };
        proof {
            assert(r@.resolved =~= Seq::<CellResultModel>::empty());
            assert(r@.unavailable =~= Seq::<Seq<u8>>::empty());
            assert(spec_ledger_keys(r@) =~= Seq::<Seq<u8>>::empty());
        }
        r
    }

    /// Whether the ledger has already recorded this geocode.
    pub fn has_recorded(&self, geocode: &Vec<u8>) -> (r: bool)
        ensures
            r == spec_ledger_keys(self@).contains(geocode@),
    {
        let ghost keys: Seq<Seq<u8>> = spec_ledger_keys(self@);
        let mut i: usize = 0;
        while i < self.resolved.len()
            invariant
                keys == spec_ledger_keys(self@),
                self@.resolved.len() == self.resolved@.len(),
                self@.unavailable.len() == self.unavailable@.len(),
                keys.len() == self@.resolved.len() + self@.unavailable.len(),
                0 <= i <= self.resolved@.len(),
                forall|k: int| 0 <= k < i ==> #[trigger] keys[k] != geocode@,
            decreases self.resolved@.len() - i,
        {
            proof {
                assert(self@.resolved[i as int] == self.resolved@[i as int]@);
                assert(keys[i as int] == self@.resolved[i as int].geocode);
            }
            let c: i8 = lex_cmp(&self.resolved[i].geocode, geocode);
            if c == 0 {
                proof {
                    assert(keys[i as int] == geocode@);
                }
                return true;
            }
            proof {
                lemma_lex_props(self.resolved@[i as int].geocode@, geocode@);
            }
            i = i + 1;
        }
        let mut j: usize = 0;
        while j < self.unavailable.len()
            invariant
                keys == spec_ledger_keys(self@),
                self@.resolved.len() == self.resolved@.len(),
                self@.unavailable.len() == self.unavailable@.len(),
                keys.len() == self@.resolved.len() + self@.unavailable.len(),
                0 <= j <= self.unavailable@.len(),
                forall|k: int| 0 <= k < self@.resolved.len() + j ==> #[trigger] keys[k] != geocode@,
            decreases self.unavailable@.len() - j,
        {
            proof {
                assert(self@.unavailable[j as int] == self.unavailable@[j as int]@);
                assert(keys[self@.resolved.len() + j] == self@.unavailable[j as int]);
            }
            let c: i8 = lex_cmp(&self.unavailable[j], geocode);
            if c == 0 {
                proof {
                    assert(keys[self@.resolved.len() + j] == geocode@);
                }
                return true;
            }
            proof {
                lemma_lex_props(self.unavailable@[j as int]@, geocode@);
            }
            j = j + 1;
        }
        proof {
            assert(forall|k: int| 0 <= k < keys.len() ==> #[trigger] keys[k] != geocode@);
            if keys.contains(geocode@) {
                let w = choose|w: int| 0 <= w < keys.len() && keys[w] == geocode@;
                assert(false);
            }
        }
        false
    }

    /// Record a resolved cell. Returns `false`, changing nothing, when
    /// the run's cells are already all recorded or the cell was recorded
    /// before; records the result and returns `true` otherwise.
    pub fn record_resolved(&mut self, geocode: Vec<u8>, dataset: Dataset) -> (r: bool)
        requires
            spec_ledger_wf(old(self)@),
        ensures
            spec_ledger_wf(final(self)@),
            r == (spec_ledger_recorded(old(self)@) < old(self)@.expected && !spec_ledger_keys(
                old(self)@,
            ).contains(geocode@)),
            r ==> final(self)@ == (LedgerModel {
                expected: old(self)@.expected,
                resolved: old(self)@.resolved.push(
                    CellResultModel { geocode: geocode@, dataset: dataset@ },
                ),
                unavailable: old(self)@.unavailable,
            }),
            !r ==> final(self)@ == old(self)@,
    {
        proof {
            assert(self@.resolved.len() == self.resolved@.len());
            assert(self@.unavailable.len() == self.unavailable@.len());
        }
        let full: bool = self.resolved.len() >= self.expected - self.unavailable.len();
        if full || self.has_recorded(&geocode) {
            return false;
        }
        let ghost m0: LedgerModel = self@;
        let cell = CellResult { geocode, dataset };
        let ghost cm: CellResultModel = cell@;
        self.resolved.push(cell);
        proof {
            assert(self@.resolved =~= m0.resolved.push(cm));
            assert(self@.unavailable =~= m0.unavailable);
            assert(spec_ledger_keys(self@) =~= spec_ledger_keys(m0).insert(
                m0.resolved.len() as int,
                cm.geocode,
            ));
            lemma_keys_insert_distinct(spec_ledger_keys(m0), m0.resolved.len() as int, cm.geocode);
        }
        true
    }

    /// Record a cell with no qualifying source. Returns `false`, changing
    /// nothing, when the run's cells are already all recorded or the cell
    /// was recorded before; records it and returns `true` otherwise.
    pub fn record_unavailable(&mut self, geocode: Vec<u8>) -> (r: bool)
        requires
            spec_ledger_wf(old(self)@),
        ensures
            spec_ledger_wf(final(self)@),
            r == (spec_ledger_recorded(old(self)@) < old(self)@.expected && !spec_ledger_keys(
                old(self)@,
            ).contains(geocode@)),
            r ==> final(self)@ == (LedgerModel {
                expected: old(self)@.expected,
                resolved: old(self)@.resolved,
                unavailable: old(self)@.unavailable.push(geocode@),
            }),
            !r ==> final(self)@ == old(self)@,
    {
        proof {
            assert(self@.resolved.len() == self.resolved@.len());
            assert(self@.unavailable.len() == self.unavailable@.len());
        }
        let full: bool = self.resolved.len() >= self.expected - self.unavailable.len();
        if full || self.has_recorded(&geocode) {
            return false;
        }
        let ghost m0: LedgerModel = self@;
        let ghost g: Seq<u8> = geocode@;
        self.unavailable.push(geocode);
        proof {
            assert(self@.resolved =~= m0.resolved);
            assert(self@.unavailable =~~= m0.unavailable.push(g));
            assert(spec_ledger_keys(self@) =~= spec_ledger_keys(m0).insert(
                spec_ledger_keys(m0).len() as int,
                g,
            ));
            lemma_keys_insert_distinct(spec_ledger_keys(m0), spec_ledger_keys(m0).len() as int, g);
        }
        true
    }

    /// Whether every queued cell has been recorded.
    pub fn is_complete(&self) -> (r: bool)
        requires
            spec_ledger_wf(self@),
        ensures
            r == (spec_ledger_recorded(self@) == self@.expected),
    {
        proof {
            assert(self@.resolved.len() == self.resolved@.len());
            assert(self@.unavailable.len() == self.unavailable@.len());
        }
        self.resolved.len() == self.expected - self.unavailable.len()
    }

    /// Hand the resolved cells over for assembly, in completion order.
    pub fn into_results(self) -> (r: Vec<CellResult>)
        ensures
            r.deep_view() == self@.resolved,
    {
        self.resolved
    }
}

/// After a complete run, the result collection holds exactly one dataset
/// for every cell that resolved, the unavailable cells account for the
/// rest, and no cell was recorded twice: nothing is duplicated and
/// nothing is silently dropped.
pub proof fn lemma_ledger_accounts_for_all(m: LedgerModel)
    requires
        spec_ledger_wf(m),
        spec_ledger_recorded(m) == m.expected,
    ensures
        m.resolved.len() + m.unavailable.len() == m.expected,
        forall|i: int, j: int| 0 <= i < j < spec_ledger_keys(m).len() ==> spec_ledger_keys(m)[i]
            != spec_ledger_keys(m)[j],
{
}

} // verus!
