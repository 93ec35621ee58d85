//! The batch temporal join.
//!
//! Both imagery streams are sorted ascending by `(geocode, timestamp)`.
//! For every secondary record, the join emits the three most recent
//! primary records of the same geocode taken at or before the secondary
//! timestamp and within a fifteen-day trailing horizon — or nothing, when
//! fewer than three qualify. The implementation is a two-pointer merge:
//! both indices into the primary stream only ever advance, so the join is
//! linear in the lengths of the two streams.

use vstd::prelude::*;

use crate::catalog::{Image, ImageModel, PRIMARY_FILE_COUNT, SECONDARY_FILE_COUNT, clone_bytes};
use crate::order::{key_le, key_lt, lemma_key_trans, lemma_lex_props, spec_sorted_by_key};
use crate::order::{key_le_exec, key_lt_exec};
use crate::tile::spec_stitch_paths;
use crate::wire::{CompositeRequest, CompositeRequestModel};

verus! {

/// Length, in seconds, of the trailing horizon a composite may reach
/// back over.
pub const JOIN_HORIZON_SECONDS: i64 = 15 * 86400;

/// Number of primary records a pairing carries.
pub const JOIN_PRIMARY_COUNT: usize = 3;

/// One pairing the join emits: the most recent qualifying primary
/// records, most recent first, and the secondary record they serve.
pub struct ImagePair {
    /// The paired primary records, most recent first.
    pub primaries: Vec<Image>,
    /// The secondary record.
    pub secondary: Image,
}

/// The mathematical model of an `ImagePair`.
pub struct PairModel {
    /// Models of `ImagePair::primaries`, in order.
    pub primaries: Seq<ImageModel>,
    /// Model of `ImagePair::secondary`.
    pub secondary: ImageModel,
}

impl View for ImagePair {
    type V = PairModel;

    open spec fn view(&self) -> PairModel {
        PairModel { primaries: self.primaries.deep_view(), secondary: self.secondary@ }
    }
}

impl DeepView for ImagePair {
    type V = PairModel;

    open spec fn deep_view(&self) -> PairModel {
        self@
    }
}

/// How many records' keys are weakly below `(g, t)`.
pub open spec fn spec_count_le(p: Seq<ImageModel>, g: Seq<u8>, t: int) -> nat
    decreases p.len(),
{
    if p.len() == 0 {
        0
    } else {
        spec_count_le(p.drop_last(), g, t) + if key_le(p.last().geocode, p.last().timestamp as int, g, t) {
            1nat
        } else {
            0nat
        }
    }
}

/// How many records' keys are strictly below `(g, t)`.
pub open spec fn spec_count_lt(p: Seq<ImageModel>, g: Seq<u8>, t: int) -> nat
    decreases p.len(),
{
    if p.len() == 0 {
        0
    } else {
        spec_count_lt(p.drop_last(), g, t) + if key_lt(p.last().geocode, p.last().timestamp as int, g, t) {
            1nat
        } else {
            0nat
        }
    }
}

/// What the join emits for one secondary record: the three primary
/// records just below the window's top, when at least three lie inside
/// the window.
pub open spec fn spec_join_emit(p: Seq<ImageModel>, s: ImageModel) -> Option<PairModel> {
    let a = spec_count_le(p, s.geocode, s.timestamp as int) as int;
    let b = spec_count_lt(p, s.geocode, s.timestamp - JOIN_HORIZON_SECONDS) as int;
    if a - b >= JOIN_PRIMARY_COUNT {
        Some(PairModel { primaries: seq![p[a - 1], p[a - 2], p[a - 3]], secondary: s })
    } else {
        None
    }
}

/// What the join emits over a whole secondary stream, in stream order.
pub open spec fn spec_temporal_join(p: Seq<ImageModel>, ss: Seq<ImageModel>) -> Seq<PairModel>
    decreases ss.len(),
{
    if ss.len() == 0 {
        Seq::empty()
    } else {
        spec_temporal_join(p, ss.drop_last()) + match spec_join_emit(p, ss.last()) {
            Some(pair) => seq![pair],
            None => Seq::empty(),
        }
    }
}

/// Whether a primary record qualifies for a secondary record: the same
/// geocode, taken at or before the secondary timestamp, and within the
/// trailing horizon.
pub open spec fn spec_qualifies(im: ImageModel, s: ImageModel) -> bool {
    &&& im.geocode == s.geocode
    &&& s.timestamp - JOIN_HORIZON_SECONDS <= im.timestamp <= s.timestamp
}

/// Dropping the last record keeps a stream sorted.
proof fn lemma_sorted_drop_last(s: Seq<ImageModel>)
    requires
        spec_sorted_by_key(s),
        s.len() > 0,
    ensures
        spec_sorted_by_key(s.drop_last()),
{
    assert(forall|i: int| 0 <= i < s.len() - 1 ==> #[trigger] s.drop_last()[i] == s[i]);
}

/// In a sorted stream, the records weakly below a key are exactly a
/// prefix, whose length the count gives.
pub proof fn lemma_count_le_props(p: Seq<ImageModel>, g: Seq<u8>, t: int)
    requires
        spec_sorted_by_key(p),
    ensures
        spec_count_le(p, g, t) <= p.len(),
        forall|i: int| 0 <= i < spec_count_le(p, g, t) ==> key_le(
            (#[trigger] p[i]).geocode,
            p[i].timestamp as int,
            g,
            t,
        ),
        forall|i: int| spec_count_le(p, g, t) <= i < p.len() ==> !key_le(
            (#[trigger] p[i]).geocode,
            p[i].timestamp as int,
            g,
            t,
        ),
    decreases p.len(),
{
    if p.len() > 0 {
        lemma_sorted_drop_last(p);
        lemma_count_le_props(p.drop_last(), g, t);
        let c = spec_count_le(p.drop_last(), g, t) as int;
        let li = p.len() - 1;
        if key_le(p[li].geocode, p[li].timestamp as int, g, t) {
            if c < li {
                assert(p.drop_last()[c] == p[c]);
                assert(!key_le(p[c].geocode, p[c].timestamp as int, g, t));
                assert(key_le(p[c].geocode, p[c].timestamp as int, p[li].geocode, p[li].timestamp as int));
                lemma_key_trans(
                    p[c].geocode,
                    p[c].timestamp as int,
                    p[li].geocode,
                    p[li].timestamp as int,
                    g,
                    t,
                );
                assert(false);
            }
        }
        assert forall|i: int| 0 <= i < spec_count_le(p, g, t) implies key_le(
            (#[trigger] p[i]).geocode,
            p[i].timestamp as int,
            g,
            t,
        ) by {
            if i < c {
                assert(p.drop_last()[i] == p[i]);
            }
        }
        assert forall|i: int| spec_count_le(p, g, t) <= i < p.len() implies !key_le(
            (#[trigger] p[i]).geocode,
            p[i].timestamp as int,
            g,
            t,
        ) by {
            if i < li {
                assert(p.drop_last()[i] == p[i]);
            }
        }
    }
}

/// In a sorted stream, the records strictly below a key are exactly a
/// prefix, whose length the count gives.
pub proof fn lemma_count_lt_props(p: Seq<ImageModel>, g: Seq<u8>, t: int)
    requires
        spec_sorted_by_key(p),
    ensures
        spec_count_lt(p, g, t) <= p.len(),
        forall|i: int| 0 <= i < spec_count_lt(p, g, t) ==> key_lt(
            (#[trigger] p[i]).geocode,
            p[i].timestamp as int,
            g,
            t,
        ),
        forall|i: int| spec_count_lt(p, g, t) <= i < p.len() ==> !key_lt(
            (#[trigger] p[i]).geocode,
            p[i].timestamp as int,
            g,
            t,
        ),
    decreases p.len(),
{
    if p.len() > 0 {
        lemma_sorted_drop_last(p);
        lemma_count_lt_props(p.drop_last(), g, t);
        let c = spec_count_lt(p.drop_last(), g, t) as int;
        let li = p.len() - 1;
        if key_lt(p[li].geocode, p[li].timestamp as int, g, t) {
            if c < li {
                assert(p.drop_last()[c] == p[c]);
                assert(!key_lt(p[c].geocode, p[c].timestamp as int, g, t));
                assert(key_le(p[c].geocode, p[c].timestamp as int, p[li].geocode, p[li].timestamp as int));
                lemma_key_trans(
                    p[c].geocode,
                    p[c].timestamp as int,
                    p[li].geocode,
                    p[li].timestamp as int,
                    g,
                    t,
                );
                assert(false);
            }
        }
        assert forall|i: int| 0 <= i < spec_count_lt(p, g, t) implies key_lt(
            (#[trigger] p[i]).geocode,
            p[i].timestamp as int,
            g,
            t,
        ) by {
            if i < c {
                assert(p.drop_last()[i] == p[i]);
            }
        }
        assert forall|i: int| spec_count_lt(p, g, t) <= i < p.len() implies !key_lt(
            (#[trigger] p[i]).geocode,
            p[i].timestamp as int,
            g,
            t,
        ) by {
            if i < li {
                assert(p.drop_last()[i] == p[i]);
            }
        }
    }
}

/// A boundary that an advancing index reaches in a sorted stream is the
/// weak count: everything before it is weakly below the key, and the
/// record at it, if any, is not.
pub proof fn lemma_count_le_boundary(p: Seq<ImageModel>, g: Seq<u8>, t: int, a: int)
    requires
        spec_sorted_by_key(p),
        0 <= a <= p.len(),
        forall|i: int| 0 <= i < a ==> key_le((#[trigger] p[i]).geocode, p[i].timestamp as int, g, t),
        a < p.len() ==> !key_le(p[a].geocode, p[a].timestamp as int, g, t),
    ensures
        spec_count_le(p, g, t) == a,
{
    lemma_count_le_props(p, g, t);
    let c = spec_count_le(p, g, t) as int;
    if c < a {
        assert(key_le(p[c].geocode, p[c].timestamp as int, g, t));
        assert(false);
    }
    if c > a {
        assert(key_le(p[a].geocode, p[a].timestamp as int, g, t));
        assert(false);
    }
}

/// A boundary that an advancing index reaches in a sorted stream is the
/// strict count: everything before it is strictly below the key, and the
/// record at it, if any, is not.
pub proof fn lemma_count_lt_boundary(p: Seq<ImageModel>, g: Seq<u8>, t: int, b: int)
    requires
        spec_sorted_by_key(p),
        0 <= b <= p.len(),
        forall|i: int| 0 <= i < b ==> key_lt((#[trigger] p[i]).geocode, p[i].timestamp as int, g, t),
        b < p.len() ==> !key_lt(p[b].geocode, p[b].timestamp as int, g, t),
    ensures
        spec_count_lt(p, g, t) == b,
{
    lemma_count_lt_props(p, g, t);
    let c = spec_count_lt(p, g, t) as int;
    if c < b {
        assert(key_lt(p[c].geocode, p[c].timestamp as int, g, t));
        assert(false);
    }
    if c > b {
        assert(key_lt(p[b].geocode, p[b].timestamp as int, g, t));
        assert(false);
    }
}

/// The records that qualify for a secondary record are exactly those
/// between the strict count of the window's start and the weak count of
/// its end.
pub proof fn lemma_qualifies_range(p: Seq<ImageModel>, s: ImageModel)
    requires
        spec_sorted_by_key(p),
    ensures
        forall|i: int| 0 <= i < p.len() ==> (spec_qualifies(#[trigger] p[i], s) <==> (
        spec_count_lt(p, s.geocode, s.timestamp - JOIN_HORIZON_SECONDS) <= i < spec_count_le(
            p,
            s.geocode,
            s.timestamp as int,
        ))),
{
    let a = spec_count_le(p, s.geocode, s.timestamp as int) as int;
    let b = spec_count_lt(p, s.geocode, s.timestamp - JOIN_HORIZON_SECONDS) as int;
    lemma_count_le_props(p, s.geocode, s.timestamp as int);
    lemma_count_lt_props(p, s.geocode, s.timestamp - JOIN_HORIZON_SECONDS);
    lemma_lex_props(s.geocode, s.geocode);
    assert forall|i: int| 0 <= i < p.len() implies (spec_qualifies(#[trigger] p[i], s) <==> (b <= i
        < a)) by {
        lemma_lex_props(p[i].geocode, s.geocode);
        if spec_qualifies(p[i], s) {
            assert(key_le(p[i].geocode, p[i].timestamp as int, s.geocode, s.timestamp as int));
            assert(!key_lt(p[i].geocode, p[i].timestamp as int, s.geocode, s.timestamp - JOIN_HORIZON_SECONDS));
        }
        if b <= i < a {
            assert(key_le(p[i].geocode, p[i].timestamp as int, s.geocode, s.timestamp as int));
            assert(!key_lt(p[i].geocode, p[i].timestamp as int, s.geocode, s.timestamp - JOIN_HORIZON_SECONDS));
        }
    }
}

/// Soundness of one emission: the pairing carries the secondary record
/// itself and three qualifying primary records in descending timestamp
/// order, none more recent than the first; when nothing is emitted,
/// fewer than three records qualify.
pub proof fn lemma_join_emit_sound(p: Seq<ImageModel>, s: ImageModel)
    requires
        spec_sorted_by_key(p),
    ensures
        match spec_join_emit(p, s) {
            Some(pair) => {
                &&& pair.secondary == s
                &&& pair.primaries.len() == JOIN_PRIMARY_COUNT
                &&& forall|q: int| 0 <= q < pair.primaries.len() ==> spec_qualifies(
                    #[trigger] pair.primaries[q],
                    s,
                )
                &&& pair.primaries[0].timestamp >= pair.primaries[1].timestamp
                    >= pair.primaries[2].timestamp
                &&& forall|i: int| 0 <= i < p.len() && spec_qualifies(#[trigger] p[i], s) ==> p[i].timestamp
                    <= pair.primaries[0].timestamp
            },
            None => forall|i1: int, i2: int, i3: int|
                0 <= i1 < i2 < i3 < p.len() && spec_qualifies(#[trigger] p[i1], s) && spec_qualifies(
                    #[trigger] p[i2],
                    s,
                ) ==> !spec_qualifies(#[trigger] p[i3], s),
        },
{
    let a = spec_count_le(p, s.geocode, s.timestamp as int) as int;
    let b = spec_count_lt(p, s.geocode, s.timestamp - JOIN_HORIZON_SECONDS) as int;
    lemma_count_le_props(p, s.geocode, s.timestamp as int);
    lemma_count_lt_props(p, s.geocode, s.timestamp - JOIN_HORIZON_SECONDS);
    lemma_qualifies_range(p, s);
    match spec_join_emit(p, s) {
        Some(pair) => {
            assert(spec_qualifies(p[a - 1], s));
            assert(spec_qualifies(p[a - 2], s));
            assert(spec_qualifies(p[a - 3], s));
            assert(key_le(p[a - 2].geocode, p[a - 2].timestamp as int, p[a - 1].geocode, p[a - 1].timestamp as int));
            assert(key_le(p[a - 3].geocode, p[a - 3].timestamp as int, p[a - 2].geocode, p[a - 2].timestamp as int));
            lemma_lex_props(s.geocode, s.geocode);
            assert forall|i: int| 0 <= i < p.len() && spec_qualifies(#[trigger] p[i], s) implies p[i].timestamp
                <= pair.primaries[0].timestamp by {
                if i < a - 1 {
                    assert(key_le(p[i].geocode, p[i].timestamp as int, p[a - 1].geocode, p[a - 1].timestamp as int));
                    lemma_lex_props(p[i].geocode, p[a - 1].geocode);
                }
            }
        },
        None => {
            assert forall|i1: int, i2: int, i3: int|
                0 <= i1 < i2 < i3 < p.len() && spec_qualifies(#[trigger] p[i1], s) && spec_qualifies(
                    #[trigger] p[i2],
                    s,
                ) implies !spec_qualifies(#[trigger] p[i3], s) by {
                if spec_qualifies(p[i3], s) {
                    assert(b <= i1 && i3 < a);
                    assert(a - b >= 3);
                    assert(false);
                }
            }
        },
    }
}

/// Soundness of the whole join: every emitted pairing pairs a record of
/// the secondary stream with three qualifying primary records, most
/// recent first.
pub proof fn lemma_temporal_join_sound(p: Seq<ImageModel>, ss: Seq<ImageModel>, k: int)
    requires
        spec_sorted_by_key(p),
        0 <= k < spec_temporal_join(p, ss).len(),
    ensures
        ({
            let pair = spec_temporal_join(p, ss)[k];
            &&& exists|j: int| 0 <= j < ss.len() && pair.secondary == #[trigger] ss[j]
            &&& pair.primaries.len() == JOIN_PRIMARY_COUNT
            &&& forall|q: int| 0 <= q < pair.primaries.len() ==> spec_qualifies(
                #[trigger] pair.primaries[q],
                pair.secondary,
            )
            &&& pair.primaries[0].timestamp >= pair.primaries[1].timestamp
                >= pair.primaries[2].timestamp
            &&& forall|i: int| 0 <= i < p.len() && spec_qualifies(#[trigger] p[i], pair.secondary)
                ==> p[i].timestamp <= pair.primaries[0].timestamp
        }),
    decreases ss.len(),
{
    if ss.len() > 0 {
        let prefix = spec_temporal_join(p, ss.drop_last());
        if k < prefix.len() {
            lemma_temporal_join_sound(p, ss.drop_last(), k);
            assert(forall|j: int| 0 <= j < ss.len() - 1 ==> #[trigger] ss.drop_last()[j] == ss[j]);
            let pair = spec_temporal_join(p, ss)[k];
            assert(pair == prefix[k]);
            let j0 = choose|j: int| 0 <= j < ss.drop_last().len() && prefix[k].secondary
                == #[trigger] ss.drop_last()[j];
            assert(pair.secondary == ss[j0]);
        } else {
            lemma_join_emit_sound(p, ss.last());
            match spec_join_emit(p, ss.last()) {
                Some(pair) => {
                    assert(spec_temporal_join(p, ss)[k] == pair);
                    assert(pair.secondary == ss[ss.len() - 1]);
                },
                None => {
                    assert(false);
                },
            }
        }
    }
}

/// Join two sorted streams: for every secondary record, emit the three
/// most recent primary records of the same geocode within the trailing
/// horizon ending at its timestamp, or nothing when fewer than three
/// qualify. Runs in one pass: both indices into the primary stream only
/// advance.
pub fn temporal_join(primary: &Vec<Image>, secondary: &Vec<Image>) -> (r: Vec<ImagePair>)
    requires
        spec_sorted_by_key(primary.deep_view()),
        spec_sorted_by_key(secondary.deep_view()),
    ensures
        r.deep_view() == spec_temporal_join(primary.deep_view(), secondary.deep_view()),
{
    let ghost pdv: Seq<ImageModel> = primary.deep_view();
    let ghost sdv: Seq<ImageModel> = secondary.deep_view();
    let mut out: Vec<ImagePair> = Vec::new();
    let mut a: usize = 0;
    let mut b: usize = 0;
    let mut j: usize = 0;
    proof {
        assert(out.deep_view() =~= spec_temporal_join(pdv, sdv.take(0)));
    }
    while j < secondary.len()
        invariant
            spec_sorted_by_key(pdv),
            spec_sorted_by_key(sdv),
            pdv == primary.deep_view(),
            sdv == secondary.deep_view(),
            pdv.len() == primary@.len(),
            sdv.len() == secondary@.len(),
            0 <= j <= sdv.len(),
            a <= primary@.len(),
            b <= primary@.len(),
            j == 0 ==> a == 0 && b == 0,
            j > 0 ==> forall|i: int| 0 <= i < a ==> key_le(
                (#[trigger] pdv[i]).geocode,
                pdv[i].timestamp as int,
                sdv[j - 1].geocode,
                sdv[j - 1].timestamp as int,
            ),
            j > 0 ==> forall|i: int| 0 <= i < b ==> key_lt(
                (#[trigger] pdv[i]).geocode,
                pdv[i].timestamp as int,
                sdv[j - 1].geocode,
                sdv[j - 1].timestamp - JOIN_HORIZON_SECONDS,
            ),
            out.deep_view() == spec_temporal_join(pdv, sdv.take(j as int)),
        decreases sdv.len() - j,
    {
        proof {
            assert(sdv[j as int] == secondary@[j as int]@);
            if j > 0 {
                assert(key_le(
                    sdv[j - 1].geocode,
                    sdv[j - 1].timestamp as int,
                    sdv[j as int].geocode,
                    sdv[j as int].timestamp as int,
                ));
                assert forall|i: int| 0 <= i < a implies key_le(
                    (#[trigger] pdv[i]).geocode,
                    pdv[i].timestamp as int,
                    sdv[j as int].geocode,
                    sdv[j as int].timestamp as int,
                ) by {
                    lemma_key_trans(
                        pdv[i].geocode,
                        pdv[i].timestamp as int,
                        sdv[j - 1].geocode,
                        sdv[j - 1].timestamp as int,
                        sdv[j as int].geocode,
                        sdv[j as int].timestamp as int,
                    );
                }
                assert(key_le(
                    sdv[j - 1].geocode,
                    sdv[j - 1].timestamp - JOIN_HORIZON_SECONDS,
                    sdv[j as int].geocode,
                    sdv[j as int].timestamp - JOIN_HORIZON_SECONDS,
                ));
                assert forall|i: int| 0 <= i < b implies key_lt(
                    (#[trigger] pdv[i]).geocode,
                    pdv[i].timestamp as int,
                    sdv[j as int].geocode,
                    sdv[j as int].timestamp - JOIN_HORIZON_SECONDS,
                ) by {
                    lemma_key_trans(
                        pdv[i].geocode,
                        pdv[i].timestamp as int,
                        sdv[j - 1].geocode,
                        sdv[j - 1].timestamp - JOIN_HORIZON_SECONDS,
                        sdv[j as int].geocode,
                        sdv[j as int].timestamp - JOIN_HORIZON_SECONDS,
                    );
                }
            }
        }
        let st: i64 = secondary[j].timestamp;
        while a < primary.len() && key_le_exec(&primary[a], &secondary[j].geocode, st as i128)
            invariant
                pdv == primary.deep_view(),
                sdv == secondary.deep_view(),
                pdv.len() == primary@.len(),
                sdv.len() == secondary@.len(),
                0 <= j < sdv.len(),
                sdv[j as int] == secondary@[j as int]@,
                st == sdv[j as int].timestamp,
                a <= primary@.len(),
                forall|i: int| 0 <= i < a ==> key_le(
                    (#[trigger] pdv[i]).geocode,
                    pdv[i].timestamp as int,
                    sdv[j as int].geocode,
                    sdv[j as int].timestamp as int,
                ),
            decreases primary@.len() - a,
        {
            proof {
                assert(pdv[a as int] == primary@[a as int]@);
            }
            a = a + 1;
        }
        while b < primary.len() && key_lt_exec(
            &primary[b],
            &secondary[j].geocode,
            st as i128 - JOIN_HORIZON_SECONDS as i128,
        )
            invariant
                pdv == primary.deep_view(),
                sdv == secondary.deep_view(),
                pdv.len() == primary@.len(),
                sdv.len() == secondary@.len(),
                0 <= j < sdv.len(),
                sdv[j as int] == secondary@[j as int]@,
                st == sdv[j as int].timestamp,
                b <= primary@.len(),
                forall|i: int| 0 <= i < b ==> key_lt(
                    (#[trigger] pdv[i]).geocode,
                    pdv[i].timestamp as int,
                    sdv[j as int].geocode,
                    sdv[j as int].timestamp - JOIN_HORIZON_SECONDS,
                ),
            decreases primary@.len() - b,
        {
            proof {
                assert(pdv[b as int] == primary@[b as int]@);
            }
            b = b + 1;
        }
        proof {
            if a < primary@.len() {
                assert(pdv[a as int] == primary@[a as int]@);
            }
            if b < primary@.len() {
                assert(pdv[b as int] == primary@[b as int]@);
            }
            lemma_count_le_boundary(pdv, sdv[j as int].geocode, sdv[j as int].timestamp as int, a as int);
            lemma_count_lt_boundary(
                pdv,
                sdv[j as int].geocode,
                sdv[j as int].timestamp - JOIN_HORIZON_SECONDS,
                b as int,
            );
            assert(sdv.take((j + 1) as int).drop_last() =~= sdv.take(j as int));
            assert(sdv.take((j + 1) as int).last() == sdv[j as int]);
        }
        if a >= JOIN_PRIMARY_COUNT && b <= a - JOIN_PRIMARY_COUNT {
            proof {
                assert(pdv[a - 1] == primary@[a - 1]@);
                assert(pdv[a - 2] == primary@[a - 2]@);
                assert(pdv[a - 3] == primary@[a - 3]@);
            }
            let mut primaries: Vec<Image> = Vec::new();
            primaries.push(primary[a - 1].clone_image());
            primaries.push(primary[a - 2].clone_image());
            primaries.push(primary[a - 3].clone_image());
            let pair = ImagePair { primaries, secondary: secondary[j].clone_image() };
            proof {
                assert(pair@.primaries =~= seq![pdv[a - 1], pdv[a - 2], pdv[a - 3]]);
                assert(pair@ == spec_join_emit(pdv, sdv[j as int])->Some_0);
            }
            out.push(pair);
            proof {
                assert(out.deep_view() =~= spec_temporal_join(pdv, sdv.take((j + 1) as int)));
            }
        } else {
            proof {
                assert(spec_join_emit(pdv, sdv[j as int]) is None);
                assert(out.deep_view() =~= spec_temporal_join(pdv, sdv.take((j + 1) as int)));
            }
        }
        j = j + 1;
    }
    proof {
        assert(sdv.take(sdv.len() as int) =~= sdv);
    }
    out
}

/// Whether a pairing can be turned into a composite fetch: complete file
/// signatures on every record.
pub open spec fn spec_pair_encodable(pm: PairModel) -> bool {
    &&& forall|i: int| 0 <= i < pm.primaries.len() ==> (#[trigger] pm.primaries[i].files.len())
        == PRIMARY_FILE_COUNT
    &&& pm.secondary.files.len() == SECONDARY_FILE_COUNT
}

/// The composite fetch of a pairing: keyed by the secondary record's
/// geocode and timestamp, carrying the primary records' last files and
/// the secondary record's second file.
pub open spec fn spec_pair_request(pm: PairModel) -> CompositeRequestModel {
    CompositeRequestModel {
        geocode: pm.secondary.geocode,
        timestamp: pm.secondary.timestamp,
        primary_paths: spec_stitch_paths(pm.primaries),
        secondary_path: pm.secondary.files[SECONDARY_FILE_COUNT - 1].path,
    }
}

/// A copy of a pairing whose model equals the original's.
pub fn clone_pair(p: &ImagePair) -> (r: ImagePair)
    ensures
        r@ == p@,
{
    let mut primaries: Vec<Image> = Vec::new();
    let mut i: usize = 0;
    while i < p.primaries.len()
        invariant
            0 <= i <= p.primaries@.len(),
            primaries.deep_view() =~= p.primaries.deep_view().take(i as int),
        decreases p.primaries@.len() - i,
    {
        proof {
            assert(p.primaries.deep_view()[i as int] == p.primaries@[i as int]@);
            assert(primaries.deep_view().len() == i);
        }
        primaries.push(p.primaries[i].clone_image());
        proof {
            assert(primaries.deep_view() =~= p.primaries.deep_view().take((i + 1) as int));
        }
        i = i + 1;
    }
    proof {
        assert(primaries.deep_view() =~= p.primaries.deep_view());
    }
    ImagePair { primaries, secondary: p.secondary.clone_image() }
}

/// Turn a pairing into the composite fetch that requests its synthesis,
/// or `None` when a record misses its platform's file signature.
pub fn composite_of_pair(pair: &ImagePair) -> (r: Option<CompositeRequest>)
    ensures
        match r {
            Some(c) => spec_pair_encodable(pair@) && c@ == spec_pair_request(pair@),
            None => !spec_pair_encodable(pair@),
        },
{
    proof {
        assert(pair@.secondary.files.len() == pair.secondary.files@.len());
    }
    if pair.secondary.files.len() != SECONDARY_FILE_COUNT {
        return None;
    }
    let mut paths: Vec<Vec<u8>> = Vec::new();
    let mut k: usize = 0;
    while k < pair.primaries.len()
        invariant
            0 <= k <= pair.primaries@.len(),
            pair.primaries.deep_view().len() == pair.primaries@.len(),
            forall|i: int| 0 <= i < k ==> (#[trigger] pair.primaries.deep_view()[i].files.len())
                == PRIMARY_FILE_COUNT,
            paths@.len() == k,
            forall|j: int| 0 <= j < k ==> (#[trigger] paths@[j]@) == pair.primaries.deep_view()[
                j
            ].files[PRIMARY_FILE_COUNT - 1].path,
        decreases pair.primaries@.len() - k,
    {
        proof {
            assert(pair.primaries.deep_view()[k as int] == pair.primaries@[k as int]@);
            assert(pair.primaries.deep_view()[k as int].files.len() == pair.primaries@[
                k as int
            ].files@.len());
        }
        if pair.primaries[k].files.len() != PRIMARY_FILE_COUNT {
            proof {
                assert(!spec_pair_encodable(pair@)) by {
                    assert(0 <= k < pair@.primaries.len());
                    assert(pair@.primaries[k as int].files.len() != PRIMARY_FILE_COUNT);
                }
            }
            return None;
        }
        let path = clone_bytes(&pair.primaries[k].files[PRIMARY_FILE_COUNT - 1].path);
        proof {
            assert(pair.primaries.deep_view()[k as int].files[PRIMARY_FILE_COUNT - 1]
                == pair.primaries@[k as int].files@[PRIMARY_FILE_COUNT - 1]@);
            assert(path@ == pair.primaries.deep_view()[k as int].files[PRIMARY_FILE_COUNT - 1].path);
        }
        paths.push(path);
        k = k + 1;
    }
    proof {
        assert(paths.deep_view() =~~= spec_stitch_paths(pair.primaries.deep_view())) by {
            assert(forall|j: int| 0 <= j < paths@.len() ==> (#[trigger] paths.deep_view()[j])
                =~= paths@[j]@);
        }
    }
    let c = CompositeRequest {
        geocode: clone_bytes(&pair.secondary.geocode),
        timestamp: pair.secondary.timestamp,
        primary_paths: paths,
        secondary_path: clone_bytes(&pair.secondary.files[SECONDARY_FILE_COUNT - 1].path),
    };
    proof {
        assert(pair@.secondary.files[SECONDARY_FILE_COUNT - 1].path == pair.secondary.files@[
            SECONDARY_FILE_COUNT - 1
        ].path@);
        assert(c@ =~~= spec_pair_request(pair@));
    }
    Some(c)
}

/// Chunk `i` of a stream cut into batches of `bs`: all batches are full,
/// except possibly the last.
pub open spec fn spec_chunk_at(pairs: Seq<PairModel>, bs: int, i: int) -> Seq<PairModel> {
    let lo = i * bs;
    let hi = if (i + 1) * bs <= pairs.len() {
        (i + 1) * bs
    } else {
        pairs.len() as int
    };
    pairs.subrange(lo, hi)
}

/// How many batches a stream of `len` pairings cuts into.
pub open spec fn spec_chunk_count(len: int, bs: int) -> int {
    (len + bs - 1) / bs
}

/// Cut the pairings into batches of `batch_size`, in order: every batch
/// is full except possibly the last, which holds the remainder.
pub fn chunk_pairs(pairs: &Vec<ImagePair>, batch_size: usize) -> (r: Vec<Vec<ImagePair>>)
    requires
        batch_size >= 1,
    ensures
        r.deep_view().len() == spec_chunk_count(pairs.deep_view().len() as int, batch_size as int),
        forall|i: int| 0 <= i < r.deep_view().len() ==> #[trigger] r.deep_view()[i] == spec_chunk_at(
            pairs.deep_view(),
            batch_size as int,
            i,
        ),
{
    let ghost pdv: Seq<PairModel> = pairs.deep_view();
    let ghost bs: int = batch_size as int;
    let mut r: Vec<Vec<ImagePair>> = Vec::new();
    let mut start: usize = 0;
    proof {
        assert(pdv.len() == pairs@.len());
        assert(r.deep_view().len() == 0);
    }
    while start < pairs.len()
        invariant
            batch_size >= 1,
            bs == batch_size as int,
            pdv == pairs.deep_view(),
            pdv.len() == pairs@.len(),
            0 <= start <= pairs@.len(),
            start < pairs@.len() ==> start as int == r.deep_view().len() * bs,
            start == pairs@.len() ==> ((r.deep_view().len() == 0 && pdv.len() == 0) || ((
            r.deep_view().len() - 1) * bs < pdv.len() <= r.deep_view().len() * bs)),
            forall|i: int| 0 <= i < r.deep_view().len() ==> #[trigger] r.deep_view()[i]
                == spec_chunk_at(pdv, bs, i),
        decreases pairs@.len() - start,
    {
        let ghost count: int = r.deep_view().len() as int;
        let end: usize = if pairs.len() - start > batch_size {
            start + batch_size
        } else {
            pairs.len()
        };
        let mut chunk: Vec<ImagePair> = Vec::new();
        let mut k: usize = start;
        proof {
            assert(chunk.deep_view() =~= pdv.subrange(start as int, start as int));
        }
        while k < end
            invariant
                pdv == pairs.deep_view(),
                pdv.len() == pairs@.len(),
                0 <= start <= k <= end <= pairs@.len(),
                chunk.deep_view() == pdv.subrange(start as int, k as int),
            decreases end - k,
        {
            proof {
                assert(pdv[k as int] == pairs@[k as int]@);
                assert(chunk.deep_view().len() == k - start);
            }
            chunk.push(clone_pair(&pairs[k]));
            proof {
                assert(chunk.deep_view() =~= pdv.subrange(start as int, (k + 1) as int));
            }
            k = k + 1;
        }
        let ghost chunk_model: Seq<PairModel> = chunk.deep_view();
        let ghost r0: Seq<Seq<PairModel>> = r.deep_view();
        r.push(chunk);
        proof {
            assert((count + 1) * bs == count * bs + bs) by (nonlinear_arith);
            assert(r.deep_view().len() == count + 1);
            assert(r.deep_view()[count] == chunk_model);
            assert(chunk_model == spec_chunk_at(pdv, bs, count)) by {
                assert(end as int == if (count + 1) * bs <= pdv.len() {
                    (count + 1) * bs
                } else {
                    pdv.len() as int
                });
            }
            assert(forall|i: int| 0 <= i < count ==> #[trigger] r.deep_view()[i] == r0[i]);
        }
        start = end;
    }
    proof {
        let count = r.deep_view().len() as int;
        let len = pdv.len() as int;
        if count == 0 {
            assert(len == 0);
            vstd::arithmetic::div_mod::lemma_fundamental_div_mod_converse(len + bs - 1, bs, 0, bs - 1);
        } else {
            assert((count - 1) * bs < len <= count * bs);
            assert((count - 1) * bs == count * bs - bs) by (nonlinear_arith);
            assert(len + bs - 1 == count * bs + (len + bs - 1 - count * bs));
            vstd::arithmetic::div_mod::lemma_fundamental_div_mod_converse(
                len + bs - 1,
                bs,
                count,
                len + bs - 1 - count * bs,
            );
        }
    }
    r
}

} // verus!
