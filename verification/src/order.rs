//! The order on catalog records: lexicographic on the geocode, then by
//! timestamp. The batch pipeline sorts both imagery streams by this key
//! before joining them.

use vstd::prelude::*;
use vstd::multiset::Multiset;

use crate::catalog::{Image, ImageModel};

verus! {

/// Lexicographic order on byte strings: a proper prefix comes first, and
/// otherwise the first differing byte decides.
pub open spec fn lex_lt(a: Seq<u8>, b: Seq<u8>) -> bool
    decreases b.len(),
{
    if b.len() == 0 {
        false
    } else if a.len() == 0 {
        true
    } else {
        a[0] < b[0] || (a[0] == b[0] && lex_lt(a.skip(1), b.skip(1)))
    }
}

/// `lex_lt` is a strict total order: exactly one of `a < b`, `a == b`,
/// `b < a` holds.
pub proof fn lemma_lex_props(a: Seq<u8>, b: Seq<u8>)
    ensures
        lex_lt(a, b) || a == b || lex_lt(b, a),
        !(lex_lt(a, b) && lex_lt(b, a)),
        lex_lt(a, b) ==> a != b,
    decreases a.len() + b.len(),
{
    if a.len() == 0 && b.len() == 0 {
        assert(a =~= b);
    } else if a.len() == 0 || b.len() == 0 {
    } else {
        lemma_lex_props(a.skip(1), b.skip(1));
        if a[0] == b[0] && a.skip(1) == b.skip(1) {
            assert forall|i: int| 0 <= i < a.len() implies a[i] == b[i] by {
                if i > 0 {
                    assert(a[i] == a.skip(1)[i - 1]);
                    assert(b[i] == b.skip(1)[i - 1]);
                }
            }
            assert(a =~= b);
        }
        if a == b {
            assert(a.skip(1) =~= b.skip(1));
        }
    }
}

/// `lex_lt` is transitive.
pub proof fn lemma_lex_trans(a: Seq<u8>, b: Seq<u8>, c: Seq<u8>)
    requires
        lex_lt(a, b),
        lex_lt(b, c),
    ensures
        lex_lt(a, c),
    decreases a.len() + b.len() + c.len(),
{
    if a.len() == 0 {
    } else {
        if a[0] == b[0] && b[0] == c[0] {
            lemma_lex_trans(a.skip(1), b.skip(1), c.skip(1));
        }
    }
}

/// The join key order: geocode first, then timestamp, weakly.
pub open spec fn key_le(g1: Seq<u8>, t1: int, g2: Seq<u8>, t2: int) -> bool {
    lex_lt(g1, g2) || (g1 == g2 && t1 <= t2)
}

/// The join key order: geocode first, then timestamp, strictly.
pub open spec fn key_lt(g1: Seq<u8>, t1: int, g2: Seq<u8>, t2: int) -> bool {
    lex_lt(g1, g2) || (g1 == g2 && t1 < t2)
}

/// The key order is total: of two keys, one is weakly below the other,
/// and a key not weakly below another is strictly above it.
pub proof fn lemma_key_total(g1: Seq<u8>, t1: int, g2: Seq<u8>, t2: int)
    ensures
        key_le(g1, t1, g2, t2) || key_le(g2, t2, g1, t1),
        !key_le(g1, t1, g2, t2) ==> key_lt(g2, t2, g1, t1),
        !key_lt(g1, t1, g2, t2) ==> key_le(g2, t2, g1, t1),
        key_lt(g1, t1, g2, t2) ==> key_le(g1, t1, g2, t2) && !key_le(g2, t2, g1, t1),
{
    lemma_lex_props(g1, g2);
}

/// The key order is transitive, in every mix of weak and strict.
pub proof fn lemma_key_trans(g1: Seq<u8>, t1: int, g2: Seq<u8>, t2: int, g3: Seq<u8>, t3: int)
    ensures
        key_le(g1, t1, g2, t2) && key_le(g2, t2, g3, t3) ==> key_le(g1, t1, g3, t3),
        key_le(g1, t1, g2, t2) && key_lt(g2, t2, g3, t3) ==> key_lt(g1, t1, g3, t3),
        key_lt(g1, t1, g2, t2) && key_le(g2, t2, g3, t3) ==> key_lt(g1, t1, g3, t3),
{
    if lex_lt(g1, g2) && lex_lt(g2, g3) {
        lemma_lex_trans(g1, g2, g3);
    }
}

/// Whether a record sequence is sorted ascending by `(geocode,
/// timestamp)`.
pub open spec fn spec_sorted_by_key(s: Seq<ImageModel>) -> bool {
    forall|i: int, j: int| 0 <= i < j < s.len() ==> key_le(
        (#[trigger] s[i]).geocode,
        s[i].timestamp as int,
        (#[trigger] s[j]).geocode,
        s[j].timestamp as int,
    )
}

/// Prefixes of equal length agree, so the order of the remainders is the
/// order of the whole strings.
pub proof fn lemma_lex_skip(a: Seq<u8>, b: Seq<u8>, i: int)
    requires
        0 <= i <= a.len(),
        i <= b.len(),
        a.take(i) == b.take(i),
    ensures
        lex_lt(a, b) == lex_lt(a.skip(i), b.skip(i)),
    decreases i,
{
    if i > 0 {
        assert(a.take(i)[0] == a[0]);
        assert(b.take(i)[0] == b[0]);
        assert(a[0] == b[0]);
        assert(a.len() > 0 && b.len() > 0);
        assert forall|j: int| 0 <= j < i - 1 implies #[trigger] a.skip(1).take(i - 1)[j] == b.skip(
            1,
        ).take(i - 1)[j] by {
            assert(a.skip(1).take(i - 1)[j] == a.skip(1)[j]);
            assert(a.skip(1)[j] == a[j + 1]);
            assert(a.take(i)[j + 1] == a[j + 1]);
            assert(b.skip(1).take(i - 1)[j] == b.skip(1)[j]);
            assert(b.skip(1)[j] == b[j + 1]);
            assert(b.take(i)[j + 1] == b[j + 1]);
        }
        assert(a.skip(1).take(i - 1) =~= b.skip(1).take(i - 1));
        lemma_lex_skip(a.skip(1), b.skip(1), i - 1);
        assert(a.skip(1).skip(i - 1) =~= a.skip(i));
        assert(b.skip(1).skip(i - 1) =~= b.skip(i));
    } else {
        assert(a.skip(0) =~= a);
        assert(b.skip(0) =~= b);
    }
}

/// Compare two byte strings: negative, zero, or positive as the first is
/// lexicographically below, equal to, or above the second.
pub fn lex_cmp(a: &Vec<u8>, b: &Vec<u8>) -> (r: i8)
    ensures
        r == -1 ==> lex_lt(a@, b@),
        r == 0 ==> a@ == b@,
        r == 1 ==> lex_lt(b@, a@),
        r == -1 || r == 0 || r == 1,
{
    let n: usize = if a.len() < b.len() {
        a.len()
    } else {
        b.len()
    };
    let mut i: usize = 0;
    while i < n && a[i] == b[i]
        invariant
            0 <= i <= n,
            n <= a@.len(),
            n <= b@.len(),
            n == if a@.len() < b@.len() {
                a@.len()
            } else {
                b@.len()
            },
            a@.take(i as int) =~= b@.take(i as int),
        decreases n - i,
    {
        proof {
            assert(a@.take((i + 1) as int) =~= a@.take(i as int).push(a@[i as int]));
            assert(b@.take((i + 1) as int) =~= b@.take(i as int).push(b@[i as int]));
        }
        i = i + 1;
    }
    proof {
        lemma_lex_skip(a@, b@, i as int);
        lemma_lex_skip(b@, a@, i as int);
    }
    if i < n {
        proof {
            assert(a@.skip(i as int)[0] == a@[i as int]);
            assert(b@.skip(i as int)[0] == b@[i as int]);
        }
        if a[i] < b[i] {
            return -1;
        }
        proof {
            lemma_lex_props(a@.skip(i as int), b@.skip(i as int));
        }
        return 1;
    }
    if a.len() < b.len() {
        proof {
            assert(a@.skip(i as int).len() == 0);
            assert(b@.skip(i as int).len() > 0);
        }
        return -1;
    }
    if b.len() < a.len() {
        proof {
            assert(b@.skip(i as int).len() == 0);
            assert(a@.skip(i as int).len() > 0);
        }
        return 1;
    }
    proof {
        assert(a@ =~= b@) by {
            assert(a@.take(i as int) =~= a@);
            assert(b@.take(i as int) =~= b@);
        }
    }
    0
}

/// Whether a record's key is weakly below the key `(g, t)`.
pub fn key_le_exec(im: &Image, g: &Vec<u8>, t: i128) -> (r: bool)
    ensures
        r == key_le(im@.geocode, im@.timestamp as int, g@, t as int),
{
    let c: i8 = lex_cmp(&im.geocode, g);
    proof {
        lemma_lex_props(im.geocode@, g@);
    }
    c == -1 || (c == 0 && im.timestamp as i128 <= t)
}

/// Whether a record's key is strictly below the key `(g, t)`.
pub fn key_lt_exec(im: &Image, g: &Vec<u8>, t: i128) -> (r: bool)
    ensures
        r == key_lt(im@.geocode, im@.timestamp as int, g@, t as int),
{
    let c: i8 = lex_cmp(&im.geocode, g);
    proof {
        lemma_lex_props(im.geocode@, g@);
    }
    c == -1 || (c == 0 && (im.timestamp as i128) < t)
}

/// Whether record `a`'s key is weakly below record `b`'s.
pub fn record_le_exec(a: &Image, b: &Image) -> (r: bool)
    ensures
        r == key_le(a@.geocode, a@.timestamp as int, b@.geocode, b@.timestamp as int),
{
    key_le_exec(a, &b.geocode, b.timestamp as i128)
}

/// Sort records ascending by `(geocode, timestamp)`, keeping exactly the
/// same records.
pub fn sort_by_key(records: Vec<Image>) -> (r: Vec<Image>)
    ensures
        spec_sorted_by_key(r.deep_view()),
        r.deep_view().to_multiset() == records.deep_view().to_multiset(),
{
    let mut work = records;
    let mut out: Vec<Image> = Vec::new();
    let ghost all: Multiset<ImageModel> = work.deep_view().to_multiset();
    proof {
        broadcast use vstd::seq_lib::group_to_multiset_ensures;

        assert(out.deep_view().to_multiset() =~= Multiset::empty());
        assert(out.deep_view().to_multiset().add(work.deep_view().to_multiset()) =~= all);
    }
    while work.len() > 0
        invariant
            spec_sorted_by_key(out.deep_view()),
            out.deep_view().to_multiset().add(work.deep_view().to_multiset()) == all,
            forall|i: int, j: int| 0 <= i < out.deep_view().len() && 0 <= j < work.deep_view().len()
                ==> key_le(
                (#[trigger] out.deep_view()[i]).geocode,
                out.deep_view()[i].timestamp as int,
                (#[trigger] work.deep_view()[j]).geocode,
                work.deep_view()[j].timestamp as int,
            ),
        decreases work@.len(),
    {
        let ghost out0: Seq<ImageModel> = out.deep_view();
        let ghost work0: Seq<ImageModel> = work.deep_view();
        let m: usize = min_key_index(&work);
        proof {
            assert(work.deep_view()[m as int] == work@[m as int]@);
        }
        let picked = work.remove(m);
        proof {
            assert(picked@ == work0[m as int]);
            assert(work.deep_view() =~= work0.remove(m as int));
            assert(forall|j: int| 0 <= j < work.deep_view().len() ==> #[trigger] work.deep_view()[j]
                == work0[if j < m { j } else { j + 1 }]);
        }
        out.push(picked);
        proof {
            broadcast use vstd::seq_lib::group_to_multiset_ensures;

            assert(out.deep_view() =~= out0.push(work0[m as int]));
            assert(spec_sorted_by_key(out.deep_view())) by {
                assert(forall|i: int| 0 <= i < out0.len() ==> #[trigger] out.deep_view()[i] == out0[i]);
                assert(out.deep_view()[out0.len() as int] == work0[m as int]);
            }
            assert(work0.contains(work0[m as int]));
            assert(out.deep_view().to_multiset().add(work.deep_view().to_multiset()) =~= all) by {
                assert(out.deep_view().to_multiset() =~= out0.to_multiset().insert(work0[m as int]));
                assert(work0.remove(m as int).to_multiset() =~= work0.to_multiset().remove(
                    work0[m as int],
                ));
                assert(out0.to_multiset().add(work0.to_multiset()) == all);
            }
            assert(forall|i: int, j: int| 0 <= i < out.deep_view().len() && 0 <= j
                < work.deep_view().len() ==> key_le(
                (#[trigger] out.deep_view()[i]).geocode,
                out.deep_view()[i].timestamp as int,
                (#[trigger] work.deep_view()[j]).geocode,
                work.deep_view()[j].timestamp as int,
            )) by {
                assert(forall|i: int| 0 <= i < out0.len() ==> #[trigger] out.deep_view()[i] == out0[i]);
                assert(out.deep_view()[out0.len() as int] == work0[m as int]);
                assert(forall|j: int| 0 <= j < work.deep_view().len() ==> #[trigger] work.deep_view()[j]
                    == work0[if j < m { j } else { j + 1 }]);
            }
        }
    }
    proof {
        broadcast use vstd::seq_lib::group_to_multiset_ensures;

        assert(work.deep_view().len() == 0);
        assert(work.deep_view() =~= Seq::empty());
        assert(work.deep_view().to_multiset().len() == 0);
        assert(out.deep_view().to_multiset() =~= all);
    }
    out
}

/// The index of the record with the least key; the first such index on
/// ties.
fn min_key_index(records: &Vec<Image>) -> (r: usize)
    requires
        records@.len() > 0,
    ensures
        r < records@.len(),
        forall|j: int| 0 <= j < records.deep_view().len() ==> key_le(
            records.deep_view()[r as int].geocode,
            records.deep_view()[r as int].timestamp as int,
            (#[trigger] records.deep_view()[j]).geocode,
            records.deep_view()[j].timestamp as int,
        ),
{
    let mut best: usize = 0;
    let mut k: usize = 1;
    while k < records.len()
        invariant
            0 <= best < k <= records@.len(),
            records.deep_view().len() == records@.len(),
            forall|j: int| 0 <= j < k ==> key_le(
                records.deep_view()[best as int].geocode,
                records.deep_view()[best as int].timestamp as int,
                (#[trigger] records.deep_view()[j]).geocode,
                records.deep_view()[j].timestamp as int,
            ),
        decreases records@.len() - k,
    {
        proof {
            assert(records.deep_view()[k as int] == records@[k as int]@);
            assert(records.deep_view()[best as int] == records@[best as int]@);
        }
        if !record_le_exec(&records[best], &records[k]) {
            proof {
                let dv = records.deep_view();
                lemma_key_total(
                    dv[best as int].geocode,
                    dv[best as int].timestamp as int,
                    dv[k as int].geocode,
                    dv[k as int].timestamp as int,
                );
                assert(forall|j: int| 0 <= j < k ==> key_le(
                    dv[k as int].geocode,
                    dv[k as int].timestamp as int,
                    (#[trigger] dv[j]).geocode,
                    dv[j].timestamp as int,
                )) by {
                    assert(forall|j: int| 0 <= j < k ==> key_le(
                        dv[best as int].geocode,
                        dv[best as int].timestamp as int,
                        (#[trigger] dv[j]).geocode,
                        dv[j].timestamp as int,
                    ));
                    assert forall|j: int| 0 <= j < k implies key_le(
                        dv[k as int].geocode,
                        dv[k as int].timestamp as int,
                        (#[trigger] dv[j]).geocode,
                        dv[j].timestamp as int,
                    ) by {
                        lemma_key_trans(
                            dv[k as int].geocode,
                            dv[k as int].timestamp as int,
                            dv[best as int].geocode,
                            dv[best as int].timestamp as int,
                            dv[j].geocode,
                            dv[j].timestamp as int,
                        );
                    }
                }
            }
            best = k;
        } else {
            proof {
                assert(key_le(
                    records.deep_view()[best as int].geocode,
                    records.deep_view()[best as int].timestamp as int,
                    records.deep_view()[k as int].geocode,
                    records.deep_view()[k as int].timestamp as int,
                ));
            }
        }
        k = k + 1;
    }
    best
}

} // verus!
