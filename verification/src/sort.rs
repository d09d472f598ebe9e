//! Merge sort over records, proved against a spec-level merge sort with the
//! same split point and the same tie-break: when the heads compare equal the
//! left half is consumed first. The comparison is a total preorder, not a
//! total order — records that tie can differ in payload — so the sort is
//! specified as a function of the input sequence rather than through an
//! antisymmetric order.
use vstd::prelude::*;

use vstd::seq_lib::lemma_multiset_commutative;

use crate::record::{
    lemma_record_le_refl, lemma_record_le_total, lemma_record_le_trans, record_le, record_tie,
    views_of, Record, RecordView,
};
use crate::strcmp::str_le;

verus! {

/// Non-decreasing under the record order.
pub open spec fn sorted(s: Seq<RecordView>) -> bool {
    forall|i: int, j: int| 0 <= i < j < s.len() ==> record_le(s[i], s[j])
}

/// The merge of two sorted sequences, preferring the left head on ties.
pub open spec fn merge_spec(l: Seq<RecordView>, r: Seq<RecordView>) -> Seq<RecordView>
    decreases l.len() + r.len(),
{
    if l.len() == 0 {
        r
    } else if r.len() == 0 {
        l
    } else if record_le(l.first(), r.first()) {
        seq![l.first()] + merge_spec(l.drop_first(), r)
    } else {
        seq![r.first()] + merge_spec(l, r.drop_first())
    }
}

/// Merge sort: split at the midpoint, sort both halves, merge.
pub open spec fn sort_spec(s: Seq<RecordView>) -> Seq<RecordView>
    decreases s.len(),
{
    if s.len() < 2 {
        s
    } else {
        let mid = s.len() as int / 2;
        merge_spec(sort_spec(s.subrange(0, mid)), sort_spec(s.subrange(mid, s.len() as int)))
    }
}

proof fn lemma_sorted_drop_first(s: Seq<RecordView>)
    requires
        sorted(s),
        s.len() > 0,
    ensures
        sorted(s.drop_first()),
{
    assert forall|i: int, j: int|
        0 <= i < j < s.drop_first().len() implies record_le(s.drop_first()[i], s.drop_first()[j]) by {
        assert(s.drop_first()[i] == s[i + 1]);
        assert(s.drop_first()[j] == s[j + 1]);
    }
}

proof fn lemma_sorted_subrange(s: Seq<RecordView>, from: int, to: int)
    requires
        sorted(s),
        0 <= from <= to <= s.len(),
    ensures
        sorted(s.subrange(from, to)),
{
    assert forall|i: int, j: int|
        0 <= i < j < s.subrange(from, to).len() implies record_le(
        s.subrange(from, to)[i],
        s.subrange(from, to)[j],
    ) by {
        assert(s.subrange(from, to)[i] == s[from + i]);
        assert(s.subrange(from, to)[j] == s[from + j]);
    }
}

/// The merge of two sorted sequences is sorted and holds exactly their
/// elements.
pub proof fn lemma_merge_spec_ensures(l: Seq<RecordView>, r: Seq<RecordView>)
    requires
        sorted(l),
        sorted(r),
    ensures
        sorted(merge_spec(l, r)),
        merge_spec(l, r).to_multiset() == (l + r).to_multiset(),
        merge_spec(l, r).len() == l.len() + r.len(),
    decreases l.len() + r.len(),
{
    broadcast use vstd::seq_lib::group_to_multiset_ensures;

    let m = merge_spec(l, r);
    if l.len() == 0 {
        assert(l + r =~= r);
    } else if r.len() == 0 {
        assert(l + r =~= l);
    } else if record_le(l.first(), r.first()) {
        let rest = merge_spec(l.drop_first(), r);
        lemma_sorted_drop_first(l);
        lemma_merge_spec_ensures(l.drop_first(), r);
        // multiset bookkeeping
        lemma_multiset_commutative(seq![l.first()], rest);
        lemma_multiset_commutative(l.drop_first(), r);
        lemma_multiset_commutative(l, r);
        assert(l =~= seq![l.first()] + l.drop_first());
        lemma_multiset_commutative(seq![l.first()], l.drop_first());
        assert(m.to_multiset() =~= (l + r).to_multiset());
        // sortedness: the head is below everything that follows
        assert forall|j: int| 0 <= j < rest.len() implies record_le(l.first(), rest[j]) by {
            assert(rest.to_multiset().contains(rest[j]));
            assert((l.drop_first() + r).to_multiset().contains(rest[j]));
            assert((l.drop_first() + r).contains(rest[j]));
            let k = choose|k: int|
                0 <= k < (l.drop_first() + r).len() && (l.drop_first() + r)[k] == rest[j];
            if k < l.drop_first().len() {
                assert(l.drop_first()[k] == l[k + 1]);
                assert(record_le(l.first(), l[k + 1]));
            } else {
                let e = r[k - l.drop_first().len()];
                if k - l.drop_first().len() > 0 {
                    assert(record_le(r.first(), e));
                } else {
                    lemma_record_le_refl(r.first());
                }
                lemma_record_le_trans(l.first(), r.first(), e);
            }
        }
        assert forall|i: int, j: int| 0 <= i < j < m.len() implies record_le(m[i], m[j]) by {
            if i == 0 {
                assert(m[j] == rest[j - 1]);
            } else {
                assert(m[i] == rest[i - 1]);
                assert(m[j] == rest[j - 1]);
            }
        }
    } else {
        lemma_record_le_total(l.first(), r.first());
        let rest = merge_spec(l, r.drop_first());
        lemma_sorted_drop_first(r);
        lemma_merge_spec_ensures(l, r.drop_first());
        lemma_multiset_commutative(seq![r.first()], rest);
        lemma_multiset_commutative(l, r.drop_first());
        lemma_multiset_commutative(l, r);
        assert(r =~= seq![r.first()] + r.drop_first());
        lemma_multiset_commutative(seq![r.first()], r.drop_first());
        assert(m.to_multiset() =~= (l + r).to_multiset());
        assert forall|j: int| 0 <= j < rest.len() implies record_le(r.first(), rest[j]) by {
            assert(rest.to_multiset().contains(rest[j]));
            assert((l + r.drop_first()).to_multiset().contains(rest[j]));
            assert((l + r.drop_first()).contains(rest[j]));
            let k = choose|k: int|
                0 <= k < (l + r.drop_first()).len() && (l + r.drop_first())[k] == rest[j];
            if k < l.len() {
                if k > 0 {
                    assert(record_le(l.first(), l[k]));
                } else {
                    lemma_record_le_refl(l.first());
                }
                lemma_record_le_trans(r.first(), l.first(), l[k]);
            } else {
                let e = r.drop_first()[k - l.len()];
                assert(e == r[k - l.len() + 1]);
                assert(record_le(r.first(), e));
            }
        }
        assert forall|i: int, j: int| 0 <= i < j < m.len() implies record_le(m[i], m[j]) by {
            if i == 0 {
                assert(m[j] == rest[j - 1]);
            } else {
                assert(m[i] == rest[i - 1]);
                assert(m[j] == rest[j - 1]);
            }
        }
    }
}

/// The sort yields a sorted permutation of its input.
pub proof fn lemma_sort_spec_ensures(s: Seq<RecordView>)
    ensures
        sorted(sort_spec(s)),
        sort_spec(s).to_multiset() == s.to_multiset(),
        sort_spec(s).len() == s.len(),
    decreases s.len(),
{
    if s.len() >= 2 {
        let mid = s.len() as int / 2;
        let left = s.subrange(0, mid);
        let right = s.subrange(mid, s.len() as int);
        lemma_sort_spec_ensures(left);
        lemma_sort_spec_ensures(right);
        lemma_merge_spec_ensures(sort_spec(left), sort_spec(right));
        lemma_multiset_commutative(sort_spec(left), sort_spec(right));
        lemma_multiset_commutative(left, right);
        assert(s =~= left + right);
    }
}

/// Merging two sorted runs where everything on the left is at or below
/// everything on the right just concatenates them.
proof fn lemma_merge_of_split(l: Seq<RecordView>, r: Seq<RecordView>)
    requires
        sorted(l),
        sorted(r),
        forall|i: int, j: int|
            0 <= i < l.len() && 0 <= j < r.len() ==> record_le(l[i], r[j]),
    ensures
        merge_spec(l, r) == l + r,
    decreases l.len(),
{
    if l.len() == 0 {
        assert(merge_spec(l, r) =~= l + r);
    } else if r.len() == 0 {
        assert(merge_spec(l, r) =~= l + r);
    } else {
        assert(record_le(l.first(), r.first()));
        lemma_sorted_drop_first(l);
        lemma_merge_of_split(l.drop_first(), r);
        assert(seq![l.first()] + (l.drop_first() + r) =~= l + r);
    }
}

/// Sorting a sorted sequence returns it unchanged.
pub proof fn lemma_sort_spec_of_sorted(s: Seq<RecordView>)
    requires
        sorted(s),
    ensures
        sort_spec(s) == s,
    decreases s.len(),
{
    if s.len() >= 2 {
        let mid = s.len() as int / 2;
        let left = s.subrange(0, mid);
        let right = s.subrange(mid, s.len() as int);
        lemma_sorted_subrange(s, 0, mid);
        lemma_sorted_subrange(s, mid, s.len() as int);
        lemma_sort_spec_of_sorted(left);
        lemma_sort_spec_of_sorted(right);
        assert forall|i: int, j: int|
            0 <= i < left.len() && 0 <= j < right.len() implies record_le(left[i], right[j]) by {
            assert(left[i] == s[i]);
            assert(right[j] == s[mid + j]);
        }
        lemma_merge_of_split(left, right);
        assert(s =~= left + right);
    }
}

/// Sorting is idempotent: a second sort changes nothing.
pub proof fn lemma_sort_idempotent(s: Seq<RecordView>)
    ensures
        sort_spec(sort_spec(s)) == sort_spec(s),
{
    lemma_sort_spec_ensures(s);
    lemma_sort_spec_of_sorted(sort_spec(s));
}

/// Sorting permutes: no record is created, duplicated or lost.
pub proof fn lemma_sort_permutation(s: Seq<RecordView>)
    ensures
        sort_spec(s).to_multiset() == s.to_multiset(),
{
    lemma_sort_spec_ensures(s);
}

/// In a sorted sequence every directory precedes every file, and names are
/// non-decreasing within each group.
pub proof fn lemma_sorted_groups(s: Seq<RecordView>)
    requires
        sorted(s),
    ensures
        forall|i: int, j: int|
            0 <= i < j < s.len() && !s[i].is_directory ==> !s[j].is_directory,
        forall|i: int, j: int|
            0 <= i < j < s.len() && s[i].is_directory == s[j].is_directory ==> str_le(
                s[i].name,
                s[j].name,
            ),
{
    assert forall|i: int, j: int|
        0 <= i < j < s.len() && !s[i].is_directory implies !s[j].is_directory by {
        assert(record_le(s[i], s[j]));
    }
    assert forall|i: int, j: int|
        0 <= i < j < s.len() && s[i].is_directory == s[j].is_directory implies str_le(
        s[i].name,
        s[j].name,
    ) by {
        assert(record_le(s[i], s[j]));
    }
}

/// In the sort's output every directory-flagged record precedes every
/// file-flagged one, and within each group the names are non-decreasing.
pub proof fn lemma_sort_output_grouped(s: Seq<RecordView>)
    ensures
        forall|i: int, j: int|
            0 <= i < j < sort_spec(s).len() && !sort_spec(s)[i].is_directory
                ==> !sort_spec(s)[j].is_directory,
        forall|i: int, j: int|
            0 <= i < j < sort_spec(s).len() && sort_spec(s)[i].is_directory == sort_spec(
                s,
            )[j].is_directory ==> str_le(sort_spec(s)[i].name, sort_spec(s)[j].name),
{
    lemma_sort_spec_ensures(s);
    lemma_sorted_groups(sort_spec(s));
}

/// Two sorted sequences with the same elements are identical, provided no
/// two distinct elements tie under the order.
pub proof fn lemma_sorted_unique_up_to_ties(a: Seq<RecordView>, b: Seq<RecordView>)
    requires
        sorted(a),
        sorted(b),
        a.to_multiset() == b.to_multiset(),
        forall|x: RecordView, y: RecordView|
            a.contains(x) && a.contains(y) && record_tie(x, y) ==> x == y,
    ensures
        a == b,
    decreases a.len(),
{
    broadcast use vstd::seq_lib::group_to_multiset_ensures;

    if a.len() == 0 {
        assert(b.to_multiset().len() == 0);
        assert(a =~= b);
    } else {
        assert(a.to_multiset().contains(a[0]));
        assert(b.to_multiset().contains(a[0]));
        assert(b.contains(a[0]));
        assert(a.contains(b[0])) by {
            assert(a.to_multiset().contains(b[0])) by {
                assert(b.contains(b[0]));
            }
        }
        let i = choose|i: int| 0 <= i < b.len() && b[i] == a[0];
        assert(record_le(b[0], a[0])) by {
            if i > 0 {
                assert(record_le(b[0], b[i]));
            } else {
                lemma_record_le_refl(b[0]);
            }
        }
        let j = choose|j: int| 0 <= j < a.len() && a[j] == b[0];
        assert(record_le(a[0], b[0])) by {
            if j > 0 {
                assert(record_le(a[0], a[j]));
            } else {
                lemma_record_le_refl(a[0]);
            }
        }
        assert(record_tie(a[0], b[0]));
        assert(a[0] == b[0]);
        assert(a.remove(0) =~= a.drop_first());
        assert(b.remove(0) =~= b.drop_first());
        assert(a.drop_first().to_multiset() =~= a.to_multiset().remove(a[0]));
        assert(b.drop_first().to_multiset() =~= b.to_multiset().remove(b[0]));
        lemma_sorted_drop_first(a);
        lemma_sorted_drop_first(b);
        assert forall|x: RecordView, y: RecordView|
            a.drop_first().contains(x) && a.drop_first().contains(y) && record_tie(x, y) implies x
            == y by {
            let ix = choose|ix: int| 0 <= ix < a.drop_first().len() && a.drop_first()[ix] == x;
            let iy = choose|iy: int| 0 <= iy < a.drop_first().len() && a.drop_first()[iy] == y;
            assert(a[ix + 1] == x);
            assert(a[iy + 1] == y);
            assert(a.contains(x));
            assert(a.contains(y));
        }
        lemma_sorted_unique_up_to_ties(a.drop_first(), b.drop_first());
        assert forall|k: int| 0 <= k < a.len() implies a[k] == b[k] by {
            if k > 0 {
                assert(a[k] == a.drop_first()[k - 1]);
                assert(b[k] == b.drop_first()[k - 1]);
            }
        }
        assert(a.len() == b.len());
        assert(a =~= b);
    }
}

/// Merges two sorted runs of records, taking from the left on ties.
fn merge_records(left: Vec<Record>, right: Vec<Record>) -> (out: Vec<Record>)
    ensures
        views_of(out@) == merge_spec(views_of(left@), views_of(right@)),
{
    let ghost target = merge_spec(views_of(left@), views_of(right@));
    let mut l = left;
    let mut r = right;
    let mut out: Vec<Record> = Vec::new();
    proof {
        assert(views_of(out@) =~= Seq::<RecordView>::empty());
        assert(views_of(out@) + target =~= target);
    }
    while l.len() > 0 && r.len() > 0
        invariant
            target == views_of(out@) + merge_spec(views_of(l@), views_of(r@)),
        decreases l@.len() + r@.len(),
    {
        let ghost vo = views_of(out@);
        let ghost vl = views_of(l@);
        let ghost vr = views_of(r@);
        if l[0].le(&r[0]) {
            let x = l.remove(0);
            out.push(x);
            proof {
                assert(vl.first() == x@);
                assert(views_of(l@) =~= vl.drop_first());
                assert(views_of(out@) =~= vo.push(x@));
                assert(vo + (seq![x@] + merge_spec(vl.drop_first(), vr)) =~= vo.push(x@)
                    + merge_spec(vl.drop_first(), vr));
            }
        } else {
            let x = r.remove(0);
            out.push(x);
            proof {
                assert(vr.first() == x@);
                assert(views_of(r@) =~= vr.drop_first());
                assert(views_of(out@) =~= vo.push(x@));
                assert(vo + (seq![x@] + merge_spec(vl, vr.drop_first())) =~= vo.push(x@)
                    + merge_spec(vl, vr.drop_first()));
            }
        }
    }
    let ghost vo = views_of(out@);
    let ghost vl = views_of(l@);
    let ghost vr = views_of(r@);
    if l.len() > 0 {
        out.append(&mut l);
        proof {
            assert(vr.len() == 0);
            assert(views_of(out@) =~= vo + vl);
        }
    } else {
        out.append(&mut r);
        proof {
            assert(vl.len() == 0);
            assert(views_of(out@) =~= vo + vr);
        }
    }
    out
}

fn sort_vec(v: Vec<Record>) -> (out: Vec<Record>)
    ensures
        views_of(out@) == sort_spec(views_of(v@)),
    decreases v@.len(),
{
    if v.len() < 2 {
        return v;
    }
    let mut work = v;
    let ghost vw = views_of(work@);
    let mid = work.len() / 2;
    let right = work.split_off(mid);
    proof {
        assert(views_of(work@) =~= vw.subrange(0, mid as int));
        assert(views_of(right@) =~= vw.subrange(mid as int, vw.len() as int));
    }
    let ghost vleft = views_of(work@);
    let ghost vright = views_of(right@);
    let ls = sort_vec(work);
    let rs = sort_vec(right);
    let out = merge_records(ls, rs);
    proof {
        assert(views_of(out@) == merge_spec(sort_spec(vleft), sort_spec(vright)));
    }
    out
}

/// Orders the records in place: directories before files, names ascending
/// within each group, ties resolved in favour of the earlier half. The
/// result is exactly the spec-level merge sort of the input.
pub fn sort(arr: &mut Vec<Record>)
    ensures
        views_of(final(arr)@) == sort_spec(views_of(old(arr)@)),
{
    let mut tmp: Vec<Record> = Vec::new();
    core::mem::swap(arr, &mut tmp);
    let ordered = sort_vec(tmp);
    *arr = ordered;
}

} // verus!
