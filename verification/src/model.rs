//! Mathematical model of half-open intervals and interval collections.
//!
//! An interval is modelled as a pair `(start, end)` of mathematical
//! integers, standing for the half-open range `[start, end)`.  A
//! collection is modelled as a sequence of such pairs; the order of the
//! sequence carries no meaning for coverage.

use vstd::prelude::*;

verus! {

use std::ops::Range;

/// The mathematical interval that a `Range<i64>` denotes.
pub open spec fn ival_of(r: Range<i64>) -> (int, int) {
    (r.start as int, r.end as int)
}

/// The mathematical intervals that a sequence of ranges denotes.
pub open spec fn ivals_of(s: Seq<Range<i64>>) -> Seq<(int, int)> {
    s.map_values(|r: Range<i64>| ival_of(r))
}

/// `[iv.0, iv.1)` contains the point `x`.
pub open spec fn point_in(iv: (int, int), x: int) -> bool {
    iv.0 <= x < iv.1
}

/// An interval is proper when its start lies strictly below its end,
/// so that it contains at least one point.
pub open spec fn proper(iv: (int, int)) -> bool {
    iv.0 < iv.1
}

/// Two intervals overlap when either contains an endpoint of the other.
/// Because the intervals are half-open, this also fires when one
/// interval's end coincides with the other's start, so that touching
/// intervals count as overlapping and are merged.
pub open spec fn ival_overlaps(a: (int, int), b: (int, int)) -> bool {
    point_in(a, b.0) || point_in(a, b.1) || point_in(b, a.0) || point_in(b, a.1)
}

/// Some interval of `s` contains the point `x`.
pub open spec fn covers(s: Seq<(int, int)>, x: int) -> bool {
    exists|i: int| 0 <= i < s.len() && #[trigger] point_in(s[i], x)
}

/// No two distinct entries of `s` overlap or touch.
pub open spec fn pairwise_disjoint(s: Seq<(int, int)>) -> bool {
    forall|i: int, j: int|
        0 <= i < s.len() && 0 <= j < s.len() && i != j ==> !(#[trigger] ival_overlaps(
            s[i],
            s[j],
        ))
}

/// Every entry of `s` is a proper interval.
pub open spec fn all_proper(s: Seq<(int, int)>) -> bool {
    forall|i: int| 0 <= i < s.len() ==> proper(#[trigger] s[i])
}

/// The smallest interval containing both `a` and `b`.
pub open spec fn hull(a: (int, int), b: (int, int)) -> (int, int) {
    (if a.0 <= b.0 { a.0 } else { b.0 }, if a.1 >= b.1 { a.1 } else { b.1 })
}

/// Total order on intervals: by start, ties broken by end.
pub open spec fn start_leq(a: (int, int), b: (int, int)) -> bool {
    a.0 < b.0 || (a.0 == b.0 && a.1 <= b.1)
}

/// `s` is sorted in non-decreasing order of start (ties by end).
pub open spec fn sorted_by_start(s: Seq<(int, int)>) -> bool {
    forall|i: int, j: int| 0 <= i < j < s.len() ==> #[trigger] start_leq(s[i], s[j])
}

/// The canonical exported form of a collection: its entries in
/// non-decreasing order of start.
pub open spec fn export(s: Seq<(int, int)>) -> Seq<(int, int)> {
    s.sort_by(|a: (int, int), b: (int, int)| start_leq(a, b))
}

/// When two intervals overlap (which includes touching), their hull
/// contains exactly the points that one of the two contains: no gap can
/// lie between them.
pub proof fn lemma_hull_of_overlapping(a: (int, int), b: (int, int))
    requires
        ival_overlaps(a, b),
    ensures
        forall|x: int| #[trigger] point_in(hull(a, b), x) <==> point_in(a, x) || point_in(b, x),
{
}

/// Mapping to mathematical intervals commutes with removing an entry.
pub proof fn lemma_ivals_remove(s: Seq<Range<i64>>, i: int)
    requires
        0 <= i < s.len(),
    ensures
        ivals_of(s.remove(i)) =~= ivals_of(s).remove(i),
{
}

/// Mapping to mathematical intervals commutes with appending an entry.
pub proof fn lemma_ivals_push(s: Seq<Range<i64>>, r: Range<i64>)
    ensures
        ivals_of(s.push(r)) =~= ivals_of(s).push(ival_of(r)),
{
}

/// Mapping to mathematical intervals commutes with inserting an entry.
pub proof fn lemma_ivals_insert(s: Seq<Range<i64>>, i: int, r: Range<i64>)
    requires
        0 <= i <= s.len(),
    ensures
        ivals_of(s.insert(i, r)) =~= ivals_of(s).insert(i, ival_of(r)),
{
}

/// The points covered by a collection split into the points of one entry
/// and the points covered by the rest.
pub proof fn lemma_covers_remove(s: Seq<(int, int)>, i: int)
    requires
        0 <= i < s.len(),
    ensures
        forall|x: int| covers(s, x) <==> covers(s.remove(i), x) || point_in(s[i], x),
{
    let t = s.remove(i);
    assert forall|x: int| covers(s, x) implies covers(t, x) || point_in(s[i], x) by {
        let k = choose|k: int| 0 <= k < s.len() && #[trigger] point_in(s[k], x);
        if k < i {
            assert(point_in(t[k], x));
        } else if k > i {
            assert(point_in(t[k - 1], x));
        }
    }
    assert forall|x: int| covers(t, x) || point_in(s[i], x) implies covers(s, x) by {
        if covers(t, x) {
            let k = choose|k: int| 0 <= k < t.len() && #[trigger] point_in(t[k], x);
            if k < i {
                assert(point_in(s[k], x));
            } else {
                assert(point_in(s[k + 1], x));
            }
        } else {
            assert(point_in(s[i], x));
        }
    }
}

/// Appending an entry adds exactly its points to the covered set.
pub proof fn lemma_covers_push(s: Seq<(int, int)>, p: (int, int))
    ensures
        forall|x: int| covers(s.push(p), x) <==> covers(s, x) || point_in(p, x),
{
    let t = s.push(p);
    assert forall|x: int| covers(t, x) implies covers(s, x) || point_in(p, x) by {
        let k = choose|k: int| 0 <= k < t.len() && #[trigger] point_in(t[k], x);
        if k < s.len() {
            assert(point_in(s[k], x));
        }
    }
    assert forall|x: int| covers(s, x) || point_in(p, x) implies covers(t, x) by {
        if covers(s, x) {
            let k = choose|k: int| 0 <= k < s.len() && #[trigger] point_in(s[k], x);
            assert(point_in(t[k], x));
        } else {
            assert(point_in(t[s.len() as int], x));
        }
    }
}

/// The order on intervals used by `export` is a total order, so a sorted
/// rearrangement of a collection is unique: any sequence that is sorted
/// and holds the same entries with the same multiplicities as `s` is
/// `export(s)`.
pub proof fn lemma_export_is_the_sorted_permutation(s: Seq<(int, int)>, t: Seq<(int, int)>)
    requires
        sorted_by_start(t),
        t.to_multiset() == s.to_multiset(),
    ensures
        t == export(s),
{
    let leq = |a: (int, int), b: (int, int)| start_leq(a, b);
    assert(vstd::relations::total_ordering(leq)) by {
        assert forall|a: (int, int), b: (int, int)| #[trigger] leq(a, b) && leq(b, a) implies a
            == b by {}
        assert forall|a: (int, int), b: (int, int), c: (int, int)|
            #[trigger] leq(a, b) && #[trigger] leq(b, c) implies leq(a, c) by {}
        assert forall|a: (int, int), b: (int, int)| true implies #[trigger] leq(a, b) || #[trigger]
            leq(b, a) by {}
    }
    s.lemma_sort_by_ensures(leq);
    assert(vstd::relations::sorted_by(t, leq)) by {
        assert forall|i: int, j: int| 0 <= i < j < t.len() implies #[trigger] leq(t[i], t[j]) by {
            assert(start_leq(t[i], t[j]));
        }
    }
    vstd::seq_lib::lemma_sorted_unique(t, export(s), leq);
    assert(t =~= export(s));
}

/// `export` keeps the entries and their multiplicities of the collection,
/// and is sorted.
pub proof fn lemma_export_ensures(s: Seq<(int, int)>)
    ensures
        export(s).to_multiset() == s.to_multiset(),
        sorted_by_start(export(s)),
{
    let leq = |a: (int, int), b: (int, int)| start_leq(a, b);
    s.lemma_sort_by_ensures(leq);
    assert(s.to_multiset() =~= export(s).to_multiset());
    assert forall|i: int, j: int| 0 <= i < j < export(s).len() implies #[trigger] start_leq(
        export(s)[i],
        export(s)[j],
    ) by {
        assert(leq(export(s)[i], export(s)[j]));
    }
}

/// Removing an entry keeps the remaining entries pairwise disjoint.
pub proof fn lemma_disjoint_remove(s: Seq<(int, int)>, i: int)
    requires
        pairwise_disjoint(s),
        0 <= i < s.len(),
    ensures
        pairwise_disjoint(s.remove(i)),
{
    let t = s.remove(i);
    assert forall|k: int, l: int|
        0 <= k < t.len() && 0 <= l < t.len() && k != l implies !(#[trigger] ival_overlaps(
        t[k],
        t[l],
    )) by {
        let k0 = if k < i { k } else { k + 1 };
        let l0 = if l < i { l } else { l + 1 };
        assert(t[k] == s[k0] && t[l] == s[l0]);
        assert(!ival_overlaps(s[k0], s[l0]));
    }
}

/// Appending an entry that overlaps no existing entry keeps the
/// collection pairwise disjoint.
pub proof fn lemma_disjoint_push(s: Seq<(int, int)>, p: (int, int))
    requires
        pairwise_disjoint(s),
        forall|j: int| 0 <= j < s.len() ==> !ival_overlaps(s[j], p),
    ensures
        pairwise_disjoint(s.push(p)),
{
    let t = s.push(p);
    assert forall|k: int, l: int|
        0 <= k < t.len() && 0 <= l < t.len() && k != l implies !(#[trigger] ival_overlaps(
        t[k],
        t[l],
    )) by {
        if k < s.len() && l < s.len() {
            assert(!ival_overlaps(s[k], s[l]));
        } else if k < s.len() {
            assert(!ival_overlaps(s[k], p));
        } else {
            assert(!ival_overlaps(s[l], p));
        }
    }
}

} // verus!
