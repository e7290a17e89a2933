//! Properties of disjoint interval collections.
//!
//! These proof functions state the guarantees of the library over the
//! mathematical model: a point is covered by at most one entry of a
//! disjoint collection, rearranging a collection changes neither its
//! covered set nor its disjointness, and — the central fact — a pairwise
//! disjoint collection of proper intervals is determined, up to order, by
//! the set of points it covers.  From the last fact follow the laws that
//! re-adding a covered range does not change the exported sequence, and
//! that the exported sequence does not depend on the order in which
//! ranges were added.

use vstd::prelude::*;

verus! {

use crate::model::{
    all_proper, covers, export, ival_overlaps, lemma_export_ensures, pairwise_disjoint, point_in,
    proper, sorted_by_start, start_leq,
};

/// A point is covered by at most one entry of a pairwise disjoint
/// collection: two entries that share a point overlap.
pub proof fn lemma_covered_by_at_most_one(s: Seq<(int, int)>, i: int, j: int, x: int)
    requires
        pairwise_disjoint(s),
        0 <= i < s.len(),
        0 <= j < s.len(),
        point_in(s[i], x),
        point_in(s[j], x),
    ensures
        i == j,
{
    if i != j {
        assert(ival_overlaps(s[i], s[j])) by {
            if s[i].0 <= s[j].0 {
                assert(point_in(s[i], s[j].0));
            } else {
                assert(point_in(s[j], s[i].0));
            }
        }
    }
}

/// Two collections holding the same entries with the same multiplicities
/// cover the same points.
pub proof fn lemma_multiset_eq_covers(s: Seq<(int, int)>, t: Seq<(int, int)>)
    requires
        s.to_multiset() == t.to_multiset(),
    ensures
        forall|x: int| covers(s, x) <==> covers(t, x),
{
    broadcast use vstd::seq_lib::group_to_multiset_ensures;

    assert forall|x: int| covers(s, x) implies covers(t, x) by {
        let i = choose|i: int| 0 <= i < s.len() && #[trigger] point_in(s[i], x);
        assert(s.contains(s[i]));
        assert(s.to_multiset().count(s[i]) > 0);
        assert(t.to_multiset().count(s[i]) > 0);
        assert(t.contains(s[i]));
        let j = choose|j: int| 0 <= j < t.len() && t[j] == s[i];
        assert(point_in(t[j], x));
    }
    assert forall|x: int| covers(t, x) implies covers(s, x) by {
        let i = choose|i: int| 0 <= i < t.len() && #[trigger] point_in(t[i], x);
        assert(t.contains(t[i]));
        assert(t.to_multiset().count(t[i]) > 0);
        assert(s.to_multiset().count(t[i]) > 0);
        assert(s.contains(t[i]));
        let j = choose|j: int| 0 <= j < s.len() && s[j] == t[i];
        assert(point_in(s[j], x));
    }
}

/// Rearranging a collection of proper intervals leaves every entry
/// proper.
pub proof fn lemma_multiset_eq_proper(s: Seq<(int, int)>, t: Seq<(int, int)>)
    requires
        s.to_multiset() == t.to_multiset(),
        all_proper(s),
    ensures
        all_proper(t),
{
    broadcast use vstd::seq_lib::group_to_multiset_ensures;

    assert forall|j: int| 0 <= j < t.len() implies proper(#[trigger] t[j]) by {
        assert(t.contains(t[j]));
        assert(t.to_multiset().count(t[j]) > 0);
        assert(s.to_multiset().count(t[j]) > 0);
        assert(s.contains(t[j]));
        let i = choose|i: int| 0 <= i < s.len() && s[i] == t[j];
        assert(proper(s[i]));
    }
}

/// Rearranging a pairwise disjoint collection keeps it pairwise disjoint.
pub proof fn lemma_multiset_eq_disjoint(s: Seq<(int, int)>, t: Seq<(int, int)>)
    requires
        s.to_multiset() == t.to_multiset(),
        pairwise_disjoint(s),
    ensures
        pairwise_disjoint(t),
{
    broadcast use vstd::seq_lib::group_to_multiset_ensures;
    broadcast use vstd::multiset::group_multiset_axioms;

    assert forall|i: int, j: int|
        0 <= i < t.len() && 0 <= j < t.len() && i != j implies !(#[trigger] ival_overlaps(
        t[i],
        t[j],
    )) by {
        if t[i] != t[j] {
            assert(t.contains(t[i]));
            assert(t.contains(t[j]));
            assert(t.to_multiset().count(t[i]) > 0);
            assert(t.to_multiset().count(t[j]) > 0);
            assert(s.to_multiset().count(t[i]) > 0);
            assert(s.to_multiset().count(t[j]) > 0);
            assert(s.contains(t[i]));
            assert(s.contains(t[j]));
            let k = choose|k: int| 0 <= k < s.len() && s[k] == t[i];
            let l = choose|l: int| 0 <= l < s.len() && s[l] == t[j];
            assert(!ival_overlaps(s[k], s[l]));
        } else {
            // The same interval stands at two places of t, so it has
            // multiplicity at least two, hence also two places in s, and
            // a disjoint collection only repeats an interval that does
            // not overlap itself.
            let p = t[i];
            assert(t.remove(i).to_multiset() =~= t.to_multiset().remove(p));
            let jr = if j < i { j } else { j - 1 };
            assert(t.remove(i)[jr] == p);
            assert(t.remove(i).contains(p));
            assert(t.to_multiset().remove(p).count(p) > 0);
            assert(s.to_multiset().count(p) >= 2);
            assert(s.contains(p));
            let k = choose|k: int| 0 <= k < s.len() && s[k] == p;
            assert(s.remove(k).to_multiset() =~= s.to_multiset().remove(p));
            assert(s.remove(k).to_multiset().count(p) > 0);
            assert(s.remove(k).contains(p));
            let l = choose|l: int| 0 <= l < s.remove(k).len() && s.remove(k)[l] == p;
            let l0 = if l < k { l } else { l + 1 };
            assert(s[l0] == p && l0 != k);
            assert(!ival_overlaps(s[k], s[l0]));
        }
    }
}

/// In a sorted, pairwise disjoint collection of proper intervals, an
/// earlier interval ends strictly before a later one starts.
pub proof fn lemma_separated(t: Seq<(int, int)>, i: int, j: int)
    requires
        sorted_by_start(t),
        pairwise_disjoint(t),
        all_proper(t),
        0 <= i < j < t.len(),
    ensures
        t[i].1 < t[j].0,
{
    assert(start_leq(t[i], t[j]));
    assert(!ival_overlaps(t[i], t[j]));
    assert(proper(t[i]));
    assert(proper(t[j]));
}

/// A sorted, pairwise disjoint collection of proper intervals is
/// determined by the set of points it covers.
pub proof fn lemma_sorted_coverage_unique(t1: Seq<(int, int)>, t2: Seq<(int, int)>)
    requires
        sorted_by_start(t1),
        pairwise_disjoint(t1),
        all_proper(t1),
        sorted_by_start(t2),
        pairwise_disjoint(t2),
        all_proper(t2),
        forall|x: int| covers(t1, x) <==> covers(t2, x),
    ensures
        t1 =~= t2,
    decreases t1.len(),
{
    if t1.len() == 0 {
        if t2.len() > 0 {
            assert(point_in(t2[0], t2[0].0));
            assert(covers(t2, t2[0].0));
            assert(false);
        }
    } else if t2.len() == 0 {
        assert(point_in(t1[0], t1[0].0));
        assert(covers(t1, t1[0].0));
        assert(false);
    } else {
        let h1 = t1[0];
        let h2 = t2[0];
        assert(h1.0 == h2.0) by {
            lemma_heads_start_equal(t1, t2);
        }
        assert(h1.1 == h2.1) by {
            if h1.1 < h2.1 {
                lemma_head_end_uncovered(t1);
                assert(point_in(h2, h1.1));
                assert(covers(t2, h1.1));
                assert(false);
            }
            if h2.1 < h1.1 {
                lemma_head_end_uncovered(t2);
                assert(point_in(h1, h2.1));
                assert(covers(t1, h2.1));
                assert(false);
            }
        }
        let r1 = t1.drop_first();
        let r2 = t2.drop_first();
        lemma_tail_coverage(t1);
        lemma_tail_coverage(t2);
        assert forall|x: int| covers(r1, x) <==> covers(r2, x) by {
            assert(covers(r1, x) <==> covers(t1, x) && x >= t1[0].1);
            assert(covers(r2, x) <==> covers(t2, x) && x >= t2[0].1);
        }
        lemma_tail_shape(t1);
        lemma_tail_shape(t2);
        lemma_sorted_coverage_unique(r1, r2);
        assert forall|k: int| 0 <= k < t1.len() implies t1[k] == t2[k] by {
            if k > 0 {
                assert(t1[k] == r1[k - 1] && t2[k] == r2[k - 1]);
            }
        }
    }
}

/// In two collections with the same covered set, the first (lowest)
/// intervals start at the same point.
proof fn lemma_heads_start_equal(t1: Seq<(int, int)>, t2: Seq<(int, int)>)
    requires
        sorted_by_start(t1),
        all_proper(t1),
        sorted_by_start(t2),
        all_proper(t2),
        t1.len() > 0,
        t2.len() > 0,
        forall|x: int| covers(t1, x) <==> covers(t2, x),
    ensures
        t1[0].0 == t2[0].0,
{
    assert(point_in(t1[0], t1[0].0));
    assert(covers(t1, t1[0].0));
    let k = choose|k: int| 0 <= k < t2.len() && #[trigger] point_in(t2[k], t1[0].0);
    assert(start_leq(t2[0], t2[k]) || k == 0);
    assert(t2[0].0 <= t1[0].0);
    assert(point_in(t2[0], t2[0].0));
    assert(covers(t2, t2[0].0));
    let l = choose|l: int| 0 <= l < t1.len() && #[trigger] point_in(t1[l], t2[0].0);
    assert(start_leq(t1[0], t1[l]) || l == 0);
    assert(t1[0].0 <= t2[0].0);
}

/// The end of the first interval of a sorted, disjoint, proper collection
/// is not covered: the first interval stops below it, and every later
/// interval starts above it.
proof fn lemma_head_end_uncovered(t: Seq<(int, int)>)
    requires
        sorted_by_start(t),
        pairwise_disjoint(t),
        all_proper(t),
        t.len() > 0,
    ensures
        !covers(t, t[0].1),
{
    assert forall|k: int| 0 <= k < t.len() implies !point_in(#[trigger] t[k], t[0].1) by {
        if k > 0 {
            lemma_separated(t, 0, k);
        }
    }
}

/// Splitting off the first interval of a sorted, disjoint, proper
/// collection removes exactly the points below its end from the covered
/// set.
proof fn lemma_tail_coverage(t: Seq<(int, int)>)
    requires
        sorted_by_start(t),
        pairwise_disjoint(t),
        all_proper(t),
        t.len() > 0,
    ensures
        forall|x: int| covers(t.drop_first(), x) <==> covers(t, x) && x >= t[0].1,
{
    let r = t.drop_first();
    assert forall|x: int| covers(r, x) implies covers(t, x) && x >= t[0].1 by {
        let k = choose|k: int| 0 <= k < r.len() && #[trigger] point_in(r[k], x);
        assert(r[k] == t[k + 1]);
        lemma_separated(t, 0, k + 1);
        assert(point_in(t[k + 1], x));
    }
    assert forall|x: int| covers(t, x) && x >= t[0].1 implies covers(r, x) by {
        let k = choose|k: int| 0 <= k < t.len() && #[trigger] point_in(t[k], x);
        assert(k > 0);
        assert(point_in(r[k - 1], x));
    }
}

/// The tail of a sorted, disjoint, proper collection is again sorted,
/// disjoint and proper.
proof fn lemma_tail_shape(t: Seq<(int, int)>)
    requires
        sorted_by_start(t),
        pairwise_disjoint(t),
        all_proper(t),
        t.len() > 0,
    ensures
        sorted_by_start(t.drop_first()),
        pairwise_disjoint(t.drop_first()),
        all_proper(t.drop_first()),
{
    let r = t.drop_first();
    assert forall|i: int, j: int| 0 <= i < j < r.len() implies #[trigger] start_leq(
        r[i],
        r[j],
    ) by {
        assert(r[i] == t[i + 1] && r[j] == t[j + 1]);
        assert(start_leq(t[i + 1], t[j + 1]));
    }
    assert forall|i: int, j: int|
        0 <= i < r.len() && 0 <= j < r.len() && i != j implies !(#[trigger] ival_overlaps(
        r[i],
        r[j],
    )) by {
        assert(r[i] == t[i + 1] && r[j] == t[j + 1]);
        assert(!ival_overlaps(t[i + 1], t[j + 1]));
    }
    assert forall|i: int| 0 <= i < r.len() implies proper(#[trigger] r[i]) by {
        assert(r[i] == t[i + 1]);
        assert(proper(t[i + 1]));
    }
}

/// The exported sequence of a pairwise disjoint collection is itself
/// pairwise disjoint: no two distinct exported intervals overlap or
/// touch.
pub proof fn lemma_export_disjoint(s: Seq<(int, int)>)
    requires
        pairwise_disjoint(s),
    ensures
        pairwise_disjoint(export(s)),
{
    lemma_export_ensures(s);
    lemma_multiset_eq_disjoint(s, export(s));
}

/// Every point covered by a pairwise disjoint collection is covered by
/// exactly one entry of its exported sequence.
pub proof fn lemma_export_covers_exactly_once(s: Seq<(int, int)>, x: int)
    requires
        pairwise_disjoint(s),
        covers(s, x),
    ensures
        covers(export(s), x),
        forall|i: int, j: int|
            #![trigger point_in(export(s)[i], x), point_in(export(s)[j], x)]
            0 <= i < export(s).len() && 0 <= j < export(s).len() && point_in(export(s)[i], x)
                && point_in(export(s)[j], x) ==> i == j,
{
    lemma_export_ensures(s);
    lemma_multiset_eq_covers(s, export(s));
    lemma_multiset_eq_disjoint(s, export(s));
    assert forall|i: int, j: int|
        0 <= i < export(s).len() && 0 <= j < export(s).len() && point_in(export(s)[i], x)
            && point_in(export(s)[j], x) implies i == j by {
        lemma_covered_by_at_most_one(export(s), i, j, x);
    }
}

/// Two pairwise disjoint collections of proper intervals that cover the
/// same points export the same sequence.  Since `add_range` grows the
/// covered set by exactly the points of the added range, the covered set
/// after a series of calls is the union of the added ranges — which does
/// not depend on the order of the calls — and so neither does the
/// exported sequence.
pub proof fn lemma_coverage_determines_export(s1: Seq<(int, int)>, s2: Seq<(int, int)>)
    requires
        pairwise_disjoint(s1),
        all_proper(s1),
        pairwise_disjoint(s2),
        all_proper(s2),
        forall|x: int| covers(s1, x) <==> covers(s2, x),
    ensures
        export(s1) == export(s2),
{
    lemma_export_ensures(s1);
    lemma_export_ensures(s2);
    lemma_multiset_eq_covers(s1, export(s1));
    lemma_multiset_eq_covers(s2, export(s2));
    lemma_multiset_eq_disjoint(s1, export(s1));
    lemma_multiset_eq_disjoint(s2, export(s2));
    lemma_multiset_eq_proper(s1, export(s1));
    lemma_multiset_eq_proper(s2, export(s2));
    lemma_sorted_coverage_unique(export(s1), export(s2));
}

/// The exported sequence does not depend on the order in which ranges
/// were added.  `adds1` and `adds2` are the same proper ranges in two
/// different orders; `s1` and `s2` are collections — as `add_range`
/// leaves them — whose covered sets are the unions of `adds1` and of
/// `adds2`.  They export the same sequence.
pub proof fn lemma_export_order_independent(
    adds1: Seq<(int, int)>,
    adds2: Seq<(int, int)>,
    s1: Seq<(int, int)>,
    s2: Seq<(int, int)>,
)
    requires
        adds1.to_multiset() == adds2.to_multiset(),
        pairwise_disjoint(s1),
        all_proper(s1),
        pairwise_disjoint(s2),
        all_proper(s2),
        forall|x: int| covers(s1, x) <==> covers(adds1, x),
        forall|x: int| covers(s2, x) <==> covers(adds2, x),
    ensures
        export(s1) == export(s2),
{
    lemma_multiset_eq_covers(adds1, adds2);
    assert forall|x: int| covers(s1, x) <==> covers(s2, x) by {
        assert(covers(s1, x) <==> covers(adds1, x));
        assert(covers(adds1, x) <==> covers(adds2, x));
        assert(covers(s2, x) <==> covers(adds2, x));
    }
    lemma_coverage_determines_export(s1, s2);
}

/// Adding a proper range whose points are already covered leaves the
/// exported sequence unchanged: `s1` is the collection before such an
/// `add_range` call and `s2` the collection after it, related as the
/// call's postcondition states.
pub proof fn lemma_add_covered_is_noop(s1: Seq<(int, int)>, s2: Seq<(int, int)>, r: (int, int))
    requires
        pairwise_disjoint(s1),
        all_proper(s1),
        pairwise_disjoint(s2),
        all_proper(s2),
        proper(r),
        forall|x: int| point_in(r, x) ==> covers(s1, x),
        forall|x: int| covers(s2, x) <==> covers(s1, x) || point_in(r, x),
    ensures
        export(s2) == export(s1),
{
    lemma_coverage_determines_export(s1, s2);
}

} // verus!
