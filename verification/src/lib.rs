//! A collection of half-open ranges that merges on insertion.
//!
//! `Ranges` holds a set of half-open intervals `[start, end)` over `i64`.
//! Whenever a new range is added, every stored range that overlaps it —
//! or touches it at a shared endpoint — is folded into a single range, so
//! the collection always holds a set of pairwise disjoint ranges whose
//! union is the union of everything ever added.

use vstd::prelude::*;

pub mod laws;
pub mod model;

verus! {

use std::ops::Range;
use crate::model::{
    all_proper, covers, export, hull, ival_of, ival_overlaps, ivals_of, lemma_covers_push,
    lemma_covers_remove, lemma_disjoint_push, lemma_disjoint_remove, lemma_hull_of_overlapping,
    lemma_ivals_push, lemma_ivals_remove, pairwise_disjoint, point_in, proper, sorted_by_start,
    start_leq,
};

/// Structure that manages the expanding list of ranges.
///
/// A `Ranges` is viewed as the sequence of mathematical intervals its
/// entries denote.  Starting from the empty collection, `add_range` keeps
/// the entries pairwise disjoint while their union grows by exactly the
/// points of each added range.
#[derive(Debug)]
pub struct Ranges(Vec<Range<i64>>);

impl View for Ranges {
    type V = Seq<(int, int)>;

    closed spec fn view(&self) -> Seq<(int, int)> {
        ivals_of(self.0@)
    }
}

impl Default for Ranges {
    /// The empty collection: it covers no point at all.
    fn default() -> (r: Ranges)
        ensures
            r@ =~= Seq::<(int, int)>::empty(),
    {
        Ranges(Vec::new())
    }
}

/// An exact comparison for `[r.start, r.end).contains(x)` under the
/// half-open reading.
fn contains_point(r: &Range<i64>, x: i64) -> (b: bool)
    ensures
        b == point_in(ival_of(*r), x as int),
{
    r.start <= x && x < r.end
}

/// True when either range contains an endpoint of the other; ranges that
/// merely touch at a shared endpoint count as overlapping.
pub fn overlaps(left: &Range<i64>, right: &Range<i64>) -> (b: bool)
    ensures
        b == ival_overlaps(ival_of(*left), ival_of(*right)),
{
    contains_point(left, right.start) || contains_point(left, right.end) || contains_point(
        right,
        left.start,
    ) || contains_point(right, left.end)
}

/// Merges two ranges into the smallest range covering both.  When the two
/// ranges overlap, the result covers exactly the points that one of them
/// covers.
fn flatten_range(left: &Range<i64>, right: &Range<i64>) -> (merged: Range<i64>)
    ensures
        ival_of(merged) == hull(ival_of(*left), ival_of(*right)),
{
    Range {
        start: if left.start <= right.start {
            left.start
        } else {
            right.start
        },
        end: if left.end >= right.end {
            left.end
        } else {
            right.end
        },
    }
}

/// Inserts `r` into `out` directly before the first entry that is not
/// below it, so that a sorted vector stays sorted.
fn sorted_insert(out: &mut Vec<Range<i64>>, r: Range<i64>)
    requires
        sorted_by_start(ivals_of(old(out)@)),
    ensures
        sorted_by_start(ivals_of(final(out)@)),
        ivals_of(final(out)@).to_multiset() == ivals_of(old(out)@).to_multiset().insert(
            ival_of(r),
        ),
{
    let ghost pre = out@;
    let mut i: usize = 0;
    while i < out.len() && (out[i].start < r.start || (out[i].start == r.start && out[i].end
        < r.end))
        invariant
            i <= out@.len(),
            out@ == pre,
            forall|j: int|
                0 <= j < i ==> #[trigger] start_leq(ivals_of(pre)[j], ival_of(r))
                    && ivals_of(pre)[j] != ival_of(r),
        decreases out@.len() - i,
    {
        i = i + 1;
        proof {
            assert forall|j: int| 0 <= j < i implies #[trigger] start_leq(
                ivals_of(pre)[j],
                ival_of(r),
            ) && ivals_of(pre)[j] != ival_of(r) by {
                if j == i - 1 {
                    assert(ivals_of(pre)[j] == ival_of(pre[j]));
                } else {
                    assert(start_leq(ivals_of(pre)[j], ival_of(r)));
                    assert(ivals_of(pre)[j] != ival_of(r));
                }
            }
        }
    }
    proof {
        assert forall|j: int| i <= j < pre.len() implies #[trigger] start_leq(
            ival_of(r),
            ivals_of(pre)[j],
        ) by {
            assert(start_leq(ivals_of(pre)[i as int], ivals_of(pre)[j]) || j == i);
        }
    }
    out.insert(i, r);
    proof {
        crate::model::lemma_ivals_insert(pre, i as int, r);
        vstd::seq_lib::to_multiset_insert(ivals_of(pre), i as int, ival_of(r));
        ivals_of(pre).insert_ensures(i as int, ival_of(r));
        assert forall|k: int, l: int| 0 <= k < l < ivals_of(out@).len() implies #[trigger]
            start_leq(ivals_of(out@)[k], ivals_of(out@)[l]) by {
            let t = ivals_of(pre).insert(i as int, ival_of(r));
            assert(ivals_of(out@) == t);
            if k < i && l < i {
                assert(start_leq(ivals_of(pre)[k], ivals_of(pre)[l]));
            } else if k < i && l > i {
                assert(start_leq(ivals_of(pre)[k], ivals_of(pre)[l - 1]));
            } else if k > i && l > i {
                assert(start_leq(ivals_of(pre)[k - 1], ivals_of(pre)[l - 1]));
            } else if k == i && l > i {
                assert(start_leq(ival_of(r), ivals_of(pre)[l - 1]));
            } else {
                assert(k < i && l == i);
                assert(start_leq(ivals_of(pre)[k], ival_of(r)));
            }
        }
    }
}

impl Ranges {
    /// Looks for a stored range that overlaps `r`; returns its index, or
    /// `None` when no stored range overlaps `r`.
    fn find_overlapping(&self, r: &Range<i64>) -> (found: Option<usize>)
        ensures
            match found {
                Some(i) => i < self@.len() && ival_overlaps(self@[i as int], ival_of(*r)),
                None => forall|j: int|
                    0 <= j < self@.len() ==> !ival_overlaps(self@[j], ival_of(*r)),
            },
    {
        let mut i: usize = 0;
        while i < self.0.len()
            invariant
                i <= self@.len(),
                forall|j: int| 0 <= j < i ==> !ival_overlaps(self@[j], ival_of(*r)),
            decreases self@.len() - i,
        {
            if overlaps(&self.0[i], r) {
                return Some(i);
            }
            i = i + 1;
        }
        None
    }

    /// Generates a Vec of ranges after flattening.
    ///
    /// The result holds exactly the stored ranges, sorted in
    /// non-decreasing order of start; it is `export` of the collection's
    /// view.  The collection itself is left untouched, and the returned
    /// vector is an independent copy.
    pub fn to_vec(&self) -> (r: Vec<Range<i64>>)
        ensures
            ivals_of(r@) == export(self@),
            sorted_by_start(ivals_of(r@)),
            ivals_of(r@).to_multiset() == self@.to_multiset(),
    {
        let mut out: Vec<Range<i64>> = Vec::new();
        proof {
            assert(ivals_of(out@) =~= Seq::<(int, int)>::empty());
            assert(self@.take(0) =~= Seq::<(int, int)>::empty());
        }
        let mut i: usize = 0;
        while i < self.0.len()
            invariant
                i <= self@.len(),
                sorted_by_start(ivals_of(out@)),
                ivals_of(out@).to_multiset() == self@.take(i as int).to_multiset(),
            decreases self@.len() - i,
        {
            let src = &self.0[i];
            let copy = Range { start: src.start, end: src.end };
            let ghost seen = self@.take(i as int);
            sorted_insert(&mut out, copy);
            proof {
                vstd::seq_lib::to_multiset_build(seen, self@[i as int]);
                assert(self@.take(i as int + 1) =~= seen.push(self@[i as int]));
            }
            i = i + 1;
        }
        proof {
            assert(self@.take(self@.len() as int) =~= self@);
            crate::model::lemma_export_is_the_sorted_permutation(self@, ivals_of(out@));
        }
        out
    }

    /// Adds a range to the managed list, expanding existing ranges if there
    /// is overlap.
    ///
    /// The covered set grows by exactly the points of `range`; no other
    /// point appears or disappears.  When the collection was pairwise
    /// disjoint it stays so, and when everything stored and the added
    /// range are proper intervals, everything stored stays proper.
    /// A range with `start >= end` is accepted without validation.
    pub fn add_range(&mut self, range: Range<i64>)
        ensures
            forall|x: int|
                #![trigger covers(final(self)@, x)]
                #![trigger covers(old(self)@, x)]
                covers(final(self)@, x) <==> covers(old(self)@, x) || point_in(
                    ival_of(range),
                    x,
                ),
            pairwise_disjoint(old(self)@) ==> pairwise_disjoint(final(self)@),
            all_proper(old(self)@) && proper(ival_of(range)) ==> all_proper(final(self)@),
    {
        let ghost orig = self@;
        let mut cur = range;
        let mut found = self.find_overlapping(&cur);
        while found.is_some()
            invariant
                forall|x: int|
                    covers(self@, x) || point_in(ival_of(cur), x) <==> covers(orig, x) || point_in(
                        ival_of(range),
                        x,
                    ),
                pairwise_disjoint(orig) ==> pairwise_disjoint(self@),
                all_proper(orig) && proper(ival_of(range)) ==> all_proper(self@) && proper(
                    ival_of(cur),
                ),
                found matches Some(i) ==> i < self@.len() && ival_overlaps(
                    self@[i as int],
                    ival_of(cur),
                ),
                found is None ==> forall|j: int|
                    0 <= j < self@.len() ==> !ival_overlaps(self@[j], ival_of(cur)),
            decreases self@.len(),
        {
            let i = found.unwrap();
            let ghost pre = self.0@;
            let ghost prev_cur = cur;
            let removed = self.0.remove(i);
            cur = flatten_range(&cur, &removed);
            proof {
                lemma_ivals_remove(pre, i as int);
                lemma_covers_remove(ivals_of(pre), i as int);
                if pairwise_disjoint(orig) {
                    lemma_disjoint_remove(ivals_of(pre), i as int);
                }
                lemma_hull_of_overlapping(ival_of(prev_cur), ival_of(removed));
                assert forall|x: int|
                    covers(self@, x) || point_in(ival_of(cur), x) <==> covers(orig, x) || point_in(
                        ival_of(range),
                        x,
                    ) by {
                    assert(ivals_of(pre)[i as int] == ival_of(removed));
                    assert(self@ == ivals_of(pre).remove(i as int));
                    assert(covers(ivals_of(pre), x) <==> covers(self@, x) || point_in(
                        ival_of(removed),
                        x,
                    ));
                    assert(point_in(ival_of(cur), x) <==> point_in(ival_of(prev_cur), x)
                        || point_in(ival_of(removed), x));
                    assert(covers(ivals_of(pre), x) || point_in(ival_of(prev_cur), x) <==> covers(
                        orig,
                        x,
                    ) || point_in(ival_of(range), x));
                }
            }
            found = self.find_overlapping(&cur);
        }
        let ghost before_push = self.0@;
        self.0.push(cur);
        proof {
            lemma_ivals_push(before_push, cur);
            lemma_covers_push(ivals_of(before_push), ival_of(cur));
            if pairwise_disjoint(orig) {
                lemma_disjoint_push(ivals_of(before_push), ival_of(cur));
            }
        }
    }
}

} // verus!
