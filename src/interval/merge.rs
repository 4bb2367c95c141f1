//! Joining neighbouring intervals that predict the same class.
use super::{
    is_layout, joinable, joined, neighbours_differ, ranges_non_empty, Interval,
};
use crate::iter::same_item;
use vstd::laws_eq::obeys_concrete_eq;
use vstd::prelude::*;

verus! {

/// The intervals `xs` after each one that predicts the same class as the
/// (already merged) interval before it has been joined into that interval.
pub open spec fn merged_neighbours<A, C>(xs: Seq<Interval<A, C>>) -> Seq<Interval<A, C>>
    decreases xs.len(),
{
    if xs.len() == 0 {
        Seq::empty()
    } else {
        let m = merged_neighbours(xs.drop_last());
        let x = xs.last();
        if m.len() > 0 && m.last().class_of() == x.class_of() {
            m.drop_last().push(joined(m.last(), x))
        } else {
            m.push(x)
        }
    }
}

/// A list that can still grow into a layout: a `Lower` followed by `Range`s,
/// each one starting where the one before it ends.
spec fn is_open_layout<A, C>(xs: Seq<Interval<A, C>>) -> bool {
    &&& xs.len() >= 1
    &&& xs[0] is Lower
    &&& forall|i: int| 0 < i < xs.len() ==> #[trigger] xs[i] is Range
    &&& forall|i: int| 0 <= i < xs.len() - 1 ==> #[trigger] xs[i].below_of() == xs[i + 1].from_of()
}

/// What holds of `m`, the first `i` intervals of the layout `xs` after merging.
spec fn merge_progress<C>(xs: Seq<Interval<i64, C>>, i: int, m: Seq<Interval<i64, C>>) -> bool {
    &&& 1 <= m.len() <= i
    &&& m.last().class_of() == xs[i - 1].class_of()
    &&& neighbours_differ(m)
    &&& ranges_non_empty(m)
    &&& i < xs.len() ==> is_open_layout(m) && m.last().below_of() == xs[i - 1].below_of()
    &&& i == xs.len() ==> is_layout(m)
}

/// Merging one more interval of a layout keeps `merge_progress`.
proof fn lemma_merge_step<C>(xs: Seq<Interval<i64, C>>, i: int)
    requires
        is_layout(xs),
        ranges_non_empty(xs),
        1 <= i < xs.len(),
        merge_progress(xs, i, merged_neighbours(xs.take(i))),
    ensures
        merge_progress(xs, i + 1, merged_neighbours(xs.take(i + 1))),
{
    let n = xs.len();
    let m = merged_neighbours(xs.take(i));
    let x = xs[i];
    let k = m.len() - 1;
    assert(xs.take(i + 1).drop_last() =~= xs.take(i));
    assert(xs.take(i + 1).last() == x);
    assert(n >= 2);
    assert(i + 1 < n ==> x is Range);
    assert(i + 1 == n ==> x is Upper);
    assert(x.from_of() == xs[i - 1].below_of());
    let r = merged_neighbours(xs.take(i + 1));
    if m.last().class_of() == x.class_of() {
        assert(r == m.drop_last().push(joined(m.last(), x)));
        if k > 0 {
            assert(m[k - 1].class_of() != m[k].class_of());
            assert(m[k - 1].below_of() == m[k].from_of());
        }
        if m.last() is Range {
            assert(m.last().from_of() < m.last().below_of());
        }
        if x is Range {
            assert(x.from_of() < x.below_of());
        }
        assert forall|a: int| 0 <= a < r.len() - 1 implies #[trigger] r[a].class_of() != r[a + 1].class_of() by {
            assert(m[a].class_of() != m[a + 1].class_of());
        }
        assert forall|a: int| 0 <= a < r.len() && #[trigger] r[a] is Range implies r[a].from_of()
            < r[a].below_of() by {
            if a < k {
                assert(m[a] is Range);
            }
        }
        if i + 1 < n {
            assert forall|a: int| 0 <= a < r.len() - 1 implies #[trigger] r[a].below_of() == r[a
                + 1].from_of() by {
                assert(m[a].below_of() == m[a + 1].from_of());
            }
        } else if k > 0 {
            assert forall|a: int| 0 <= a < r.len() - 1 implies #[trigger] r[a].below_of() == r[a
                + 1].from_of() by {
                assert(m[a].below_of() == m[a + 1].from_of());
            }
            assert forall|a: int| 0 < a < r.len() - 1 implies #[trigger] r[a] is Range by {
                assert(m[a] is Range);
            }
        }
    } else {
        assert(r == m.push(x));
        assert forall|a: int| 0 <= a < r.len() - 1 implies #[trigger] r[a].class_of() != r[a + 1].class_of() by {
            if a < k {
                assert(m[a].class_of() != m[a + 1].class_of());
            }
        }
        assert forall|a: int| 0 <= a < r.len() - 1 implies #[trigger] r[a].below_of() == r[a + 1].from_of() by {
            if a < k {
                assert(m[a].below_of() == m[a + 1].from_of());
            }
        }
        assert forall|a: int| 0 < a < r.len() - 1 implies #[trigger] r[a] is Range by {
            assert(m[a] is Range);
        }
        if x is Range {
            assert(x.from_of() < x.below_of());
        }
        assert forall|a: int| 0 <= a < r.len() && #[trigger] r[a] is Range implies r[a].from_of()
            < r[a].below_of() by {
            if a <= k {
                assert(m[a] is Range);
            }
        }
    }
}

/// `merge_progress` holds of the first `i` intervals of a layout.
proof fn lemma_merge_upto<C>(xs: Seq<Interval<i64, C>>, i: int)
    requires
        is_layout(xs),
        ranges_non_empty(xs),
        1 <= i <= xs.len(),
    ensures
        merge_progress(xs, i, merged_neighbours(xs.take(i))),
    decreases i,
{
    if i == 1 {
        let t = xs.take(1);
        assert(t.drop_last() =~= Seq::<Interval<i64, C>>::empty());
        assert(merged_neighbours(t.drop_last()).len() == 0);
        assert(t.last() == xs[0]);
        assert(merged_neighbours(t) =~= seq![xs[0]]);
        assert(xs.len() == 1 ==> xs[0] is Infinite);
        assert(xs.len() > 1 ==> xs[0] is Lower);
    } else {
        lemma_merge_upto(xs, i - 1);
        lemma_merge_step(xs, i - 1);
    }
}

/// Merging a layout with non-empty ranges gives a layout with non-empty ranges,
/// no longer than before, in which no two neighbours predict the same class.
pub proof fn lemma_merged_neighbours<C>(xs: Seq<Interval<i64, C>>)
    requires
        is_layout(xs),
        ranges_non_empty(xs),
    ensures
        is_layout(merged_neighbours(xs)),
        ranges_non_empty(merged_neighbours(xs)),
        neighbours_differ(merged_neighbours(xs)),
        merged_neighbours(xs).len() <= xs.len(),
{
    if xs.len() == 0 {
        assert(merged_neighbours(xs) =~= Seq::<Interval<i64, C>>::empty());
    } else {
        lemma_merge_upto(xs, xs.len() as int);
        assert(xs.take(xs.len() as int) =~= xs);
    }
}

/// Merging a non-empty list leaves at least one interval.
pub proof fn lemma_merged_nonempty<A, C>(xs: Seq<Interval<A, C>>)
    requires
        xs.len() > 0,
    ensures
        merged_neighbours(xs).len() > 0,
{
}

fn interval_merge<C: Copy>(previous: &Interval<i64, C>, later: &Interval<i64, C>) -> (r: Interval<i64, C>)
    requires
        joinable(*previous, *later),
    ensures
        r == joined(*previous, *later),
{
    previous.merge(later)
}

/// After constructing intervals, merge together neighbouring intervals with the
/// same predicted class.
pub fn merge_neighbours_with_same_class<C: Copy + PartialEq>(intervals: &[Interval<i64, C>]) -> (r: Vec<Interval<i64, C>>)
    requires
        is_layout(intervals@),
        ranges_non_empty(intervals@),
        obeys_concrete_eq::<C>(),
    ensures
        r@ == merged_neighbours(intervals@),
        is_layout(r@),
        ranges_non_empty(r@),
        neighbours_differ(r@),
{
    proof {
        lemma_merged_neighbours(intervals@);
    }
    let n = intervals.len();
    let mut merged: Vec<Interval<i64, C>> = Vec::new();
    if n == 0 {
        assert(merged@ =~= merged_neighbours(intervals@));
        return merged;
    }
    merged.push(intervals[0]);
    proof {
        lemma_merge_upto(intervals@, 1);
        assert(merged@ =~= merged_neighbours(intervals@.take(1)));
    }
    let mut i: usize = 1;
    while i < n
        invariant
            n == intervals@.len(),
            1 <= i <= n,
            is_layout(intervals@),
            ranges_non_empty(intervals@),
            obeys_concrete_eq::<C>(),
            merged@ == merged_neighbours(intervals@.take(i as int)),
            merge_progress(intervals@, i as int, merged@),
        decreases n - i,
    {
        let k = merged.len() - 1;
        let ghost m = merged@;
        let ghost x = intervals@[i as int];
        assert(intervals@.take(i + 1).drop_last() =~= intervals@.take(i as int));
        assert(intervals@.take(i + 1).last() == x);
        assert(x is Range || x is Upper) by {
            assert(intervals@.len() >= 2);
        }
        if same_item(intervals[i].class(), merged[k].class()) {
            let j = interval_merge(&merged[k], &intervals[i]);
            merged.set(k, j);
            assert(merged@ =~= m.drop_last().push(joined(m.last(), x)));
        } else {
            merged.push(intervals[i]);
            assert(merged@ =~= m.push(x));
        }
        proof {
            lemma_merge_step(intervals@, i as int);
        }
        i = i + 1;
    }
    assert(intervals@.take(n as int) =~= intervals@);
    merged
}

} // verus!
