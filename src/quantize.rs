//! Quantizing an attribute into an ordered list of intervals.
use crate::interval::{
    is_layout, lemma_layout_covers, matched_once, merged_neighbours, neighbours_differ, ranges_non_empty, Interval,
};
use crate::interval::merge::{lemma_merged_neighbours, lemma_merged_nonempty, merge_neighbours_with_same_class};
use ord_subset::OrdSubsetSliceExt;
use vstd::laws_eq::obeys_concrete_eq;
use vstd::prelude::*;

pub mod splits;

use splits::{
    are_boundaries, built, classes_of, intervals_from_splits, lemma_built_layout, lemma_trimmed, trim_splits,
    trimmed,
};

verus! {

/// The observations `(value, class)`, pairing each attribute value with its class.
pub open spec fn observations<C>(values: Seq<i64>, classes: Seq<C>) -> Seq<(i64, C)> {
    Seq::new(values.len(), |i: int| (values[i], classes[i]))
}

/// The observations ordered by value, ascending.
pub open spec fn sorted_by_value<C>(t: Seq<(i64, C)>) -> bool {
    forall|i: int, j: int| 0 <= i < j < t.len() ==> t[i].0 <= t[j].0
}

/// Whether an observation has the value `v`.
pub open spec fn with_value<C>(v: i64) -> spec_fn((i64, C)) -> bool {
    |p: (i64, C)| p.0 == v
}

/// `out` is `input` sorted by value, where observations with equal values keep
/// their order.
pub open spec fn is_stable_sort<C>(input: Seq<(i64, C)>, out: Seq<(i64, C)>) -> bool {
    &&& out.len() == input.len()
    &&& sorted_by_value(out)
    &&& forall|v: i64| #[trigger] out.filter(with_value::<C>(v)) == input.filter(with_value::<C>(v))
}

/// Position `b` of `t` starts a new value.
pub open spec fn is_value_change<C>(t: Seq<(i64, C)>, b: int) -> bool {
    0 < b < t.len() && t[b].0 != t[b - 1].0
}

/// The candidate boundaries of `t`: each position, in order, at which the value
/// differs from the one before it.
pub open spec fn value_splits<C>(t: Seq<(i64, C)>) -> Seq<usize>
    decreases t.len(),
{
    if t.len() <= 1 {
        Seq::empty()
    } else {
        let before = value_splits(t.drop_last());
        if t[t.len() - 1].0 != t[t.len() - 2].0 {
            before.push((t.len() - 1) as usize)
        } else {
            before
        }
    }
}

/// The intervals for the sorted observations `t` with small disjunct threshold
/// `small`: no interval when there is no observation; else the candidate
/// boundaries are trimmed, turned into intervals and neighbours of one class
/// merged.
pub open spec fn quantized<C>(t: Seq<(i64, C)>, small: nat) -> Seq<Interval<i64, C>> {
    if t.len() == 0 {
        Seq::empty()
    } else {
        merged_neighbours(built(t, trimmed(value_splits(t), small, classes_of(t), 0)))
    }
}

/// `intervals` quantizes the attribute `values`, whose classes are `classes`:
/// it is `quantized` of the observations stably sorted by value.
pub open spec fn is_quantization<C>(
    values: Seq<i64>,
    classes: Seq<C>,
    small: nat,
    intervals: Seq<Interval<i64, C>>,
) -> bool {
    exists|t: Seq<(i64, C)>|
        #[trigger] is_stable_sort(observations(values, classes), t) && intervals == quantized(t, small)
}

/// The candidate boundaries are boundaries, each at a change of value, and at
/// most one fewer than the observations.
pub proof fn lemma_value_splits<C>(t: Seq<(i64, C)>)
    requires
        t.len() <= usize::MAX,
    ensures
        are_boundaries(value_splits(t), t.len() as int),
        forall|i: int| 0 <= i < value_splits(t).len() ==> is_value_change(t, #[trigger] value_splits(t)[i] as int),
        t.len() > 0 ==> value_splits(t).len() < t.len(),
    decreases t.len(),
{
    if t.len() > 1 {
        let p = t.drop_last();
        lemma_value_splits(p);
        let vs = value_splits(t);
        let before = value_splits(p);
        assert forall|i: int| 0 <= i < before.len() implies is_value_change(t, #[trigger] before[i] as int) by {
            assert(is_value_change(p, before[i] as int));
        }
        if t[t.len() - 1].0 != t[t.len() - 2].0 {
            assert(vs == before.push((t.len() - 1) as usize));
            assert(vs[vs.len() - 1] == t.len() - 1);
            assert(is_value_change(t, t.len() - 1));
            assert forall|i: int| 0 <= i < vs.len() implies is_value_change(t, #[trigger] vs[i] as int) by {
                if i < before.len() {
                    assert(vs[i] == before[i]);
                }
            }
            assert forall|i: int, j: int| 0 <= i < j < vs.len() implies vs[i] < vs[j] by {
                assert(vs[i] == before[i]);
                assert(0 < before[i] < p.len());
            }
            assert forall|i: int| 0 <= i < vs.len() implies 0 < #[trigger] vs[i] < t.len() by {
                if i < before.len() {
                    assert(vs[i] == before[i]);
                }
            }
        }
    }
}

/// In sorted observations, the value at a change of value exceeds every value
/// before it.
pub proof fn lemma_below_value_change<C>(t: Seq<(i64, C)>, a: int, b: int)
    requires
        sorted_by_value(t),
        is_value_change(t, b),
        0 <= a < b,
    ensures
        t[a].0 < t[b].0,
{
    if a < b - 1 {
        assert(t[a].0 <= t[b - 1].0);
    }
    assert(t[b - 1].0 <= t[b].0);
}

/// Intervals built from boundaries at changes of value of sorted observations
/// have non-empty ranges.
pub proof fn lemma_built_ranges<C>(t: Seq<(i64, C)>, splits: Seq<usize>)
    requires
        t.len() > 0,
        sorted_by_value(t),
        are_boundaries(splits, t.len() as int),
        forall|i: int| 0 <= i < splits.len() ==> is_value_change(t, #[trigger] splits[i] as int),
    ensures
        ranges_non_empty(built(t, splits)),
{
    let xs = built(t, splits);
    let k = splits.len() as int;
    assert forall|j: int| 0 <= j < xs.len() && #[trigger] xs[j] is Range implies xs[j].from_of() < xs[j].below_of() by {
        assert(0 < j < k);
        assert(splits[j - 1] < splits[j]);
        assert(is_value_change(t, splits[j] as int));
        lemma_below_value_change(t, splits[j - 1] as int, splits[j] as int);
    }
}

/// What quantizing sorted observations gives: a layout with non-empty ranges in
/// which no two neighbours predict the same class.
pub proof fn lemma_quantized<C>(t: Seq<(i64, C)>, small: nat)
    requires
        sorted_by_value(t),
        t.len() <= usize::MAX,
    ensures
        is_layout(quantized(t, small)),
        ranges_non_empty(quantized(t, small)),
        neighbours_differ(quantized(t, small)),
        t.len() > 0 ==> quantized(t, small).len() <= trimmed(value_splits(t), small, classes_of(t), 0).len() + 1,
{
    if t.len() > 0 {
        let vs = value_splits(t);
        let n = t.len() as int;
        lemma_value_splits(t);
        lemma_trimmed(vs, small, classes_of(t), 0, n);
        let ts = trimmed(vs, small, classes_of(t), 0);
        assert forall|i: int| 0 <= i < ts.len() implies is_value_change(t, #[trigger] ts[i] as int) by {
            let j = choose|j: int| 0 <= j < vs.len() && vs[j] == ts[i];
            assert(is_value_change(t, vs[j] as int));
        }
        lemma_built_layout(t, ts);
        lemma_built_ranges(t, ts);
        lemma_merged_neighbours(built(t, ts));
    } else {
        assert(quantized(t, small) =~= Seq::<Interval<i64, C>>::empty());
    }
}

/// Quantize observations that are already sorted by value (see `quantized`).
pub fn find_intervals_in_sorted<C: PartialEq + Copy>(sorted: &[(i64, C)], small: usize) -> (r: Vec<Interval<i64, C>>)
    requires
        sorted_by_value(sorted@),
        obeys_concrete_eq::<C>(),
    ensures
        r@ == quantized(sorted@, small as nat),
        is_layout(r@),
        ranges_non_empty(r@),
        neighbours_differ(r@),
{
    let n = sorted.len();
    proof {
        lemma_quantized(sorted@, small as nat);
    }
    if n == 0 {
        let r: Vec<Interval<i64, C>> = Vec::new();
        assert(r@ =~= quantized(sorted@, small as nat));
        return r;
    }
    // A candidate boundary wherever the value changes.
    let mut split_index: Vec<usize> = Vec::new();
    let mut i: usize = 1;
    while i < n
        invariant
            1 <= i <= n,
            n == sorted@.len(),
            split_index@ == value_splits(sorted@.take(i as int)),
        decreases n - i,
    {
        let ghost before = sorted@.take(i as int);
        let ghost after = sorted@.take(i + 1);
        assert(after.drop_last() =~= before);
        assert(after[after.len() - 1] == sorted@[i as int]);
        assert(after[after.len() - 2] == sorted@[i - 1]);
        if sorted[i].0 != sorted[i - 1].0 {
            split_index.push(i);
        }
        i = i + 1;
    }
    assert(sorted@.take(n as int) =~= sorted@);
    proof {
        lemma_value_splits(sorted@);
        lemma_trimmed(split_index@, small as nat, classes_of(sorted@), 0, n as int);
    }
    let split_index_trimmed = trim_splits(split_index, small, sorted);
    let intervals = intervals_from_splits(split_index_trimmed, sorted);
    proof {
        lemma_quantized(sorted@, small as nat);
        let ts = trimmed(value_splits(sorted@), small as nat, classes_of(sorted@), 0);
        assert forall|k: int| 0 <= k < ts.len() implies is_value_change(sorted@, #[trigger] ts[k] as int) by {
            let j = choose|j: int| 0 <= j < value_splits(sorted@).len() && value_splits(sorted@)[j] == ts[k];
            assert(is_value_change(sorted@, value_splits(sorted@)[j] as int));
        }
        lemma_built_layout(sorted@, ts);
        lemma_built_ranges(sorted@, ts);
    }
    merge_neighbours_with_same_class(&intervals)
}

/// Quantize the attribute `attribute`, whose classes are `classes`, into an
/// ordered list of intervals, with small disjunct threshold `small`: an interval
/// must hold some class more than `small` times. The observations are sorted by
/// value (equal values keep their order), a boundary is proposed wherever the
/// value changes, boundaries whose segment has no dominant class are dropped,
/// the rest become intervals that predict their segment's most frequent class,
/// and neighbours that predict the same class are merged.
pub fn find_intervals<C: PartialEq + Copy>(attribute: &[i64], classes: &[C], small: usize) -> (r: Vec<Interval<i64, C>>)
    requires
        attribute@.len() == classes@.len(),
        obeys_concrete_eq::<C>(),
    ensures
        is_quantization(attribute@, classes@, small as nat, r@),
        is_layout(r@),
        ranges_non_empty(r@),
        neighbours_differ(r@),
        r@.len() == 0 <==> attribute@.len() == 0,
{
    let mut sorted: Vec<(i64, C)> = Vec::new();
    let mut i: usize = 0;
    while i < attribute.len()
        invariant
            0 <= i <= attribute@.len(),
            attribute@.len() == classes@.len(),
            sorted@ == observations(attribute@, classes@).take(i as int),
        decreases attribute@.len() - i,
    {
        sorted.push((attribute[i], classes[i]));
        i = i + 1;
        assert(sorted@ =~= observations(attribute@, classes@).take(i as int));
    }
    assert(sorted@ =~= observations(attribute@, classes@));
    sort_by_value(&mut sorted);
    let r = find_intervals_in_sorted(&sorted, small);
    proof {
        assert(is_stable_sort(observations(attribute@, classes@), sorted@));
        if sorted@.len() > 0 {
            assert(r@.len() > 0);
        }
    }
    r
}

/// Each value of the sorted observations is one of the attribute's values.
proof fn lemma_sorted_value_in_input<C>(values: Seq<i64>, classes: Seq<C>, t: Seq<(i64, C)>, x: int)
    requires
        values.len() == classes.len(),
        is_stable_sort(observations(values, classes), t),
        0 <= x < t.len(),
    ensures
        values.contains(t[x].0),
{
    let input = observations(values, classes);
    let p = with_value::<C>(t[x].0);
    t.lemma_filter_contains(p, x);
    assert(t.filter(p) == input.filter(p));
    input.lemma_filter_contains_rev(p, t[x]);
    let y = choose|y: int| 0 <= y < input.len() && input[y] == t[x];
    assert(values[y] == t[x].0);
}

/// Two sequences sorted by value that hold, for every value, the same
/// observations with that value in the same order, are equal.
proof fn lemma_sorted_equal<C>(u: Seq<(i64, C)>, w: Seq<(i64, C)>)
    requires
        u.len() == w.len(),
        sorted_by_value(u),
        sorted_by_value(w),
        forall|v: i64| #[trigger] u.filter(with_value::<C>(v)) == w.filter(with_value::<C>(v)),
    ensures
        u == w,
    decreases u.len(),
{
    reveal(Seq::filter);
    if u.len() > 0 {
        let n = u.len() - 1;
        let top = u[n].0;
        assert(w[n].0 == top) by {
            let pu = with_value::<C>(top);
            u.lemma_filter_contains(pu, n);
            assert(u.filter(pu) == w.filter(pu));
            w.lemma_filter_contains_rev(pu, u[n]);
            let j = choose|j: int| 0 <= j < w.len() && w[j] == u[n];
            if j < n {
                assert(w[j].0 <= w[n].0);
            }
            let pw = with_value::<C>(w[n].0);
            w.lemma_filter_contains(pw, n);
            assert(u.filter(pw) == w.filter(pw));
            u.lemma_filter_contains_rev(pw, w[n]);
            let i = choose|i: int| 0 <= i < u.len() && u[i] == w[n];
            if i < n {
                assert(u[i].0 <= u[n].0);
            }
        }
        let p = with_value::<C>(top);
        assert(u.filter(p) == u.drop_last().filter(p).push(u.last()));
        assert(w.filter(p) == w.drop_last().filter(p).push(w.last()));
        assert(u.filter(p) == w.filter(p));
        assert(u.last() == w.last()) by {
            assert(u.filter(p).last() == u.last());
            assert(w.filter(p).last() == w.last());
        }
        assert forall|v: i64| #[trigger] u.drop_last().filter(with_value::<C>(v)) == w.drop_last().filter(
            with_value::<C>(v),
        ) by {
            let q = with_value::<C>(v);
            assert(u.filter(q) == w.filter(q));
            if v == top {
                assert(u.drop_last().filter(q) == u.filter(q).drop_last());
                assert(w.drop_last().filter(q) == w.filter(q).drop_last());
            } else {
                assert(u.filter(q) == u.drop_last().filter(q));
                assert(w.filter(q) == w.drop_last().filter(q));
            }
        }
        lemma_sorted_equal(u.drop_last(), w.drop_last());
        assert(u =~= u.drop_last().push(u.last()));
        assert(w =~= w.drop_last().push(w.last()));
    }
}

/// The stable sort of a sequence of observations is unique, and so is the
/// quantization of an attribute: `find_intervals` has one possible result.
pub proof fn lemma_quantization_unique<C>(
    values: Seq<i64>,
    classes: Seq<C>,
    small: nat,
    first: Seq<Interval<i64, C>>,
    second: Seq<Interval<i64, C>>,
)
    requires
        is_quantization(values, classes, small, first),
        is_quantization(values, classes, small, second),
    ensures
        first == second,
{
    let input = observations(values, classes);
    let u = choose|t: Seq<(i64, C)>| #[trigger] is_stable_sort(input, t) && first == quantized(t, small);
    let w = choose|t: Seq<(i64, C)>| #[trigger] is_stable_sort(input, t) && second == quantized(t, small);
    assert forall|v: i64| #[trigger] u.filter(with_value::<C>(v)) == w.filter(with_value::<C>(v)) by {
        assert(u.filter(with_value::<C>(v)) == input.filter(with_value::<C>(v)));
        assert(w.filter(with_value::<C>(v)) == input.filter(with_value::<C>(v)));
    }
    lemma_sorted_equal(u, w);
}

/// Coverage: for every attribute with at least one value, each value `v` falls
/// in exactly one of the intervals that quantize it.
pub proof fn lemma_coverage<C>(
    values: Seq<i64>,
    classes: Seq<C>,
    small: nat,
    intervals: Seq<Interval<i64, C>>,
    v: i64,
)
    requires
        values.len() == classes.len(),
        0 < values.len() <= usize::MAX,
        is_quantization(values, classes, small, intervals),
    ensures
        matched_once(intervals, v),
{
    let t = choose|t: Seq<(i64, C)>|
        #[trigger] is_stable_sort(observations(values, classes), t) && intervals == quantized(t, small);
    lemma_quantized(t, small);
    assert(intervals.len() > 0) by {
        assert(t.len() > 0);
        let ts = trimmed(value_splits(t), small, classes_of(t), 0);
        assert(built(t, ts).len() > 0);
        lemma_merged_nonempty(built(t, ts));
    }
    lemma_layout_covers(intervals, v);
}

/// No two neighbouring intervals that quantize an attribute predict the same
/// class.
pub proof fn lemma_neighbours_differ<C>(
    values: Seq<i64>,
    classes: Seq<C>,
    small: nat,
    intervals: Seq<Interval<i64, C>>,
)
    requires
        values.len() == classes.len(),
        values.len() <= usize::MAX,
        is_quantization(values, classes, small, intervals),
    ensures
        forall|i: int| 0 <= i < intervals.len() - 1 ==> #[trigger] intervals[i].class_of() != intervals[i + 1].class_of(),
{
    let t = choose|t: Seq<(i64, C)>|
        #[trigger] is_stable_sort(observations(values, classes), t) && intervals == quantized(t, small);
    lemma_quantized(t, small);
}

/// Boundedness: an attribute is quantized into at most one interval more than
/// it has distinct values.
pub proof fn lemma_boundedness<C>(
    values: Seq<i64>,
    classes: Seq<C>,
    small: nat,
    intervals: Seq<Interval<i64, C>>,
)
    requires
        values.len() == classes.len(),
        values.len() <= usize::MAX,
        is_quantization(values, classes, small, intervals),
    ensures
        intervals.len() <= values.to_set().len() + 1,
{
    let t = choose|t: Seq<(i64, C)>|
        #[trigger] is_stable_sort(observations(values, classes), t) && intervals == quantized(t, small);
    lemma_quantized(t, small);
    if t.len() > 0 {
        let vs = value_splits(t);
        lemma_value_splits(t);
        lemma_trimmed(vs, small, classes_of(t), 0, t.len() as int);
        // The first value, then the value at each candidate boundary: all distinct.
        let firsts = seq![t[0].0] + Seq::new(vs.len(), |j: int| t[vs[j] as int].0);
        assert forall|a: int, b: int| 0 <= a < b < firsts.len() implies firsts[a] < firsts[b] by {
            assert(is_value_change(t, vs[b - 1] as int));
            if a == 0 {
                lemma_below_value_change(t, 0, vs[b - 1] as int);
            } else {
                assert(vs[a - 1] < vs[b - 1]);
                lemma_below_value_change(t, vs[a - 1] as int, vs[b - 1] as int);
            }
        }
        assert(firsts.no_duplicates()) by {
            assert forall|a: int, b: int| 0 <= a < firsts.len() && 0 <= b < firsts.len() && a != b implies firsts[a]
                != firsts[b] by {
                if a < b {
                    assert(firsts[a] < firsts[b]);
                } else {
                    assert(firsts[b] < firsts[a]);
                }
            }
        }
        firsts.unique_seq_to_set();
        assert(firsts.to_set().subset_of(values.to_set())) by {
            assert forall|x: i64| firsts.to_set().contains(x) implies values.to_set().contains(x) by {
                let a = choose|a: int| 0 <= a < firsts.len() && firsts[a] == x;
                if a == 0 {
                    lemma_sorted_value_in_input(values, classes, t, 0);
                } else {
                    lemma_sorted_value_in_input(values, classes, t, vs[a - 1] as int);
                }
            }
        }
        vstd::seq_lib::seq_to_set_is_finite(values);
        vstd::set_lib::lemma_len_subset(firsts.to_set(), values.to_set());
    } else {
        assert(intervals.len() == 0);
    }
}

/// Relies on ord_subset's `ord_subset_sort_by_key`: for a key inside the total
/// order (every `i64` is) it hands the slice to std's stable `sort_by`, which
/// orders by the key and keeps equal keys in their order.
#[verifier::external_body]
fn sort_by_value<C>(pairs: &mut Vec<(i64, C)>)
    ensures
        is_stable_sort(old(pairs)@, final(pairs)@),
{
    pairs.ord_subset_sort_by_key(|pair| pair.0);
}

} // verus!
