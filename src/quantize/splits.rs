//! Trimming candidate boundaries and turning the survivors into intervals.
use crate::interval::{is_layout, Interval};
use crate::iter::{first_seen, frequency_count, lemma_first_seen, lemma_occurrences, occurrences, same_item};
use vstd::laws_eq::obeys_concrete_eq;
use vstd::prelude::*;

verus! {

/// The classes of a sequence of observations, in order.
pub open spec fn classes_of<A, C>(data: Seq<(A, C)>) -> Seq<C> {
    data.map_values(|p: (A, C)| p.1)
}

/// Boundaries into a sequence of `n` observations: strictly increasing, and
/// each one strictly inside `(0, n)`.
pub open spec fn are_boundaries(splits: Seq<usize>, n: int) -> bool {
    &&& forall|i: int, j: int| 0 <= i < j < splits.len() ==> splits[i] < splits[j]
    &&& forall|i: int| 0 <= i < splits.len() ==> 0 < #[trigger] splits[i] < n
}

/// No class occurs more than `small` times in `segment`.
pub open spec fn no_dominant<C>(segment: Seq<C>, small: nat) -> bool {
    forall|c: C| #[trigger] occurrences(segment, c) <= small
}

/// The boundaries of `splits` that survive the walk from cursor `start`: a
/// boundary is dropped when the segment from the cursor up to it has no
/// dominant class, and kept otherwise, moving the cursor to it.
pub open spec fn trimmed<C>(splits: Seq<usize>, small: nat, classes: Seq<C>, start: int) -> Seq<usize>
    decreases splits.len(),
{
    if splits.len() == 0 {
        Seq::empty()
    } else {
        let b = splits[0] as int;
        if no_dominant(classes.subrange(start, b), small) {
            trimmed(splits.drop_first(), small, classes, start)
        } else {
            seq![splits[0]] + trimmed(splits.drop_first(), small, classes, b)
        }
    }
}

/// The trimmed boundaries are boundaries too, each one of the candidates, and
/// no more than those.
pub proof fn lemma_trimmed<C>(splits: Seq<usize>, small: nat, classes: Seq<C>, start: int, n: int)
    requires
        are_boundaries(splits, n),
    ensures
        are_boundaries(trimmed(splits, small, classes, start), n),
        forall|i: int|
            0 <= i < trimmed(splits, small, classes, start).len() ==> splits.contains(
                #[trigger] trimmed(splits, small, classes, start)[i],
            ),
        trimmed(splits, small, classes, start).len() <= splits.len(),
    decreases splits.len(),
{
    if splits.len() > 0 {
        let rest = splits.drop_first();
        let b = splits[0] as int;
        assert(are_boundaries(rest, n)) by {
            assert forall|i: int, j: int| 0 <= i < j < rest.len() implies rest[i] < rest[j] by {
                assert(splits[i + 1] < splits[j + 1]);
            }
            assert forall|i: int| 0 <= i < rest.len() implies 0 < #[trigger] rest[i] < n by {
                assert(0 < splits[i + 1] < n);
            }
        }
        lemma_trimmed(rest, small, classes, start, n);
        lemma_trimmed(rest, small, classes, b, n);
        let t = trimmed(splits, small, classes, start);
        let later = if no_dominant(classes.subrange(start, b), small) {
            trimmed(rest, small, classes, start)
        } else {
            trimmed(rest, small, classes, b)
        };
        assert forall|i: int| 0 <= i < later.len() implies splits.contains(#[trigger] later[i]) && splits[0] < later[i] by {
            let j = choose|j: int| 0 <= j < rest.len() && rest[j] == later[i];
            assert(splits[j + 1] == later[i]);
            assert(splits[0] < splits[j + 1]);
        }
        if !no_dominant(classes.subrange(start, b), small) {
            assert(t == seq![splits[0]] + later);
            assert forall|i: int| 0 <= i < t.len() implies splits.contains(#[trigger] t[i]) by {
                if i == 0 {
                    assert(splits[0] == t[0]);
                } else {
                    assert(t[i] == later[i - 1]);
                }
            }
            assert forall|i: int, j: int| 0 <= i < j < t.len() implies t[i] < t[j] by {
                assert(t[j] == later[j - 1]);
                if i > 0 {
                    assert(t[i] == later[i - 1]);
                }
            }
            assert forall|i: int| 0 <= i < t.len() implies 0 < #[trigger] t[i] < n by {
                if i > 0 {
                    assert(t[i] == later[i - 1]);
                }
            }
        }
    }
}

/// With threshold 0 no boundary is dropped: every segment that a boundary
/// closes is non-empty, so some class occurs in it more than 0 times.
pub proof fn lemma_trim_threshold_zero<C>(splits: Seq<usize>, classes: Seq<C>, start: int)
    requires
        are_boundaries(splits, classes.len() as int),
        0 <= start,
        splits.len() > 0 ==> start < splits[0],
    ensures
        trimmed(splits, 0, classes, start) == splits,
    decreases splits.len(),
{
    if splits.len() > 0 {
        let rest = splits.drop_first();
        let b = splits[0] as int;
        let segment = classes.subrange(start, b);
        assert(segment.contains(segment[0]));
        lemma_occurrences(segment, segment[0]);
        assert(!no_dominant(segment, 0));
        assert(are_boundaries(rest, classes.len() as int)) by {
            assert forall|i: int, j: int| 0 <= i < j < rest.len() implies rest[i] < rest[j] by {
                assert(splits[i + 1] < splits[j + 1]);
            }
            assert forall|i: int| 0 <= i < rest.len() implies 0 < #[trigger] rest[i] < classes.len() by {
                assert(0 < splits[i + 1] < classes.len());
            }
        }
        if rest.len() > 0 {
            assert(splits[0] < splits[1]);
        }
        lemma_trim_threshold_zero(rest, classes, b);
        assert(seq![splits[0]] + rest =~= splits);
    }
}

/// Does the segment `[start, until)` of `data` lack a class that occurs more
/// than `small` times?
fn no_dominant_class<A, C: PartialEq + Copy>(start: usize, until: usize, small: usize, data: &[(A, C)]) -> (r: bool)
    requires
        start <= until <= data@.len(),
        obeys_concrete_eq::<C>(),
    ensures
        r == no_dominant(classes_of(data@).subrange(start as int, until as int), small as nat),
{
    assert(classes_of(data@).len() == data@.len());
    let classes = segment_classes(start, until, data);
    let ghost segment = classes_of(data@).subrange(start as int, until as int);
    let counts = frequency_count(&classes);
    proof {
        lemma_first_seen(segment);
    }
    let mut j: usize = 0;
    while j < counts.len()
        invariant
            0 <= j <= counts@.len(),
            segment == classes_of(data@).subrange(start as int, until as int),
            counts@.len() == first_seen(segment).len(),
            forall|a: int|
                0 <= a < counts@.len() ==> (#[trigger] counts@[a]).0 == first_seen(segment)[a] && counts@[a].1
                    == occurrences(segment, counts@[a].0),
            forall|a: int| 0 <= a < j ==> (#[trigger] counts@[a]).1 <= small,
        decreases counts@.len() - j,
    {
        if counts[j].1 > small {
            assert(occurrences(segment, counts@[j as int].0) > small as nat);
            assert(!no_dominant(segment, small as nat));
            return false;
        }
        j = j + 1;
    }
    proof {
        assert forall|c: C| #[trigger] occurrences(segment, c) <= small by {
            lemma_occurrences(segment, c);
            if segment.contains(c) {
                let a = choose|a: int| 0 <= a < first_seen(segment).len() && first_seen(segment)[a] == c;
                assert(counts@[a].1 <= small);
            }
        }
    }
    true
}

/// The classes of the segment `[start, until)` of `data`.
fn segment_classes<A, C: Copy>(start: usize, until: usize, data: &[(A, C)]) -> (r: Vec<C>)
    requires
        start <= until <= data@.len(),
    ensures
        r@ == classes_of(data@).subrange(start as int, until as int),
{
    let mut classes: Vec<C> = Vec::new();
    let mut k: usize = start;
    while k < until
        invariant
            start <= k <= until <= data@.len(),
            classes@ == classes_of(data@).subrange(start as int, k as int),
        decreases until - k,
    {
        classes.push(data[k].1);
        k = k + 1;
        assert(classes@ =~= classes_of(data@).subrange(start as int, k as int));
    }
    classes
}

/// Drop the boundaries whose segment has no dominant class (see `trimmed`),
/// walking from the first observation.
pub fn trim_splits<A, C: PartialEq + Copy>(splits: Vec<usize>, small: usize, data: &[(A, C)]) -> (r: Vec<usize>)
    requires
        are_boundaries(splits@, data@.len() as int),
        obeys_concrete_eq::<C>(),
    ensures
        r@ == trimmed(splits@, small as nat, classes_of(data@), 0),
        small == 0 ==> r@ == splits@,
{
    proof {
        if small == 0 {
            lemma_trim_threshold_zero(splits@, classes_of(data@), 0);
        }
    }
    let keep: Vec<usize> = Vec::new();
    let r = trim_splits0(splits.as_slice(), small, data, keep, 0);
    assert(r@ =~= trimmed(splits@, small as nat, classes_of(data@), 0));
    r
}

/// The walk of `trim_splits` from cursor `start_index`, appending the
/// boundaries it keeps to `keep`.
fn trim_splits0<A, C: PartialEq + Copy>(
    splits: &[usize],
    small: usize,
    data: &[(A, C)],
    keep: Vec<usize>,
    start_index: usize,
) -> (r: Vec<usize>)
    requires
        are_boundaries(splits@, data@.len() as int),
        splits@.len() > 0 ==> start_index <= splits@[0],
        start_index <= data@.len(),
        obeys_concrete_eq::<C>(),
    ensures
        r@ == keep@ + trimmed(splits@, small as nat, classes_of(data@), start_index as int),
{
    let ghost classes = classes_of(data@);
    let mut keep = keep;
    let ghost goal = keep@ + trimmed(splits@, small as nat, classes, start_index as int);
    let mut start = start_index;
    let mut i: usize = 0;
    assert(splits@.subrange(0, splits@.len() as int) =~= splits@);
    while i < splits.len()
        invariant
            0 <= i <= splits@.len(),
            are_boundaries(splits@, data@.len() as int),
            start <= data@.len(),
            i < splits@.len() ==> start <= splits@[i as int],
            obeys_concrete_eq::<C>(),
            classes == classes_of(data@),
            keep@ + trimmed(splits@.subrange(i as int, splits@.len() as int), small as nat, classes, start as int)
                == goal,
        decreases splits@.len() - i,
    {
        let b = splits[i];
        let ghost rest = splits@.subrange(i as int, splits@.len() as int);
        assert(rest[0] == b);
        assert(rest.drop_first() =~= splits@.subrange(i + 1, splits@.len() as int));
        if no_dominant_class(start, b, small, data) {
        } else {
            let ghost before = keep@;
            keep.push(b);
            start = b;
            assert(before + (seq![b] + trimmed(rest.drop_first(), small as nat, classes, b as int)) =~= keep@
                + trimmed(rest.drop_first(), small as nat, classes, b as int));
        }
        i = i + 1;
        if i < splits.len() {
            assert(splits@[i - 1] < splits@[i as int]);
        }
    }
    assert(splits@.subrange(i as int, splits@.len() as int) =~= Seq::<usize>::empty());
    assert(keep@ + Seq::<usize>::empty() =~= keep@);
    keep
}

/// `c` is a most frequent class of `segment`: it occurs there, no class occurs
/// more often, and every class met before its first occurrence occurs less
/// often. So a tie goes to the class seen first.
pub open spec fn is_most_frequent<C>(segment: Seq<C>, c: C) -> bool {
    exists|i: int|
        {
            &&& 0 <= i < segment.len()
            &&& #[trigger] segment[i] == c
            &&& forall|d: C| #[trigger] occurrences(segment, d) <= occurrences(segment, c)
            &&& forall|j: int| 0 <= j < i ==> occurrences(segment, #[trigger] segment[j]) < occurrences(segment, c)
        }
}

/// The most frequent class of a non-empty segment (see `is_most_frequent`).
pub open spec fn most_frequent<C>(segment: Seq<C>) -> C {
    choose|c: C| is_most_frequent(segment, c)
}

/// The class that the segment `[start, until)` of `data` predicts.
pub open spec fn segment_class<A, C>(data: Seq<(A, C)>, start: int, until: int) -> C {
    most_frequent(classes_of(data).subrange(start, until))
}

/// A segment has at most one most frequent class.
pub proof fn lemma_most_frequent_unique<C>(segment: Seq<C>, c: C, d: C)
    requires
        is_most_frequent(segment, c),
        is_most_frequent(segment, d),
    ensures
        c == d,
{
    let i = choose|i: int|
        {
            &&& 0 <= i < segment.len()
            &&& #[trigger] segment[i] == c
            &&& forall|e: C| #[trigger] occurrences(segment, e) <= occurrences(segment, c)
            &&& forall|j: int| 0 <= j < i ==> occurrences(segment, #[trigger] segment[j]) < occurrences(segment, c)
        };
    let k = choose|k: int|
        {
            &&& 0 <= k < segment.len()
            &&& #[trigger] segment[k] == d
            &&& forall|e: C| #[trigger] occurrences(segment, e) <= occurrences(segment, d)
            &&& forall|j: int| 0 <= j < k ==> occurrences(segment, #[trigger] segment[j]) < occurrences(segment, d)
        };
    assert(occurrences(segment, c) == occurrences(segment, d)) by {
        assert(occurrences(segment, c) <= occurrences(segment, d));
        assert(occurrences(segment, d) <= occurrences(segment, c));
    }
    if i < k {
        assert(occurrences(segment, segment[i]) < occurrences(segment, d));
    } else if k < i {
        assert(occurrences(segment, segment[k]) < occurrences(segment, c));
    }
}

/// The number of times `c` occurs in `segment`, read off its frequency table.
fn count_in_table<C: PartialEq + Copy>(counts: &Vec<(C, usize)>, c: &C, Ghost(segment): Ghost<Seq<C>>) -> (r: usize)
    requires
        obeys_concrete_eq::<C>(),
        segment.contains(*c),
        counts@.len() == first_seen(segment).len(),
        forall|a: int|
            0 <= a < counts@.len() ==> (#[trigger] counts@[a]).0 == first_seen(segment)[a] && counts@[a].1
                == occurrences(segment, counts@[a].0),
    ensures
        r == occurrences(segment, *c),
{
    proof {
        lemma_first_seen(segment);
    }
    let ghost at = choose|a: int| 0 <= a < first_seen(segment).len() && first_seen(segment)[a] == *c;
    let len = counts.len();
    let mut j: usize = 0;
    while !same_item(&counts[j].0, c)
        invariant
            0 <= j <= at,
            0 <= at < counts@.len(),
            len == counts@.len(),
            counts@[at].0 == *c,
            obeys_concrete_eq::<C>(),
        decreases at - j,
    {
        assert(counts@[j as int].0 != *c);
        j = j + 1;
    }
    counts[j].1
}

/// The most frequent class of the non-empty segment `[start, until)` of `data`.
fn most_frequent_class<A, C: PartialEq + Copy>(start: usize, until: usize, data: &[(A, C)]) -> (r: C)
    requires
        start < until <= data@.len(),
        obeys_concrete_eq::<C>(),
    ensures
        is_most_frequent(classes_of(data@).subrange(start as int, until as int), r),
        r == segment_class(data@, start as int, until as int),
{
    assert(classes_of(data@).len() == data@.len());
    let classes = segment_classes(start, until, data);
    let ghost segment = classes@;
    let counts = frequency_count(&classes);
    assert(segment[0] == classes@[0]);
    let mut best = classes[0];
    let mut best_count = count_in_table(&counts, &best, Ghost(segment));
    let ghost mut best_at: int = 0;
    let mut i: usize = 1;
    while i < classes.len()
        invariant
            1 <= i <= classes@.len(),
            segment == classes@,
            obeys_concrete_eq::<C>(),
            counts@.len() == first_seen(segment).len(),
            forall|a: int|
                0 <= a < counts@.len() ==> (#[trigger] counts@[a]).0 == first_seen(segment)[a] && counts@[a].1
                    == occurrences(segment, counts@[a].0),
            0 <= best_at < i,
            segment[best_at] == best,
            best_count == occurrences(segment, best),
            forall|j: int| 0 <= j < i ==> occurrences(segment, #[trigger] segment[j]) <= best_count,
            forall|j: int| 0 <= j < best_at ==> occurrences(segment, #[trigger] segment[j]) < best_count,
        decreases classes@.len() - i,
    {
        let c = classes[i];
        assert(segment[i as int] == c);
        let count = count_in_table(&counts, &c, Ghost(segment));
        if count > best_count {
            best = c;
            best_count = count;
            proof {
                best_at = i as int;
            }
        }
        i = i + 1;
    }
    proof {
        assert forall|d: C| #[trigger] occurrences(segment, d) <= occurrences(segment, best) by {
            lemma_occurrences(segment, d);
            if segment.contains(d) {
                let j = choose|j: int| 0 <= j < segment.len() && segment[j] == d;
                assert(occurrences(segment, segment[j]) <= best_count);
            }
        }
        assert(is_most_frequent(segment, best));
        lemma_most_frequent_unique(segment, best, most_frequent(segment));
    }
    best
}

/// The intervals for the boundaries `splits` of `data`: a single `Infinite`
/// when there is no boundary, else a `Lower` up to the first boundary, a
/// `Range` between each two neighbouring boundaries and an `Upper` from the
/// last one; each predicts the most frequent class of its segment.
pub open spec fn built<A, C>(data: Seq<(A, C)>, splits: Seq<usize>) -> Seq<Interval<A, C>> {
    let n = data.len() as int;
    let k = splits.len() as int;
    if k == 0 {
        seq![Interval::Infinite { class: segment_class(data, 0, n) }]
    } else {
        Seq::new(
            (k + 1) as nat,
            |j: int|
                if j == 0 {
                    Interval::Lower { below: data[splits[0] as int].0, class: segment_class(data, 0, splits[0] as int) }
                } else if j == k {
                    Interval::Upper {
                        from: data[splits[k - 1] as int].0,
                        class: segment_class(data, splits[k - 1] as int, n),
                    }
                } else {
                    Interval::Range {
                        from: data[splits[j - 1] as int].0,
                        below: data[splits[j] as int].0,
                        class: segment_class(data, splits[j - 1] as int, splits[j] as int),
                    }
                },
        )
    }
}

/// The intervals built from boundaries form a layout.
pub proof fn lemma_built_layout<A, C>(data: Seq<(A, C)>, splits: Seq<usize>)
    requires
        data.len() > 0,
        are_boundaries(splits, data.len() as int),
    ensures
        is_layout(built(data, splits)),
{
    let xs = built(data, splits);
    let k = splits.len() as int;
    if k > 0 {
        assert(xs[0] is Lower);
        assert(xs.last() is Upper);
        assert forall|i: int| 0 < i < xs.len() - 1 implies #[trigger] xs[i] is Range by {}
        assert forall|i: int| 0 <= i < xs.len() - 1 implies #[trigger] xs[i].below_of() == xs[i + 1].from_of() by {}
    }
}

/// Turn the boundaries `splits` of the non-empty `data` into intervals (see `built`).
pub fn intervals_from_splits<A: Copy, C: PartialEq + Copy>(splits: Vec<usize>, data: &[(A, C)]) -> (r: Vec<
    Interval<A, C>,
>)
    requires
        data@.len() > 0,
        are_boundaries(splits@, data@.len() as int),
        obeys_concrete_eq::<C>(),
    ensures
        r@ == built(data@, splits@),
{
    let n = data.len();
    let k = splits.len();
    if k == 0 {
        let class = most_frequent_class(0, n, data);
        let r = vec![Interval::Infinite { class }];
        assert(r@ =~= built(data@, splits@));
        return r;
    }
    let mut intervals: Vec<Interval<A, C>> = Vec::new();
    let first = splits[0];
    intervals.push(Interval::Lower { below: data[first].0, class: most_frequent_class(0, first, data) });
    let mut j: usize = 1;
    while j < k
        invariant
            1 <= j <= k,
            k == splits@.len(),
            n == data@.len(),
            are_boundaries(splits@, n as int),
            obeys_concrete_eq::<C>(),
            intervals@ =~= built(data@, splits@).take(j as int),
        decreases k - j,
    {
        let from = splits[j - 1];
        let below = splits[j];
        assert(from < below);
        let class = most_frequent_class(from, below, data);
        intervals.push(Interval::Range { from: data[from].0, below: data[below].0, class });
        j = j + 1;
        assert(intervals@ =~= built(data@, splits@).take(j as int));
    }
    let last = splits[k - 1];
    let class = most_frequent_class(last, n, data);
    intervals.push(Interval::Upper { from: data[last].0, class });
    assert(intervals@ =~= built(data@, splits@));
    intervals
}

} // verus!
