//! The interval type: a range of attribute values that predicts a class.
use vstd::laws_eq::obeys_concrete_eq;
use vstd::prelude::*;

pub mod merge;

pub use merge::{merge_neighbours_with_same_class, merged_neighbours};

verus! {

/// An interval maps a range of values of type `A` to a class `C`.
#[derive(Debug, Clone, Copy, PartialEq)]
pub enum Interval<A, C> {
    /// Every value below `below`, such as `< 100`.
    Lower { below: A, class: C },
    /// The half-open range `[from, below)`.
    Range { from: A, below: A, class: C },
    /// Every value from `from` upwards, such as `>= 200`.
    Upper { from: A, class: C },
    /// Every value.
    Infinite { class: C },
}

impl<A, C> Interval<A, C> {
    /// The class that the interval predicts.
    pub open spec fn class_of(self) -> C {
        match self {
            Interval::Lower { class, .. } => class,
            Interval::Range { class, .. } => class,
            Interval::Upper { class, .. } => class,
            Interval::Infinite { class } => class,
        }
    }

    /// The exclusive upper bound of a `Lower` or `Range` interval.
    pub open spec fn below_of(self) -> A
        recommends
            self is Lower || self is Range,
    {
        match self {
            Interval::Lower { below, .. } => below,
            Interval::Range { below, .. } => below,
            _ => arbitrary(),
        }
    }

    /// The inclusive lower bound of a `Range` or `Upper` interval.
    pub open spec fn from_of(self) -> A
        recommends
            self is Range || self is Upper,
    {
        match self {
            Interval::Range { from, .. } => from,
            Interval::Upper { from, .. } => from,
            _ => arbitrary(),
        }
    }
}

/// The shape of an ordered list of intervals: empty, a single `Infinite`, or a
/// `Lower`, then `Range`s, then an `Upper`, each one starting where the one
/// before it ends.
pub open spec fn is_layout<A, C>(xs: Seq<Interval<A, C>>) -> bool {
    ||| xs.len() == 0
    ||| xs.len() == 1 && xs[0] is Infinite
    ||| {
        &&& xs.len() >= 2
        &&& xs[0] is Lower
        &&& xs.last() is Upper
        &&& forall|i: int| 0 < i < xs.len() - 1 ==> #[trigger] xs[i] is Range
        &&& forall|i: int| 0 <= i < xs.len() - 1 ==> #[trigger] xs[i].below_of() == xs[i + 1].from_of()
    }
}

/// Every `Range` of the list is non-empty.
pub open spec fn ranges_non_empty<C>(xs: Seq<Interval<i64, C>>) -> bool {
    forall|i: int| 0 <= i < xs.len() && #[trigger] xs[i] is Range ==> xs[i].from_of() < xs[i].below_of()
}

/// No two neighbours of the list predict the same class.
pub open spec fn neighbours_differ<A, C>(xs: Seq<Interval<A, C>>) -> bool {
    forall|i: int| 0 <= i < xs.len() - 1 ==> #[trigger] xs[i].class_of() != xs[i + 1].class_of()
}

/// Whether `previous` and the interval that follows it can be joined.
pub open spec fn joinable<A, C>(previous: Interval<A, C>, later: Interval<A, C>) -> bool {
    (previous is Lower || previous is Range) && (later is Range || later is Upper)
}

/// One interval that covers `previous` and the interval `later` right after it,
/// predicting the class of `later`.
pub open spec fn joined<A, C>(previous: Interval<A, C>, later: Interval<A, C>) -> Interval<A, C>
    recommends
        joinable(previous, later),
{
    match (previous, later) {
        (Interval::Lower { .. }, Interval::Range { below, class, .. }) => Interval::Lower { below, class },
        (Interval::Lower { .. }, Interval::Upper { class, .. }) => Interval::Infinite { class },
        (Interval::Range { from, .. }, Interval::Range { below, class, .. }) => Interval::Range { from, below, class },
        (Interval::Range { from, .. }, Interval::Upper { class, .. }) => Interval::Upper { from, class },
        _ => arbitrary(),
    }
}

/// Whether `value` falls inside `iv`.
pub open spec fn contains_value<C>(iv: Interval<i64, C>, value: i64) -> bool {
    match iv {
        Interval::Lower { below, .. } => value < below,
        Interval::Range { from, below, .. } => from <= value && value < below,
        Interval::Upper { from, .. } => from <= value,
        Interval::Infinite { .. } => true,
    }
}

/// Exactly one interval of `xs` holds `value`.
pub open spec fn matched_once<C>(xs: Seq<Interval<i64, C>>, value: i64) -> bool {
    exists|i: int|
        0 <= i < xs.len() && #[trigger] contains_value(xs[i], value) && forall|j: int|
            0 <= j < xs.len() && #[trigger] contains_value(xs[j], value) ==> j == i
}

/// In a layout with non-empty ranges the bounds between neighbours increase.
proof fn lemma_cuts_increase<C>(xs: Seq<Interval<i64, C>>, a: int, b: int)
    requires
        is_layout(xs),
        ranges_non_empty(xs),
        0 <= a < b < xs.len() - 1,
    ensures
        xs[a].below_of() < xs[b].below_of(),
    decreases b - a,
{
    assert(xs[b] is Range);
    assert(xs[b - 1].below_of() == xs[b].from_of());
    if a < b - 1 {
        lemma_cuts_increase(xs, a, b - 1);
    }
}

/// Where `value` falls in a layout of two or more intervals: the interval at
/// position `i` holds it exactly when the bound before `i` (if any) is at most
/// `value` and the bound after `i` (if any) is above it.
proof fn lemma_contains_in_layout<C>(xs: Seq<Interval<i64, C>>, value: i64, i: int)
    requires
        is_layout(xs),
        xs.len() >= 2,
        0 <= i < xs.len(),
    ensures
        contains_value(xs[i], value) <==> (i == 0 || xs[i - 1].below_of() <= value) && (i == xs.len() - 1
            || value < xs[i].below_of()),
{
    if i > 0 {
        assert(xs[i - 1].below_of() == xs[i].from_of());
    }
    if 0 < i < xs.len() - 1 {
        assert(xs[i] is Range);
    }
}

/// An interval that holds `value`, searching from position `i` on.
proof fn lemma_locate<C>(xs: Seq<Interval<i64, C>>, value: i64, i: int) -> (r: int)
    requires
        is_layout(xs),
        xs.len() >= 2,
        0 <= i < xs.len(),
        i == 0 || xs[i - 1].below_of() <= value,
    ensures
        0 <= r < xs.len(),
        contains_value(xs[r], value),
    decreases xs.len() - i,
{
    lemma_contains_in_layout(xs, value, i);
    if i == xs.len() - 1 || value < xs[i].below_of() {
        i
    } else {
        lemma_locate(xs, value, i + 1)
    }
}

/// A layout with non-empty ranges covers every value exactly once.
pub proof fn lemma_layout_covers<C>(xs: Seq<Interval<i64, C>>, value: i64)
    requires
        is_layout(xs),
        ranges_non_empty(xs),
        xs.len() > 0,
    ensures
        matched_once(xs, value),
{
    if xs.len() == 1 {
        assert(contains_value(xs[0], value));
    } else {
        let i = lemma_locate(xs, value, 0);
        assert forall|j: int| 0 <= j < xs.len() && #[trigger] contains_value(xs[j], value) implies j == i by {
            lemma_contains_in_layout(xs, value, i);
            lemma_contains_in_layout(xs, value, j);
            if i < j {
                if i < j - 1 {
                    lemma_cuts_increase(xs, i, j - 1);
                }
            } else if j < i {
                if j < i - 1 {
                    lemma_cuts_increase(xs, j, i - 1);
                }
            }
        }
    }
}

impl<A: Copy, C: Copy> Interval<A, C> {
    /// The interval of every value below `below`.
    pub fn lower(below: A, class: C) -> (r: Self)
        ensures
            r == (Interval::Lower { below, class }),
    {
        Interval::Lower { below, class }
    }

    /// The interval of every value from `from` upwards.
    pub fn upper(from: A, class: C) -> (r: Self)
        ensures
            r == (Interval::Upper { from, class }),
    {
        Interval::Upper { from, class }
    }

    /// The class that this interval predicts.
    pub fn class(&self) -> (r: &C)
        ensures
            *r == self.class_of(),
    {
        match self {
            Interval::Lower { class, .. } => class,
            Interval::Range { class, .. } => class,
            Interval::Upper { class, .. } => class,
            Interval::Infinite { class } => class,
        }
    }
}

impl<C: Copy> Interval<i64, C> {
    /// Does the given `value` fall inside this interval?
    pub fn matches(&self, value: i64) -> (r: bool)
        ensures
            r == contains_value(*self, value),
    {
        match self {
            Interval::Lower { below, .. } => value < *below,
            Interval::Range { from, below, .. } => value >= *from && value < *below,
            Interval::Upper { from, .. } => value >= *from,
            Interval::Infinite { .. } => true,
        }
    }

    /// Join this interval with the one that follows it.
    pub fn merge(&self, later: &Self) -> (r: Self)
        requires
            joinable(*self, *later),
        ensures
            r == joined(*self, *later),
    {
        match (self, later) {
            (Interval::Lower { .. }, Interval::Range { below, class, .. }) => {
                Interval::Lower { below: *below, class: *class }
            },
            (Interval::Lower { .. }, Interval::Upper { class, .. }) => {
                Interval::Infinite { class: *class }
            },
            (Interval::Range { from, .. }, Interval::Range { below, class, .. }) => {
                Interval::Range { from: *from, below: *below, class: *class }
            },
            (Interval::Range { from, .. }, Interval::Upper { class, .. }) => {
                Interval::Upper { from: *from, class: *class }
            },
            _ => {
                proof {
                    assert(false);
                }
                *later
            },
        }
    }
}

impl<C: Copy + PartialEq> Interval<i64, C> {
    /// Merge neighbouring intervals that predict the same class.
    pub fn merge_neighbours_with_same_class(intervals: &[Interval<i64, C>]) -> (r: Vec<Interval<i64, C>>)
        requires
            is_layout(intervals@),
            ranges_non_empty(intervals@),
            obeys_concrete_eq::<C>(),
        ensures
            r@ == merged_neighbours(intervals@),
            is_layout(r@),
            ranges_non_empty(r@),
            neighbours_differ(r@),
    {
        merge::merge_neighbours_with_same_class(intervals)
    }
}

} // verus!
