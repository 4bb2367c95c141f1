//! Counting helpers over sequences of items.
use vstd::laws_eq::obeys_concrete_eq;
use vstd::prelude::*;

verus! {

/// How many times `x` occurs in `s`.
pub open spec fn occurrences<T>(s: Seq<T>, x: T) -> nat
    decreases s.len(),
{
    if s.len() == 0 {
        0
    } else {
        occurrences(s.drop_last(), x) + if s.last() == x {
            1nat
        } else {
            0nat
        }
    }
}

/// The distinct items of `s`, in the order of their first occurrence.
pub open spec fn first_seen<T>(s: Seq<T>) -> Seq<T>
    decreases s.len(),
{
    if s.len() == 0 {
        Seq::empty()
    } else {
        let seen = first_seen(s.drop_last());
        if seen.contains(s.last()) {
            seen
        } else {
            seen.push(s.last())
        }
    }
}

/// An item occurs at most once per position, and at all exactly when it is in `s`.
pub proof fn lemma_occurrences<T>(s: Seq<T>, x: T)
    ensures
        occurrences(s, x) <= s.len(),
        occurrences(s, x) > 0 <==> s.contains(x),
    decreases s.len(),
{
    if s.len() > 0 {
        lemma_occurrences(s.drop_last(), x);
        if s.drop_last().contains(x) {
            let i = choose|i: int| 0 <= i < s.drop_last().len() && s.drop_last()[i] == x;
            assert(s[i] == x);
        }
        if s.contains(x) && s.last() != x {
            let i = choose|i: int| 0 <= i < s.len() && s[i] == x;
            assert(s.drop_last()[i] == x);
        }
    }
}

/// `first_seen(s)` holds each item of `s` exactly once.
pub proof fn lemma_first_seen<T>(s: Seq<T>)
    ensures
        first_seen(s).no_duplicates(),
        forall|x: T| first_seen(s).contains(x) <==> s.contains(x),
        first_seen(s).len() <= s.len(),
    decreases s.len(),
{
    if s.len() > 0 {
        let p = s.drop_last();
        lemma_first_seen(p);
        let seen = first_seen(p);
        assert(p.len() == s.len() - 1);
        assert forall|x: T| s.contains(x) <==> (p.contains(x) || x == s.last()) by {
            if s.contains(x) && x != s.last() {
                let i = choose|i: int| 0 <= i < s.len() && s[i] == x;
                assert(i != s.len() - 1);
                assert(p[i] == x);
            }
            if p.contains(x) {
                let i = choose|i: int| 0 <= i < p.len() && p[i] == x;
                assert(s[i] == x);
            }
            if x == s.last() {
                assert(s[s.len() - 1] == x);
            }
        }
        if seen.contains(s.last()) {
            assert(first_seen(s) == seen);
        } else {
            assert(first_seen(s) == seen.push(s.last()));
            assert forall|x: T| seen.push(s.last()).contains(x) <==> (seen.contains(x) || x == s.last()) by {
                if seen.push(s.last()).contains(x) && x != s.last() {
                    let i = choose|i: int| 0 <= i < seen.len() + 1 && seen.push(s.last())[i] == x;
                    assert(seen[i] == x);
                }
                if seen.contains(x) {
                    let i = choose|i: int| 0 <= i < seen.len() && seen[i] == x;
                    assert(seen.push(s.last())[i] == x);
                }
                if x == s.last() {
                    assert(seen.push(s.last())[seen.len() as int] == x);
                }
            }
        }
    }
}

/// The distinct items of `ts`, in the order of their first occurrence, each with
/// the number of times it occurs.
pub fn frequency_count<T: PartialEq + Copy>(ts: &[T]) -> (r: Vec<(T, usize)>)
    requires
        obeys_concrete_eq::<T>(),
    ensures
        r@.len() == first_seen(ts@).len(),
        forall|i: int|
            0 <= i < r@.len() ==> (#[trigger] r@[i]).0 == first_seen(ts@)[i] && r@[i].1 == occurrences(
                ts@,
                r@[i].0,
            ),
{
    let mut counts: Vec<(T, usize)> = Vec::new();
    let mut i: usize = 0;
    while i < ts.len()
        invariant
            0 <= i <= ts@.len(),
            obeys_concrete_eq::<T>(),
            counts@.len() == first_seen(ts@.take(i as int)).len(),
            forall|j: int|
                0 <= j < counts@.len() ==> (#[trigger] counts@[j]).0 == first_seen(ts@.take(i as int))[j]
                    && counts@[j].1 == occurrences(ts@.take(i as int), counts@[j].0),
        decreases ts@.len() - i,
    {
        let t = ts[i];
        let ghost before = ts@.take(i as int);
        let ghost after = ts@.take(i + 1);
        assert(after.drop_last() =~= before);
        assert(after.last() == t);
        proof {
            lemma_first_seen(before);
            lemma_occurrences(before, t);
        }
        let mut j: usize = 0;
        while j < counts.len() && !same_item(&counts[j].0, &t)
            invariant
                0 <= j <= counts@.len(),
                obeys_concrete_eq::<T>(),
                forall|a: int| 0 <= a < j ==> (#[trigger] counts@[a]).0 != t,
            decreases counts@.len() - j,
        {
            j = j + 1;
        }
        let ghost old_counts = counts@;
        if j < counts.len() {
            let c = counts[j].1;
            proof {
                assert(first_seen(before)[j as int] == t);
                assert(first_seen(before).contains(t));
            }
            counts.set(j, (t, c + 1));
            proof {
                assert forall|a: int| 0 <= a < counts@.len() implies (#[trigger] counts@[a]).0 == first_seen(
                    after,
                )[a] && counts@[a].1 == occurrences(after, counts@[a].0) by {
                    if a != j {
                        assert(old_counts[a].0 != t);
                    }
                }
            }
        } else {
            proof {
                assert(!first_seen(before).contains(t)) by {
                    if first_seen(before).contains(t) {
                        let a = choose|a: int| 0 <= a < first_seen(before).len() && first_seen(before)[a] == t;
                        assert(old_counts[a].0 == t);
                    }
                }
            }
            counts.push((t, 1));
            proof {
                assert forall|a: int| 0 <= a < counts@.len() implies (#[trigger] counts@[a]).0 == first_seen(
                    after,
                )[a] && counts@[a].1 == occurrences(after, counts@[a].0) by {
                    if a < old_counts.len() {
                        assert(old_counts[a].0 != t);
                    }
                }
            }
        }
        i = i + 1;
    }
    assert(ts@.take(ts@.len() as int) =~= ts@);
    counts
}

/// The number of distinct items in `xs`.
pub fn count_distinct<T: PartialEq + Copy>(xs: &[T]) -> (r: usize)
    requires
        obeys_concrete_eq::<T>(),
    ensures
        r == xs@.to_set().len(),
{
    let counts = frequency_count(xs);
    proof {
        lemma_first_seen(xs@);
        first_seen(xs@).unique_seq_to_set();
        assert(first_seen(xs@).to_set() =~= xs@.to_set());
    }
    counts.len()
}

/// Whether two items are equal, where `==` on their type is plain equality.
pub(crate) fn same_item<T: PartialEq>(a: &T, b: &T) -> (r: bool)
    requires
        obeys_concrete_eq::<T>(),
    ensures
        r == (*a == *b),
{
    proof {
        reveal(obeys_concrete_eq);
    }
    a.eq(b)
}

} // verus!
