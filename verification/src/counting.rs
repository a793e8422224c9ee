//! Counting how many elements of a sequence satisfy a predicate, with the
//! lemmas the game engines need to keep their running statistics in step
//! with the grid they describe.

use vstd::prelude::*;

verus! {

/// Number of elements of `s` that satisfy `f`.
pub open spec fn count_matching<T>(s: Seq<T>, f: spec_fn(T) -> bool) -> int
    decreases s.len(),
{
    if s.len() == 0 {
        0
    } else {
        count_matching(s.drop_last(), f) + if f(s.last()) {
            1int
        } else {
            0int
        }
    }
}

pub proof fn lemma_count_matching_bounds<T>(s: Seq<T>, f: spec_fn(T) -> bool)
    ensures
        0 <= count_matching(s, f) <= s.len(),
    decreases s.len(),
{
    if s.len() > 0 {
        lemma_count_matching_bounds(s.drop_last(), f);
    }
}

/// Replacing one element changes the count by the difference of the two
/// elements' contributions.
pub proof fn lemma_count_matching_update<T>(s: Seq<T>, f: spec_fn(T) -> bool, i: int, v: T)
    requires
        0 <= i < s.len(),
    ensures
        count_matching(s.update(i, v), f) == count_matching(s, f) - (if f(s[i]) {
            1int
        } else {
            0int
        }) + (if f(v) {
            1int
        } else {
            0int
        }),
    decreases s.len(),
{
    let t = s.update(i, v);
    if i == s.len() - 1 {
        assert(t.drop_last() =~= s.drop_last());
        assert(t.last() == v);
    } else {
        assert(t.drop_last() =~= s.drop_last().update(i, v));
        assert(t.last() == s.last());
        lemma_count_matching_update(s.drop_last(), f, i, v);
    }
}

pub proof fn lemma_count_matching_push<T>(s: Seq<T>, f: spec_fn(T) -> bool, v: T)
    ensures
        count_matching(s.push(v), f) == count_matching(s, f) + if f(v) {
            1int
        } else {
            0int
        },
{
    assert(s.push(v).drop_last() =~= s);
    assert(s.push(v).last() == v);
}

/// A predicate and its complement split the sequence's length.
pub proof fn lemma_count_matching_complement<T>(
    s: Seq<T>,
    f: spec_fn(T) -> bool,
    g: spec_fn(T) -> bool,
)
    requires
        forall|x: T| #[trigger] g(x) == !f(x),
    ensures
        count_matching(s, f) + count_matching(s, g) == s.len(),
    decreases s.len(),
{
    if s.len() > 0 {
        lemma_count_matching_complement(s.drop_last(), f, g);
    }
}

/// An element that satisfies `f` makes the count at least one.
pub proof fn lemma_count_matching_lower<T>(s: Seq<T>, f: spec_fn(T) -> bool, i: int)
    requires
        0 <= i < s.len(),
        f(s[i]),
    ensures
        count_matching(s, f) >= 1,
    decreases s.len(),
{
    lemma_count_matching_bounds(s.drop_last(), f);
    if i < s.len() - 1 {
        lemma_count_matching_lower(s.drop_last(), f, i);
    }
}

/// A predicate no element satisfies matches zero times.
pub proof fn lemma_count_matching_zero<T>(s: Seq<T>, f: spec_fn(T) -> bool)
    requires
        forall|i: int| 0 <= i < s.len() ==> !f(#[trigger] s[i]),
    ensures
        count_matching(s, f) == 0,
    decreases s.len(),
{
    if s.len() > 0 {
        assert(forall|i: int| 0 <= i < s.drop_last().len() ==> !f(#[trigger] s.drop_last()[i]));
        lemma_count_matching_zero(s.drop_last(), f);
    }
}

/// Two predicates that agree on every element of `s` match equally often.
pub proof fn lemma_count_matching_congruence<T>(
    s: Seq<T>,
    f: spec_fn(T) -> bool,
    g: spec_fn(T) -> bool,
)
    requires
        forall|i: int| 0 <= i < s.len() ==> f(#[trigger] s[i]) == g(s[i]),
    ensures
        count_matching(s, f) == count_matching(s, g),
    decreases s.len(),
{
    if s.len() > 0 {
        assert(forall|i: int|
            0 <= i < s.drop_last().len() ==> f(#[trigger] s.drop_last()[i]) == g(s.drop_last()[i]));
        lemma_count_matching_congruence(s.drop_last(), f, g);
    }
}

/// If `f` implies `g` pointwise, `f` matches at most as often as `g`.
pub proof fn lemma_count_matching_implies<T>(s: Seq<T>, f: spec_fn(T) -> bool, g: spec_fn(T) -> bool)
    requires
        forall|x: T| #[trigger] f(x) ==> g(x),
    ensures
        count_matching(s, f) <= count_matching(s, g),
    decreases s.len(),
{
    if s.len() > 0 {
        lemma_count_matching_implies(s.drop_last(), f, g);
    }
}

/// An element matched by `g` but not by `f` forces a strict gap between the
/// two counts whenever `f` implies `g` pointwise.
pub proof fn lemma_count_matching_strict<T>(
    s: Seq<T>,
    f: spec_fn(T) -> bool,
    g: spec_fn(T) -> bool,
    i: int,
)
    requires
        forall|x: T| #[trigger] f(x) ==> g(x),
        0 <= i < s.len(),
        g(s[i]),
        !f(s[i]),
    ensures
        count_matching(s, f) < count_matching(s, g),
    decreases s.len(),
{
    if i == s.len() - 1 {
        lemma_count_matching_implies(s.drop_last(), f, g);
    } else {
        lemma_count_matching_strict(s.drop_last(), f, g, i);
        assert(s.drop_last()[i] == s[i]);
    }
}

/// When `f` implies `g` pointwise and both match equally often, every
/// element matched by `g` is matched by `f` as well.
pub proof fn lemma_count_matching_equal<T>(s: Seq<T>, f: spec_fn(T) -> bool, g: spec_fn(T) -> bool)
    requires
        forall|x: T| #[trigger] f(x) ==> g(x),
        count_matching(s, f) == count_matching(s, g),
    ensures
        forall|i: int| 0 <= i < s.len() && g(#[trigger] s[i]) ==> f(s[i]),
{
    assert forall|i: int| 0 <= i < s.len() && g(#[trigger] s[i]) implies f(s[i]) by {
        if !f(s[i]) {
            lemma_count_matching_strict(s, f, g, i);
        }
    }
}

} // verus!
