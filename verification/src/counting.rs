//! Sums over sequences, the arithmetic under every count in this crate.

use vstd::prelude::*;

verus! {

/// The sum of `f` over the items of `s`.
pub open spec fn sum_by<T>(s: Seq<T>, f: spec_fn(T) -> int) -> int
    decreases s.len(),
{
    if s.len() == 0 {
        0
    } else {
        sum_by(s.drop_last(), f) + f(s.last())
    }
}

/// The number of items of `s` on which `p` holds.
pub open spec fn count_by<T>(s: Seq<T>, p: spec_fn(T) -> bool) -> int {
    sum_by(s, indicator(p))
}

/// 1 where `p` holds, 0 elsewhere.
pub open spec fn indicator<T>(p: spec_fn(T) -> bool) -> spec_fn(T) -> int {
    |x: T|
        if p(x) {
            1int
        } else {
            0int
        }
}

/// Adding an item raises the sum by what the item gives.
pub proof fn lemma_sum_push<T>(s: Seq<T>, x: T, f: spec_fn(T) -> int)
    ensures
        sum_by(s.push(x), f) == sum_by(s, f) + f(x),
{
    assert(s.push(x).drop_last() =~= s);
}

/// The sum over two sequences joined is the sum of their sums.
pub proof fn lemma_sum_concat<T>(a: Seq<T>, b: Seq<T>, f: spec_fn(T) -> int)
    ensures
        sum_by(a + b, f) == sum_by(a, f) + sum_by(b, f),
    decreases b.len(),
{
    if b.len() == 0 {
        assert(a + b =~= a);
    } else {
        lemma_sum_concat(a, b.drop_last(), f);
        assert((a + b).drop_last() =~= a + b.drop_last());
    }
}

/// The sum over one item is what the item gives.
pub proof fn lemma_sum_one<T>(x: T, f: spec_fn(T) -> int)
    ensures
        sum_by(seq![x], f) == f(x),
{
    let s = seq![x];
    assert(s.len() == 1);
    assert(s.last() == x);
    assert(s.drop_last() =~= Seq::<T>::empty());
    assert(sum_by(s.drop_last(), f) == 0);
}

/// Taking the item at `i` out lowers the sum by what the item gave.
pub proof fn lemma_sum_remove<T>(s: Seq<T>, i: int, f: spec_fn(T) -> int)
    requires
        0 <= i < s.len(),
    ensures
        sum_by(s.remove(i), f) == sum_by(s, f) - f(s[i]),
{
    let a = s.subrange(0, i);
    let b = s.subrange(i + 1, s.len() as int);
    assert(s =~= a + seq![s[i]] + b);
    assert(s.remove(i) =~= a + b);
    lemma_sum_concat(a, b, f);
    lemma_sum_concat(a, seq![s[i]], f);
    lemma_sum_concat(a + seq![s[i]], b, f);
    lemma_sum_one(s[i], f);
}

/// A sum of values that are not negative is not negative, and no
/// value exceeds it.
pub proof fn lemma_sum_bounds<T>(s: Seq<T>, f: spec_fn(T) -> int)
    requires
        forall|i: int| 0 <= i < s.len() ==> f(#[trigger] s[i]) >= 0,
    ensures
        sum_by(s, f) >= 0,
        forall|i: int| 0 <= i < s.len() ==> f(#[trigger] s[i]) <= sum_by(s, f),
    decreases s.len(),
{
    if s.len() > 0 {
        let front = s.drop_last();
        assert forall|i: int| 0 <= i < front.len() implies f(#[trigger] front[i]) >= 0 by {
            assert(front[i] == s[i]);
        }
        lemma_sum_bounds(front, f);
        assert forall|i: int| 0 <= i < s.len() implies f(#[trigger] s[i]) <= sum_by(s, f) by {
            if i < front.len() {
                assert(front[i] == s[i]);
            }
        }
    }
}

/// Where a sum of values that are not negative is positive, one of
/// the values is.
pub proof fn lemma_sum_positive<T>(s: Seq<T>, f: spec_fn(T) -> int) -> (i: int)
    requires
        forall|i: int| 0 <= i < s.len() ==> f(#[trigger] s[i]) >= 0,
        sum_by(s, f) > 0,
    ensures
        0 <= i < s.len(),
        f(s[i]) > 0,
    decreases s.len(),
{
    if f(s.last()) > 0 {
        s.len() - 1
    } else {
        let front = s.drop_last();
        assert forall|i: int| 0 <= i < front.len() implies f(#[trigger] front[i]) >= 0 by {
            assert(front[i] == s[i]);
        }
        let i = lemma_sum_positive(front, f);
        assert(front[i] == s[i]);
        i
    }
}

/// Two functions that agree on every item give the same sum.
pub proof fn lemma_sum_same<T>(s: Seq<T>, f: spec_fn(T) -> int, g: spec_fn(T) -> int)
    requires
        forall|i: int| 0 <= i < s.len() ==> f(#[trigger] s[i]) == g(s[i]),
    ensures
        sum_by(s, f) == sum_by(s, g),
    decreases s.len(),
{
    if s.len() > 0 {
        let front = s.drop_last();
        assert forall|i: int| 0 <= i < front.len() implies f(#[trigger] front[i]) == g(
            front[i],
        ) by {
            assert(front[i] == s[i]);
        }
        lemma_sum_same(front, f, g);
    }
}

/// Sequences that hold the same items equally often give the same
/// sum.
pub proof fn lemma_sum_permutation<T>(a: Seq<T>, b: Seq<T>, f: spec_fn(T) -> int)
    requires
        a.to_multiset() == b.to_multiset(),
    ensures
        sum_by(a, f) == sum_by(b, f),
    decreases a.len(),
{
    broadcast use vstd::multiset::group_multiset_axioms;
    broadcast use vstd::seq_lib::group_to_multiset_ensures;

    a.to_multiset_ensures();
    b.to_multiset_ensures();
    if a.len() == 0 {
        assert(b.len() == 0);
    } else {
        let x = a.last();
        assert(a.to_multiset().count(x) > 0) by {
            assert(a.contains(x));
        }
        assert(b.contains(x));
        let j = choose|j: int| 0 <= j < b.len() && b[j] == x;
        let a1 = a.drop_last();
        let b1 = b.remove(j);
        assert(a1 =~= a.remove(a.len() - 1));
        assert(a1.to_multiset() =~= a.to_multiset().remove(x));
        assert(b1.to_multiset() =~= b.to_multiset().remove(x));
        lemma_sum_permutation(a1, b1, f);
        lemma_sum_remove(b, j, f);
    }
}

/// Replacing the item at `i` by `x` changes the sum by the difference
/// of what the two give.
pub proof fn lemma_sum_update<T>(s: Seq<T>, i: int, x: T, f: spec_fn(T) -> int)
    requires
        0 <= i < s.len(),
    ensures
        sum_by(s.update(i, x), f) == sum_by(s, f) - f(s[i]) + f(x),
{
    let t = s.update(i, x);
    assert(t.remove(i) =~= s.remove(i));
    lemma_sum_remove(t, i, f);
    lemma_sum_remove(s, i, f);
}

/// Where one function lies below another on every item, its sum lies
/// below the sum of the other.
pub proof fn lemma_sum_le<T>(s: Seq<T>, f: spec_fn(T) -> int, g: spec_fn(T) -> int)
    requires
        forall|i: int| 0 <= i < s.len() ==> f(#[trigger] s[i]) <= g(s[i]),
    ensures
        sum_by(s, f) <= sum_by(s, g),
    decreases s.len(),
{
    if s.len() > 0 {
        let front = s.drop_last();
        assert forall|i: int| 0 <= i < front.len() implies f(#[trigger] front[i]) <= g(
            front[i],
        ) by {
            assert(front[i] == s[i]);
        }
        lemma_sum_le(front, f, g);
    }
}

} // verus!
