//! The order of keys, read from the first number on, and lists kept
//! in that order without repetition.

use vstd::prelude::*;

verus! {

/// `a` stands before `b`: at the first place where they differ `a` has
/// the lower number, or `a` ends there and `b` goes on.
pub open spec fn lex_lt(a: Seq<u64>, b: Seq<u64>) -> bool
    decreases a.len(),
{
    if b.len() == 0 {
        false
    } else if a.len() == 0 {
        true
    } else if a[0] != b[0] {
        a[0] < b[0]
    } else {
        lex_lt(a.drop_first(), b.drop_first())
    }
}

/// The keys stand in rising order, no two alike.
pub open spec fn strictly_sorted(keys: Seq<Vec<u64>>) -> bool {
    forall|i: int, j: int| 0 <= i < j < keys.len() ==> lex_lt(keys[i]@, keys[j]@)
}

/// No key stands before itself.
pub proof fn lemma_lex_irreflexive(a: Seq<u64>)
    ensures
        !lex_lt(a, a),
    decreases a.len(),
{
    if a.len() > 0 {
        lemma_lex_irreflexive(a.drop_first());
    }
}

/// A key that stands before one that stands before a third stands
/// before the third.
pub proof fn lemma_lex_transitive(a: Seq<u64>, b: Seq<u64>, c: Seq<u64>)
    requires
        lex_lt(a, b),
        lex_lt(b, c),
    ensures
        lex_lt(a, c),
    decreases a.len(),
{
    if a.len() > 0 && b.len() > 0 && c.len() > 0 {
        if a[0] == b[0] && b[0] == c[0] {
            lemma_lex_transitive(a.drop_first(), b.drop_first(), c.drop_first());
        }
    }
}

/// Of two different keys one stands before the other.
pub proof fn lemma_lex_total(a: Seq<u64>, b: Seq<u64>)
    ensures
        a == b || lex_lt(a, b) || lex_lt(b, a),
        !(lex_lt(a, b) && lex_lt(b, a)),
    decreases a.len(),
{
    if a.len() > 0 && b.len() > 0 {
        lemma_lex_total(a.drop_first(), b.drop_first());
        if a[0] == b[0] && a.drop_first() == b.drop_first() {
            assert(a =~= seq![a[0]] + a.drop_first());
            assert(b =~= seq![b[0]] + b.drop_first());
        }
    } else if a.len() == 0 && b.len() == 0 {
        assert(a =~= b);
    }
}

/// The order of two keys is the order of what is left of them behind
/// a common beginning.
pub proof fn lemma_lex_skip(a: Seq<u64>, b: Seq<u64>, i: int)
    requires
        0 <= i <= a.len(),
        i <= b.len(),
        forall|j: int| 0 <= j < i ==> a[j] == b[j],
    ensures
        lex_lt(a, b) == lex_lt(a.subrange(i, a.len() as int), b.subrange(i, b.len() as int)),
    decreases i,
{
    if i == 0 {
        assert(a.subrange(0, a.len() as int) =~= a);
        assert(b.subrange(0, b.len() as int) =~= b);
    } else {
        let a1 = a.drop_first();
        let b1 = b.drop_first();
        assert forall|j: int| 0 <= j < i - 1 implies a1[j] == b1[j] by {
            assert(a[j + 1] == b[j + 1]);
        }
        lemma_lex_skip(a1, b1, i - 1);
        assert(a1.subrange(i - 1, a1.len() as int) =~= a.subrange(i, a.len() as int));
        assert(b1.subrange(i - 1, b1.len() as int) =~= b.subrange(i, b.len() as int));
        assert(a[0] == b[0]);
    }
}

/// Whether `a` stands before `b`.
pub fn lex_less(a: &Vec<u64>, b: &Vec<u64>) -> (r: bool)
    ensures
        r == lex_lt(a@, b@),
{
    let mut i: usize = 0;
    while i < a.len() && i < b.len()
        invariant
            i <= a@.len(),
            i <= b@.len(),
            forall|j: int| 0 <= j < i ==> a@[j] == b@[j],
        decreases a@.len() - i,
    {
        if a[i] != b[i] {
            proof {
                lemma_lex_skip(a@, b@, i as int);
                let x = a@.subrange(i as int, a@.len() as int);
                let y = b@.subrange(i as int, b@.len() as int);
                assert(x[0] == a@[i as int]);
                assert(y[0] == b@[i as int]);
            }
            return a[i] < b[i];
        }
        i += 1;
    }
    proof {
        lemma_lex_skip(a@, b@, i as int);
    }
    i < b.len()
}

/// Puts `item` with its `key` into a list kept in the order of its
/// keys, unless the key is there already.
///
/// Returns the place of the key in the list, and whether the item
/// went in.
pub fn insert_sorted<T>(
    keys: &mut Vec<Vec<u64>>,
    items: &mut Vec<T>,
    key: Vec<u64>,
    item: T,
) -> (r: (usize, bool))
    requires
        old(keys)@.len() == old(items)@.len(),
        strictly_sorted(old(keys)@),
    ensures
        strictly_sorted(final(keys)@),
        final(keys)@.len() == final(items)@.len(),
        r.0 <= old(keys)@.len(),
        r.1 ==> final(keys)@ == old(keys)@.insert(r.0 as int, key) && final(items)@ == old(
            items,
        )@.insert(r.0 as int, item),
        r.1 ==> forall|j: int| 0 <= j < old(keys)@.len() ==> (#[trigger] old(keys)@[j])@ != key@,
        !r.1 ==> final(keys)@ == old(keys)@ && final(items)@ == old(items)@ && r.0 < old(
            keys,
        )@.len() && old(keys)@[r.0 as int]@ == key@,
{
    let mut i: usize = 0;
    while i < keys.len() && lex_less(&keys[i], &key)
        invariant
            keys@ == old(keys)@,
            items@ == old(items)@,
            i <= keys@.len(),
            strictly_sorted(keys@),
            forall|j: int| 0 <= j < i ==> lex_lt(keys@[j]@, key@),
        decreases keys@.len() - i,
    {
        i += 1;
    }
    if i < keys.len() && !lex_less(&key, &keys[i]) {
        proof {
            lemma_lex_total(keys@[i as int]@, key@);
        }
        return (i, false);
    }
    proof {
        let ghost_keys = keys@;
        assert forall|j: int| 0 <= j < ghost_keys.len() implies (#[trigger] ghost_keys[j])@
            != key@ by {
            lemma_lex_irreflexive(key@);
            if j >= i {
                if j > i {
                    lemma_lex_transitive(key@, ghost_keys[i as int]@, ghost_keys[j]@);
                }
            }
        }
        let after = ghost_keys.insert(i as int, key);
        assert forall|a: int, b: int| 0 <= a < b < after.len() implies lex_lt(
            after[a]@,
            after[b]@,
        ) by {
            if a == i {
                if b - 1 > i {
                    lemma_lex_transitive(key@, ghost_keys[i as int]@, ghost_keys[b - 1]@);
                }
            } else if b == i {
            } else if a < i && b > i {
                assert(lex_lt(ghost_keys[a]@, ghost_keys[b - 1]@));
            } else if a < i {
                assert(lex_lt(ghost_keys[a]@, ghost_keys[b]@));
            } else {
                assert(lex_lt(ghost_keys[a - 1]@, ghost_keys[b - 1]@));
            }
        }
    }
    keys.insert(i, key);
    items.insert(i, item);
    (i, true)
}

} // verus!
