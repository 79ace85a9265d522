//! Stable insertion order: the specification of every sort in this crate.
//!
//! `insert_by(s, x, le)` places `x` after the last element `e` of `s` with
//! `le(e, x)`; folding it over a sequence from the left gives the stable sort
//! of that sequence under the total preorder `le`.

use vstd::prelude::*;
use vstd::multiset::Multiset;

verus! {

pub open spec fn insert_by<T>(s: Seq<T>, x: T, le: spec_fn(T, T) -> bool) -> Seq<T>
    decreases s.len(),
{
    if s.len() == 0 {
        seq![x]
    } else if le(s.last(), x) {
        s.push(x)
    } else {
        insert_by(s.drop_last(), x, le).push(s.last())
    }
}

pub open spec fn sort_by<T>(s: Seq<T>, le: spec_fn(T, T) -> bool) -> Seq<T>
    decreases s.len(),
{
    if s.len() == 0 {
        seq![]
    } else {
        insert_by(sort_by(s.drop_last(), le), s.last(), le)
    }
}

pub open spec fn is_total_preorder<T>(le: spec_fn(T, T) -> bool) -> bool {
    &&& forall|a: T, b: T| #[trigger] le(a, b) || le(b, a)
    &&& forall|a: T, b: T, c: T| #[trigger] le(a, b) && #[trigger] le(b, c) ==> le(a, c)
}

pub open spec fn sorted_by<T>(s: Seq<T>, le: spec_fn(T, T) -> bool) -> bool {
    forall|i: int, j: int| 0 <= i < j < s.len() ==> le(#[trigger] s[i], #[trigger] s[j])
}

/// The position at which the stable insertion of `x` happens, and the shape of the result.
pub proof fn lemma_insert_by_split<T>(s: Seq<T>, x: T, le: spec_fn(T, T) -> bool, pos: int)
    requires
        0 <= pos <= s.len(),
        pos == 0 || le(s[pos - 1], x),
        forall|j: int| pos <= j < s.len() ==> !le(#[trigger] s[j], x),
    ensures
        insert_by(s, x, le) == s.subrange(0, pos).push(x) + s.subrange(pos, s.len() as int),
    decreases s.len(),
{
    if s.len() == 0 {
        assert(insert_by(s, x, le) =~= s.subrange(0, pos).push(x) + s.subrange(pos, s.len() as int));
    } else if pos == s.len() {
        assert(le(s.last(), x));
        assert(insert_by(s, x, le) =~= s.subrange(0, pos).push(x) + s.subrange(pos, s.len() as int));
    } else {
        assert(!le(s.last(), x));
        let t = s.drop_last();
        assert forall|j: int| pos <= j < t.len() implies !le(#[trigger] t[j], x) by {
            assert(t[j] == s[j]);
        }
        lemma_insert_by_split(t, x, le, pos);
        assert(insert_by(s, x, le) =~= s.subrange(0, pos).push(x) + s.subrange(pos, s.len() as int));
    }
}

pub proof fn lemma_insert_by_len<T>(s: Seq<T>, x: T, le: spec_fn(T, T) -> bool)
    ensures
        insert_by(s, x, le).len() == s.len() + 1,
    decreases s.len(),
{
    if s.len() > 0 && !le(s.last(), x) {
        lemma_insert_by_len(s.drop_last(), x, le);
    }
}

pub proof fn lemma_sort_by_len<T>(s: Seq<T>, le: spec_fn(T, T) -> bool)
    ensures
        sort_by(s, le).len() == s.len(),
    decreases s.len(),
{
    if s.len() > 0 {
        lemma_sort_by_len(s.drop_last(), le);
        lemma_insert_by_len(sort_by(s.drop_last(), le), s.last(), le);
    }
}

/// Inserting into a sorted sequence keeps it sorted.
pub proof fn lemma_insert_by_sorted<T>(s: Seq<T>, x: T, le: spec_fn(T, T) -> bool)
    requires
        is_total_preorder(le),
        sorted_by(s, le),
    ensures
        sorted_by(insert_by(s, x, le), le),
    decreases s.len(),
{
    if s.len() > 0 && !le(s.last(), x) {
        let t = s.drop_last();
        assert(sorted_by(t, le)) by {
            assert forall|i: int, j: int| 0 <= i < j < t.len() implies le(
                #[trigger] t[i],
                #[trigger] t[j],
            ) by {
                assert(le(s[i], s[j]));
            }
        }
        lemma_insert_by_sorted(t, x, le);
        lemma_insert_by_len(t, x, le);
        let r = insert_by(t, x, le);
        lemma_insert_by_members(t, x, le);
        assert(le(x, s.last()));
        assert forall|i: int| 0 <= i < r.len() implies le(#[trigger] r[i], s.last()) by {
            if r[i] != x {
                let k = choose|k: int| 0 <= k < t.len() && t[k] == r[i];
                assert(le(s[k], s[s.len() - 1]));
            }
        }
        let out = r.push(s.last());
        assert forall|i: int, j: int| 0 <= i < j < out.len() implies le(
            #[trigger] out[i],
            #[trigger] out[j],
        ) by {
            if j == out.len() - 1 {
                assert(le(r[i], s.last()));
            } else {
                assert(le(r[i], r[j]));
            }
        }
    } else if s.len() > 0 {
        let out = s.push(x);
        assert forall|i: int, j: int| 0 <= i < j < out.len() implies le(
            #[trigger] out[i],
            #[trigger] out[j],
        ) by {
            if j == out.len() - 1 {
                if i < s.len() - 1 {
                    assert(le(s[i], s[s.len() - 1]));
                }
            }
        }
    }
}

/// Every element of the insertion result is `x` or an element of `s`.
pub proof fn lemma_insert_by_members<T>(s: Seq<T>, x: T, le: spec_fn(T, T) -> bool)
    ensures
        forall|i: int|
            0 <= i < insert_by(s, x, le).len() ==> #[trigger] insert_by(s, x, le)[i] == x || exists|
                k: int,
            | 0 <= k < s.len() && s[k] == insert_by(s, x, le)[i],
        insert_by(s, x, le).to_multiset() == s.to_multiset().insert(x),
    decreases s.len(),
{
    broadcast use vstd::seq_lib::group_seq_properties;
    broadcast use vstd::multiset::group_multiset_axioms;

    if s.len() == 0 {
        assert(insert_by(s, x, le) =~= seq![x]);
        assert(s.to_multiset() =~= Multiset::empty());
        assert(seq![x].to_multiset() =~= Multiset::empty().insert(x)) by {
            assert(seq![x] =~= Seq::<T>::empty().push(x));
        }
    } else if le(s.last(), x) {
        let r = s.push(x);
        assert forall|i: int| 0 <= i < r.len() implies #[trigger] r[i] == x || exists|k: int|
            0 <= k < s.len() && s[k] == r[i] by {
            if i < s.len() {
                assert(s[i] == r[i]);
            }
        }
    } else {
        let t = s.drop_last();
        lemma_insert_by_members(t, x, le);
        let r = insert_by(t, x, le);
        let out = r.push(s.last());
        assert forall|i: int| 0 <= i < out.len() implies #[trigger] out[i] == x || exists|k: int|
            0 <= k < s.len() && s[k] == out[i] by {
            if i == out.len() - 1 {
                assert(s[s.len() - 1] == out[i]);
            } else if r[i] != x {
                let k = choose|k: int| 0 <= k < t.len() && t[k] == r[i];
                assert(s[k] == out[i]);
            }
        }
        assert(s =~= t.push(s.last()));
        assert(out.to_multiset() =~= s.to_multiset().insert(x));
    }
}

/// The sort is sorted and a permutation of its input.
pub proof fn lemma_sort_by_sorted<T>(s: Seq<T>, le: spec_fn(T, T) -> bool)
    requires
        is_total_preorder(le),
    ensures
        sorted_by(sort_by(s, le), le),
        sort_by(s, le).to_multiset() == s.to_multiset(),
    decreases s.len(),
{
    broadcast use vstd::seq_lib::group_seq_properties;
    broadcast use vstd::multiset::group_multiset_axioms;

    if s.len() > 0 {
        lemma_sort_by_sorted(s.drop_last(), le);
        lemma_insert_by_sorted(sort_by(s.drop_last(), le), s.last(), le);
        lemma_insert_by_members(sort_by(s.drop_last(), le), s.last(), le);
        assert(s =~= s.drop_last().push(s.last()));
    } else {
        assert(sort_by(s, le).to_multiset() =~= s.to_multiset());
    }
}

} // verus!

verus! {

/// `s` is strictly increasing under `lt` applied to `key`.
pub open spec fn strictly_sorted_by<T, K>(s: Seq<T>, key: spec_fn(T) -> K, lt: spec_fn(K, K) -> bool) -> bool {
    forall|i: int, j: int| 0 <= i < j < s.len() ==> lt(key(#[trigger] s[i]), key(#[trigger] s[j]))
}

pub open spec fn is_strict_order<K>(lt: spec_fn(K, K) -> bool) -> bool {
    &&& forall|a: K| !#[trigger] lt(a, a)
    &&& forall|a: K, b: K, c: K| #[trigger] lt(a, b) && #[trigger] lt(b, c) ==> lt(a, c)
}

/// Inserting an element between its strict lower and upper neighbours keeps the order strict.
pub proof fn lemma_strict_insert<T, K>(s: Seq<T>, x: T, key: spec_fn(T) -> K, lt: spec_fn(K, K) -> bool, pos: int)
    requires
        is_strict_order(lt),
        strictly_sorted_by(s, key, lt),
        0 <= pos <= s.len(),
        forall|j: int| 0 <= j < pos ==> lt(key(#[trigger] s[j]), key(x)),
        forall|j: int| pos <= j < s.len() ==> lt(key(x), key(#[trigger] s[j])),
    ensures
        strictly_sorted_by(s.insert(pos, x), key, lt),
{
    let t = s.insert(pos, x);
    assert forall|i: int, j: int| 0 <= i < j < t.len() implies lt(key(#[trigger] t[i]), key(#[trigger] t[j])) by {
        if j < pos {
            assert(t[i] == s[i] && t[j] == s[j]);
        } else if j == pos {
            assert(t[i] == s[i]);
        } else if i < pos {
            assert(t[i] == s[i] && t[j] == s[j - 1]);
            assert(lt(key(s[i]), key(x)));
            assert(lt(key(x), key(s[j - 1])));
        } else if i == pos {
            assert(t[j] == s[j - 1]);
        } else {
            assert(t[i] == s[i - 1] && t[j] == s[j - 1]);
        }
    }
}

/// Removing an element keeps the order strict.
pub proof fn lemma_strict_remove<T, K>(s: Seq<T>, key: spec_fn(T) -> K, lt: spec_fn(K, K) -> bool, pos: int)
    requires
        strictly_sorted_by(s, key, lt),
        0 <= pos < s.len(),
    ensures
        strictly_sorted_by(s.remove(pos), key, lt),
{
    let t = s.remove(pos);
    assert forall|i: int, j: int| 0 <= i < j < t.len() implies lt(key(#[trigger] t[i]), key(#[trigger] t[j])) by {
        let si = if i < pos { i } else { i + 1 };
        let sj = if j < pos { j } else { j + 1 };
        assert(t[i] == s[si] && t[j] == s[sj]);
    }
}

/// Replacing an element by one with the same key keeps the order strict.
pub proof fn lemma_strict_update<T, K>(s: Seq<T>, x: T, key: spec_fn(T) -> K, lt: spec_fn(K, K) -> bool, pos: int)
    requires
        strictly_sorted_by(s, key, lt),
        0 <= pos < s.len(),
        key(x) == key(s[pos]),
    ensures
        strictly_sorted_by(s.update(pos, x), key, lt),
{
    let t = s.update(pos, x);
    assert forall|i: int, j: int| 0 <= i < j < t.len() implies lt(key(#[trigger] t[i]), key(#[trigger] t[j])) by {
        assert(key(t[i]) == key(s[i]) && key(t[j]) == key(s[j]));
    }
}


/// `lt` is a strict total order: irreflexive, transitive, and any two distinct keys compare.
pub open spec fn is_strict_total<K>(lt: spec_fn(K, K) -> bool) -> bool {
    &&& is_strict_order(lt)
    &&& forall|a: K, b: K| a != b ==> #[trigger] lt(a, b) || #[trigger] lt(b, a)
}

/// Index of the last element whose key is `k`, or -1.
pub open spec fn find_key<T, K>(s: Seq<T>, key: spec_fn(T) -> K, k: K) -> int
    decreases s.len(),
{
    if s.len() == 0 {
        -1
    } else if key(s.last()) == k {
        s.len() - 1
    } else {
        find_key(s.drop_last(), key, k)
    }
}

/// Number of elements whose key sorts strictly before `k`.
pub open spec fn count_lt<T, K>(s: Seq<T>, key: spec_fn(T) -> K, lt: spec_fn(K, K) -> bool, k: K) -> int
    decreases s.len(),
{
    if s.len() == 0 {
        0
    } else {
        count_lt(s.drop_last(), key, lt, k) + if lt(key(s.last()), k) { 1int } else { 0 }
    }
}

pub proof fn lemma_find_key<T, K>(s: Seq<T>, key: spec_fn(T) -> K, k: K)
    ensures
        -1 <= find_key(s, key, k) < s.len(),
        find_key(s, key, k) >= 0 ==> key(s[find_key(s, key, k)]) == k,
        find_key(s, key, k) < 0 ==> forall|j: int| 0 <= j < s.len() ==> key(#[trigger] s[j]) != k,
    decreases s.len(),
{
    if s.len() > 0 {
        lemma_find_key(s.drop_last(), key, k);
        if key(s.last()) != k {
            assert forall|j: int| 0 <= j < s.len() - 1 implies s[j] == s.drop_last()[j] by {}
        }
    }
}

/// In a strictly sorted sequence without the key, the elements before `k`
/// form a prefix whose length is `count_lt`, and all later ones sort after `k`.
pub proof fn lemma_count_lt_sorted<T, K>(s: Seq<T>, key: spec_fn(T) -> K, lt: spec_fn(K, K) -> bool, k: K)
    requires
        is_strict_total(lt),
        strictly_sorted_by(s, key, lt),
        forall|j: int| 0 <= j < s.len() ==> key(#[trigger] s[j]) != k,
    ensures
        0 <= count_lt(s, key, lt, k) <= s.len(),
        forall|j: int| 0 <= j < count_lt(s, key, lt, k) ==> lt(key(#[trigger] s[j]), k),
        forall|j: int| count_lt(s, key, lt, k) <= j < s.len() ==> lt(k, key(#[trigger] s[j])),
    decreases s.len(),
{
    if s.len() > 0 {
        let t = s.drop_last();
        assert forall|j: int| 0 <= j < t.len() implies key(#[trigger] t[j]) != k by {
            assert(t[j] == s[j]);
        }
        assert(strictly_sorted_by(t, key, lt)) by {
            assert forall|i: int, j: int| 0 <= i < j < t.len() implies lt(key(#[trigger] t[i]), key(#[trigger] t[j])) by {
                assert(t[i] == s[i] && t[j] == s[j]);
            }
        }
        lemma_count_lt_sorted(t, key, lt, k);
        let c = count_lt(t, key, lt, k);
        let n = s.len() - 1;
        assert(key(s[n]) != k);
        if lt(key(s[n]), k) {
            if c < n {
                assert(t[c] == s[c]);
                assert(lt(k, key(s[c])));
                assert(lt(key(s[c]), key(s[n])));
                assert(lt(k, key(s[n])));
                assert(lt(k, k));
            }
            assert forall|j: int| 0 <= j < n + 1 implies lt(key(#[trigger] s[j]), k) by {
                if j < n {
                    assert(t[j] == s[j]);
                }
            }
        } else {
            assert(lt(k, key(s[n])));
            assert forall|j: int| 0 <= j < c implies lt(key(#[trigger] s[j]), k) by {
                assert(t[j] == s[j]);
            }
            assert forall|j: int| c <= j < s.len() implies lt(k, key(#[trigger] s[j])) by {
                if j < n {
                    assert(t[j] == s[j]);
                }
            }
        }
    }
}

/// Appending an element greater than every element keeps the order strict.
pub proof fn lemma_strict_push<T, K>(s: Seq<T>, x: T, key: spec_fn(T) -> K, lt: spec_fn(K, K) -> bool)
    requires
        strictly_sorted_by(s, key, lt),
        forall|j: int| 0 <= j < s.len() ==> lt(key(#[trigger] s[j]), key(x)),
    ensures
        strictly_sorted_by(s.push(x), key, lt),
{
    let t = s.push(x);
    assert forall|i: int, j: int| 0 <= i < j < t.len() implies lt(key(#[trigger] t[i]), key(#[trigger] t[j])) by {
        assert(t[i] == s[i]);
        if j < s.len() {
            assert(t[j] == s[j]);
        }
    }
}

/// In a strictly sorted sequence, the element with a key is the one `find_key` finds.
pub proof fn lemma_find_key_unique<T, K>(s: Seq<T>, key: spec_fn(T) -> K, lt: spec_fn(K, K) -> bool, p: int)
    requires
        is_strict_order(lt),
        strictly_sorted_by(s, key, lt),
        0 <= p < s.len(),
    ensures
        find_key(s, key, key(s[p])) == p,
{
    let k = key(s[p]);
    lemma_find_key(s, key, k);
    let j = find_key(s, key, k);
    if j != p {
        if j < p {
            assert(lt(key(s[j]), key(s[p])));
        } else {
            assert(lt(key(s[p]), key(s[j])));
        }
    }
}

} // verus!
