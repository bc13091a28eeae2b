//! Stable ordering of sequences by an integer key, the model of the insertion sorts used for
//! event lists and voice menus.

use vstd::prelude::*;

verus! {

/// Inserts `e` after the last element whose key is at most `key(e)`
/// (scanning from the back; everything after it has a larger key).
pub open spec fn insert_by_key<T>(s: Seq<T>, e: T, key: spec_fn(T) -> u64) -> Seq<T>
    decreases s.len(),
{
    if s.len() == 0 || key(s.last()) <= key(e) {
        s.push(e)
    } else {
        insert_by_key(s.drop_last(), e, key).push(s.last())
    }
}

/// Stable sort by key: each element in turn is inserted after every earlier element whose
/// key is not larger.
pub open spec fn sort_by_key<T>(s: Seq<T>, key: spec_fn(T) -> u64) -> Seq<T>
    decreases s.len(),
{
    if s.len() == 0 {
        s
    } else {
        insert_by_key(sort_by_key(s.drop_last(), key), s.last(), key)
    }
}

/// Sorting a sequence extended by one element inserts that element into the sorted prefix.
pub proof fn lemma_sort_push<T>(s: Seq<T>, x: T, key: spec_fn(T) -> u64)
    ensures
        sort_by_key(s.push(x), key) == insert_by_key(sort_by_key(s, key), x, key),
{
    assert(s.push(x).drop_last() =~= s);
}

/// Keys ascend along the sequence.
pub open spec fn sorted_by_key<T>(s: Seq<T>, key: spec_fn(T) -> u64) -> bool {
    forall|i: int, j: int| 0 <= i <= j < s.len() ==> key(s[i]) <= key(s[j])
}

/// The insertion position found by scanning back from the end is where `insert_by_key` puts `e`.
pub proof fn lemma_insert_at<T>(s: Seq<T>, e: T, key: spec_fn(T) -> u64, k: int)
    requires
        0 <= k <= s.len(),
        forall|j: int| k <= j < s.len() ==> key(#[trigger] s[j]) > key(e),
        k == 0 || key(s[k - 1]) <= key(e),
    ensures
        insert_by_key(s, e, key) == s.take(k).push(e) + s.skip(k),
    decreases s.len() - k,
{
    if k == s.len() {
        assert(s.take(k) =~= s);
        assert(s.skip(k) =~= Seq::<T>::empty());
        assert(s.take(k).push(e) + s.skip(k) =~= s.push(e));
    } else {
        let t = s.drop_last();
        assert(key(s.last()) > key(e));
        assert forall|j: int| k <= j < t.len() implies key(#[trigger] t[j]) > key(e) by {
            assert(t[j] == s[j]);
        }
        if k > 0 {
            assert(t[k - 1] == s[k - 1]);
        }
        lemma_insert_at(t, e, key, k);
        assert(t.take(k) =~= s.take(k));
        assert((t.take(k).push(e) + t.skip(k)).push(s.last()) =~= s.take(k).push(e) + s.skip(k));
    }
}

/// Inserting into a sorted sequence keeps it sorted and adds exactly `e`.
pub proof fn lemma_insert_sorted<T>(s: Seq<T>, e: T, key: spec_fn(T) -> u64)
    requires
        sorted_by_key(s, key),
    ensures
        sorted_by_key(insert_by_key(s, e, key), key),
        insert_by_key(s, e, key).to_multiset() == s.to_multiset().insert(e),
        insert_by_key(s, e, key).len() == s.len() + 1,
    decreases s.len(),
{
    broadcast use vstd::seq_lib::group_seq_properties;
    if s.len() == 0 || key(s.last()) <= key(e) {
    } else {
        let t = s.drop_last();
        lemma_insert_sorted(t, e, key);
        let u = insert_by_key(t, e, key);
        let r = u.push(s.last());
        assert(s =~= t.push(s.last()));
        assert forall|i: int, j: int| 0 <= i <= j < r.len() implies key(r[i]) <= key(r[j]) by {
            if j == r.len() - 1 && i < j {
                // every element of u is e or an element of t, all at most key(s.last())
                assert(u.to_multiset().count(u[i]) > 0);
                if u[i] != e {
                    assert(t.to_multiset().count(u[i]) > 0);
                    let m = choose|m: int| 0 <= m < t.len() && t[m] == u[i];
                    assert(t[m] == s[m]);
                }
            }
        }
    }
}

/// A stable sort is sorted and holds the same elements.
pub proof fn lemma_sort_by_key<T>(s: Seq<T>, key: spec_fn(T) -> u64)
    ensures
        sorted_by_key(sort_by_key(s, key), key),
        sort_by_key(s, key).to_multiset() == s.to_multiset(),
        sort_by_key(s, key).len() == s.len(),
    decreases s.len(),
{
    broadcast use vstd::seq_lib::group_seq_properties;
    if s.len() > 0 {
        lemma_sort_by_key(s.drop_last(), key);
        lemma_insert_sorted(sort_by_key(s.drop_last(), key), s.last(), key);
        assert(s =~= s.drop_last().push(s.last()));
    }
}

} // verus!
