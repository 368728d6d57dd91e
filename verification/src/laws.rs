//! The laws of the key-derived set, stated over the views and spec functions
//! that the operations' contracts use, and proved once and for all.

use vstd::prelude::*;
use vstd::set_lib::lemma_len_subset;
use vstd::set_lib::lemma_subset_equality;
use crate::key_set::KeyHashSet;
use crate::key_set::key_of;

verus! {

/// After a value is inserted, the set contains its key, and the value found
/// at that key is the inserted value itself, whose key is that key.
pub proof fn lemma_insert_then_found<T, K, F>(s: KeyHashSet<T, K, F>, v: T) where
    T: Clone,
    K: Eq + core::hash::Hash,
    F: Fn(&T) -> K + Copy,

    requires
        s.wf(),
    ensures
        s@.insert(key_of(s.key_fn(), v), v).dom().contains(key_of(s.key_fn(), v)),
        s@.insert(key_of(s.key_fn(), v), v)[key_of(s.key_fn(), v)] == v,
{
}

/// Overwrite law: inserting two values that share a key is the same as
/// inserting only the second; into an empty set it leaves exactly one key,
/// holding the second value.
pub proof fn lemma_insert_overwrites<T, K, F>(s: KeyHashSet<T, K, F>, v1: T, v2: T) where
    T: Clone,
    K: Eq + core::hash::Hash,
    F: Fn(&T) -> K + Copy,

    requires
        s.wf(),
        key_of(s.key_fn(), v1) == key_of(s.key_fn(), v2),
    ensures
        s@.insert(key_of(s.key_fn(), v1), v1).insert(key_of(s.key_fn(), v2), v2) == s@.insert(
            key_of(s.key_fn(), v2),
            v2,
        ),
        Map::<K, T>::empty().insert(key_of(s.key_fn(), v1), v1).insert(
            key_of(s.key_fn(), v2),
            v2,
        ).dom().len() == 1,
        Map::<K, T>::empty().insert(key_of(s.key_fn(), v1), v1).insert(
            key_of(s.key_fn(), v2),
            v2,
        )[key_of(s.key_fn(), v2)] == v2,
{
    let k = key_of(s.key_fn(), v2);
    assert(s@.insert(k, v1).insert(k, v2) =~= s@.insert(k, v2));
    let m = Map::<K, T>::empty().insert(k, v1).insert(k, v2);
    assert(m.dom() =~= Set::<K>::empty().insert(k));
}

/// Idempotence: inserting the same value again changes nothing, so in
/// particular the size stays what it was after the first insertion.
pub proof fn lemma_insert_idempotent<T, K, F>(s: KeyHashSet<T, K, F>, v: T) where
    T: Clone,
    K: Eq + core::hash::Hash,
    F: Fn(&T) -> K + Copy,

    requires
        s.wf(),
    ensures
        s@.insert(key_of(s.key_fn(), v), v).insert(key_of(s.key_fn(), v), v) == s@.insert(
            key_of(s.key_fn(), v),
            v,
        ),
{
    let k = key_of(s.key_fn(), v);
    assert(s@.insert(k, v).insert(k, v) =~= s@.insert(k, v));
}

/// After removing a value's key the set no longer contains it; removing an
/// absent key changes nothing.
pub proof fn lemma_remove_then_absent<T, K, F>(s: KeyHashSet<T, K, F>, v: T) where
    T: Clone,
    K: Eq + core::hash::Hash,
    F: Fn(&T) -> K + Copy,

    requires
        s.wf(),
    ensures
        !s@.remove(key_of(s.key_fn(), v)).dom().contains(key_of(s.key_fn(), v)),
        !s@.dom().contains(key_of(s.key_fn(), v)) ==> s@.remove(key_of(s.key_fn(), v)) == s@,
{
    let k = key_of(s.key_fn(), v);
    if !s@.dom().contains(k) {
        assert(s@.remove(k) =~= s@);
    }
}

/// Two sets are equal (hold the same keys) exactly when each is a subset of
/// the other.
pub proof fn lemma_mutual_subset_is_equality<T, K, F>(
    a: KeyHashSet<T, K, F>,
    b: KeyHashSet<T, K, F>,
) where T: Clone, K: Eq + core::hash::Hash, F: Fn(&T) -> K + Copy
    requires
        a.wf(),
        b.wf(),
    ensures
        (a@.dom().subset_of(b@.dom()) && b@.dom().subset_of(a@.dom())) <==> (a@.dom() == b@.dom()),
{
    if a@.dom().subset_of(b@.dom()) && b@.dom().subset_of(a@.dom()) {
        assert(a@.dom() =~= b@.dom());
    }
}

/// Two sets are disjoint exactly when their intersection holds nothing.
pub proof fn lemma_disjoint_iff_empty_intersection<T, K, F>(
    a: KeyHashSet<T, K, F>,
    b: KeyHashSet<T, K, F>,
) where T: Clone, K: Eq + core::hash::Hash, F: Fn(&T) -> K + Copy
    requires
        a.wf(),
        b.wf(),
    ensures
        a@.dom().disjoint(b@.dom()) <==> a@.dom().intersect(b@.dom()).len() == 0,
{
    a.lemma_dom_finite();
    let i = a@.dom().intersect(b@.dom());
    lemma_len_subset(i, a@.dom());
    if a@.dom().disjoint(b@.dom()) {
        assert(i =~= Set::<K>::empty());
    }
    if i.len() == 0 {
        i.lemma_len0_is_empty();
        assert forall|k: K| #[trigger] a@.dom().contains(k) implies !b@.dom().contains(k) by {
            if b@.dom().contains(k) {
                assert(i.contains(k));
            }
        };
        assert(a@.dom().disjoint(b@.dom()));
    }
}

/// An empty set lists no values: whatever `drain`, `iter` or `into_iter`
/// hand out of a set whose map is empty is an empty sequence. In particular
/// a second `drain` yields nothing.
pub proof fn lemma_empty_set_lists_nothing<T, K, F>(s: KeyHashSet<T, K, F>, l: Seq<T>) where
    T: Clone,
    K: Eq + core::hash::Hash,
    F: Fn(&T) -> K + Copy,

    requires
        s.wf(),
        s@ == Map::<K, T>::empty(),
        s.lists_values(l),
    ensures
        l.len() == 0,
{
    assert(s@.dom() =~= Set::<K>::empty());
}

/// A value list of the set, as `drain`, `iter` and `into_iter` hand one out,
/// is complete: every stored value appears in it (exactly once, since no two
/// listed elements share a key).
pub proof fn lemma_lists_values_complete<T, K, F>(
    s: KeyHashSet<T, K, F>,
    l: Seq<T>,
) where T: Clone, K: Eq + core::hash::Hash, F: Fn(&T) -> K + Copy
    requires
        s.wf(),
        s.lists_values(l),
    ensures
        forall|k: K| #[trigger]
            s@.dom().contains(k) ==> exists|i: int|
                0 <= i < l.len() && key_of(s.key_fn(), #[trigger] l[i]) == k && l[i] == s@[k],
{
    s.lemma_dom_finite();
    let kl = l.map_values(|v: T| key_of(s.key_fn(), v));
    assert(kl.no_duplicates()) by {
        assert forall|i: int, j: int|
            0 <= i < kl.len() && 0 <= j < kl.len() && i != j implies kl[i] != kl[j] by {
            assert(kl[i] == key_of(s.key_fn(), l[i]));
            assert(kl[j] == key_of(s.key_fn(), l[j]));
        };
    };
    kl.unique_seq_to_set();
    assert forall|k: K| kl.to_set().contains(k) implies s@.dom().contains(k) by {
        let i = choose|i: int| 0 <= i < kl.len() && kl[i] == k;
        assert(kl[i] == key_of(s.key_fn(), l[i]));
        assert(s@.dom().contains(key_of(s.key_fn(), l[i])));
    };
    lemma_subset_equality(kl.to_set(), s@.dom());
    assert forall|k: K| #[trigger] s@.dom().contains(k) implies exists|i: int|
        0 <= i < l.len() && key_of(s.key_fn(), #[trigger] l[i]) == k && l[i] == s@[k] by {
        assert(kl.to_set().contains(k));
        let i = choose|i: int| 0 <= i < kl.len() && kl[i] == k;
        assert(key_of(s.key_fn(), l[i]) == k);
        assert(s@[key_of(s.key_fn(), l[i])] == l[i]);
        assert(0 <= i < l.len() && key_of(s.key_fn(), l[i]) == k && l[i] == s@[k]);
    };
}

} // verus!
