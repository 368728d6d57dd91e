//! A set of values of type `T` deduplicated by a derived key of type `K`,
//! computed by a key function supplied at construction.

use vstd::prelude::*;
use vstd::pervasive::VecAdditionalExecFns;
use vstd::std_specs::cmp::PartialEqSpec;
use vstd::string::StringExecFns;

verus! {

/// The key that the key function `f` assigns to the value `v`.
///
/// A well-formed set only ever holds a key function whose result is uniquely
/// determined by its argument (see [`key_fn_ok`]), so the `choose` below picks
/// the one key that `f` can return for `v`.
pub open spec fn key_of<T, K, F: Fn(&T) -> K>(f: F, v: T) -> K {
    choose|k: K| call_ensures(f, (&v,), k)
}

/// The key function can be called on every value, and its result is uniquely
/// determined by its argument. This is the caller obligation of a stable,
/// deterministic key function: without it the set's invariants are undefined.
pub open spec fn key_fn_ok<T, K, F: Fn(&T) -> K>(f: F) -> bool {
    &&& forall|v: T| #[trigger] call_requires(f, (&v,))
    &&& forall|v: T, k1: K, k2: K|
        call_ensures(f, (&v,), k1) && call_ensures(f, (&v,), k2) ==> k1 == k2
}

/// The `==` of the key type agrees with mathematical equality. This holds of
/// the primitive types (integers, `bool`, `char`, tuples of these), which are
/// the intended key types.
pub open spec fn key_eq_ok<K: PartialEq>() -> bool {
    &&& K::obeys_eq_spec()
    &&& forall|a: K, b: K| (#[trigger] a.eq_spec(&b)) <==> a == b
}

/// Cloning a value of type `T` yields the value itself. This holds of the
/// primitive types and of `Copy` types with a derived `Clone`.
pub open spec fn clone_keeps_value<T: Clone>() -> bool {
    forall|a: T, b: T| #[trigger] vstd::pervasive::cloned::<T>(a, b) ==> b == a
}

/// Whenever the key function has actually returned `k` for `v`, `k` is the
/// key that [`key_of`] assigns to `v`.
pub proof fn lemma_key_of_call<T, K, F: Fn(&T) -> K>(f: F, v: T, k: K)
    requires
        key_fn_ok(f),
        call_ensures(f, (&v,), k),
    ensures
        key_of(f, v) == k,
{
    let k0 = choose|k2: K| call_ensures(f, (&v,), k2);
    assert(call_ensures(f, (&v,), k0));
}

/// The values behind a sequence of references.
pub open spec fn deref_seq<T>(s: Seq<&T>) -> Seq<T> {
    s.map_values(|v: &T| *v)
}

/// Renders a value through its `Debug` formatting, for diagnostics.
///
/// Relies on `format!` with std's `Debug` trait; the rendering is whatever
/// the type's `Debug` implementation produces, so nothing is promised of it.
#[verifier::external_body]
pub fn debug_key<T: core::fmt::Debug>(value: &T) -> String {
    format!("{:?}", value)
}

/// A thin wrapper that hands out the values of a wrapped sequence one at a
/// time without exposing the backing storage: an encapsulation device, not
/// an algorithm. It passes the sequence through unchanged: nothing is
/// added, dropped or reordered. It is consumed by use: once a value has
/// been yielded it does not come again.
pub struct IteratorWrapper<T> {
    pending: Vec<T>,
}

impl<T> IteratorWrapper<T> {
    /// The values not yet yielded, in the order they will come.
    pub closed spec fn remaining(&self) -> Seq<T> {
        self.pending@.reverse()
    }

    /// A wrapper that yields exactly the given values, in their given order.
    pub fn new(items: Vec<T>) -> (r: Self)
        ensures
            r.remaining() == items@,
    {
        let ghost s0 = items@;
        let mut items = items;
        let mut pending: Vec<T> = Vec::new();
        while items.len() > 0
            invariant
                pending@.len() + items@.len() == s0.len(),
                forall|j: int| 0 <= j < items@.len() ==> #[trigger] items@[j] == s0[j],
                forall|j: int|
                    0 <= j < pending@.len() ==> #[trigger] pending@[j] == s0[s0.len() - 1 - j],
            decreases items@.len(),
        {
            let ghost iprev = items@;
            let v = match items.pop() {
                Some(v) => v,
                None => {
                    proof {
                        assert(false);
                    }
                    unreached()
                },
            };
            pending.push(v);
            proof {
                let m = items@.len() as int;
                assert(v == iprev[m]);
                assert(v == s0[m]);
                assert forall|j: int| 0 <= j < m implies #[trigger] items@[j] == s0[j] by {
                    assert(items@[j] == iprev[j]);
                };
            }
        }
        let r = IteratorWrapper { pending };
        proof {
            assert(r.remaining() =~= s0);
        }
        r
    }

    /// Yield the first remaining value, or `None` once none remain.
    pub fn next(&mut self) -> (r: Option<T>)
        ensures
            old(self).remaining().len() == 0 ==> r is None && final(self).remaining() == old(self).remaining(),
            old(self).remaining().len() > 0 ==> r == Some(old(self).remaining().first())
                && final(self).remaining() == old(self).remaining().drop_first(),
    {
        let r = self.pending.pop();
        proof {
            if old(self).pending@.len() > 0 {
                assert(old(self).remaining().first() == old(self).pending@.last());
                assert(self.remaining() =~= old(self).remaining().drop_first());
            } else {
                assert(self.remaining() =~= old(self).remaining());
            }
        }
        r
    }
}

/// A set of values of type `T`, deduplicated by a key of type `K` derived
/// from each value by the key function of type `F`.
///
/// At most one value is stored per distinct key; inserting a value whose key
/// is already present replaces the stored value for that key.
pub struct KeyHashSet<T, K, F> {
    get_key: F,
    entries: Vec<(K, T)>,
}

/// Does some entry of `s` carry the key `k`?
spec fn seq_has_key<K, T>(s: Seq<(K, T)>, k: K) -> bool {
    exists|i: int| 0 <= i < s.len() && s[i].0 == k
}

/// The position of the entry of `s` that carries the key `k`.
spec fn seq_index_of_key<K, T>(s: Seq<(K, T)>, k: K) -> int {
    choose|i: int| 0 <= i < s.len() && s[i].0 == k
}

/// No two entries of `s` carry the same key.
spec fn seq_keys_distinct<K, T>(s: Seq<(K, T)>) -> bool {
    forall|i: int, j: int| 0 <= i < j < s.len() ==> s[i].0 != s[j].0
}

proof fn lemma_seq_index_of_key<K, T>(s: Seq<(K, T)>, k: K, i: int)
    requires
        seq_keys_distinct(s),
        0 <= i < s.len(),
        s[i].0 == k,
    ensures
        seq_index_of_key(s, k) == i,
        seq_has_key(s, k),
{
    assert(seq_has_key(s, k));
    let j = seq_index_of_key(s, k);
    assert(0 <= j < s.len() && s[j].0 == k);
    if i < j {
        assert(s[i].0 != s[j].0);
    } else if j < i {
        assert(s[j].0 != s[i].0);
    }
}

proof fn lemma_has_key_index<K, T>(s: Seq<(K, T)>, k: K)
    requires
        seq_has_key(s, k),
    ensures
        0 <= seq_index_of_key(s, k) < s.len(),
        s[seq_index_of_key(s, k)].0 == k,
{
    let j = seq_index_of_key(s, k);
    assert(0 <= j < s.len() && s[j].0 == k);
}

/// The map from each key carried by an entry of `s` to the value stored
/// beside it.
spec fn map_of<K, T>(s: Seq<(K, T)>) -> Map<K, T> {
    Map::new(|k: K| seq_has_key(s, k), |k: K| s[seq_index_of_key(s, k)].1)
}

/// Overwriting the entry at `i`, whose key is `k`, with `(k, v)` updates the
/// entry map at `k` and keeps the keys distinct.
proof fn lemma_map_of_update<K, T>(s: Seq<(K, T)>, i: int, k: K, v: T)
    requires
        seq_keys_distinct(s),
        0 <= i < s.len(),
        s[i].0 == k,
    ensures
        seq_keys_distinct(s.update(i, (k, v))),
        map_of(s.update(i, (k, v))) == map_of(s).insert(k, v),
{
    let s2 = s.update(i, (k, v));
    assert(seq_keys_distinct(s2)) by {
        assert forall|a: int, b: int| 0 <= a < b < s2.len() implies s2[a].0 != s2[b].0 by {
            assert(s[a].0 != s[b].0);
        };
    };
    assert forall|k2: K| seq_has_key(s2, k2) implies seq_has_key(s, k2) by {
        let j = choose|j: int| 0 <= j < s2.len() && s2[j].0 == k2;
        if j == i {
            assert(s[i].0 == k2);
        } else {
            assert(s[j].0 == k2);
        }
    };
    assert forall|k2: K| seq_has_key(s, k2) implies seq_has_key(s2, k2) by {
        let j = choose|j: int| 0 <= j < s.len() && s[j].0 == k2;
        if j == i {
            assert(s2[i].0 == k2);
        } else {
            assert(s2[j].0 == k2);
        }
    };
    assert forall|k2: K| seq_has_key(s2, k2) implies map_of(s2)[k2] == map_of(s).insert(
        k,
        v,
    )[k2] by {
        if k2 == k {
            lemma_seq_index_of_key(s2, k2, i);
        } else {
            let j = seq_index_of_key(s, k2);
            assert(0 <= j < s.len() && s[j].0 == k2);
            assert(j != i);
            lemma_seq_index_of_key(s, k2, j);
            lemma_seq_index_of_key(s2, k2, j);
        }
    };
    assert(map_of(s2) =~= map_of(s).insert(k, v));
}

/// Appending an entry with a fresh key `k` inserts `(k, v)` into the entry
/// map and keeps the keys distinct.
proof fn lemma_map_of_push<K, T>(s: Seq<(K, T)>, k: K, v: T)
    requires
        seq_keys_distinct(s),
        !seq_has_key(s, k),
    ensures
        seq_keys_distinct(s.push((k, v))),
        map_of(s.push((k, v))) == map_of(s).insert(k, v),
{
    let s2 = s.push((k, v));
    let n = s.len() as int;
    assert(seq_keys_distinct(s2)) by {
        assert forall|a: int, b: int| 0 <= a < b < s2.len() implies s2[a].0 != s2[b].0 by {
            if b == n {
                assert(s2[a].0 == s[a].0);
                if s[a].0 == k {
                    assert(seq_has_key(s, k));
                }
            } else {
                assert(s[a].0 != s[b].0);
            }
        };
    };
    assert forall|k2: K| seq_has_key(s2, k2) implies seq_has_key(s, k2) || k2 == k by {
        let j = choose|j: int| 0 <= j < s2.len() && s2[j].0 == k2;
        if j < n {
            assert(s[j].0 == k2);
        }
    };
    assert forall|k2: K| seq_has_key(s, k2) implies seq_has_key(s2, k2) by {
        let j = choose|j: int| 0 <= j < s.len() && s[j].0 == k2;
        assert(s2[j].0 == k2);
    };
    assert(s2[n].0 == k);
    assert(seq_has_key(s2, k));
    assert forall|k2: K| seq_has_key(s2, k2) implies map_of(s2)[k2] == map_of(s).insert(
        k,
        v,
    )[k2] by {
        if k2 == k {
            lemma_seq_index_of_key(s2, k2, n);
        } else {
            let j = seq_index_of_key(s, k2);
            assert(0 <= j < s.len() && s[j].0 == k2);
            lemma_seq_index_of_key(s, k2, j);
            lemma_seq_index_of_key(s2, k2, j);
        }
    };
    assert(map_of(s2) =~= map_of(s).insert(k, v));
}

/// Removing the entry at `i` removes its key from the entry map and keeps
/// the keys distinct.
proof fn lemma_map_of_remove<K, T>(s: Seq<(K, T)>, i: int)
    requires
        seq_keys_distinct(s),
        0 <= i < s.len(),
    ensures
        seq_keys_distinct(s.remove(i)),
        map_of(s.remove(i)) == map_of(s).remove(s[i].0),
{
    let s2 = s.remove(i);
    let k = s[i].0;
    let n = s.len() as int;
    assert forall|a: int, b: int| 0 <= a < b < s2.len() implies s2[a].0 != s2[b].0 by {
        let a0: int = if a < i { a } else { a + 1 };
        let b0: int = if b < i { b } else { b + 1 };
        assert(s2[a] == s[a0]);
        assert(s2[b] == s[b0]);
        assert(s[a0].0 != s[b0].0);
    };
    assert forall|k2: K| seq_has_key(s2, k2) implies seq_has_key(s, k2) && k2 != k by {
        let j = choose|j: int| 0 <= j < s2.len() && s2[j].0 == k2;
        let j0: int = if j < i { j } else { j + 1 };
        assert(s2[j] == s[j0]);
        assert(s[j0].0 == k2);
        if k2 == k {
            if j0 < i {
                assert(s[j0].0 != s[i].0);
            } else {
                assert(s[i].0 != s[j0].0);
            }
        }
    };
    assert forall|k2: K| seq_has_key(s, k2) && k2 != k implies seq_has_key(s2, k2) by {
        let j = choose|j: int| 0 <= j < s.len() && s[j].0 == k2;
        assert(j != i);
        if j < i {
            assert(s2[j] == s[j]);
        } else {
            assert(s2[j - 1] == s[j]);
        }
    };
    assert forall|k2: K| seq_has_key(s2, k2) implies map_of(s2)[k2] == map_of(s).remove(
        k,
    )[k2] by {
        let j = choose|j: int| 0 <= j < s2.len() && s2[j].0 == k2;
        let j0: int = if j < i { j } else { j + 1 };
        assert(s2[j] == s[j0]);
        lemma_seq_index_of_key(s2, k2, j);
        lemma_seq_index_of_key(s, k2, j0);
    };
    assert(map_of(s2) =~= map_of(s).remove(k));
}

impl<T, K, F> View for KeyHashSet<T, K, F> {
    type V = Map<K, T>;

    /// The mathematical content of the set: the finite map from each stored
    /// key to the value stored at it.
    closed spec fn view(&self) -> Map<K, T> {
        map_of(self.entries@)
    }
}

impl<T, K, F> KeyHashSet<T, K, F> where T: Clone, K: Eq + core::hash::Hash, F: Fn(&T) -> K + Copy {
    /// The key function this set was built with.
    pub closed spec fn key_fn(&self) -> F {
        self.get_key
    }

    /// `s` lists the stored values of the set, each exactly once, in some
    /// order: it is as long as the set, each of its elements is stored at
    /// its own key, and no two of its elements share a key.
    pub open spec fn lists_values(&self, s: Seq<T>) -> bool {
        &&& s.len() == self@.dom().len()
        &&& forall|i: int|
            0 <= i < s.len() ==> self@.dom().contains(key_of(self.key_fn(), #[trigger] s[i]))
                && self@[key_of(self.key_fn(), s[i])] == s[i]
        &&& forall|i: int, j: int|
            0 <= i < j < s.len() ==> key_of(self.key_fn(), s[i]) != key_of(self.key_fn(), s[j])
    }

    /// Well-formedness: the key function is total and deterministic, `==` on
    /// keys is real equality, each entry carries the key derived from its
    /// value, and no key appears twice.
    pub closed spec fn wf(&self) -> bool {
        &&& key_fn_ok(self.get_key)
        &&& key_eq_ok::<K>()
        &&& seq_keys_distinct(self.entries@)
        &&& forall|i: int|
            0 <= i < self.entries@.len() ==> #[trigger] self.entries@[i].0 == key_of(
                self.get_key,
                self.entries@[i].1,
            )
    }

    /// An empty set bound to the given key function.
    pub fn new(get_key: F) -> (r: Self)
        requires
            key_fn_ok(get_key),
            key_eq_ok::<K>(),
        ensures
            r.wf(),
            r.key_fn() == get_key,
            r@ == Map::<K, T>::empty(),
    {
        let entries: Vec<(K, T)> = Vec::new();
        let r = KeyHashSet { get_key, entries };
        proof {
            assert(r@ =~= Map::<K, T>::empty());
        }
        r
    }

    /// The number of values stored: the number of distinct keys.
    pub fn len(&self) -> (r: usize)
        requires
            self.wf(),
        ensures
            r == self@.dom().len(),
    {
        proof {
            self.lemma_dom_len();
        }
        self.entries.len()
    }

    /// The set's key set is exactly the keys of its entries, so it is finite
    /// and as large as the entry list.
    proof fn lemma_dom_len(&self)
        requires
            self.wf(),
        ensures
            self@.dom().finite(),
            self@.dom().len() == self.entries@.len(),
    {
        let keys = self.entries@.map_values(|e: (K, T)| e.0);
        assert forall|k: K| self@.dom().contains(k) implies keys.to_set().contains(k) by {
            let i = seq_index_of_key(self.entries@, k);
            assert(keys[i] == k);
        };
        assert forall|k: K| keys.to_set().contains(k) implies self@.dom().contains(k) by {
            let i = choose|i: int| 0 <= i < keys.len() && keys[i] == k;
            assert(self.entries@[i].0 == k);
        };
        assert(self@.dom() =~= keys.to_set());
        assert(keys.no_duplicates()) by {
            assert forall|i: int, j: int|
                0 <= i < keys.len() && 0 <= j < keys.len() && i != j implies keys[i]
                != keys[j] by {
                assert(keys[i] == self.entries@[i].0);
                assert(keys[j] == self.entries@[j].0);
            };
        };
        keys.unique_seq_to_set();
    }

    /// The set's key set is finite.
    pub proof fn lemma_dom_finite(&self)
        requires
            self.wf(),
        ensures
            self@.dom().finite(),
    {
        self.lemma_dom_len();
    }

    /// The position of the entry carrying the given key, if any entry does.
    fn find(&self, key: &K) -> (r: Option<usize>)
        requires
            self.wf(),
        ensures
            match r {
                Some(i) => 0 <= i < self.entries@.len() && self.entries@[i as int].0 == *key,
                None => !seq_has_key(self.entries@, *key),
            },
    {
        let mut i: usize = 0;
        while i < self.entries.len()
            invariant
                self.wf(),
                0 <= i <= self.entries@.len(),
                forall|j: int| 0 <= j < i ==> self.entries@[j].0 != *key,
            decreases self.entries@.len() - i,
        {
            let e = &self.entries[i];
            if e.0 == *key {
                return Some(i);
            }
            i = i + 1;
        }
        None
    }

    /// Does the set hold a value whose key equals the key of `value`?
    ///
    /// This checks key presence, not value equality: two values with the
    /// same key are indistinguishable to the set.
    pub fn contains(&self, value: &T) -> (r: bool)
        requires
            self.wf(),
        ensures
            r == self@.dom().contains(key_of(self.key_fn(), *value)),
            call_ensures(self.key_fn(), (value,), key_of(self.key_fn(), *value)),
    {
        let f = self.get_key;
        let key = f(value);
        proof {
            lemma_key_of_call(f, *value, key);
        }
        self.find(&key).is_some()
    }

    /// Store `value` at its derived key, overwriting any value stored at
    /// that key before.
    pub fn insert(&mut self, value: T)
        requires
            old(self).wf(),
        ensures
            final(self).wf(),
            final(self).key_fn() == old(self).key_fn(),
            final(self)@ == old(self)@.insert(key_of(old(self).key_fn(), value), value),
            call_ensures(old(self).key_fn(), (&value,), key_of(old(self).key_fn(), value)),
    {
        let f = self.get_key;
        let key = f(&value);
        proof {
            lemma_key_of_call(f, value, key);
        }
        let ghost s0 = self.entries@;
        match self.find(&key) {
            Some(i) => {
                proof {
                    lemma_map_of_update(s0, i as int, key, value);
                }
                self.entries.set(i, (key, value));
            },
            None => {
                proof {
                    lemma_map_of_push(s0, key, value);
                }
                self.entries.push((key, value));
            },
        }
    }

    /// Remove and return the value stored at the key of `value`, or `None`
    /// if no value is stored at that key.
    pub fn take(&mut self, value: &T) -> (r: Option<T>)
        requires
            old(self).wf(),
        ensures
            final(self).wf(),
            final(self).key_fn() == old(self).key_fn(),
            final(self)@ == old(self)@.remove(key_of(old(self).key_fn(), *value)),
            r == if old(self)@.dom().contains(key_of(old(self).key_fn(), *value)) {
                Some(old(self)@[key_of(old(self).key_fn(), *value)])
            } else {
                None::<T>
            },
            call_ensures(old(self).key_fn(), (value,), key_of(old(self).key_fn(), *value)),
    {
        let f = self.get_key;
        let key = f(value);
        proof {
            lemma_key_of_call(f, *value, key);
        }
        let ghost s0 = self.entries@;
        match self.find(&key) {
            Some(i) => {
                proof {
                    lemma_map_of_remove(s0, i as int);
                    lemma_seq_index_of_key(s0, key, i as int);
                }
                let e = self.entries.remove(i);
                Some(e.1)
            },
            None => {
                proof {
                    assert(final(self)@ =~= old(self)@.remove(key));
                }
                None
            },
        }
    }

    /// Remove the entry at the key of `value`; report whether one was there.
    /// Removing at an absent key changes nothing.
    pub fn remove(&mut self, value: &T) -> (r: bool)
        requires
            old(self).wf(),
        ensures
            final(self).wf(),
            final(self).key_fn() == old(self).key_fn(),
            final(self)@ == old(self)@.remove(key_of(old(self).key_fn(), *value)),
            r == old(self)@.dom().contains(key_of(old(self).key_fn(), *value)),
            call_ensures(old(self).key_fn(), (value,), key_of(old(self).key_fn(), *value)),
    {
        match self.take(value) {
            None => false,
            _ => true,
        }
    }

    /// A reference to the value stored at the key of `value`, or `None` if
    /// no value is stored at that key.
    pub fn get(&self, value: &T) -> (r: Option<&T>)
        requires
            self.wf(),
        ensures
            r == if self@.dom().contains(key_of(self.key_fn(), *value)) {
                Some(&self@[key_of(self.key_fn(), *value)])
            } else {
                None::<&T>
            },
            call_ensures(self.key_fn(), (value,), key_of(self.key_fn(), *value)),
    {
        let f = self.get_key;
        let key = f(value);
        proof {
            lemma_key_of_call(f, *value, key);
        }
        match self.find(&key) {
            Some(i) => {
                proof {
                    lemma_seq_index_of_key(self.entries@, key, i as int);
                }
                let e = &self.entries[i];
                Some(&e.1)
            },
            None => None,
        }
    }

    /// Does the set hold nothing?
    pub fn is_empty(&self) -> (r: bool)
        requires
            self.wf(),
        ensures
            r == (self@.dom().len() == 0),
            r == (self@ == Map::<K, T>::empty()),
    {
        proof {
            self.lemma_dom_len();
            if self.entries@.len() == 0 {
                assert(self@ =~= Map::<K, T>::empty());
            } else {
                assert(seq_has_key(self.entries@, self.entries@[0].0));
                assert(self@.dom().contains(self.entries@[0].0));
            }
        }
        self.entries.len() == 0
    }

    /// Is every key of `self` also a key of `other`?
    pub fn is_subset(&self, other: &Self) -> (r: bool)
        requires
            self.wf(),
            other.wf(),
            self.key_fn() == other.key_fn(),
        ensures
            r == self@.dom().subset_of(other@.dom()),
    {
        let mut i: usize = 0;
        while i < self.entries.len()
            invariant
                self.wf(),
                other.wf(),
                self.key_fn() == other.key_fn(),
                0 <= i <= self.entries@.len(),
                forall|j: int| 0 <= j < i ==> other@.dom().contains(#[trigger] self.entries@[j].0),
            decreases self.entries@.len() - i,
        {
            let e = &self.entries[i];
            if !other.contains(&e.1) {
                proof {
                    assert(seq_has_key(self.entries@, self.entries@[i as int].0));
                    assert(self@.dom().contains(self.entries@[i as int].0));
                }
                return false;
            }
            i = i + 1;
        }
        proof {
            assert forall|k: K| self@.dom().contains(k) implies other@.dom().contains(k) by {
                let j = seq_index_of_key(self.entries@, k);
                assert(self.entries@[j].0 == k);
            };
        }
        true
    }

    /// Is every key of `other` also a key of `self`?
    pub fn is_superset(&self, other: &Self) -> (r: bool)
        requires
            self.wf(),
            other.wf(),
            self.key_fn() == other.key_fn(),
        ensures
            r == other@.dom().subset_of(self@.dom()),
    {
        other.is_subset(self)
    }

    /// Does no key of `self` occur in `other`?
    pub fn is_disjoint(&self, other: &Self) -> (r: bool)
        requires
            self.wf(),
            other.wf(),
            self.key_fn() == other.key_fn(),
        ensures
            r == self@.dom().disjoint(other@.dom()),
    {
        let mut i: usize = 0;
        while i < self.entries.len()
            invariant
                self.wf(),
                other.wf(),
                self.key_fn() == other.key_fn(),
                0 <= i <= self.entries@.len(),
                forall|j: int| 0 <= j < i ==> !other@.dom().contains(#[trigger] self.entries@[j].0),
            decreases self.entries@.len() - i,
        {
            let e = &self.entries[i];
            if other.contains(&e.1) {
                proof {
                    assert(seq_has_key(self.entries@, self.entries@[i as int].0));
                    assert(self@.dom().contains(self.entries@[i as int].0));
                }
                return false;
            }
            i = i + 1;
        }
        proof {
            assert forall|k: K| self@.dom().contains(k) implies !other@.dom().contains(k) by {
                let j = seq_index_of_key(self.entries@, k);
                assert(self.entries@[j].0 == k);
            };
        }
        true
    }

    /// Do `self` and `other` hold exactly the same keys? Two sets are equal
    /// when each is a subset of the other, independent of which concrete
    /// value is stored at a shared key.
    pub fn eq(&self, other: &Self) -> (r: bool)
        requires
            self.wf(),
            other.wf(),
            self.key_fn() == other.key_fn(),
        ensures
            r == (self@.dom() == other@.dom()),
    {
        let r = self.is_subset(other) && other.is_subset(self);
        proof {
            if r {
                assert(self@.dom() =~= other@.dom());
            }
        }
        r
    }

    /// References to all stored values, in no particular order. The set is
    /// unchanged and can be iterated again.
    pub fn iter(&self) -> (r: IteratorWrapper<&T>)
        requires
            self.wf(),
        ensures
            self.lists_values(deref_seq(r.remaining())),
    {
        proof {
            self.lemma_dom_len();
        }
        let mut vals: Vec<&T> = Vec::new();
        let mut i: usize = 0;
        while i < self.entries.len()
            invariant
                self.wf(),
                0 <= i <= self.entries@.len(),
                vals@.len() == i,
                forall|j: int| 0 <= j < i ==> *(#[trigger] vals@[j]) == self.entries@[j].1,
            decreases self.entries@.len() - i,
        {
            let e = &self.entries[i];
            vals.push(&e.1);
            i = i + 1;
        }
        let ghost ds = deref_seq(vals@);
        proof {
            assert forall|j: int| 0 <= j < ds.len() implies self@.dom().contains(
                key_of(self.key_fn(), #[trigger] ds[j]),
            ) && self@[key_of(self.key_fn(), ds[j])] == ds[j] by {
                assert(ds[j] == self.entries@[j].1);
                assert(key_of(self.key_fn(), ds[j]) == self.entries@[j].0);
                lemma_seq_index_of_key(self.entries@, self.entries@[j].0, j);
            };
            assert forall|a: int, b: int| 0 <= a < b < ds.len() implies key_of(
                self.key_fn(),
                ds[a],
            ) != key_of(self.key_fn(), ds[b]) by {
                assert(ds[a] == self.entries@[a].1);
                assert(ds[b] == self.entries@[b].1);
                assert(self.entries@[a].0 != self.entries@[b].0);
            };
        }
        IteratorWrapper::new(vals)
    }

    /// Remove every stored value and hand them out through a one-shot
    /// iterator, leaving the set empty. A second call yields nothing.
    pub fn drain(&mut self) -> (r: IteratorWrapper<T>)
        requires
            old(self).wf(),
        ensures
            final(self).wf(),
            final(self).key_fn() == old(self).key_fn(),
            final(self)@ == Map::<K, T>::empty(),
            old(self).lists_values(r.remaining()),
    {
        proof {
            self.lemma_dom_len();
        }
        let ghost s0 = self.entries@;
        let ghost n = s0.len() as int;
        let mut vals: Vec<T> = Vec::new();
        while self.entries.len() > 0
            invariant
                self.wf(),
                self.key_fn() == old(self).key_fn(),
                vals@.len() + self.entries@.len() == n,
                forall|j: int|
                    0 <= j < self.entries@.len() ==> #[trigger] self.entries@[j] == s0[j],
                forall|j: int| 0 <= j < vals@.len() ==> #[trigger] vals@[j] == s0[n - 1 - j].1,
            decreases self.entries@.len(),
        {
            let ghost sprev = self.entries@;
            let pair = match self.entries.pop() {
                Some(pair) => pair,
                None => {
                    proof {
                        assert(false);
                    }
                    unreached()
                },
            };
            vals.push(pair.1);
            proof {
                let m = self.entries@.len() as int;
                assert(pair == sprev[m]);
                assert(sprev[m] == s0[m]);
                assert(pair == s0[n - 1 - (vals@.len() - 1)]);
                assert forall|j: int| 0 <= j < m implies #[trigger] self.entries@[j] == s0[j] by {
                    assert(self.entries@[j] == sprev[j]);
                };
            }
        }
        proof {
            assert(self@ =~= Map::<K, T>::empty());
            assert(vals@.len() == old(self)@.dom().len());
            assert forall|j: int| 0 <= j < vals@.len() implies old(self)@.dom().contains(
                key_of(old(self).key_fn(), #[trigger] vals@[j]),
            ) && old(self)@[key_of(old(self).key_fn(), vals@[j])] == vals@[j] by {
                assert(vals@[j] == s0[n - 1 - j].1);
                assert(key_of(old(self).key_fn(), vals@[j]) == s0[n - 1 - j].0);
                lemma_seq_index_of_key(s0, s0[n - 1 - j].0, n - 1 - j);
            };
            assert forall|a: int, b: int| 0 <= a < b < vals@.len() implies key_of(
                old(self).key_fn(),
                vals@[a],
            ) != key_of(old(self).key_fn(), vals@[b]) by {
                assert(vals@[a] == s0[n - 1 - a].1);
                assert(vals@[b] == s0[n - 1 - b].1);
                assert(key_of(old(self).key_fn(), vals@[a]) == s0[n - 1 - a].0);
                assert(key_of(old(self).key_fn(), vals@[b]) == s0[n - 1 - b].0);
                assert(s0[n - 1 - b].0 != s0[n - 1 - a].0);
            };
        }
        IteratorWrapper::new(vals)
    }

    /// Consume the set, handing out all stored values through a one-shot
    /// iterator.
    pub fn into_iter(self) -> (r: IteratorWrapper<T>)
        requires
            self.wf(),
        ensures
            self.lists_values(r.remaining()),
    {
        let mut s = self;
        s.drain()
    }

    /// Insert a copy of every value of `src`, overwriting at shared keys.
    fn insert_all(&mut self, src: &Self)
        requires
            old(self).wf(),
            src.wf(),
            old(self).key_fn() == src.key_fn(),
            clone_keeps_value::<T>(),
        ensures
            final(self).wf(),
            final(self).key_fn() == old(self).key_fn(),
            forall|k: K| #[trigger]
                final(self)@.dom().contains(k) ==> old(self)@.dom().contains(k)
                    || src@.dom().contains(k),
            forall|k: K| #[trigger]
                old(self)@.dom().contains(k) ==> final(self)@.dom().contains(k),
            forall|k: K| #[trigger] src@.dom().contains(k) ==> final(self)@.dom().contains(k),
            forall|k: K| #[trigger]
                final(self)@.dom().contains(k) ==> final(self)@[k] == (
                if src@.dom().contains(k) {
                    src@[k]
                } else {
                    old(self)@[k]
                }),
    {
        let ghost m0 = old(self)@;
        let ghost se = src.entries@;
        let mut i: usize = 0;
        while i < src.entries.len()
            invariant
                self.wf(),
                src.wf(),
                se == src.entries@,
                self.key_fn() == src.key_fn(),
                clone_keeps_value::<T>(),
                0 <= i <= se.len(),
                forall|k: K| #[trigger]
                    self@.dom().contains(k) ==> m0.dom().contains(k) || (src@.dom().contains(k)
                        && seq_index_of_key(se, k) < i),
                forall|k: K|
                    m0.dom().contains(k) ==> #[trigger] self@.dom().contains(k),
                forall|k: K| #[trigger]
                    src@.dom().contains(k) && seq_index_of_key(se, k) < i
                        ==> self@.dom().contains(k),
                forall|k: K| #[trigger]
                    self@.dom().contains(k) ==> self@[k] == (
                    if src@.dom().contains(k) && seq_index_of_key(se, k) < i {
                        src@[k]
                    } else {
                        m0[k]
                    }),
            decreases se.len() - i,
        {
            let ghost mprev = self@;
            let ghost ki = se[i as int].0;
            let e = &src.entries[i];
            let c = e.1.clone();
            proof {
                assert(vstd::pervasive::cloned::<T>(se[i as int].1, c));
                assert(c == se[i as int].1);
                lemma_seq_index_of_key(se, ki, i as int);
                assert(src@[ki] == se[i as int].1);
            }
            self.insert(c);
            proof {
                assert(key_of(self.key_fn(), c) == ki);
                assert(self@ == mprev.insert(ki, c));
                assert forall|k: K| #[trigger] self@.dom().contains(k) implies m0.dom().contains(
                    k,
                ) || (src@.dom().contains(k) && seq_index_of_key(se, k) < i + 1) by {
                    if k == ki {
                        assert(src@.dom().contains(ki));
                    } else {
                        assert(mprev.dom().contains(k));
                    }
                };
                assert forall|k: K| #[trigger]
                    src@.dom().contains(k) && seq_index_of_key(se, k) < i + 1 implies self@.dom()
                    .contains(k) by {
                    lemma_has_key_index(se, k);
                    if seq_index_of_key(se, k) == i {
                        assert(k == ki);
                    } else {
                        assert(mprev.dom().contains(k));
                    }
                };
                assert forall|k: K| #[trigger] self@.dom().contains(k) implies self@[k] == (
                if src@.dom().contains(k) && seq_index_of_key(se, k) < i + 1 {
                    src@[k]
                } else {
                    m0[k]
                }) by {
                    if k == ki {
                        assert(self@[ki] == src@[ki]);
                    } else {
                        assert(mprev.dom().contains(k));
                        if src@.dom().contains(k) {
                            lemma_has_key_index(se, k);
                            assert(seq_index_of_key(se, k) != i);
                        }
                    }
                };
            }
            i = i + 1;
        }
        proof {
            assert forall|k: K| #[trigger] src@.dom().contains(k) implies seq_index_of_key(se, k)
                < se.len() by {
                lemma_has_key_index(se, k);
            };
        }
    }

    /// Insert a copy of every value of `src` whose key's presence in `other`
    /// equals `keep_present`, overwriting at shared keys.
    fn insert_filtered(&mut self, src: &Self, other: &Self, keep_present: bool)
        requires
            old(self).wf(),
            src.wf(),
            other.wf(),
            old(self).key_fn() == src.key_fn(),
            old(self).key_fn() == other.key_fn(),
            clone_keeps_value::<T>(),
        ensures
            final(self).wf(),
            final(self).key_fn() == old(self).key_fn(),
            forall|k: K| #[trigger]
                final(self)@.dom().contains(k) ==> old(self)@.dom().contains(k) || (
                src@.dom().contains(k) && other@.dom().contains(k) == keep_present),
            forall|k: K| #[trigger]
                old(self)@.dom().contains(k) ==> final(self)@.dom().contains(k),
            forall|k: K| #[trigger]
                src@.dom().contains(k) && other@.dom().contains(k) == keep_present
                    ==> final(self)@.dom().contains(k),
            forall|k: K| #[trigger]
                final(self)@.dom().contains(k) ==> final(self)@[k] == (
                if src@.dom().contains(k) && other@.dom().contains(k) == keep_present {
                    src@[k]
                } else {
                    old(self)@[k]
                }),
    {
        let ghost m0 = old(self)@;
        let ghost se = src.entries@;
        let mut i: usize = 0;
        while i < src.entries.len()
            invariant
                self.wf(),
                src.wf(),
                other.wf(),
                se == src.entries@,
                self.key_fn() == src.key_fn(),
                self.key_fn() == other.key_fn(),
                clone_keeps_value::<T>(),
                0 <= i <= se.len(),
                forall|k: K| #[trigger]
                    self@.dom().contains(k) ==> m0.dom().contains(k) || (src@.dom().contains(k)
                        && other@.dom().contains(k) == keep_present && seq_index_of_key(se, k)
                        < i),
                forall|k: K|
                    m0.dom().contains(k) ==> #[trigger] self@.dom().contains(k),
                forall|k: K| #[trigger]
                    src@.dom().contains(k) && other@.dom().contains(k) == keep_present
                        && seq_index_of_key(se, k) < i ==> self@.dom().contains(k),
                forall|k: K| #[trigger]
                    self@.dom().contains(k) ==> self@[k] == (
                    if src@.dom().contains(k) && other@.dom().contains(k) == keep_present
                        && seq_index_of_key(se, k) < i {
                        src@[k]
                    } else {
                        m0[k]
                    }),
            decreases se.len() - i,
        {
            let ghost mprev = self@;
            let ghost ki = se[i as int].0;
            let e = &src.entries[i];
            proof {
                lemma_seq_index_of_key(se, ki, i as int);
                assert(src@[ki] == se[i as int].1);
                assert(key_of(self.key_fn(), se[i as int].1) == ki);
            }
            let hit = other.contains(&e.1);
            proof {
                assert(hit == other@.dom().contains(ki));
            }
            if hit == keep_present {
                let c = e.1.clone();
                proof {
                    assert(vstd::pervasive::cloned::<T>(se[i as int].1, c));
                    assert(c == se[i as int].1);
                }
                self.insert(c);
                proof {
                    assert(key_of(self.key_fn(), c) == ki);
                    assert(self@ == mprev.insert(ki, c));
                }
            }
            proof {
                assert forall|k: K| #[trigger] self@.dom().contains(k) implies m0.dom().contains(
                    k,
                ) || (src@.dom().contains(k) && other@.dom().contains(k) == keep_present
                    && seq_index_of_key(se, k) < i + 1) by {
                    if k == ki && other@.dom().contains(ki) == keep_present {
                        assert(src@.dom().contains(ki));
                    } else {
                        assert(mprev.dom().contains(k));
                    }
                };
                assert forall|k: K| #[trigger]
                    src@.dom().contains(k) && other@.dom().contains(k) == keep_present
                        && seq_index_of_key(se, k) < i + 1 implies self@.dom().contains(k) by {
                    lemma_has_key_index(se, k);
                    if seq_index_of_key(se, k) == i {
                        assert(k == ki);
                    } else {
                        assert(mprev.dom().contains(k));
                    }
                };
                assert forall|k: K| #[trigger] self@.dom().contains(k) implies self@[k] == (
                if src@.dom().contains(k) && other@.dom().contains(k) == keep_present
                    && seq_index_of_key(se, k) < i + 1 {
                    src@[k]
                } else {
                    m0[k]
                }) by {
                    if k == ki && other@.dom().contains(ki) == keep_present {
                        assert(self@[ki] == src@[ki]);
                    } else {
                        assert(mprev.dom().contains(k));
                        assert(self@[k] == mprev[k]);
                        if src@.dom().contains(k) {
                            lemma_has_key_index(se, k);
                            if seq_index_of_key(se, k) == i {
                                assert(k == ki);
                            }
                        }
                    }
                };
            }
            i = i + 1;
        }
        proof {
            assert forall|k: K| #[trigger] src@.dom().contains(k) implies seq_index_of_key(se, k)
                < se.len() by {
                lemma_has_key_index(se, k);
            };
        }
    }

    /// A new set, bound to the same key function, holding the values of
    /// `self` whose keys also occur in `other`.
    ///
    /// The set-algebra method names here are standardized, deliberately, on
    /// their mathematical meanings: `intersection` keeps exactly the keys
    /// present in both sets, and `union` every key present in either.
    pub fn intersection(&self, other: &Self) -> (r: Self)
        requires
            self.wf(),
            other.wf(),
            self.key_fn() == other.key_fn(),
            clone_keeps_value::<T>(),
        ensures
            r.wf(),
            r.key_fn() == self.key_fn(),
            r@.dom() == self@.dom().intersect(other@.dom()),
            forall|k: K| r@.dom().contains(k) ==> r@[k] == self@[k],
    {
        let mut r = Self::new(self.get_key);
        r.insert_filtered(self, other, true);
        proof {
            assert(r@.dom() =~= self@.dom().intersect(other@.dom()));
        }
        r
    }

    /// A new set, bound to the same key function, holding every key of
    /// either set; at a shared key the value of `other` is kept.
    ///
    /// As with `intersection`, the name is standardized on its mathematical
    /// meaning: the result's keys are the union of the two key sets.
    pub fn union(&self, other: &Self) -> (r: Self)
        requires
            self.wf(),
            other.wf(),
            self.key_fn() == other.key_fn(),
            clone_keeps_value::<T>(),
        ensures
            r.wf(),
            r.key_fn() == self.key_fn(),
            r@.dom() == self@.dom().union(other@.dom()),
            forall|k: K|
                r@.dom().contains(k) ==> r@[k] == (
                if other@.dom().contains(k) {
                    other@[k]
                } else {
                    self@[k]
                }),
    {
        let mut r = Self::new(self.get_key);
        r.insert_all(self);
        let ghost m1 = r@;
        r.insert_all(other);
        proof {
            assert forall|k: K| #[trigger] r@.dom().contains(k) implies self@.dom().contains(k)
                || other@.dom().contains(k) by {
                if m1.dom().contains(k) {
                    assert(self@.dom().contains(k));
                }
            };
            assert forall|k: K|
                self@.dom().contains(k) || other@.dom().contains(k) implies #[trigger] r@.dom()
                .contains(k) by {
                if self@.dom().contains(k) {
                    assert(m1.dom().contains(k));
                }
            };
            assert(r@.dom() =~= self@.dom().union(other@.dom()));
            assert forall|k: K| #[trigger] r@.dom().contains(k) implies r@[k] == (
            if other@.dom().contains(k) {
                other@[k]
            } else {
                self@[k]
            }) by {
                if !other@.dom().contains(k) {
                    assert(m1.dom().contains(k));
                    assert(r@[k] == m1[k]);
                    assert(m1[k] == self@[k]);
                }
            };
        }
        r
    }

    /// A new set, bound to the same key function, holding the values of
    /// `self` whose keys do not occur in `other`.
    pub fn difference(&self, other: &Self) -> (r: Self)
        requires
            self.wf(),
            other.wf(),
            self.key_fn() == other.key_fn(),
            clone_keeps_value::<T>(),
        ensures
            r.wf(),
            r.key_fn() == self.key_fn(),
            r@.dom() == self@.dom().difference(other@.dom()),
            forall|k: K| r@.dom().contains(k) ==> r@[k] == self@[k],
    {
        let mut r = Self::new(self.get_key);
        r.insert_filtered(self, other, false);
        proof {
            assert(r@.dom() =~= self@.dom().difference(other@.dom()));
        }
        r
    }

    /// A new set, bound to the same key function, holding the values whose
    /// keys occur in exactly one of the two sets.
    pub fn symmetric_difference(&self, other: &Self) -> (r: Self)
        requires
            self.wf(),
            other.wf(),
            self.key_fn() == other.key_fn(),
            clone_keeps_value::<T>(),
        ensures
            r.wf(),
            r.key_fn() == self.key_fn(),
            r@.dom() == self@.dom().difference(other@.dom()).union(
                other@.dom().difference(self@.dom()),
            ),
            forall|k: K|
                r@.dom().contains(k) ==> r@[k] == (
                if self@.dom().contains(k) {
                    self@[k]
                } else {
                    other@[k]
                }),
    {
        let mut r = Self::new(self.get_key);
        r.insert_filtered(self, other, false);
        r.insert_filtered(other, self, false);
        proof {
            assert(r@.dom() =~= self@.dom().difference(other@.dom()).union(
                other@.dom().difference(self@.dom()),
            ));
        }
        r
    }
}


impl<T, K, F> KeyHashSet<T, K, F> where
    T: Clone + core::fmt::Debug,
    K: Eq + core::hash::Hash + core::fmt::Debug,
    F: Fn(&T) -> K + Copy,
 {
    /// A rendering of the stored values through their `Debug` formatting,
    /// for diagnostics. The shape of the text follows the values' `Debug`
    /// implementations, so nothing is promised of it.
    pub fn debug_string(&self) -> String {
        let mut out = String::new();
        out.append("KeyHashSet { ");
        let mut i: usize = 0;
        while i < self.entries.len()
            invariant
                0 <= i <= self.entries@.len(),
            decreases self.entries@.len() - i,
        {
            let e = &self.entries[i];
            let part = debug_key(&e.1);
            out.append(part.as_str());
            out.append(" ");
            i = i + 1;
        }
        out.append("}");
        out
    }
}

} // verus!
