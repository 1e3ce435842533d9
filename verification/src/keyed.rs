//! Sequences of records that are found by a key, each key at most once.
use vstd::prelude::*;

verus! {

/// A record that is found by its key.
pub trait Keyed: Sized {
    type Key;

    spec fn key(self) -> Self::Key;
}

/// The views of the items of `s`, in order.
pub open spec fn views<T: View>(s: Seq<T>) -> Seq<T::V> {
    Seq::new(s.len(), |i: int| s[i]@)
}

/// Some record of `s` has the key `k`.
pub open spec fn has_key<T: Keyed>(s: Seq<T>, k: T::Key) -> bool {
    exists|i: int| 0 <= i < s.len() && (#[trigger] s[i]).key() == k
}

/// Where in `s` a record with the key `k` stands, if there is one.
pub open spec fn index_of_key<T: Keyed>(s: Seq<T>, k: T::Key) -> int {
    choose|i: int| 0 <= i < s.len() && (#[trigger] s[i]).key() == k
}

/// No two records of `s` have the same key.
pub open spec fn unique_keys<T: Keyed>(s: Seq<T>) -> bool {
    forall|i: int, j: int|
        0 <= i < s.len() && 0 <= j < s.len() && i != j ==> (#[trigger] s[i]).key() != (
        #[trigger] s[j]).key()
}

/// The record with the key `k`.
pub open spec fn get<T: Keyed>(s: Seq<T>, k: T::Key) -> Option<T> {
    if has_key(s, k) {
        Some(s[index_of_key(s, k)])
    } else {
        None
    }
}

/// `s` with `v` in the place of the record that has its key, or at the end
/// if there is none.
pub open spec fn put<T: Keyed>(s: Seq<T>, v: T) -> Seq<T> {
    if has_key(s, v.key()) {
        s.update(index_of_key(s, v.key()), v)
    } else {
        s.push(v)
    }
}

/// `s` without the record that has the key `k`.
pub open spec fn without<T: Keyed>(s: Seq<T>, k: T::Key) -> Seq<T> {
    if has_key(s, k) {
        s.remove(index_of_key(s, k))
    } else {
        s
    }
}

/// Where keys are unique, a record with the key `k` stands where
/// [`index_of_key`] says.
pub proof fn lemma_found<T: Keyed>(s: Seq<T>, k: T::Key, i: int)
    requires
        unique_keys(s),
        0 <= i < s.len(),
        s[i].key() == k,
    ensures
        has_key(s, k),
        index_of_key(s, k) == i,
        get(s, k) == Some(s[i]),
{
}

/// Putting a record keeps keys unique, makes it the record found by its
/// key, and leaves every other key as it was.
pub proof fn lemma_put<T: Keyed>(s: Seq<T>, v: T)
    requires
        unique_keys(s),
    ensures
        unique_keys(put(s, v)),
        get(put(s, v), v.key()) == Some(v),
        forall|k: T::Key| k != v.key() ==> get(put(s, v), k) == get(s, k),
        forall|k: T::Key| has_key(put(s, v), k) <==> k == v.key() || has_key(s, k),
{
    let t = put(s, v);
    let at = if has_key(s, v.key()) {
        index_of_key(s, v.key())
    } else {
        s.len() as int
    };
    assert(t[at] == v);
    assert forall|i: int| 0 <= i < t.len() && i != at implies 0 <= i < s.len() && t[i] == s[i]
        && (#[trigger] t[i]).key() != v.key() by {
        if has_key(s, v.key()) {
            assert(s[at].key() == v.key());
        }
    }
    assert(unique_keys(t));
    lemma_found(t, v.key(), at);
    assert forall|k: T::Key| k != v.key() implies get(t, k) == get(s, k) by {
        if has_key(s, k) {
            let i = index_of_key(s, k);
            assert(t[i] == s[i]);
            lemma_found(t, k, i);
        } else if has_key(t, k) {
            let i = index_of_key(t, k);
            assert(s[i].key() == k);
        }
    }
    assert forall|k: T::Key| has_key(t, k) <==> k == v.key() || has_key(s, k) by {
        if k != v.key() {
            assert(get(t, k) == get(s, k));
        }
    }
}

/// Taking a key out keeps keys unique, leaves no record with that key, and
/// leaves every other key as it was.
pub proof fn lemma_without<T: Keyed>(s: Seq<T>, k: T::Key)
    requires
        unique_keys(s),
    ensures
        unique_keys(without(s, k)),
        !has_key(without(s, k), k),
        forall|other: T::Key| other != k ==> get(without(s, k), other) == get(s, other),
        without(s, k).len() == if has_key(s, k) { s.len() - 1 } else { s.len() as int },
{
    let t = without(s, k);
    if has_key(s, k) {
        let at = index_of_key(s, k);
        assert forall|i: int| 0 <= i < t.len()
            implies #[trigger] t[i] == s[if i < at { i } else { i + 1 }]
            by {}
        assert(unique_keys(t)) by {
            assert forall|i: int, j: int| 0 <= i < t.len() && 0 <= j < t.len() && i != j implies (
            #[trigger] t[i]).key() != (#[trigger] t[j]).key() by {
                let i1 = if i < at { i } else { i + 1 };
                let j1 = if j < at { j } else { j + 1 };
                assert(t[i] == s[i1] && t[j] == s[j1]);
            }
        }
        assert(!has_key(t, k)) by {
            if has_key(t, k) {
                let i = index_of_key(t, k);
                let i1 = if i < at { i } else { i + 1 };
                assert(t[i] == s[i1]);
                assert(s[i1].key() == s[at].key());
            }
        }
        assert forall|other: T::Key| other != k implies get(t, other) == get(s, other) by {
            if has_key(s, other) {
                let i = index_of_key(s, other);
                let i0 = if i < at { i } else { i - 1 };
                assert(t[i0] == s[i]);
                lemma_found(t, other, i0);
            } else if has_key(t, other) {
                let i = index_of_key(t, other);
                let i1 = if i < at { i } else { i + 1 };
                assert(t[i] == s[i1]);
                assert(s[i1].key() == other);
            }
        }
    }
}

} // verus!
