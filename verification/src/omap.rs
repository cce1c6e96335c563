//! An insertion-ordered map from names to values.

use vstd::prelude::*;
use crate::symbol::Symbol;
use crate::value::Value;

verus! {

/// A map from names to `Value`s that remembers the order in which its
/// keys were first inserted.
#[derive(Debug)]
pub struct OMap {
    /// The entries, in insertion order.
    pub entries: Vec<(Symbol, Value)>,
}

impl OMap {
    /// The number of entries.
    pub open spec fn spec_len(&self) -> nat {
        self.entries@.len()
    }

    /// The key of entry `i`.
    pub open spec fn key_at(&self, i: int) -> Seq<char> {
        self.entries@[i].0@
    }

    /// The value of entry `i`.
    pub open spec fn val_at(&self, i: int) -> Value {
        self.entries@[i].1
    }

    /// Is `k` a key of the map?
    pub open spec fn has_key(&self, k: Seq<char>) -> bool {
        exists|i: int| 0 <= i < self.entries@.len() && #[trigger] self.key_at(i) == k
    }

    /// Is `i` the first entry with key `k`?
    pub open spec fn first_index(&self, k: Seq<char>, i: int) -> bool {
        &&& 0 <= i < self.entries@.len()
        &&& self.key_at(i) == k
        &&& forall|j: int| 0 <= j < i ==> #[trigger] self.key_at(j) != k
    }

    /// The value stored under `k`, if any.
    pub open spec fn spec_get(&self, k: Seq<char>) -> Option<Value> {
        if self.has_key(k) {
            Some(self.val_at(choose|i: int| self.first_index(k, i)))
        } else {
            None
        }
    }

    /// No key occurs twice.
    pub open spec fn distinct(&self) -> bool {
        forall|i: int, j: int|
            0 <= i < j < self.entries@.len() ==> #[trigger] self.key_at(i) != #[trigger] self.key_at(j)
    }

    /// The keys, in order.
    pub open spec fn key_list(&self) -> Seq<Seq<char>> {
        self.entries@.map_values(|e: (Symbol, Value)| e.0@)
    }

    /// An empty map.
    pub fn new() -> (r: OMap)
        ensures
            r.entries@.len() == 0,
    {
        OMap { entries: Vec::new() }
    }

    /// The number of entries.
    pub fn len(&self) -> (r: usize)
        ensures
            r == self.spec_len(),
    {
        self.entries.len()
    }

    /// The position of the first entry with key `k`.
    pub fn position(&self, k: &str) -> (r: Option<usize>)
        ensures
            r is Some <==> self.has_key(k@),
            r matches Some(i) ==> self.first_index(k@, i as int),
    {
        let mut i: usize = 0;
        while i < self.entries.len()
            invariant
                i <= self.entries@.len(),
                forall|j: int| 0 <= j < i ==> #[trigger] self.key_at(j) != k@,
            decreases self.entries.len() - i,
        {
            if self.entries[i].0.is(k) {
                assert(self.key_at(i as int) == k@);
                return Some(i);
            }
            i += 1;
        }
        None
    }

    /// The value stored under `k`.
    pub fn get(&self, k: &str) -> (r: Option<&Value>)
        ensures
            r is Some <==> self.has_key(k@),
            r matches Some(v) ==> self.spec_get(k@) == Some(*v),
    {
        match self.position(k) {
            Some(i) => {
                proof {
                    lemma_first_unique(self, k@, i as int);
                }
                Some(&self.entries[i].1)
            },
            None => None,
        }
    }

    /// Stores `val` under `key`: in place of the old value if `key` is
    /// present, else as a new last entry.
    pub fn insert(&mut self, key: Symbol, val: Value)
        ensures
            stored(*old(self), key, val, *final(self)),
    {
        let ghost k = key@;
        match self.position(key.to_str()) {
            Some(i) => {
                self.entries.set(i, (key, val));
            },
            None => {
                self.entries.push((key, val));
            },
        }
    }

    /// Removes the first entry with key `key`, if there is one.
    pub fn remove(&mut self, key: &str)
        ensures
            old(self).has_key(key@) ==> exists|i: int|
                old(self).first_index(key@, i) && final(self).entries@ == old(self).entries@.remove(
                    i,
                ),
            !old(self).has_key(key@) ==> final(self).entries@ == old(self).entries@,
    {
        match self.position(key) {
            Some(i) => {
                self.entries.remove(i);
            },
            None => {},
        }
    }

    /// The entries, in insertion order.
    pub fn iter(&self) -> (r: Vec<(Symbol, Value)>)
        ensures
            r@ == self.entries@,
    {
        let mut r: Vec<(Symbol, Value)> = Vec::new();
        let mut i: usize = 0;
        while i < self.entries.len()
            invariant
                i <= self.entries@.len(),
                r@ == self.entries@.take(i as int),
            decreases self.entries.len() - i,
        {
            let e = &self.entries[i];
            r.push((e.0.clone(), e.1.clone()));
            assert(r@ == self.entries@.take(i + 1));
            i += 1;
        }
        assert(self.entries@.take(self.entries@.len() as int) == self.entries@);
        r
    }

    /// A copy of the map.
    pub fn copy(&self) -> (r: OMap)
        ensures
            r.entries@ == self.entries@,
    {
        OMap { entries: self.iter() }
    }
}

/// `after` is `before` with `val` stored under `key`: in place of the
/// first entry with that key if there is one, else as a new last entry.
pub open spec fn stored(before: OMap, key: Symbol, val: Value, after: OMap) -> bool {
    &&& before.has_key(key@) ==> exists|i: int|
        before.first_index(key@, i) && after.entries@ == before.entries@.update(i, (key, val))
    &&& !before.has_key(key@) ==> after.entries@ == before.entries@.push((key, val))
}

/// `stored` depends on the entries of `before` alone.
pub proof fn lemma_stored_entries(a: &OMap, b: &OMap, key: Symbol, val: Value, after: OMap)
    requires
        a.entries@ == b.entries@,
        stored(*a, key, val, after),
    ensures
        stored(*b, key, val, after),
{
    assert(a.has_key(key@) == b.has_key(key@)) by {
        if a.has_key(key@) {
            let i = choose|i: int| 0 <= i < a.entries@.len() && #[trigger] a.key_at(i) == key@;
            assert(b.key_at(i) == key@);
        }
        if b.has_key(key@) {
            let i = choose|i: int| 0 <= i < b.entries@.len() && #[trigger] b.key_at(i) == key@;
            assert(a.key_at(i) == key@);
        }
    }
    if a.has_key(key@) {
        let i = choose|i: int|
            a.first_index(key@, i) && after.entries@ == a.entries@.update(i, (key, val));
        assert(b.first_index(key@, i)) by {
            assert forall|j: int| 0 <= j < i implies #[trigger] b.key_at(j) != key@ by {
                assert(a.key_at(j) != key@);
            }
        }
    }
}

/// The first entry with a key is the one `choose` picks.
pub proof fn lemma_first_unique(m: &OMap, k: Seq<char>, i: int)
    requires
        m.first_index(k, i),
    ensures
        m.has_key(k),
        (choose|j: int| m.first_index(k, j)) == i,
        m.spec_get(k) == Some(m.val_at(i)),
{
    assert(m.key_at(i) == k);
    let j = choose|j: int| m.first_index(k, j);
    assert(m.first_index(k, j));
    if j < i {
        assert(m.key_at(j) != k);
    } else if i < j {
        assert(m.key_at(i) != k);
    }
}

/// Reading a key right after storing under it gives the stored value.
pub proof fn law_get_after_insert(before: &OMap, after: &OMap, key: Symbol, val: Value)
    requires
        before.has_key(key@) ==> exists|i: int|
            before.first_index(key@, i) && after.entries@ == before.entries@.update(i, (key, val)),
        !before.has_key(key@) ==> after.entries@ == before.entries@.push((key, val)),
    ensures
        after.spec_get(key@) == Some(val),
{
    if before.has_key(key@) {
        let i = choose|i: int|
            before.first_index(key@, i) && after.entries@ == before.entries@.update(i, (key, val));
        assert(after.first_index(key@, i)) by {
            assert forall|j: int| 0 <= j < i implies #[trigger] after.key_at(j) != key@ by {
                assert(before.key_at(j) != key@);
            }
        }
        lemma_first_unique(after, key@, i);
    } else {
        let n = before.entries@.len() as int;
        assert(after.first_index(key@, n)) by {
            assert forall|j: int| 0 <= j < n implies #[trigger] after.key_at(j) != key@ by {
                assert(after.key_at(j) == before.key_at(j));
                if before.key_at(j) == key@ {
                    assert(before.has_key(key@));
                }
            }
        }
        lemma_first_unique(after, key@, n);
    }
}

/// Storing under a key keeps keys distinct, and keeps the order of the
/// keys that were there: a new key goes last.
pub proof fn law_insert_keeps_order(before: OMap, after: OMap, key: Symbol, val: Value)
    requires
        before.distinct(),
        before.has_key(key@) ==> exists|i: int|
            before.first_index(key@, i) && after.entries@ == before.entries@.update(i, (key, val)),
        !before.has_key(key@) ==> after.entries@ == before.entries@.push((key, val)),
    ensures
        after.distinct(),
        before.has_key(key@) ==> after.key_list() == before.key_list(),
        !before.has_key(key@) ==> after.key_list() == before.key_list().push(key@),
{
    if before.has_key(key@) {
        let i = choose|i: int|
            before.first_index(key@, i) && after.entries@ == before.entries@.update(i, (key, val));
        assert(after.key_list() =~= before.key_list());
        assert forall|a: int, b: int| 0 <= a < b < after.entries@.len() implies #[trigger] after.key_at(a)
            != #[trigger] after.key_at(b) by {
            assert(after.key_at(a) == before.key_at(a));
            assert(after.key_at(b) == before.key_at(b));
        }
    } else {
        assert(after.key_list() =~= before.key_list().push(key@));
        assert forall|a: int, b: int| 0 <= a < b < after.entries@.len() implies #[trigger] after.key_at(a)
            != #[trigger] after.key_at(b) by {
            if b == before.entries@.len() {
                assert(after.key_at(a) == before.key_at(a));
                if before.key_at(a) == key@ {
                    assert(before.has_key(key@));
                }
            } else {
                assert(after.key_at(a) == before.key_at(a));
                assert(after.key_at(b) == before.key_at(b));
            }
        }
    }
}

/// Storing under a key leaves every other key as it was.
pub proof fn law_insert_others(before: OMap, after: OMap, key: Symbol, val: Value, k: Seq<char>)
    requires
        stored(before, key, val, after),
        k != key@,
    ensures
        after.has_key(k) == before.has_key(k),
        after.spec_get(k) == before.spec_get(k),
{
    let n = before.entries@.len() as int;
    let fresh = !before.has_key(key@);
    let p = if fresh {
        n
    } else {
        choose|i: int|
            before.first_index(key@, i) && after.entries@ == before.entries@.update(i, (key, val))
    };
    assert(after.entries@ == if fresh {
        before.entries@.push((key, val))
    } else {
        before.entries@.update(p, (key, val))
    });
    assert forall|j: int| 0 <= j < after.entries@.len() && j != p implies after.entries@[j]
        == before.entries@[j] by {}
    assert(after.key_at(p) == key@);
    if before.has_key(k) {
        let i = choose|i: int| 0 <= i < before.entries@.len() && #[trigger] before.key_at(i) == k;
        assert(after.key_at(i) == k);
    }
    if after.has_key(k) {
        let i = choose|i: int| 0 <= i < after.entries@.len() && #[trigger] after.key_at(i) == k;
        assert(before.key_at(i) == k);
    }
    if before.has_key(k) {
        let i = choose|i: int| before.first_index(k, i);
        assert(before.first_index(k, i)) by {
            let w = choose|w: int| 0 <= w < before.entries@.len() && #[trigger] before.key_at(w) == k;
            lemma_has_first(&before, k, w);
        }
        lemma_first_unique(&before, k, i);
        assert(after.first_index(k, i)) by {
            assert forall|j: int| 0 <= j < i implies #[trigger] after.key_at(j) != k by {
                assert(before.key_at(j) != k);
            }
        }
        lemma_first_unique(&after, k, i);
    }
}

/// A key that occurs has a first occurrence.
pub proof fn lemma_has_first(m: &OMap, k: Seq<char>, w: int)
    requires
        0 <= w < m.entries@.len(),
        m.key_at(w) == k,
    ensures
        exists|i: int| m.first_index(k, i),
    decreases w,
{
    if forall|j: int| 0 <= j < w ==> #[trigger] m.key_at(j) != k {
        assert(m.first_index(k, w));
    } else {
        let j = choose|j: int| 0 <= j < w && #[trigger] m.key_at(j) == k;
        lemma_has_first(m, k, j);
    }
}

} // verus!
