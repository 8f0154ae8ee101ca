use vstd::prelude::*;
use crate::address::Address;

verus! {

/// What can serve as the key of a record: a value that can be told apart from
/// every other value of its type.
pub trait Key: Copy {
    /// Whether the two keys are one and the same.
    fn same(&self, other: &Self) -> (r: bool)
        ensures
            r == (*self == *other),
    ;
}

impl Key for Address {
    fn same(&self, other: &Self) -> (r: bool) {
        *self == *other
    }
}

/// The position of the first occurrence of `key` in `keys`, if it occurs.
pub fn position<K: Key>(keys: &Vec<K>, key: &K) -> (r: Option<usize>)
    ensures
        match r {
            Some(i) => i < keys@.len() && keys@[i as int] == *key && !keys@.take(i as int).contains(
                *key,
            ),
            None => !keys@.contains(*key),
        },
{
    let mut i: usize = 0;
    while i < keys.len()
        invariant
            i <= keys@.len(),
            !keys@.take(i as int).contains(*key),
        decreases keys@.len() - i,
    {
        if keys[i].same(key) {
            return Some(i);
        }
        proof {
            assert(keys@.take(i + 1) =~= keys@.take(i as int).push(keys@[i as int]));
        }
        i = i + 1;
    }
    proof {
        assert(keys@.take(i as int) =~= keys@);
    }
    None
}

/// A finite map from keys to records, kept in memory.
pub struct Table<K, V> {
    keys: Vec<K>,
    values: Vec<V>,
}

impl<K, V> View for Table<K, V> {
    type V = Map<K, V>;

    closed spec fn view(&self) -> Map<K, V> {
        Map::new(
            |k: K| self.keys@.contains(k),
            |k: K| self.values@[self.keys@.index_of(k)],
        )
    }
}

impl<K: Key, V: Copy> Table<K, V> {
    /// Every key stands once, beside its record.
    pub closed spec fn wf(&self) -> bool {
        &&& self.keys@.len() == self.values@.len()
        &&& self.keys@.no_duplicates()
    }

    /// A table holds finitely many records.
    pub proof fn lemma_finite(&self)
        requires
            self.wf(),
        ensures
            self@.dom().finite(),
    {
        vstd::seq_lib::seq_to_set_is_finite(self.keys@);
        assert(self@.dom() =~= self.keys@.to_set());
    }

    /// A table without a record.
    pub fn new() -> (t: Self)
        ensures
            t.wf(),
            t@ == Map::<K, V>::empty(),
    {
        let t = Table { keys: Vec::new(), values: Vec::new() };
        assert(t@ =~= Map::<K, V>::empty());
        t
    }

    /// The record under `key`, if there is one.
    pub fn get(&self, key: &K) -> (r: Option<V>)
        requires
            self.wf(),
        ensures
            r == (if self@.contains_key(*key) {
                Some(self@[*key])
            } else {
                None
            }),
    {
        match position(&self.keys, key) {
            Some(i) => Some(self.values[i]),
            None => None,
        }
    }

    /// All the records with their keys, each key once.
    pub fn entries(&self) -> (r: Vec<(K, V)>)
        requires
            self.wf(),
        ensures
            forall|i: int|
                0 <= i < r@.len() ==> self@.contains_key((#[trigger] r@[i]).0) && self@[r@[i].0]
                    == r@[i].1,
            forall|i: int, j: int|
                0 <= i < j < r@.len() ==> (#[trigger] r@[i]).0 != (#[trigger] r@[j]).0,
            forall|k: K|
                self@.contains_key(k) ==> exists|i: int|
                    0 <= i < r@.len() && (#[trigger] r@[i]).0 == k,
    {
        let mut r: Vec<(K, V)> = Vec::new();
        let mut i: usize = 0;
        proof {
            lemma_index_of(self.keys@);
        }
        while i < self.keys.len()
            invariant
                self.wf(),
                i <= self.keys@.len(),
                r@.len() == i,
                forall|j: int|
                    0 <= j < i ==> (#[trigger] r@[j]).0 == self.keys@[j] && r@[j].1
                        == self.values@[j],
            decreases self.keys@.len() - i,
        {
            r.push((self.keys[i], self.values[i]));
            i = i + 1;
        }
        proof {
            assert forall|k: K| self@.contains_key(k) implies exists|i: int|
                0 <= i < r@.len() && (#[trigger] r@[i]).0 == k by {
                let j = self.keys@.index_of(k);
                assert(r@[j].0 == k);
            }
        }
        r
    }

    /// Writes `value` under `key`, in place of what was there.
    pub fn set(&mut self, key: K, value: V)
        requires
            old(self).wf(),
        ensures
            final(self).wf(),
            final(self)@ == old(self)@.insert(key, value),
    {
        match position(&self.keys, &key) {
            Some(i) => {
                self.values.set(i, value);
                proof {
                    lemma_index_of(self.keys@);
                    assert(self@ =~= old(self)@.insert(key, value));
                }
            },
            None => {
                self.keys.push(key);
                self.values.push(value);
                proof {
                    lemma_index_of(self.keys@);
                    lemma_index_of(old(self).keys@);
                    assert forall|k: K| self.keys@.contains(k) <==> old(self).keys@.contains(k)
                        || k == key by {
                        if old(self).keys@.contains(k) {
                            let j = old(self).keys@.index_of(k);
                            assert(self.keys@[j] == k);
                        }
                        if k == key {
                            assert(self.keys@[old(self).keys@.len() as int] == k);
                        }
                    }
                    assert(self@ =~= old(self)@.insert(key, value));
                }
            },
        }
    }

    /// Removes the record under `key`, if there is one.
    pub fn remove(&mut self, key: &K)
        requires
            old(self).wf(),
        ensures
            final(self).wf(),
            final(self)@ == old(self)@.remove(*key),
    {
        match position(&self.keys, key) {
            Some(i) => {
                self.keys.remove(i);
                self.values.remove(i);
                proof {
                    let before = old(self).keys@;
                    let after = self.keys@;
                    lemma_index_of(before);
                    assert forall|a: int, b: int|
                        0 <= a < after.len() && 0 <= b < after.len() && a != b implies after[a]
                        != after[b] by {
                        let a0 = if a < i { a } else { a + 1 };
                        let b0 = if b < i { b } else { b + 1 };
                        assert(after[a] == before[a0] && after[b] == before[b0]);
                    }
                    lemma_index_of(after);
                    assert forall|k: K| after.contains(k) <==> before.contains(k) && k
                        != *key by {
                        if after.contains(k) {
                            let j = after.index_of(k);
                            let j0 = if j < i { j } else { j + 1 };
                            assert(before[j0] == k);
                        }
                        if before.contains(k) && k != *key {
                            let j0 = before.index_of(k);
                            let j = if j0 < i { j0 } else { j0 - 1 };
                            assert(after[j] == k);
                        }
                    }
                    assert forall|k: K| after.contains(k) implies self.values@[after.index_of(k)]
                        == old(self).values@[before.index_of(k)] by {
                        let j = after.index_of(k);
                        let j0 = if j < i { j } else { j + 1 };
                        assert(before[j0] == k);
                    }
                    assert(self@ =~= old(self)@.remove(*key));
                }
            },
            None => {
                proof {
                    assert(self@ =~= old(self)@.remove(*key));
                }
            },
        }
    }
}

/// In a sequence without repetition, a value is found where it stands.
proof fn lemma_index_of<K>(keys: Seq<K>)
    requires
        keys.no_duplicates(),
    ensures
        forall|i: int| 0 <= i < keys.len() ==> keys.contains(#[trigger] keys[i]) && keys.index_of(
            keys[i],
        ) == i,
        forall|k: K| keys.contains(k) ==> 0 <= #[trigger] keys.index_of(k) < keys.len() && keys[keys.index_of(k)] == k,
{
}

/// Taking a value out of a list without repetition leaves the other values,
/// each once, in their order.
pub proof fn lemma_remove_value<K>(list: Seq<K>, value: K)
    requires
        list.no_duplicates(),
    ensures
        list.remove_value(value).no_duplicates(),
        forall|k: K| list.remove_value(value).contains(k) <==> list.contains(k) && k != value,
        !list.contains(value) ==> list.remove_value(value) == list,
{
    list.index_of_first_ensures(value);
    let after = list.remove_value(value);
    if list.contains(value) {
        let i = list.index_of_first(value).unwrap();
        assert forall|a: int, b: int|
            0 <= a < after.len() && 0 <= b < after.len() && a != b implies after[a]
            != after[b] by {
            let a0 = if a < i { a } else { a + 1 };
            let b0 = if b < i { b } else { b + 1 };
            assert(after[a] == list[a0] && after[b] == list[b0]);
        }
        assert forall|k: K| after.contains(k) <==> list.contains(k) && k != value by {
            if after.contains(k) {
                let j = choose|j: int| 0 <= j < after.len() && after[j] == k;
                let j0 = if j < i { j } else { j + 1 };
                assert(list[j0] == k);
            }
            if list.contains(k) && k != value {
                let j0 = choose|j: int| 0 <= j < list.len() && list[j] == k;
                let j = if j0 < i { j0 } else { j0 - 1 };
                assert(after[j] == k);
            }
        }
    }
}

/// Putting a new value at the end of a list without repetition keeps it so.
pub proof fn lemma_push_new<K>(list: Seq<K>, value: K)
    requires
        list.no_duplicates(),
        !list.contains(value),
    ensures
        list.push(value).no_duplicates(),
        forall|k: K| list.push(value).contains(k) <==> list.contains(k) || k == value,
{
    let after = list.push(value);
    assert forall|a: int, b: int|
        0 <= a < after.len() && 0 <= b < after.len() && a != b implies after[a] != after[b] by {
        if a < list.len() {
            assert(list.contains(after[a]));
        }
        if b < list.len() {
            assert(list.contains(after[b]));
        }
    }
    assert forall|k: K| after.contains(k) <==> list.contains(k) || k == value by {
        if after.contains(k) {
            let j = choose|j: int| 0 <= j < after.len() && after[j] == k;
            if j < list.len() {
                assert(list[j] == k);
            }
        }
        if list.contains(k) {
            let j = choose|j: int| 0 <= j < list.len() && list[j] == k;
            assert(after[j] == k);
        }
        if k == value {
            assert(after[list.len() as int] == k);
        }
    }
}

} // verus!
