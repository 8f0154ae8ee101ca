use vstd::prelude::*;

verus! {

/// The sum of all the amounts that a finite map holds.
pub open spec fn sum_values<K>(m: Map<K, i128>) -> int
    decreases m.dom().len(),
    when m.dom().finite()
{
    if m.dom().len() == 0 {
        0
    } else {
        let k = m.dom().choose();
        m[k] + sum_values(m.remove(k))
    }
}

/// An empty map sums to nothing.
pub proof fn lemma_sum_empty<K>()
    ensures
        sum_values(Map::<K, i128>::empty()) == 0,
{
}

/// Any one entry can be taken out of the sum first.
pub proof fn lemma_sum_remove<K>(m: Map<K, i128>, k: K)
    requires
        m.dom().finite(),
        m.contains_key(k),
    ensures
        sum_values(m) == m[k] + sum_values(m.remove(k)),
    decreases m.dom().len(),
{
    let c = m.dom().choose();
    if c != k {
        lemma_sum_remove(m.remove(c), k);
        lemma_sum_remove(m.remove(k), c);
        assert(m.remove(c).remove(k) =~= m.remove(k).remove(c));
    }
}

/// Writing an entry replaces what the key held before, if anything, in the sum.
pub proof fn lemma_sum_insert<K>(m: Map<K, i128>, k: K, v: i128)
    requires
        m.dom().finite(),
    ensures
        sum_values(m.insert(k, v)) == sum_values(m) + v - (if m.contains_key(k) {
            m[k] as int
        } else {
            0
        }),
{
    lemma_sum_remove(m.insert(k, v), k);
    assert(m.insert(k, v).remove(k) =~= m.remove(k));
    if m.contains_key(k) {
        lemma_sum_remove(m, k);
    } else {
        assert(m.remove(k) =~= m);
    }
}

/// Where no amount is negative, the sum is not negative, and no entry exceeds it.
pub proof fn lemma_sum_bounds<K>(m: Map<K, i128>)
    requires
        m.dom().finite(),
        forall|k: K| m.contains_key(k) ==> m[k] >= 0,
    ensures
        sum_values(m) >= 0,
        forall|k: K| m.contains_key(k) ==> m[k] <= sum_values(m),
    decreases m.dom().len(),
{
    if m.dom().len() != 0 {
        let c = m.dom().choose();
        lemma_sum_bounds(m.remove(c));
        assert forall|k: K| m.contains_key(k) implies m[k] <= sum_values(m) by {
            if k != c {
                assert(m.remove(c).contains_key(k));
            }
        }
    }
}

/// The amount under `k`; nothing where `m` holds none.
pub open spec fn value_at<K>(m: Map<K, i128>, k: K) -> int {
    if m.contains_key(k) {
        m[k] as int
    } else {
        0
    }
}

/// The sum of the amounts that `m` holds under the keys in `keys`, one after another.
pub open spec fn sum_over<K>(keys: Seq<K>, m: Map<K, i128>) -> int
    decreases keys.len(),
{
    if keys.len() == 0 {
        0
    } else {
        sum_over(keys.drop_last(), m) + value_at(m, keys.last())
    }
}

/// A sum along a list of keys looks only at what the map holds under them.
pub proof fn lemma_sum_over_agree<K>(keys: Seq<K>, m1: Map<K, i128>, m2: Map<K, i128>)
    requires
        forall|i: int| 0 <= i < keys.len() ==> value_at(m1, keys[i]) == value_at(m2, keys[i]),
    ensures
        sum_over(keys, m1) == sum_over(keys, m2),
    decreases keys.len(),
{
    if keys.len() != 0 {
        lemma_sum_over_agree(keys.drop_last(), m1, m2);
    }
}

/// Summing along a list that names every key once gives the sum of the map.
pub proof fn lemma_sum_over_all<K>(keys: Seq<K>, m: Map<K, i128>)
    requires
        m.dom().finite(),
        keys.no_duplicates(),
        forall|k: K| keys.contains(k) <==> m.contains_key(k),
    ensures
        sum_over(keys, m) == sum_values(m),
    decreases keys.len(),
{
    if keys.len() == 0 {
        assert forall|k: K| !m.dom().contains(k) by {
            if m.contains_key(k) {
                assert(keys.contains(k));
            }
        }
        assert(m.dom() =~= Set::<K>::empty());
    } else {
        let last = keys.last();
        let rest = keys.drop_last();
        let smaller = m.remove(last);
        assert(keys.contains(last));
        assert forall|k: K| rest.contains(k) <==> smaller.contains_key(k) by {
            if rest.contains(k) {
                let j = choose|j: int| 0 <= j < rest.len() && rest[j] == k;
                assert(keys[j] == k);
                assert(keys.contains(k));
            }
            if smaller.contains_key(k) {
                assert(keys.contains(k));
                let j = choose|j: int| 0 <= j < keys.len() && keys[j] == k;
                assert(rest[j] == k);
            }
        }
        lemma_sum_over_all(rest, smaller);
        assert forall|i: int| 0 <= i < rest.len() implies value_at(smaller, rest[i]) == value_at(
            m,
            rest[i],
        ) by {
            assert(keys[i] == rest[i]);
        }
        lemma_sum_over_agree(rest, smaller, m);
        lemma_sum_remove(m, last);
    }
}

/// Where no amount is negative, the sum along the first keys of a list is
/// not negative and not more than the sum along all of them.
pub proof fn lemma_sum_over_prefix<K>(keys: Seq<K>, m: Map<K, i128>, n: int)
    requires
        0 <= n <= keys.len(),
        forall|k: K| m.contains_key(k) ==> m[k] >= 0,
    ensures
        0 <= sum_over(keys.take(n), m) <= sum_over(keys, m),
    decreases keys.len() - n,
{
    if n == keys.len() {
        assert(keys.take(n) =~= keys);
        lemma_sum_over_nonnegative(keys, m);
    } else {
        lemma_sum_over_prefix(keys, m, n + 1);
        assert(keys.take(n + 1).drop_last() =~= keys.take(n));
        lemma_sum_over_nonnegative(keys.take(n), m);
    }
}

/// Where no amount is negative, no sum along a list of keys is.
pub proof fn lemma_sum_over_nonnegative<K>(keys: Seq<K>, m: Map<K, i128>)
    requires
        forall|k: K| m.contains_key(k) ==> m[k] >= 0,
    ensures
        0 <= sum_over(keys, m),
    decreases keys.len(),
{
    if keys.len() != 0 {
        lemma_sum_over_nonnegative(keys.drop_last(), m);
    }
}

} // verus!
