//! The merge algebra on counter mappings, stated over mathematical maps.
//!
//! A counter mapping sends names to counts. It may be absent altogether, which
//! is not the same as present and empty. Two mappings merge by adding their
//! counts key by key; an absent mapping leaves the other one unchanged.

use vstd::prelude::*;

verus! {

/// The count that `m` holds for `k`: zero where `m` has no such key.
pub open spec fn count_in<K>(m: Map<K, nat>, k: K) -> nat {
    if m.contains_key(k) {
        m[k]
    } else {
        0
    }
}

/// The count that an optional mapping holds for `k`: zero where the mapping is
/// absent or has no such key.
pub open spec fn count_at<K>(m: Option<Map<K, nat>>, k: K) -> nat {
    match m {
        Some(m) => count_in(m, k),
        None => 0,
    }
}

/// Whether an optional mapping is present and has the key `k`.
pub open spec fn has_key<K>(m: Option<Map<K, nat>>, k: K) -> bool {
    match m {
        Some(m) => m.contains_key(k),
        None => false,
    }
}

/// The keys of both mappings, each with the sum of its two counts.
pub open spec fn merge_counts<K>(a: Map<K, nat>, b: Map<K, nat>) -> Map<K, nat> {
    Map::new(
        |k: K| a.contains_key(k) || b.contains_key(k),
        |k: K| count_in(a, k) + count_in(b, k),
    )
}

/// The merge of two optional mappings: absent where both are absent, the
/// other one where one is absent, and the key-wise sum where both are present.
pub open spec fn merge_add_spec<K>(a: Option<Map<K, nat>>, b: Option<Map<K, nat>>) -> Option<
    Map<K, nat>,
> {
    match (a, b) {
        (None, None) => None,
        (Some(x), None) => Some(x),
        (None, Some(y)) => Some(y),
        (Some(x), Some(y)) => Some(merge_counts(x, y)),
    }
}

/// Whether every key-wise sum of the two mappings fits in a `usize`.
pub open spec fn sums_fit<K>(a: Option<Map<K, nat>>, b: Option<Map<K, nat>>) -> bool {
    forall|k: K| #[trigger] count_at(a, k) + count_at(b, k) <= usize::MAX
}

/// The mapping that a list of entries writes: each key with the value of its
/// last entry.
pub open spec fn map_of_entries<K, V>(entries: Seq<(K, V)>) -> Map<K, V>
    decreases entries.len(),
{
    if entries.len() == 0 {
        Map::empty()
    } else {
        map_of_entries(entries.drop_last()).insert(entries.last().0, entries.last().1)
    }
}

/// No two entries have the same key.
pub open spec fn distinct_keys<K, V>(entries: Seq<(K, V)>) -> bool {
    forall|i: int, j: int| 0 <= i < j < entries.len() ==> entries[i].0 != entries[j].0
}

/// Merging is commutative.
pub proof fn lemma_merge_add_commutative<K>(a: Option<Map<K, nat>>, b: Option<Map<K, nat>>)
    ensures
        merge_add_spec(a, b) == merge_add_spec(b, a),
{
    if a is Some && b is Some {
        assert(merge_counts(a.unwrap(), b.unwrap()) =~= merge_counts(b.unwrap(), a.unwrap()));
    }
}

/// Merging is associative.
pub proof fn lemma_merge_add_associative<K>(
    a: Option<Map<K, nat>>,
    b: Option<Map<K, nat>>,
    c: Option<Map<K, nat>>,
)
    ensures
        merge_add_spec(merge_add_spec(a, b), c) == merge_add_spec(a, merge_add_spec(b, c)),
{
    if a is Some && b is Some && c is Some {
        let x = a.unwrap();
        let y = b.unwrap();
        let z = c.unwrap();
        assert(merge_counts(merge_counts(x, y), z) =~= merge_counts(x, merge_counts(y, z)));
    }
}

/// The absent mapping is the identity of merging, on either side.
pub proof fn lemma_merge_add_identity<K>(a: Option<Map<K, nat>>)
    ensures
        merge_add_spec(a, None) == a,
        merge_add_spec(None, a) == a,
{
}

/// The merged mapping is present exactly where one of the two is, has the keys
/// of both, and holds for every key the sum of the two counts.
pub proof fn lemma_merge_add_counts<K>(a: Option<Map<K, nat>>, b: Option<Map<K, nat>>, k: K)
    ensures
        merge_add_spec(a, b) is Some <==> a is Some || b is Some,
        has_key(merge_add_spec(a, b), k) <==> has_key(a, k) || has_key(b, k),
        count_at(merge_add_spec(a, b), k) == count_at(a, k) + count_at(b, k),
{
}

/// A key that no entry has is not in the mapping.
pub proof fn lemma_map_of_entries_absent<K, V>(entries: Seq<(K, V)>, k: K)
    requires
        forall|i: int| 0 <= i < entries.len() ==> (#[trigger] entries[i]).0 != k,
    ensures
        !map_of_entries(entries).contains_key(k),
    decreases entries.len(),
{
    if entries.len() > 0 {
        let front = entries.drop_last();
        assert forall|i: int| 0 <= i < front.len() implies (#[trigger] front[i]).0 != k by {
            assert(front[i] == entries[i]);
        }
        lemma_map_of_entries_absent(front, k);
        assert(entries.last() == entries[entries.len() - 1]);
    }
}

/// Within one list the last entry of a key decides its value: where no later
/// entry has the key of entry `i`, the mapping holds the value of entry `i`.
pub proof fn lemma_map_of_entries_last_wins<K, V>(entries: Seq<(K, V)>, i: int)
    requires
        0 <= i < entries.len(),
        forall|j: int| i < j < entries.len() ==> (#[trigger] entries[j]).0 != entries[i].0,
    ensures
        map_of_entries(entries).contains_key(entries[i].0),
        map_of_entries(entries)[entries[i].0] == entries[i].1,
    decreases entries.len(),
{
    if i < entries.len() - 1 {
        let front = entries.drop_last();
        assert(front[i] == entries[i]);
        assert forall|j: int| i < j < front.len() implies (#[trigger] front[j]).0
            != front[i].0 by {
            assert(front[j] == entries[j]);
        }
        lemma_map_of_entries_last_wins(front, i);
        assert(entries.last() == entries[entries.len() - 1]);
    }
}

/// Every key of the mapping is the key of some entry.
pub proof fn lemma_map_of_entries_has_entry<K, V>(entries: Seq<(K, V)>, k: K)
    requires
        map_of_entries(entries).contains_key(k),
    ensures
        exists|i: int| 0 <= i < entries.len() && (#[trigger] entries[i]).0 == k,
{
    if forall|i: int| 0 <= i < entries.len() ==> (#[trigger] entries[i]).0 != k {
        lemma_map_of_entries_absent(entries, k);
    }
}

/// Replacing the value of entry `i`, in a list without repeated keys, is
/// inserting that value under the key of entry `i`.
pub proof fn lemma_map_of_entries_update<K, V>(entries: Seq<(K, V)>, i: int, v: V)
    requires
        0 <= i < entries.len(),
        distinct_keys(entries),
    ensures
        map_of_entries(entries.update(i, (entries[i].0, v))) == map_of_entries(entries).insert(
            entries[i].0,
            v,
        ),
    decreases entries.len(),
{
    let changed = entries.update(i, (entries[i].0, v));
    let front = entries.drop_last();
    if i == entries.len() - 1 {
        assert(changed.drop_last() =~= front);
        assert(map_of_entries(changed) =~= map_of_entries(entries).insert(entries[i].0, v));
    } else {
        assert(front[i] == entries[i]);
        assert(distinct_keys(front)) by {
            assert forall|a: int, b: int| 0 <= a < b < front.len() implies front[a].0
                != front[b].0 by {
                assert(front[a] == entries[a] && front[b] == entries[b]);
            }
        }
        lemma_map_of_entries_update(front, i, v);
        assert(changed.drop_last() =~= front.update(i, (entries[i].0, v)));
        assert(changed.last() == entries.last());
        assert(entries.last().0 != entries[i].0);
        assert(map_of_entries(changed) =~= map_of_entries(entries).insert(entries[i].0, v));
    }
}

/// The mapping of a list has finitely many keys.
pub proof fn lemma_map_of_entries_finite<K, V>(entries: Seq<(K, V)>)
    ensures
        map_of_entries(entries).dom().finite(),
    decreases entries.len(),
{
    if entries.len() > 0 {
        lemma_map_of_entries_finite(entries.drop_last());
    }
}

/// The mapping of a list without repeated keys has as many keys as the list
/// has entries.
pub proof fn lemma_map_of_entries_len<K, V>(entries: Seq<(K, V)>)
    requires
        distinct_keys(entries),
    ensures
        map_of_entries(entries).dom().finite(),
        map_of_entries(entries).dom().len() == entries.len(),
    decreases entries.len(),
{
    if entries.len() > 0 {
        let front = entries.drop_last();
        assert(distinct_keys(front)) by {
            assert forall|a: int, b: int| 0 <= a < b < front.len() implies front[a].0
                != front[b].0 by {
                assert(front[a] == entries[a] && front[b] == entries[b]);
            }
        }
        lemma_map_of_entries_len(front);
        assert forall|i: int| 0 <= i < front.len() implies (#[trigger] front[i]).0
            != entries.last().0 by {
            assert(front[i] == entries[i]);
            assert(entries.last() == entries[entries.len() - 1]);
        }
        lemma_map_of_entries_absent(front, entries.last().0);
        assert(map_of_entries(entries).dom() =~= map_of_entries(front).dom().insert(
            entries.last().0,
        ));
    }
}

/// The sum of all counts of a mapping with finitely many keys.
pub open spec fn sum_of_counts<K>(m: Map<K, nat>) -> nat
    decreases m.dom().len(),
    when m.dom().finite()
{
    if m.dom().len() == 0 {
        0
    } else {
        let k = m.dom().choose();
        m[k] + sum_of_counts(m.remove(k))
    }
}

/// The sum of all counts is the count of any one key and the sum of the
/// others.
pub proof fn lemma_sum_of_counts_remove<K>(m: Map<K, nat>, k: K)
    requires
        m.dom().finite(),
        m.contains_key(k),
    ensures
        sum_of_counts(m) == m[k] + sum_of_counts(m.remove(k)),
    decreases m.dom().len(),
{
    let c = m.dom().choose();
    if c != k {
        assert(m.dom().len() > 0);
        assert(m.contains_key(c));
        lemma_sum_of_counts_remove(m.remove(c), k);
        lemma_sum_of_counts_remove(m.remove(k), c);
        assert(m.remove(c).remove(k) =~= m.remove(k).remove(c));
    }
}

/// A new key with its count adds that count to the sum.
pub proof fn lemma_sum_of_counts_insert<K>(m: Map<K, nat>, k: K, v: nat)
    requires
        m.dom().finite(),
        !m.contains_key(k),
    ensures
        sum_of_counts(m.insert(k, v)) == sum_of_counts(m) + v,
{
    lemma_sum_of_counts_remove(m.insert(k, v), k);
    assert(m.insert(k, v).remove(k) =~= m);
}

} // verus!
