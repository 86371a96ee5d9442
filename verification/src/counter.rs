//! `Counter`, a mapping from names to counts.
//!
//! A counter keeps its entries in a vector in which no name occurs twice. It
//! is viewed as a `Map` from the characters of a name to its count.

use crate::merge::{count_in, distinct_keys, lemma_map_of_entries_absent,
    lemma_map_of_entries_finite, lemma_map_of_entries_has_entry, lemma_map_of_entries_last_wins,
    lemma_map_of_entries_len, lemma_map_of_entries_update, lemma_sum_of_counts_insert,
    map_of_entries, merge_counts, sum_of_counts};
use vstd::prelude::*;

verus! {

/// A mapping from names to counts.
#[derive(Debug)]
pub struct Counter {
    entries: Vec<(String, usize)>,
}

/// The entries of a counter as pairs of plain values.
pub open spec fn pairs_of(entries: Seq<(String, usize)>) -> Seq<(Seq<char>, nat)> {
    Seq::new(entries.len(), |i: int| (entries[i].0@, entries[i].1 as nat))
}

impl View for Counter {
    type V = Map<Seq<char>, nat>;

    closed spec fn view(&self) -> Map<Seq<char>, nat> {
        map_of_entries(pairs_of(self.entries@))
    }
}

/// What an optional counter holds: nothing, or the mapping of the counter.
pub open spec fn counts_of(c: Option<Counter>) -> Option<Map<Seq<char>, nat>> {
    match c {
        Some(c) => Some(c@),
        None => None,
    }
}

impl Counter {
    #[verifier::type_invariant]
    spec fn no_name_twice(self) -> bool {
        distinct_keys(pairs_of(self.entries@))
    }

    /// Every count of a counter fits in a `usize`, and its keys are finitely many.
    pub proof fn lemma_counts_fit(self)
        ensures
            forall|k: Seq<char>| self@.contains_key(k) ==> #[trigger] self@[k] <= usize::MAX,
            self@.dom().finite(),
    {
        let pairs = pairs_of(self.entries@);
        lemma_map_of_entries_finite(pairs);
        assert forall|k: Seq<char>| self@.contains_key(k) implies #[trigger] self@[k]
            <= usize::MAX by {
            lemma_values_come_from_entries(pairs, k);
        }
    }

    /// A counter without entries.
    pub fn new() -> (c: Counter)
        ensures
            c@ == Map::<Seq<char>, nat>::empty(),
    {
        let c = Counter { entries: Vec::new() };
        assert(pairs_of(c.entries@) =~= Seq::empty());
        c
    }

    /// The index of the entry for `key`.
    fn position(&self, key: &String) -> (r: Option<usize>)
        ensures
            match r {
                Some(i) => i < self.entries@.len() && self.entries@[i as int].0@ == key@,
                None => forall|i: int|
                    0 <= i < self.entries@.len() ==> (#[trigger] self.entries@[i]).0@ != key@,
            },
    {
        let mut i: usize = 0;
        while i < self.entries.len()
            invariant
                i <= self.entries@.len(),
                forall|j: int| 0 <= j < i ==> (#[trigger] self.entries@[j]).0@ != key@,
            decreases self.entries@.len() - i,
        {
            if self.entries[i].0 == *key {
                return Some(i);
            }
            i += 1;
        }
        None
    }

    /// The count of `key`, if the counter has that key.
    pub fn get(&self, key: &str) -> (r: Option<usize>)
        ensures
            r is Some <==> self@.contains_key(key@),
            r matches Some(v) ==> self@[key@] == v,
    {
        proof {
            use_type_invariant(self);
        }
        let ghost pairs = pairs_of(self.entries@);
        let owned = key.to_owned();
        match self.position(&owned) {
            Some(i) => {
                proof {
                    lemma_map_of_entries_last_wins(pairs, i as int);
                }
                Some(self.entries[i].1)
            },
            None => {
                proof {
                    lemma_map_of_entries_absent(pairs, key@);
                }
                None
            },
        }
    }

    /// Whether the counter has `key`.
    pub fn contains_key(&self, key: &str) -> (r: bool)
        ensures
            r == self@.contains_key(key@),
    {
        self.get(key).is_some()
    }

    /// Sets the count of `key` to `value`, whether or not the key was there.
    pub fn insert(&mut self, key: String, value: usize)
        ensures
            final(self)@ == old(self)@.insert(key@, value as nat),
    {
        proof {
            use_type_invariant(&*self);
        }
        let ghost before = pairs_of(self.entries@);
        match self.position(&key) {
            Some(i) => {
                let mut entries: Vec<(String, usize)> = Vec::new();
                core::mem::swap(&mut entries, &mut self.entries);
                entries[i].1 = value;
                assert(pairs_of(entries@) =~= before.update(i as int, (before[i as int].0, value as nat)));
                proof {
                    lemma_map_of_entries_update(before, i as int, value as nat);
                    lemma_update_keeps_keys_distinct(before, i as int, value as nat);
                }
                self.entries = entries;
            },
            None => {
                let mut entries: Vec<(String, usize)> = Vec::new();
                core::mem::swap(&mut entries, &mut self.entries);
                entries.push((key, value));
                assert(pairs_of(entries@) =~= before.push((key@, value as nat)));
                assert(before.push((key@, value as nat)).drop_last() =~= before);
                self.entries = entries;
            },
        }
    }

    /// The entries of the counter, each name once, in no order that callers
    /// may rely on.
    pub fn to_vec(&self) -> (out: Vec<(String, usize)>)
        ensures
            distinct_keys(pairs_of(out@)),
            map_of_entries(pairs_of(out@)) == self@,
    {
        proof {
            use_type_invariant(self);
        }
        let mut out: Vec<(String, usize)> = Vec::new();
        let mut i: usize = 0;
        while i < self.entries.len()
            invariant
                i <= self.entries@.len(),
                out@.len() == i,
                pairs_of(out@) == pairs_of(self.entries@).take(i as int),
            decreases self.entries@.len() - i,
        {
            let ghost before = out@;
            out.push((self.entries[i].0.clone(), self.entries[i].1));
            proof {
                let wanted = pairs_of(self.entries@).take(i + 1);
                assert forall|j: int| 0 <= j < wanted.len() implies pairs_of(out@)[j]
                    == wanted[j] by {
                    if j < i {
                        assert(out@[j] == before[j]);
                        assert(pairs_of(before)[j] == pairs_of(self.entries@).take(i as int)[j]);
                    }
                }
                assert(pairs_of(out@) =~= wanted);
            }
            i += 1;
        }
        assert(pairs_of(self.entries@).take(i as int) =~= pairs_of(self.entries@));
        out
    }

    /// A counter with the same entries.
    pub fn duplicate(&self) -> (c: Counter)
        ensures
            c@ == self@,
    {
        proof {
            use_type_invariant(self);
        }
        let entries = self.to_vec();
        Counter { entries }
    }

    /// The number of names.
    pub fn len(&self) -> (n: usize)
        ensures
            n == self@.dom().len(),
            self@.dom().finite(),
    {
        proof {
            use_type_invariant(self);
            lemma_map_of_entries_len(pairs_of(self.entries@));
        }
        self.entries.len()
    }

    /// The sum of all counts, or `None` where the sum does not fit in a
    /// `usize`.
    pub fn checked_total(&self) -> (total: Option<usize>)
        ensures
            match total {
                Some(t) => t == sum_of_counts(self@),
                None => sum_of_counts(self@) > usize::MAX,
            },
    {
        proof {
            use_type_invariant(self);
        }
        let ghost pairs = pairs_of(self.entries@);
        let mut acc: usize = 0;
        let mut i: usize = 0;
        assert(pairs.take(0) =~= Seq::empty());
        while i < self.entries.len()
            invariant
                i <= self.entries@.len(),
                pairs == pairs_of(self.entries@),
                distinct_keys(pairs),
                acc == sum_of_counts(map_of_entries(pairs.take(i as int))),
            decreases self.entries@.len() - i,
        {
            proof {
                lemma_sum_of_entries_step(pairs, i as int);
            }
            let v: usize = self.entries[i].1;
            if acc > usize::MAX - v {
                proof {
                    lemma_sum_of_entries_grows(pairs, i + 1);
                }
                return None;
            }
            acc = acc + v;
            i += 1;
        }
        assert(pairs.take(i as int) =~= pairs);
        Some(acc)
    }

    /// The `n` entries with the largest counts, the largest first; all the
    /// entries where there are fewer than `n`. Which of several entries with
    /// one count comes first, or is left out, is not fixed.
    pub fn top(&self, n: usize) -> (ranked: Vec<(String, usize)>)
        ensures
            is_ranking(pairs_of(ranked@), self@, n as nat),
    {
        let mut rest = self.to_vec();
        let mut ranked: Vec<(String, usize)> = Vec::new();
        proof {
            lemma_map_of_entries_len(pairs_of(rest@));
            assert forall|k: Seq<char>| self@.contains_key(k) implies listed(pairs_of(rest@), k) by {
                lemma_map_of_entries_has_entry(pairs_of(rest@), k);
            }
            assert forall|i: int| 0 <= i < rest@.len() implies self@.contains_key(
                (#[trigger] pairs_of(rest@)[i]).0,
            ) && self@[pairs_of(rest@)[i].0] == pairs_of(rest@)[i].1 by {
                lemma_map_of_entries_last_wins(pairs_of(rest@), i);
            }
        }
        while ranked.len() < n && rest.len() > 0
            invariant
                self@.dom().finite(),
                ranked@.len() <= n,
                ranked@.len() + rest@.len() == self@.dom().len(),
                distinct_keys(pairs_of(ranked@) + pairs_of(rest@)),
                forall|k: Seq<char>|
                    self@.contains_key(k) ==> listed(pairs_of(ranked@), k) || listed(
                        pairs_of(rest@),
                        k,
                    ),
                forall|i: int|
                    0 <= i < ranked@.len() ==> self@.contains_key(
                        (#[trigger] pairs_of(ranked@)[i]).0,
                    ) && self@[pairs_of(ranked@)[i].0] == pairs_of(ranked@)[i].1,
                forall|i: int|
                    0 <= i < rest@.len() ==> self@.contains_key((#[trigger] pairs_of(rest@)[i]).0)
                        && self@[pairs_of(rest@)[i].0] == pairs_of(rest@)[i].1,
                forall|i: int, j: int|
                    0 <= i < j < ranked@.len() ==> pairs_of(ranked@)[i].1 >= pairs_of(
                        ranked@,
                    )[j].1,
                forall|i: int, j: int|
                    0 <= i < ranked@.len() && 0 <= j < rest@.len() ==> pairs_of(ranked@)[i].1
                        >= pairs_of(rest@)[j].1,
            decreases rest@.len(),
        {
            let mut best: usize = 0;
            let mut j: usize = 1;
            while j < rest.len()
                invariant
                    best < j <= rest@.len(),
                    forall|t: int| 0 <= t < j ==> rest@[t].1 <= rest@[best as int].1,
                decreases rest@.len() - j,
            {
                if rest[j].1 > rest[best].1 {
                    best = j;
                }
                j += 1;
            }
            let ghost ranked_before = pairs_of(ranked@);
            let ghost rest_before = pairs_of(rest@);
            let entry = rest.remove(best);
            ranked.push(entry);
            proof {
                let ranked_after = pairs_of(ranked@);
                let rest_after = pairs_of(rest@);
                let moved = rest_before[best as int];
                assert(ranked_after =~= ranked_before.push(moved));
                assert(rest_after =~= rest_before.remove(best as int));
                let joined_before = ranked_before + rest_before;
                let joined_after = ranked_after + rest_after;
                assert forall|a: int, b: int| 0 <= a < b < joined_after.len() implies joined_after[a].0
                    != joined_after[b].0 by {
                    let origin = |t: int|
                        if t < ranked_before.len() {
                            t
                        } else if t == ranked_before.len() {
                            ranked_before.len() + best
                        } else if t - ranked_before.len() - 1 < best {
                            t - 1
                        } else {
                            t
                        };
                    assert(joined_after[a] == joined_before[origin(a)]);
                    assert(joined_after[b] == joined_before[origin(b)]);
                    assert(origin(a) != origin(b));
                    if origin(a) < origin(b) {
                        assert(joined_before[origin(a)].0 != joined_before[origin(b)].0);
                    } else {
                        assert(joined_before[origin(b)].0 != joined_before[origin(a)].0);
                    }
                }
                assert forall|k: Seq<char>| self@.contains_key(k) implies listed(ranked_after, k)
                    || listed(rest_after, k) by {
                    if listed(ranked_before, k) {
                        let t = choose|t: int|
                            0 <= t < ranked_before.len() && (#[trigger] ranked_before[t]).0 == k;
                        assert(ranked_after[t].0 == k);
                    } else {
                        let t = choose|t: int|
                            0 <= t < rest_before.len() && (#[trigger] rest_before[t]).0 == k;
                        if t == best {
                            assert(ranked_after[ranked_before.len() as int].0 == k);
                        } else if t < best {
                            assert(rest_after[t].0 == k);
                        } else {
                            assert(rest_after[t - 1].0 == k);
                        }
                    }
                }
                assert forall|i: int| 0 <= i < ranked@.len() implies self@.contains_key(
                    (#[trigger] ranked_after[i]).0,
                ) && self@[ranked_after[i].0] == ranked_after[i].1 by {
                    if i < ranked_before.len() {
                        assert(ranked_after[i] == ranked_before[i]);
                    }
                }
                assert forall|i: int| 0 <= i < rest@.len() implies self@.contains_key(
                    (#[trigger] rest_after[i]).0,
                ) && self@[rest_after[i].0] == rest_after[i].1 by {
                    if i < best {
                        assert(rest_after[i] == rest_before[i]);
                    } else {
                        assert(rest_after[i] == rest_before[i + 1]);
                    }
                }
                assert forall|i: int, j: int| 0 <= i < j < ranked@.len() implies ranked_after[i].1
                    >= ranked_after[j].1 by {
                    assert(ranked_after[i] == ranked_before[i]);
                    if j < ranked_before.len() {
                        assert(ranked_after[j] == ranked_before[j]);
                    }
                }
                assert forall|i: int, j: int|
                    0 <= i < ranked@.len() && 0 <= j < rest@.len() implies ranked_after[i].1
                    >= rest_after[j].1 by {
                    let t = if j < best {
                        j
                    } else {
                        j + 1
                    };
                    assert(rest_after[j] == rest_before[t]);
                    assert(rest_before[t].1 == rest@[j].1);
                    if i < ranked_before.len() {
                        assert(ranked_after[i] == ranked_before[i]);
                    }
                }
            }
        }
        proof {
            let listing = pairs_of(ranked@);
            let others = pairs_of(rest@);
            let joined = listing + others;
            assert forall|a: int, b: int| 0 <= a < b < listing.len() implies listing[a].0
                != listing[b].0 by {
                assert(joined[a] == listing[a] && joined[b] == listing[b]);
            }
            assert forall|k: Seq<char>, i: int|
                #![trigger self@.contains_key(k), listing[i]]
                self@.contains_key(k) && 0 <= i < listing.len() && !listed(
                    listing,
                    k,
                ) implies self@[k] <= listing[i].1 by {
                let t = choose|t: int| 0 <= t < others.len() && (#[trigger] others[t]).0 == k;
                assert(self@[others[t].0] == others[t].1);
            }
        }
        ranked
    }

    /// Whether adding the counts of `other` to those of `self`, key by key,
    /// stays within `usize`.
    pub fn can_absorb(&self, other: &Counter) -> (r: bool)
        ensures
            r == forall|k: Seq<char>| count_in(self@, k) + count_in(other@, k) <= usize::MAX,
    {
        proof {
            use_type_invariant(self);
            use_type_invariant(other);
            self.lemma_counts_fit();
            other.lemma_counts_fit();
        }
        let ghost theirs = pairs_of(other.entries@);
        let mut i: usize = 0;
        while i < other.entries.len()
            invariant
                i <= other.entries@.len(),
                theirs == pairs_of(other.entries@),
                distinct_keys(theirs),
                other@ == map_of_entries(theirs),
                forall|j: int|
                    0 <= j < i ==> count_in(self@, (#[trigger] theirs[j]).0) + theirs[j].1
                        <= usize::MAX,
            decreases other.entries@.len() - i,
        {
            let held = self.get(other.entries[i].0.as_str());
            let fits = match held {
                Some(v) => v <= usize::MAX - other.entries[i].1,
                None => true,
            };
            if !fits {
                proof {
                    lemma_map_of_entries_last_wins(theirs, i as int);
                    let k = theirs[i as int].0;
                    assert(count_in(self@, k) + count_in(other@, k) > usize::MAX);
                }
                return false;
            }
            i += 1;
        }
        proof {
            assert forall|k: Seq<char>| count_in(self@, k) + count_in(other@, k)
                <= usize::MAX by {
                if other@.contains_key(k) {
                    lemma_map_of_entries_has_entry(theirs, k);
                    let j = choose|j: int| 0 <= j < theirs.len() && (#[trigger] theirs[j]).0 == k;
                    lemma_map_of_entries_last_wins(theirs, j);
                }
            }
        }
        true
    }

    /// Adds the counts of `other` to those of `self`, key by key.
    pub fn absorb(&mut self, other: &Counter)
        requires
            forall|k: Seq<char>| count_in(old(self)@, k) + count_in(other@, k) <= usize::MAX,
        ensures
            final(self)@ == merge_counts(old(self)@, other@),
    {
        proof {
            use_type_invariant(other);
        }
        let ghost mine = self@;
        let ghost theirs = pairs_of(other.entries@);
        let mut i: usize = 0;
        assert(theirs.take(0) =~= Seq::empty());
        assert(self@ =~= merge_counts(mine, map_of_entries(theirs.take(0))));
        while i < other.entries.len()
            invariant
                i <= other.entries@.len(),
                theirs == pairs_of(other.entries@),
                distinct_keys(theirs),
                other@ == map_of_entries(theirs),
                forall|k: Seq<char>| count_in(mine, k) + count_in(other@, k) <= usize::MAX,
                self@ == merge_counts(mine, map_of_entries(theirs.take(i as int))),
            decreases other.entries@.len() - i,
        {
            let ghost done = theirs.take(i as int);
            let ghost next = theirs.take(i + 1);
            let ghost k = theirs[i as int].0;
            proof {
                assert(next.drop_last() =~= done);
                assert(next.last() == theirs[i as int]);
                assert forall|j: int| 0 <= j < done.len() implies (#[trigger] done[j]).0 != k by {
                    assert(done[j] == theirs[j]);
                }
                lemma_map_of_entries_absent(done, k);
                lemma_map_of_entries_last_wins(theirs, i as int);
            }
            let held = self.get(other.entries[i].0.as_str());
            let sum: usize = match held {
                Some(v) => v + other.entries[i].1,
                None => other.entries[i].1,
            };
            self.insert(other.entries[i].0.clone(), sum);
            assert(self@ =~= merge_counts(mine, map_of_entries(next)));
            i += 1;
        }
        assert(theirs.take(i as int) =~= theirs);
    }
}

/// Every value of the mapping is the value of some entry.
proof fn lemma_values_come_from_entries(entries: Seq<(Seq<char>, nat)>, k: Seq<char>)
    requires
        map_of_entries(entries).contains_key(k),
        forall|i: int| 0 <= i < entries.len() ==> (#[trigger] entries[i]).1 <= usize::MAX,
    ensures
        map_of_entries(entries)[k] <= usize::MAX,
    decreases entries.len(),
{
    if entries.len() > 0 {
        let front = entries.drop_last();
        assert(entries.last() == entries[entries.len() - 1]);
        if entries.last().0 != k {
            assert forall|i: int| 0 <= i < front.len() implies (#[trigger] front[i]).1
                <= usize::MAX by {
                assert(front[i] == entries[i]);
            }
            lemma_values_come_from_entries(front, k);
        }
    }
}

/// Replacing a value leaves the keys as they are, so they stay distinct.
proof fn lemma_update_keeps_keys_distinct(entries: Seq<(Seq<char>, nat)>, i: int, v: nat)
    requires
        0 <= i < entries.len(),
        distinct_keys(entries),
    ensures
        distinct_keys(entries.update(i, (entries[i].0, v))),
{
    let changed = entries.update(i, (entries[i].0, v));
    assert forall|a: int, b: int| 0 <= a < b < changed.len() implies changed[a].0
        != changed[b].0 by {
        assert(changed[a].0 == entries[a].0);
        assert(changed[b].0 == entries[b].0);
    }
}

/// Whether some entry of the list has the name `k`.
pub open spec fn listed(entries: Seq<(Seq<char>, nat)>, k: Seq<char>) -> bool {
    exists|i: int| 0 <= i < entries.len() && (#[trigger] entries[i]).0 == k
}

/// The smaller of two numbers.
pub open spec fn smaller(a: nat, b: nat) -> nat {
    if a <= b {
        a
    } else {
        b
    }
}

/// Whether `ranked` lists the `n` largest entries of `m`, or all of them
/// where `m` has fewer: every entry listed is an entry of `m`, no name is
/// listed twice, no count stands before a larger one, and no entry of `m`
/// that is left out has a larger count than one that is listed.
pub open spec fn is_ranking(ranked: Seq<(Seq<char>, nat)>, m: Map<Seq<char>, nat>, n: nat) -> bool {
    &&& ranked.len() == smaller(n, m.dom().len())
    &&& distinct_keys(ranked)
    &&& forall|i: int|
        0 <= i < ranked.len() ==> m.contains_key((#[trigger] ranked[i]).0) && m[ranked[i].0]
            == ranked[i].1
    &&& forall|i: int, j: int| 0 <= i < j < ranked.len() ==> ranked[i].1 >= ranked[j].1
    &&& forall|k: Seq<char>, i: int|
        #![trigger m.contains_key(k), ranked[i]]
        m.contains_key(k) && 0 <= i < ranked.len() && !listed(ranked, k) ==> m[k]
            <= ranked[i].1
}

/// One more entry of a list without repeated names adds its count to the sum.
proof fn lemma_sum_of_entries_step(entries: Seq<(Seq<char>, nat)>, i: int)
    requires
        0 <= i < entries.len(),
        distinct_keys(entries),
    ensures
        sum_of_counts(map_of_entries(entries.take(i + 1))) == sum_of_counts(
            map_of_entries(entries.take(i)),
        ) + entries[i].1,
{
    let front = entries.take(i);
    assert(entries.take(i + 1).drop_last() =~= front);
    assert(entries.take(i + 1).last() == entries[i]);
    assert forall|j: int| 0 <= j < front.len() implies (#[trigger] front[j]).0
        != entries[i].0 by {
        assert(front[j] == entries[j]);
    }
    lemma_map_of_entries_absent(front, entries[i].0);
    lemma_map_of_entries_finite(front);
    lemma_sum_of_counts_insert(map_of_entries(front), entries[i].0, entries[i].1);
}

/// The sum over the first entries never exceeds the sum over all.
proof fn lemma_sum_of_entries_grows(entries: Seq<(Seq<char>, nat)>, n: int)
    requires
        0 <= n <= entries.len(),
        distinct_keys(entries),
    ensures
        sum_of_counts(map_of_entries(entries.take(n))) <= sum_of_counts(map_of_entries(entries)),
    decreases entries.len() - n,
{
    if n < entries.len() {
        lemma_sum_of_entries_step(entries, n);
        lemma_sum_of_entries_grows(entries, n + 1);
    } else {
        assert(entries.take(n) =~= entries);
    }
}

} // verus!
