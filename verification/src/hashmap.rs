//! Merging of optional counters, and the empty counter in place of an absent one.

use crate::counter::{counts_of, Counter};
use crate::merge::{count_at, count_in, merge_add_spec, sums_fit};
use vstd::prelude::*;

verus! {

/// Merging for optional counter mappings.
pub trait HashMapExtensions: Sized {
    /// The mapping that `self` stands for, if it stands for one.
    spec fn counts(&self) -> Option<Map<Seq<char>, nat>>;

    /// Whether `merge_add` may be called: whether every key-wise sum fits in a
    /// `usize`.
    fn merge_fits(&self, other: &Option<Counter>) -> (fits: bool)
        ensures
            fits == sums_fit(self.counts(), counts_of(*other)),
    ;

    /// Merges `other` into `self`: absent where both are absent, the other one
    /// where one is absent, and the key-wise sum where both are present.
    fn merge_add(self, other: Option<Counter>) -> (merged: Option<Counter>)
        requires
            sums_fit(self.counts(), counts_of(other)),
        ensures
            counts_of(merged) == merge_add_spec(self.counts(), counts_of(other)),
    ;
}

impl HashMapExtensions for Option<Counter> {
    open spec fn counts(&self) -> Option<Map<Seq<char>, nat>> {
        counts_of(*self)
    }

    fn merge_fits(&self, other: &Option<Counter>) -> (fits: bool) {
        match self {
            Some(a) => match other {
                Some(b) => {
                    let fits = a.can_absorb(b);
                    proof {
                        if fits {
                            assert forall|k: Seq<char>| #[trigger]
                                count_at(Some(a@), k) + count_at(Some(b@), k) <= usize::MAX by {
                                assert(count_in(a@, k) + count_in(b@, k) <= usize::MAX);
                            }
                        } else {
                            let k = choose|k: Seq<char>|
                                count_in(a@, k) + count_in(b@, k) > usize::MAX;
                            assert(count_at(Some(a@), k) + count_at(Some(b@), k) > usize::MAX);
                        }
                    }
                    fits
                },
                None => {
                    proof {
                        a.lemma_counts_fit();
                    }
                    true
                },
            },
            None => match other {
                Some(b) => {
                    proof {
                        b.lemma_counts_fit();
                    }
                    true
                },
                None => true,
            },
        }
    }

    fn merge_add(self, other: Option<Counter>) -> (merged: Option<Counter>) {
        match self {
            Some(mut a) => match other {
                Some(b) => {
                    proof {
                        assert forall|k: Seq<char>|
                            count_in(a@, k) + count_in(b@, k) <= usize::MAX by {
                            assert(count_at(Some(a@), k) + count_at(Some(b@), k) <= usize::MAX);
                        }
                    }
                    a.absorb(&b);
                    Some(a)
                },
                None => Some(a),
            },
            None => other,
        }
    }
}

/// The counter itself, or an empty one where there is none.
pub fn lazy_init(map: Option<Counter>) -> (counter: Counter)
    ensures
        counter@ == match map {
            Some(m) => m@,
            None => Map::<Seq<char>, nat>::empty(),
        },
{
    match map {
        Some(m) => m,
        None => Counter::new(),
    }
}

} // verus!
