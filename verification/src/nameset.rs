//! `NameSet`, a set of names kept in a vector without repetitions.

use vstd::prelude::*;

verus! {

/// A set of names.
#[derive(Debug)]
pub struct NameSet {
    names: Vec<String>,
}

/// The names of a list as character sequences.
pub open spec fn texts_of(names: Seq<String>) -> Seq<Seq<char>> {
    Seq::new(names.len(), |i: int| names[i]@)
}

impl View for NameSet {
    type V = Set<Seq<char>>;

    closed spec fn view(&self) -> Set<Seq<char>> {
        texts_of(self.names@).to_set()
    }
}

impl NameSet {
    #[verifier::type_invariant]
    spec fn no_name_twice(self) -> bool {
        texts_of(self.names@).no_duplicates()
    }

    /// A set has finitely many names.
    pub proof fn lemma_finite(self)
        ensures
            self@.finite(),
    {
        vstd::seq_lib::seq_to_set_is_finite(texts_of(self.names@));
    }

    /// The set without names.
    pub fn new() -> (s: NameSet)
        ensures
            s@ == Set::<Seq<char>>::empty(),
    {
        let s = NameSet { names: Vec::new() };
        assert(s@ =~= Set::empty());
        s
    }

    /// Whether `name` is in the set.
    pub fn contains(&self, name: &str) -> (r: bool)
        ensures
            r == self@.contains(name@),
    {
        let ghost texts = texts_of(self.names@);
        let owned = name.to_owned();
        let mut i: usize = 0;
        while i < self.names.len()
            invariant
                i <= self.names@.len(),
                texts == texts_of(self.names@),
                owned@ == name@,
                forall|j: int| 0 <= j < i ==> #[trigger] texts[j] != name@,
            decreases self.names@.len() - i,
        {
            if self.names[i] == owned {
                assert(texts[i as int] == name@);
                return true;
            }
            i += 1;
        }
        false
    }

    /// Puts `name` into the set. Returns whether it was new.
    pub fn insert(&mut self, name: String) -> (fresh: bool)
        ensures
            final(self)@ == old(self)@.insert(name@),
            fresh == !old(self)@.contains(name@),
    {
        proof {
            use_type_invariant(&*self);
        }
        let ghost before = texts_of(self.names@);
        if self.contains(name.as_str()) {
            assert(self@ =~= self@.insert(name@));
            false
        } else {
            let mut names: Vec<String> = Vec::new();
            core::mem::swap(&mut names, &mut self.names);
            names.push(name);
            proof {
                let after = texts_of(names@);
                assert(after =~= before.push(name@));
                assert forall|i: int, j: int|
                    0 <= i < after.len() && 0 <= j < after.len() && i != j implies after[i]
                    != after[j] by {
                    if i < before.len() {
                        assert(before.contains(before[i]));
                    }
                    if j < before.len() {
                        assert(before.contains(before[j]));
                    }
                }
                assert forall|t: Seq<char>| after.to_set().contains(t) <==> before.to_set().insert(
                    name@,
                ).contains(t) by {
                    if after.contains(t) {
                        let i = choose|i: int| 0 <= i < after.len() && after[i] == t;
                        if i < before.len() {
                            assert(before[i] == t);
                        }
                    }
                    if before.contains(t) {
                        let i = choose|i: int| 0 <= i < before.len() && before[i] == t;
                        assert(after[i] == t);
                    }
                    if t == name@ {
                        assert(after[before.len() as int] == t);
                    }
                }
                assert(after.to_set() =~= before.to_set().insert(name@));
            }
            self.names = names;
            true
        }
    }

    /// The names of the set, each once, in no order that callers may rely on.
    pub fn to_vec(&self) -> (out: Vec<String>)
        ensures
            texts_of(out@).no_duplicates(),
            texts_of(out@).to_set() == self@,
    {
        proof {
            use_type_invariant(self);
        }
        let mut out: Vec<String> = Vec::new();
        let mut i: usize = 0;
        while i < self.names.len()
            invariant
                i <= self.names@.len(),
                out@.len() == i,
                texts_of(out@) == texts_of(self.names@).take(i as int),
            decreases self.names@.len() - i,
        {
            let ghost before = out@;
            out.push(self.names[i].clone());
            proof {
                let wanted = texts_of(self.names@).take(i + 1);
                assert forall|j: int| 0 <= j < wanted.len() implies texts_of(out@)[j]
                    == wanted[j] by {
                    if j < i {
                        assert(out@[j] == before[j]);
                        assert(texts_of(before)[j] == texts_of(self.names@).take(i as int)[j]);
                    }
                }
                assert(texts_of(out@) =~= wanted);
            }
            i += 1;
        }
        assert(texts_of(self.names@).take(i as int) =~= texts_of(self.names@));
        out
    }
}

} // verus!
