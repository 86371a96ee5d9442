//! The records of the aggregation model: one realm of a run, one run, and the
//! summary of all runs.

use crate::counter::{counts_of, Counter};
use crate::hashmap::HashMapExtensions;
use crate::merge::{has_key, merge_add_spec, sums_fit};
use crate::nameset::NameSet;
use std::collections::HashMap;
use vstd::prelude::*;

verus! {

/// How a realm or a run ended.
#[derive(Clone, Copy, Debug, PartialEq, Eq, Structural)]
pub enum Outcome {
    Victory,
    Defeat,
    /// Nothing is known. This is the default.
    Unknown,
    /// Every realm was won, but the run stopped before the last realm. Never
    /// read from a file.
    Abandoned,
}

impl View for Outcome {
    type V = Outcome;

    open spec fn view(&self) -> Outcome {
        *self
    }
}

impl Default for Outcome {
    fn default() -> (o: Outcome)
        ensures
            o == Outcome::Unknown,
    {
        Outcome::Unknown
    }
}

/// The four counter mappings that a realm, a run and the summary each have.
#[derive(Clone, Copy, Debug, PartialEq, Eq, Structural)]
pub enum CounterField {
    SpellCasts,
    DamageToEnemies,
    DamageToWizard,
    ItemsUsed,
}

/// The number of realms of a full run. A run that was won so far but has
/// fewer realms was abandoned.
pub const FULL_RUN_REALMS: i64 = 25;

/// One realm of a run, as its stat file records it.
#[derive(Debug)]
pub struct Realm {
    pub realm_number: i64,
    pub outcome: Outcome,
    pub turns_taken_realm: i64,
    pub turns_taken_run: i64,
    pub spell_casts: Option<Counter>,
    pub damage_to_enemies: Option<Counter>,
    pub damage_to_wizard: Option<Counter>,
    pub items_used: Option<Counter>,
    pub purchases: Option<NameSet>,
}

/// A realm as plain values.
pub struct RealmView {
    pub realm_number: int,
    pub outcome: Outcome,
    pub turns_taken_realm: int,
    pub turns_taken_run: int,
    pub spell_casts: Option<Map<Seq<char>, nat>>,
    pub damage_to_enemies: Option<Map<Seq<char>, nat>>,
    pub damage_to_wizard: Option<Map<Seq<char>, nat>>,
    pub items_used: Option<Map<Seq<char>, nat>>,
    pub purchases: Option<Set<Seq<char>>>,
}

/// What an optional set of names holds.
pub open spec fn names_of(s: Option<NameSet>) -> Option<Set<Seq<char>>> {
    match s {
        Some(s) => Some(s@),
        None => None,
    }
}

impl View for Realm {
    type V = RealmView;

    open spec fn view(&self) -> RealmView {
        RealmView {
            realm_number: self.realm_number as int,
            outcome: self.outcome,
            turns_taken_realm: self.turns_taken_realm as int,
            turns_taken_run: self.turns_taken_run as int,
            spell_casts: counts_of(self.spell_casts),
            damage_to_enemies: counts_of(self.damage_to_enemies),
            damage_to_wizard: counts_of(self.damage_to_wizard),
            items_used: counts_of(self.items_used),
            purchases: names_of(self.purchases),
        }
    }
}

impl RealmView {
    /// The named counter mapping of the realm.
    pub open spec fn counts(self, which: CounterField) -> Option<Map<Seq<char>, nat>> {
        match which {
            CounterField::SpellCasts => self.spell_casts,
            CounterField::DamageToEnemies => self.damage_to_enemies,
            CounterField::DamageToWizard => self.damage_to_wizard,
            CounterField::ItemsUsed => self.items_used,
        }
    }

    /// Whether no mapping of the realm, and no purchase, has an empty name.
    pub open spec fn names_nonempty(self) -> bool {
        &&& forall|which: CounterField, k: Seq<char>| #[trigger]
            has_key(self.counts(which), k) ==> k.len() > 0
        &&& forall|k: Seq<char>|
            self.purchases is Some && #[trigger] self.purchases->Some_0.contains(k) ==> k.len()
                > 0
    }

    /// The realm of which nothing has been read: number and turns zero, the
    /// outcome unknown, no section present.
    pub open spec fn blank() -> RealmView {
        RealmView {
            realm_number: 0,
            outcome: Outcome::Unknown,
            turns_taken_realm: 0,
            turns_taken_run: 0,
            spell_casts: None,
            damage_to_enemies: None,
            damage_to_wizard: None,
            items_used: None,
            purchases: None,
        }
    }
}

impl Realm {
    /// The named counter mapping of the realm.
    pub fn counter(&self, which: CounterField) -> (c: &Option<Counter>)
        ensures
            counts_of(*c) == self@.counts(which),
    {
        match which {
            CounterField::SpellCasts => &self.spell_casts,
            CounterField::DamageToEnemies => &self.damage_to_enemies,
            CounterField::DamageToWizard => &self.damage_to_wizard,
            CounterField::ItemsUsed => &self.items_used,
        }
    }
}

impl Default for Realm {
    fn default() -> (r: Realm)
        ensures
            r@ == RealmView::blank(),
    {
        Realm {
            realm_number: 0,
            outcome: Outcome::Unknown,
            turns_taken_realm: 0,
            turns_taken_run: 0,
            spell_casts: None,
            damage_to_enemies: None,
            damage_to_wizard: None,
            items_used: None,
            purchases: None,
        }
    }
}

/// One run: the realms of one save, folded together.
#[derive(Debug)]
pub struct Run {
    pub realms: i64,
    pub outcome: Outcome,
    pub turns_taken_run: i64,
    pub spell_casts: Option<Counter>,
    pub damage_to_enemies: Option<Counter>,
    pub damage_to_wizard: Option<Counter>,
    pub items_used: Option<Counter>,
    /// Kept for purchases per run. Nothing fills it yet.
    pub purchases: Option<Counter>,
}

/// A run as plain values.
pub struct RunView {
    pub realms: int,
    pub outcome: Outcome,
    pub turns_taken_run: int,
    pub spell_casts: Option<Map<Seq<char>, nat>>,
    pub damage_to_enemies: Option<Map<Seq<char>, nat>>,
    pub damage_to_wizard: Option<Map<Seq<char>, nat>>,
    pub items_used: Option<Map<Seq<char>, nat>>,
    pub purchases: Option<Map<Seq<char>, nat>>,
}

impl View for Run {
    type V = RunView;

    open spec fn view(&self) -> RunView {
        RunView {
            realms: self.realms as int,
            outcome: self.outcome,
            turns_taken_run: self.turns_taken_run as int,
            spell_casts: counts_of(self.spell_casts),
            damage_to_enemies: counts_of(self.damage_to_enemies),
            damage_to_wizard: counts_of(self.damage_to_wizard),
            items_used: counts_of(self.items_used),
            purchases: counts_of(self.purchases),
        }
    }
}

impl RunView {
    /// The named counter mapping of the run.
    pub open spec fn counts(self, which: CounterField) -> Option<Map<Seq<char>, nat>> {
        match which {
            CounterField::SpellCasts => self.spell_casts,
            CounterField::DamageToEnemies => self.damage_to_enemies,
            CounterField::DamageToWizard => self.damage_to_wizard,
            CounterField::ItemsUsed => self.items_used,
        }
    }

    /// The run without realms: all numbers zero, the outcome unknown, no
    /// mapping present.
    pub open spec fn blank() -> RunView {
        RunView {
            realms: 0,
            outcome: Outcome::Unknown,
            turns_taken_run: 0,
            spell_casts: None,
            damage_to_enemies: None,
            damage_to_wizard: None,
            items_used: None,
            purchases: None,
        }
    }
}

impl Default for Run {
    fn default() -> (r: Run)
        ensures
            r@ == RunView::blank(),
    {
        Run {
            realms: 0,
            outcome: Outcome::Unknown,
            turns_taken_run: 0,
            spell_casts: None,
            damage_to_enemies: None,
            damage_to_wizard: None,
            items_used: None,
            purchases: None,
        }
    }
}

/// A purchase, told apart by what was bought, in which realm, and how the run
/// ended.
#[derive(Debug)]
pub struct Purchase {
    pub name: String,
    pub outcome: Outcome,
    pub realm: i64,
}

impl Default for Purchase {
    fn default() -> (p: Purchase)
        ensures
            p.name@ == Seq::<char>::empty(),
            p.outcome == Outcome::Unknown,
            p.realm == 0,
    {
        Purchase { name: String::new(), outcome: Outcome::Unknown, realm: 0 }
    }
}

/// The summary of all runs.
#[derive(Debug)]
pub struct MergedRuns {
    pub realms: i64,
    pub num_victory: usize,
    pub num_defeat: usize,
    pub num_abandoned: usize,
    pub num_unknown: usize,
    pub turns_taken: i64,
    pub spell_casts: Option<Counter>,
    pub damage_to_enemies: Option<Counter>,
    pub damage_to_wizard: Option<Counter>,
    pub items_used: Option<Counter>,
    /// Kept for purchases over all runs. Nothing fills it yet: merging a run
    /// hands it on as it is.
    pub purchases: Option<HashMap<Purchase, usize>>,
}

/// The summary of all runs as plain values.
pub struct MergedRunsView {
    pub realms: int,
    pub num_victory: int,
    pub num_defeat: int,
    pub num_abandoned: int,
    pub num_unknown: int,
    pub turns_taken: int,
    pub spell_casts: Option<Map<Seq<char>, nat>>,
    pub damage_to_enemies: Option<Map<Seq<char>, nat>>,
    pub damage_to_wizard: Option<Map<Seq<char>, nat>>,
    pub items_used: Option<Map<Seq<char>, nat>>,
    pub purchases: Option<HashMap<Purchase, usize>>,
}

impl View for MergedRuns {
    type V = MergedRunsView;

    open spec fn view(&self) -> MergedRunsView {
        MergedRunsView {
            realms: self.realms as int,
            num_victory: self.num_victory as int,
            num_defeat: self.num_defeat as int,
            num_abandoned: self.num_abandoned as int,
            num_unknown: self.num_unknown as int,
            turns_taken: self.turns_taken as int,
            spell_casts: counts_of(self.spell_casts),
            damage_to_enemies: counts_of(self.damage_to_enemies),
            damage_to_wizard: counts_of(self.damage_to_wizard),
            items_used: counts_of(self.items_used),
            purchases: self.purchases,
        }
    }
}

impl MergedRunsView {
    /// The named counter mapping of the summary.
    pub open spec fn counts(self, which: CounterField) -> Option<Map<Seq<char>, nat>> {
        match which {
            CounterField::SpellCasts => self.spell_casts,
            CounterField::DamageToEnemies => self.damage_to_enemies,
            CounterField::DamageToWizard => self.damage_to_wizard,
            CounterField::ItemsUsed => self.items_used,
        }
    }

    /// The summary of no runs: all numbers zero, no mapping present.
    pub open spec fn blank() -> MergedRunsView {
        MergedRunsView {
            realms: 0,
            num_victory: 0,
            num_defeat: 0,
            num_abandoned: 0,
            num_unknown: 0,
            turns_taken: 0,
            spell_casts: None,
            damage_to_enemies: None,
            damage_to_wizard: None,
            items_used: None,
            purchases: None,
        }
    }

    /// How many runs the summary counts.
    pub open spec fn runs(self) -> int {
        self.num_victory + self.num_defeat + self.num_abandoned + self.num_unknown
    }
}

/// One where the two outcomes are the same, zero where they are not.
pub open spec fn one_if(a: Outcome, b: Outcome) -> int {
    if a == b {
        1
    } else {
        0
    }
}

/// The summary `g` with the run `r` merged into it: the realms and turns of
/// the run added, the one counter of the run's outcome raised by one, and each
/// of the four mappings merged.
pub open spec fn merge_run_spec(g: MergedRunsView, r: RunView) -> MergedRunsView {
    MergedRunsView {
        realms: g.realms + r.realms,
        num_victory: g.num_victory + one_if(r.outcome, Outcome::Victory),
        num_defeat: g.num_defeat + one_if(r.outcome, Outcome::Defeat),
        num_abandoned: g.num_abandoned + one_if(r.outcome, Outcome::Abandoned),
        num_unknown: g.num_unknown + one_if(r.outcome, Outcome::Unknown),
        turns_taken: g.turns_taken + r.turns_taken_run,
        spell_casts: merge_add_spec(g.spell_casts, r.spell_casts),
        damage_to_enemies: merge_add_spec(g.damage_to_enemies, r.damage_to_enemies),
        damage_to_wizard: merge_add_spec(g.damage_to_wizard, r.damage_to_wizard),
        items_used: merge_add_spec(g.items_used, r.items_used),
        purchases: g.purchases,
    }
}

/// Whether every number of `merge_run_spec(g, r)` fits the type of its field.
pub open spec fn merge_run_fits(g: MergedRunsView, r: RunView) -> bool {
    let m = merge_run_spec(g, r);
    &&& i64::MIN <= m.realms <= i64::MAX
    &&& i64::MIN <= m.turns_taken <= i64::MAX
    &&& m.num_victory <= usize::MAX
    &&& m.num_defeat <= usize::MAX
    &&& m.num_abandoned <= usize::MAX
    &&& m.num_unknown <= usize::MAX
    &&& sums_fit(g.spell_casts, r.spell_casts)
    &&& sums_fit(g.damage_to_enemies, r.damage_to_enemies)
    &&& sums_fit(g.damage_to_wizard, r.damage_to_wizard)
    &&& sums_fit(g.items_used, r.items_used)
}

impl Default for MergedRuns {
    fn default() -> (m: MergedRuns)
        ensures
            m@ == MergedRunsView::blank(),
    {
        MergedRuns {
            realms: 0,
            num_victory: 0,
            num_defeat: 0,
            num_abandoned: 0,
            num_unknown: 0,
            turns_taken: 0,
            spell_casts: None,
            damage_to_enemies: None,
            damage_to_wizard: None,
            items_used: None,
            purchases: None,
        }
    }
}

impl MergedRuns {
    /// Whether `merge_run` may be called with `new_run`: whether every sum
    /// fits the type of its field.
    pub fn can_merge_run(&self, new_run: &Run) -> (fits: bool)
        ensures
            fits == merge_run_fits(self@, new_run@),
    {
        let counted: usize = match new_run.outcome {
            Outcome::Victory => self.num_victory,
            Outcome::Defeat => self.num_defeat,
            Outcome::Abandoned => self.num_abandoned,
            Outcome::Unknown => self.num_unknown,
        };
        self.realms.checked_add(new_run.realms).is_some()
            && self.turns_taken.checked_add(new_run.turns_taken_run).is_some()
            && counted < usize::MAX
            && self.spell_casts.merge_fits(&new_run.spell_casts)
            && self.damage_to_enemies.merge_fits(&new_run.damage_to_enemies)
            && self.damage_to_wizard.merge_fits(&new_run.damage_to_wizard)
            && self.items_used.merge_fits(&new_run.items_used)
    }

    /// How many runs the summary counts, or `None` where the number does not
    /// fit in a `usize`.
    pub fn checked_runs(&self) -> (runs: Option<usize>)
        ensures
            match runs {
                Some(n) => n == self@.runs(),
                None => self@.runs() > usize::MAX,
            },
    {
        let decided = match self.num_victory.checked_add(self.num_defeat) {
            Some(n) => n,
            None => return None,
        };
        let known = match decided.checked_add(self.num_abandoned) {
            Some(n) => n,
            None => return None,
        };
        known.checked_add(self.num_unknown)
    }

    /// Merges one run into the summary.
    pub fn merge_run(self, new_run: Run) -> (merged: MergedRuns)
        requires
            merge_run_fits(self@, new_run@),
        ensures
            merged@ == merge_run_spec(self@, new_run@),
    {
        let mut output = self;

        output.realms = output.realms + new_run.realms;

        match new_run.outcome {
            Outcome::Victory => output.num_victory = output.num_victory + 1,
            Outcome::Defeat => output.num_defeat = output.num_defeat + 1,
            Outcome::Abandoned => output.num_abandoned = output.num_abandoned + 1,
            Outcome::Unknown => output.num_unknown = output.num_unknown + 1,
        }

        output.turns_taken = output.turns_taken + new_run.turns_taken_run;

        output.spell_casts = output.spell_casts.merge_add(new_run.spell_casts);
        output.damage_to_enemies = output.damage_to_enemies.merge_add(new_run.damage_to_enemies);
        output.damage_to_wizard = output.damage_to_wizard.merge_add(new_run.damage_to_wizard);
        output.items_used = output.items_used.merge_add(new_run.items_used);

        output
    }
}

} // verus!
