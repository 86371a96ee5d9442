//! Folding the realms of one save into a run, and the laws of that fold and
//! of the fold of runs into the summary.

use crate::counter::Counter;
use crate::hashmap::HashMapExtensions;
use crate::merge::{count_at, count_in, has_key, lemma_merge_add_associative,
    lemma_merge_add_commutative, merge_add_spec, sums_fit};
use crate::types::{merge_run_spec, CounterField, MergedRunsView, Outcome, Realm, RealmView, Run,
    RunView, FULL_RUN_REALMS};
use vstd::prelude::*;
use vstd::seq_lib::{commutative_foldl, lemma_fold_left_permutation};

verus! {

/// Whether some realm has the outcome `o`.
pub open spec fn has_outcome(realms: Seq<RealmView>, o: Outcome) -> bool {
    exists|i: int| 0 <= i < realms.len() && (#[trigger] realms[i]).outcome == o
}

/// The outcome of a run with these realms: `Defeat` where any realm was
/// lost; else `Unknown` where the outcome of any realm is unknown; else
/// `Abandoned` where the run has fewer realms than a full run; else `Victory`.
pub open spec fn run_outcome(realms: Seq<RealmView>) -> Outcome {
    if has_outcome(realms, Outcome::Defeat) {
        Outcome::Defeat
    } else if has_outcome(realms, Outcome::Unknown) {
        Outcome::Unknown
    } else if realms.len() < FULL_RUN_REALMS {
        Outcome::Abandoned
    } else {
        Outcome::Victory
    }
}

/// The larger of two numbers.
pub open spec fn larger(a: int, b: int) -> int {
    if a >= b {
        a
    } else {
        b
    }
}

/// The largest number of turns that any realm reports for the run so far, and
/// zero where none reports more.
pub open spec fn max_turns(realms: Seq<RealmView>) -> int {
    realms.fold_left(0int, |m: int, r: RealmView| larger(m, r.turns_taken_run))
}

/// The named counter mappings of all realms, merged from the first realm to
/// the last.
pub open spec fn merged_counts(realms: Seq<RealmView>, which: CounterField) -> Option<
    Map<Seq<char>, nat>,
> {
    realms.fold_left(
        None,
        |acc: Option<Map<Seq<char>, nat>>, r: RealmView| merge_add_spec(acc, r.counts(which)),
    )
}

/// The sum, over all realms, of the count that the named mapping of the realm
/// holds for `k`.
pub open spec fn total_count(realms: Seq<RealmView>, which: CounterField, k: Seq<char>) -> nat {
    realms.fold_left(0nat, |t: nat, r: RealmView| t + count_at(r.counts(which), k))
}

/// The run that these realms fold into.
pub open spec fn run_of(realms: Seq<RealmView>) -> RunView {
    RunView {
        realms: realms.len() as int,
        outcome: run_outcome(realms),
        turns_taken_run: max_turns(realms),
        spell_casts: merged_counts(realms, CounterField::SpellCasts),
        damage_to_enemies: merged_counts(realms, CounterField::DamageToEnemies),
        damage_to_wizard: merged_counts(realms, CounterField::DamageToWizard),
        items_used: merged_counts(realms, CounterField::ItemsUsed),
        purchases: None,
    }
}

/// Whether every number of `run_of(realms)` fits the type of its field: the
/// number of realms an `i64`, every total count a `usize`.
pub open spec fn run_fits(realms: Seq<RealmView>) -> bool {
    &&& realms.len() <= i64::MAX
    &&& forall|which: CounterField, k: Seq<char>| #[trigger]
        total_count(realms, which, k) <= usize::MAX
}

/// The summary that these runs fold into, from the first run to the last.
pub open spec fn merged_runs_of(runs: Seq<RunView>) -> MergedRunsView {
    runs.fold_left(MergedRunsView::blank(), |g: MergedRunsView, r: RunView| merge_run_spec(g, r))
}

/// The sum, over all runs, of the count that the named mapping of the run
/// holds for `k`.
pub open spec fn total_count_of_runs(runs: Seq<RunView>, which: CounterField, k: Seq<char>) -> nat {
    runs.fold_left(0nat, |t: nat, r: RunView| t + count_at(r.counts(which), k))
}

/// The runs that the saves fold into, save by save.
pub open spec fn runs_of(saves: Seq<Seq<RealmView>>) -> Seq<RunView> {
    saves.map_values(|realms: Seq<RealmView>| run_of(realms))
}

/// The sum, over the realms of all saves, of the count that the named mapping
/// of the realm holds for `k`.
pub open spec fn grand_total(saves: Seq<Seq<RealmView>>, which: CounterField, k: Seq<char>) -> nat {
    saves.fold_left(0nat, |t: nat, realms: Seq<RealmView>| t + total_count(realms, which, k))
}

/// Where a realm goes among realms in the order of their numbers: behind the
/// last realm whose number is not larger than its own.
pub open spec fn slot(ordered: Seq<RealmView>, r: RealmView) -> int
    decreases ordered.len(),
{
    if ordered.len() == 0 || ordered.last().realm_number <= r.realm_number {
        ordered.len() as int
    } else {
        slot(ordered.drop_last(), r)
    }
}

/// The realms in the order of their numbers. Realms of one number keep the
/// order in which they came.
pub open spec fn sorted_by_number(realms: Seq<RealmView>) -> Seq<RealmView>
    decreases realms.len(),
{
    if realms.len() == 0 {
        realms
    } else {
        let front = sorted_by_number(realms.drop_last());
        front.insert(slot(front, realms.last()), realms.last())
    }
}

/// No realm stands before a realm of a smaller number.
pub open spec fn in_number_order(realms: Seq<RealmView>) -> bool {
    forall|i: int, j: int|
        0 <= i < j < realms.len() ==> realms[i].realm_number <= realms[j].realm_number
}

/// Realms as plain values.
pub open spec fn views_of(realms: Seq<Realm>) -> Seq<RealmView> {
    realms.map_values(|r: Realm| r@)
}

/// Puts the realms in the order of their numbers. Realms of one number keep
/// the order in which they came.
pub fn sort_by_realm_number(realms: &mut Vec<Realm>)
    ensures
        views_of(final(realms)@) == sorted_by_number(views_of(old(realms)@)),
{
    let ghost given = views_of(realms@);
    let mut i: usize = 0;
    assert(given.take(0) =~= Seq::<RealmView>::empty());
    assert(views_of(realms@).take(0) =~= Seq::<RealmView>::empty());
    while i < realms.len()
        invariant
            i <= realms@.len(),
            given == views_of(old(realms)@),
            realms@.len() == given.len(),
            views_of(realms@).take(i as int) == sorted_by_number(given.take(i as int)),
            views_of(realms@).skip(i as int) == given.skip(i as int),
        decreases realms@.len() - i,
    {
        let ghost before = views_of(realms@);
        let ghost ordered = before.take(i as int);
        let ghost r = before[i as int];
        assert(r == given.skip(i as int)[0]);
        let number: i64 = realms[i].realm_number;
        let mut at: usize = i;
        assert(ordered.take(i as int) =~= ordered);
        while at > 0 && realms[at - 1].realm_number > number
            invariant
                at <= i < realms@.len(),
                before == views_of(realms@),
                ordered == before.take(i as int),
                number == r.realm_number,
                slot(ordered, r) == slot(ordered.take(at as int), r),
            decreases at,
        {
            assert(ordered.take(at as int).last() == before[at - 1]);
            assert(ordered.take(at as int).drop_last() =~= ordered.take(at - 1));
            at -= 1;
        }
        proof {
            if at > 0 {
                assert(ordered.take(at as int).last() == before[at - 1]);
            }
            assert(slot(ordered, r) == at);
        }
        let realm = realms.remove(i);
        realms.insert(at, realm);
        proof {
            let after = views_of(realms@);
            assert(after.take(i + 1) =~= ordered.insert(at as int, r));
            assert(given.take(i + 1).drop_last() =~= given.take(i as int));
            assert(given.take(i + 1).last() == r);
            let tail = after.skip(i + 1);
            let wanted = given.skip(i + 1);
            assert forall|j: int| 0 <= j < wanted.len() implies #[trigger] tail[j]
                == wanted[j] by {
                assert(after[i + 1 + j] == before[i + 1 + j]);
                assert(before.skip(i as int)[j + 1] == given.skip(i as int)[j + 1]);
            }
            assert(tail =~= wanted);
        }
        i += 1;
    }
    assert(views_of(realms@).take(i as int) =~= views_of(realms@));
    assert(given.take(i as int) =~= given);
}

/// Whether the totals of the named mapping, over all realms, fit in a `usize`.
fn column_fits(realms: &Vec<Realm>, which: CounterField) -> (fits: bool)
    ensures
        fits == forall|k: Seq<char>| total_count(views_of(realms@), which, k) <= usize::MAX,
{
    let ghost all = views_of(realms@);
    let mut acc = Counter::new();
    let mut i: usize = 0;
    assert(all.take(0) =~= Seq::<RealmView>::empty());
    while i < realms.len()
        invariant
            i <= realms@.len(),
            all == views_of(realms@),
            forall|k: Seq<char>| count_in(acc@, k) == total_count(all.take(i as int), which, k),
        decreases realms@.len() - i,
    {
        proof {
            assert(all.take(i + 1).drop_last() =~= all.take(i as int));
            assert(all.take(i + 1).last() == realms@[i as int]@);
        }
        match realms[i].counter(which) {
            Some(c) => {
                if !acc.can_absorb(c) {
                    proof {
                        let k = choose|k: Seq<char>|
                            count_in(acc@, k) + count_in(c@, k) > usize::MAX;
                        assert(total_count(all.take(i + 1), which, k) == count_in(acc@, k)
                            + count_in(c@, k));
                        lemma_total_count_grows(all, i + 1, which, k);
                    }
                    return false;
                }
                acc.absorb(c);
            },
            None => {},
        }
        i += 1;
    }
    proof {
        assert(all.take(i as int) =~= all);
        acc.lemma_counts_fit();
        assert forall|k: Seq<char>| total_count(all, which, k) <= usize::MAX by {
            assert(count_in(acc@, k) == total_count(all, which, k));
        }
    }
    true
}

/// Whether `generate_run_report` may be called with these realms: whether
/// every number of the run fits the type of its field.
pub fn can_generate_run_report(realms: &Vec<Realm>) -> (fits: bool)
    ensures
        fits == run_fits(views_of(realms@)),
{
    let ghost all = views_of(realms@);
    if realms.len() as u64 > 0x7fff_ffff_ffff_ffffu64 {
        return false;
    }
    let a = column_fits(realms, CounterField::SpellCasts);
    let b = column_fits(realms, CounterField::DamageToEnemies);
    let c = column_fits(realms, CounterField::DamageToWizard);
    let d = column_fits(realms, CounterField::ItemsUsed);
    proof {
        if a && b && c && d {
            assert forall|which: CounterField, k: Seq<char>| #[trigger]
                total_count(all, which, k) <= usize::MAX by {
                match which {
                    CounterField::SpellCasts => {},
                    CounterField::DamageToEnemies => {},
                    CounterField::DamageToWizard => {},
                    CounterField::ItemsUsed => {},
                }
            }
        } else if !a {
            let k = choose|k: Seq<char>|
                total_count(all, CounterField::SpellCasts, k) > usize::MAX;
            assert(total_count(all, CounterField::SpellCasts, k) > usize::MAX);
        } else if !b {
            let k = choose|k: Seq<char>|
                total_count(all, CounterField::DamageToEnemies, k) > usize::MAX;
            assert(total_count(all, CounterField::DamageToEnemies, k) > usize::MAX);
        } else if !c {
            let k = choose|k: Seq<char>|
                total_count(all, CounterField::DamageToWizard, k) > usize::MAX;
            assert(total_count(all, CounterField::DamageToWizard, k) > usize::MAX);
        } else {
            let k = choose|k: Seq<char>|
                total_count(all, CounterField::ItemsUsed, k) > usize::MAX;
            assert(total_count(all, CounterField::ItemsUsed, k) > usize::MAX);
        }
    }
    a && b && c && d
}

/// Folds the realms of one save into a run.
///
/// The realms are first put in the order of their numbers. The run has the
/// number of the realms, the outcome that `run_outcome` gives, the largest
/// number of turns that any realm reports for the run, and the four mappings
/// merged over all realms.
pub fn generate_run_report(realms: Vec<Realm>) -> (run: Run)
    requires
        run_fits(views_of(realms@)),
    ensures
        run@ == run_of(views_of(realms@)),
{
    let ghost given = views_of(realms@);
    let mut realms = realms;
    sort_by_realm_number(&mut realms);
    let ghost all = views_of(realms@);
    proof {
        lemma_sorted_by_number(given);
        lemma_run_of_permutation(all, given);
        assert forall|which: CounterField, k: Seq<char>| #[trigger]
            total_count(all, which, k) <= usize::MAX by {
            lemma_total_count_permutation(all, given, which, k);
        }
        assert(all.take(0) =~= Seq::<RealmView>::empty());
    }

    let count: usize = realms.len();
    let mut run = Run {
        realms: count as i64,
        outcome: Outcome::Victory,
        turns_taken_run: 0,
        spell_casts: None,
        damage_to_enemies: None,
        damage_to_wizard: None,
        items_used: None,
        purchases: None,
    };

    for realm in it: realms
        invariant
            views_of(it.seq()) == all,
            it.seq().len() == all.len(),
            run.realms == all.len(),
            run.purchases is None,
            forall|which: CounterField, k: Seq<char>| #[trigger]
                total_count(all, which, k) <= usize::MAX,
            run.outcome == if has_outcome(all.take(it.index() as int), Outcome::Defeat) {
                Outcome::Defeat
            } else if has_outcome(all.take(it.index() as int), Outcome::Unknown) {
                Outcome::Unknown
            } else {
                Outcome::Victory
            },
            run.turns_taken_run == max_turns(all.take(it.index() as int)),
            forall|which: CounterField| #[trigger]
                run@.counts(which) == merged_counts(all.take(it.index() as int), which),
    {
        let ghost n = it.index() as int;
        let ghost seen = all.take(n);
        let ghost next = all.take(n + 1);
        proof {
            assert(realm@ == all[n]);
            assert(next.drop_last() =~= seen);
            assert(next.last() == all[n]);
            assert(run@.counts(CounterField::SpellCasts) == merged_counts(
                seen,
                CounterField::SpellCasts,
            ));
            assert(run@.counts(CounterField::DamageToEnemies) == merged_counts(
                seen,
                CounterField::DamageToEnemies,
            ));
            assert(run@.counts(CounterField::DamageToWizard) == merged_counts(
                seen,
                CounterField::DamageToWizard,
            ));
            assert(run@.counts(CounterField::ItemsUsed) == merged_counts(
                seen,
                CounterField::ItemsUsed,
            ));
            assert(total_count(all, CounterField::SpellCasts, Seq::empty()) <= usize::MAX);
            lemma_next_merge_fits(all, n, CounterField::SpellCasts);
            lemma_next_merge_fits(all, n, CounterField::DamageToEnemies);
            lemma_next_merge_fits(all, n, CounterField::DamageToWizard);
            lemma_next_merge_fits(all, n, CounterField::ItemsUsed);
            lemma_has_outcome_push(seen, all[n], Outcome::Defeat);
            lemma_has_outcome_push(seen, all[n], Outcome::Unknown);
            assert(seen.push(all[n]) =~= next);
        }
        match realm.outcome {
            Outcome::Defeat => run.outcome = Outcome::Defeat,
            Outcome::Unknown => if run.outcome == Outcome::Victory {
                run.outcome = Outcome::Unknown;
            },
            _ => (),
        }
        if realm.turns_taken_run > run.turns_taken_run {
            run.turns_taken_run = realm.turns_taken_run;
        }
        run.spell_casts = run.spell_casts.merge_add(realm.spell_casts);
        run.damage_to_enemies = run.damage_to_enemies.merge_add(realm.damage_to_enemies);
        run.damage_to_wizard = run.damage_to_wizard.merge_add(realm.damage_to_wizard);
        run.items_used = run.items_used.merge_add(realm.items_used);
        proof {
            assert forall|which: CounterField| #[trigger]
                run@.counts(which) == merged_counts(next, which) by {
                match which {
                    CounterField::SpellCasts => {},
                    CounterField::DamageToEnemies => {},
                    CounterField::DamageToWizard => {},
                    CounterField::ItemsUsed => {},
                }
            }
        }
    }
    proof {
        assert(all.take(all.len() as int) =~= all);
        assert(run@.counts(CounterField::SpellCasts) == merged_counts(
            all,
            CounterField::SpellCasts,
        ));
        assert(run@.counts(CounterField::DamageToEnemies) == merged_counts(
            all,
            CounterField::DamageToEnemies,
        ));
        assert(run@.counts(CounterField::DamageToWizard) == merged_counts(
            all,
            CounterField::DamageToWizard,
        ));
        assert(run@.counts(CounterField::ItemsUsed) == merged_counts(all, CounterField::ItemsUsed));
        assert(run.turns_taken_run == max_turns(all));
        assert(run_of(all) == run_of(given));
    }

    if run.outcome == Outcome::Victory && run.realms < FULL_RUN_REALMS {
        run.outcome = Outcome::Abandoned;
    }

    run
}

/// The merged mapping of a run holds, for every key, the sum of what the
/// realms hold for it. It has a key where some realm has it, and is present
/// where the mapping of some realm is.
pub proof fn lemma_merged_counts_total(realms: Seq<RealmView>, which: CounterField, k: Seq<char>)
    ensures
        count_at(merged_counts(realms, which), k) == total_count(realms, which, k),
        has_key(merged_counts(realms, which), k) <==> exists|i: int|
            0 <= i < realms.len() && has_key(#[trigger] realms[i].counts(which), k),
        merged_counts(realms, which) is Some <==> exists|i: int|
            0 <= i < realms.len() && #[trigger] realms[i].counts(which) is Some,
    decreases realms.len(),
{
    if realms.len() > 0 {
        let front = realms.drop_last();
        lemma_merged_counts_total(front, which, k);
        assert(forall|i: int| 0 <= i < front.len() ==> front[i] == realms[i]);
        if exists|i: int| 0 <= i < front.len() && has_key(#[trigger] front[i].counts(which), k) {
            let i = choose|i: int|
                0 <= i < front.len() && has_key(#[trigger] front[i].counts(which), k);
            assert(has_key(realms[i].counts(which), k));
        }
        if exists|i: int| 0 <= i < front.len() && #[trigger] front[i].counts(which) is Some {
            let i = choose|i: int| 0 <= i < front.len() && #[trigger] front[i].counts(which) is Some;
            assert(realms[i].counts(which) is Some);
        }
        if has_key(realms.last().counts(which), k) {
            assert(has_key(realms[realms.len() - 1].counts(which), k));
        }
        if realms.last().counts(which) is Some {
            assert(realms[realms.len() - 1].counts(which) is Some);
        }
    }
}

/// The totals of the first realms never exceed the totals of all.
pub proof fn lemma_total_count_grows(
    realms: Seq<RealmView>,
    n: int,
    which: CounterField,
    k: Seq<char>,
)
    requires
        0 <= n <= realms.len(),
    ensures
        total_count(realms.take(n), which, k) <= total_count(realms, which, k),
    decreases realms.len() - n,
{
    if n < realms.len() {
        lemma_total_count_grows(realms, n + 1, which, k);
        assert(realms.take(n + 1).drop_last() =~= realms.take(n));
    } else {
        assert(realms.take(n) =~= realms);
    }
}

/// In whatever order the realms of a run are folded, the run is the same.
pub proof fn lemma_run_of_permutation(a: Seq<RealmView>, b: Seq<RealmView>)
    requires
        a.to_multiset() == b.to_multiset(),
    ensures
        run_of(a) == run_of(b),
{
    assert(a.len() == b.len()) by {
        a.to_multiset_ensures();
        b.to_multiset_ensures();
    }
    lemma_has_outcome_permutation(a, b, Outcome::Defeat);
    lemma_has_outcome_permutation(a, b, Outcome::Unknown);
    assert(run_outcome(a) == run_outcome(b));
    lemma_max_turns_permutation(a, b);
    lemma_merged_counts_permutation(a, b, CounterField::SpellCasts);
    lemma_merged_counts_permutation(a, b, CounterField::DamageToEnemies);
    lemma_merged_counts_permutation(a, b, CounterField::DamageToWizard);
    lemma_merged_counts_permutation(a, b, CounterField::ItemsUsed);
}

/// The largest number of turns does not depend on the order of the realms.
pub proof fn lemma_max_turns_permutation(a: Seq<RealmView>, b: Seq<RealmView>)
    requires
        a.to_multiset() == b.to_multiset(),
    ensures
        max_turns(a) == max_turns(b),
{
    let f = |m: int, r: RealmView| larger(m, r.turns_taken_run);
    assert(commutative_foldl(f));
    lemma_fold_left_permutation(a, b, f, 0int);
}

/// Whether some realm has a given outcome does not depend on the order of
/// the realms.
pub proof fn lemma_has_outcome_permutation(a: Seq<RealmView>, b: Seq<RealmView>, o: Outcome)
    requires
        a.to_multiset() == b.to_multiset(),
    ensures
        has_outcome(a, o) == has_outcome(b, o),
{
    broadcast use vstd::seq_lib::group_to_multiset_ensures;

    if has_outcome(a, o) {
        let i = choose|i: int| 0 <= i < a.len() && (#[trigger] a[i]).outcome == o;
        assert(a.contains(a[i]));
        assert(b.to_multiset().count(a[i]) > 0);
        assert(b.contains(a[i]));
    }
    if has_outcome(b, o) {
        let i = choose|i: int| 0 <= i < b.len() && (#[trigger] b[i]).outcome == o;
        assert(b.contains(b[i]));
        assert(a.to_multiset().count(b[i]) > 0);
        assert(a.contains(b[i]));
    }
}

/// The merged mapping of a run does not depend on the order of the realms.
pub proof fn lemma_merged_counts_permutation(
    a: Seq<RealmView>,
    b: Seq<RealmView>,
    which: CounterField,
)
    requires
        a.to_multiset() == b.to_multiset(),
    ensures
        merged_counts(a, which) == merged_counts(b, which),
{
    let f = |acc: Option<Map<Seq<char>, nat>>, r: RealmView| merge_add_spec(acc, r.counts(which));
    assert(commutative_foldl(f)) by {
        assert forall|x: RealmView, y: RealmView, v: Option<Map<Seq<char>, nat>>| #[trigger]
            f(f(v, x), y) == f(f(v, y), x) by {
            let p = x.counts(which);
            let q = y.counts(which);
            lemma_merge_add_associative(v, p, q);
            lemma_merge_add_commutative(p, q);
            lemma_merge_add_associative(v, q, p);
        }
    }
    lemma_fold_left_permutation(a, b, f, None);
}

/// The totals of a run do not depend on the order of the realms.
pub proof fn lemma_total_count_permutation(
    a: Seq<RealmView>,
    b: Seq<RealmView>,
    which: CounterField,
    k: Seq<char>,
)
    requires
        a.to_multiset() == b.to_multiset(),
    ensures
        total_count(a, which, k) == total_count(b, which, k),
{
    let f = |t: nat, r: RealmView| t + count_at(r.counts(which), k);
    assert(commutative_foldl(f));
    lemma_fold_left_permutation(a, b, f, 0nat);
}

/// Further realms never make the outcome of a run better: a defeat stays a
/// defeat, and an unknown outcome stays unknown or becomes a defeat.
pub proof fn lemma_outcome_never_improves(realms: Seq<RealmView>, further: Seq<RealmView>)
    ensures
        run_outcome(realms) == Outcome::Defeat ==> run_outcome(realms + further)
            == Outcome::Defeat,
        run_outcome(realms) == Outcome::Unknown ==> run_outcome(realms + further)
            == Outcome::Unknown || run_outcome(realms + further) == Outcome::Defeat,
{
    let all = realms + further;
    if has_outcome(realms, Outcome::Defeat) {
        let i = choose|i: int| 0 <= i < realms.len() && (#[trigger] realms[i]).outcome
            == Outcome::Defeat;
        assert(all[i].outcome == Outcome::Defeat);
    }
    if has_outcome(realms, Outcome::Unknown) {
        let i = choose|i: int| 0 <= i < realms.len() && (#[trigger] realms[i]).outcome
            == Outcome::Unknown;
        assert(all[i].outcome == Outcome::Unknown);
    }
}

/// The turns of a run are at least the turns that any realm reports for the
/// run, and are the turns that some realm reports, or zero.
pub proof fn lemma_max_turns_is_largest(realms: Seq<RealmView>)
    ensures
        max_turns(realms) >= 0,
        forall|i: int| 0 <= i < realms.len() ==> (#[trigger] realms[i]).turns_taken_run
            <= max_turns(realms),
        max_turns(realms) == 0 || exists|i: int|
            0 <= i < realms.len() && (#[trigger] realms[i]).turns_taken_run == max_turns(realms),
    decreases realms.len(),
{
    if realms.len() > 0 {
        let front = realms.drop_last();
        lemma_max_turns_is_largest(front);
        assert forall|i: int| 0 <= i < realms.len() implies (#[trigger] realms[i]).turns_taken_run
            <= max_turns(realms) by {
            if i < front.len() {
                assert(front[i] == realms[i]);
            }
        }
        if max_turns(realms) != 0 {
            if max_turns(realms) == realms.last().turns_taken_run {
                assert(realms[realms.len() - 1].turns_taken_run == max_turns(realms));
            } else {
                let i = choose|i: int|
                    0 <= i < front.len() && (#[trigger] front[i]).turns_taken_run == max_turns(
                        front,
                    );
                assert(realms[i].turns_taken_run == max_turns(realms));
            }
        }
    }
}

/// A run of exactly as many realms as a full run has, all of them won, is a
/// victory; the same realms without the last are an abandoned run.
pub proof fn lemma_full_victory(realms: Seq<RealmView>)
    requires
        realms.len() == FULL_RUN_REALMS,
        forall|i: int| 0 <= i < realms.len() ==> (#[trigger] realms[i]).outcome == Outcome::Victory,
    ensures
        run_of(realms).outcome == Outcome::Victory,
        run_of(realms.drop_last()).outcome == Outcome::Abandoned,
{
    let fewer = realms.drop_last();
    assert(forall|i: int| 0 <= i < fewer.len() ==> fewer[i] == realms[i]);
}

/// A run with a lost realm is a defeat, whatever the other realms are and
/// however many there are.
pub proof fn lemma_defeat_decides(realms: Seq<RealmView>, i: int)
    requires
        0 <= i < realms.len(),
        realms[i].outcome == Outcome::Defeat,
    ensures
        run_of(realms).outcome == Outcome::Defeat,
{
}

/// The merged mapping of the summary holds, for every key, the sum of what
/// the runs hold for it.
pub proof fn lemma_merged_runs_total(runs: Seq<RunView>, which: CounterField, k: Seq<char>)
    ensures
        count_at(merged_runs_of(runs).counts(which), k) == total_count_of_runs(runs, which, k),
    decreases runs.len(),
{
    if runs.len() > 0 {
        lemma_merged_runs_total(runs.drop_last(), which, k);
    }
}

/// The summary counts every run once, under its outcome.
pub proof fn lemma_merged_runs_counts_runs(runs: Seq<RunView>)
    ensures
        merged_runs_of(runs).runs() == runs.len(),
    decreases runs.len(),
{
    if runs.len() > 0 {
        lemma_merged_runs_counts_runs(runs.drop_last());
    }
}

/// Merging two runs into a summary gives the same summary in either order.
pub proof fn lemma_merge_run_commutes(g: MergedRunsView, x: RunView, y: RunView)
    ensures
        merge_run_spec(merge_run_spec(g, x), y) == merge_run_spec(merge_run_spec(g, y), x),
{
    lemma_merge_twice_commutes(g.spell_casts, x.spell_casts, y.spell_casts);
    lemma_merge_twice_commutes(g.damage_to_enemies, x.damage_to_enemies, y.damage_to_enemies);
    lemma_merge_twice_commutes(g.damage_to_wizard, x.damage_to_wizard, y.damage_to_wizard);
    lemma_merge_twice_commutes(g.items_used, x.items_used, y.items_used);
}

/// Merging two mappings into a third gives the same mapping in either order.
pub proof fn lemma_merge_twice_commutes<K>(
    v: Option<Map<K, nat>>,
    p: Option<Map<K, nat>>,
    q: Option<Map<K, nat>>,
)
    ensures
        merge_add_spec(merge_add_spec(v, p), q) == merge_add_spec(merge_add_spec(v, q), p),
{
    lemma_merge_add_associative(v, p, q);
    lemma_merge_add_commutative(p, q);
    lemma_merge_add_associative(v, q, p);
}

/// In whatever order the runs are merged, the summary is the same.
pub proof fn lemma_merged_runs_permutation(a: Seq<RunView>, b: Seq<RunView>)
    requires
        a.to_multiset() == b.to_multiset(),
    ensures
        merged_runs_of(a) == merged_runs_of(b),
{
    let f = |g: MergedRunsView, r: RunView| merge_run_spec(g, r);
    assert(commutative_foldl(f)) by {
        assert forall|x: RunView, y: RunView, v: MergedRunsView| #[trigger]
            f(f(v, x), y) == f(f(v, y), x) by {
            lemma_merge_run_commutes(v, x, y);
        }
    }
    lemma_fold_left_permutation(a, b, f, MergedRunsView::blank());
}

/// Folding the realms of every save into a run, and the runs into the
/// summary, gives for every key the sum of what all the realms hold for it.
pub proof fn lemma_summary_totals(saves: Seq<Seq<RealmView>>, which: CounterField, k: Seq<char>)
    ensures
        count_at(merged_runs_of(runs_of(saves)).counts(which), k) == grand_total(saves, which, k),
    decreases saves.len(),
{
    if saves.len() > 0 {
        let front = saves.drop_last();
        lemma_summary_totals(front, which, k);
        assert(runs_of(saves).drop_last() =~= runs_of(front));
        assert(runs_of(saves).last() == run_of(saves.last()));
        lemma_merged_counts_total(saves.last(), which, k);
    } else {
        assert(runs_of(saves) =~= Seq::<RunView>::empty());
    }
}

/// Folding realms into a run, and that run into the empty summary, gives for
/// every key the sum of what the realms hold for it, in whatever order the
/// realms are folded.
pub proof fn lemma_fold_totals(
    realms: Seq<RealmView>,
    shuffled: Seq<RealmView>,
    which: CounterField,
    k: Seq<char>,
)
    requires
        shuffled.to_multiset() == realms.to_multiset(),
    ensures
        count_at(merge_run_spec(MergedRunsView::blank(), run_of(shuffled)).counts(which), k)
            == total_count(realms, which, k),
{
    lemma_run_of_permutation(shuffled, realms);
    lemma_merged_counts_total(realms, which, k);
}

/// The slot of a realm is an index into the realms, or their length.
pub proof fn lemma_slot_in_range(ordered: Seq<RealmView>, r: RealmView)
    ensures
        0 <= slot(ordered, r) <= ordered.len(),
        forall|i: int|
            slot(ordered, r) <= i < ordered.len() ==> (#[trigger] ordered[i]).realm_number
                > r.realm_number,
        slot(ordered, r) > 0 ==> ordered[slot(ordered, r) - 1].realm_number <= r.realm_number,
    decreases ordered.len(),
{
    if !(ordered.len() == 0 || ordered.last().realm_number <= r.realm_number) {
        let front = ordered.drop_last();
        lemma_slot_in_range(front, r);
        assert forall|i: int| slot(ordered, r) <= i < ordered.len() implies (
        #[trigger] ordered[i]).realm_number > r.realm_number by {
            if i < front.len() {
                assert(front[i] == ordered[i]);
            }
        }
    }
}

/// Sorting keeps every realm, as often as it occurs, and puts the realms in
/// the order of their numbers.
pub proof fn lemma_sorted_by_number(realms: Seq<RealmView>)
    ensures
        sorted_by_number(realms).len() == realms.len(),
        sorted_by_number(realms).to_multiset() == realms.to_multiset(),
        in_number_order(sorted_by_number(realms)),
    decreases realms.len(),
{
    broadcast use vstd::seq_lib::group_to_multiset_ensures;

    if realms.len() > 0 {
        let front = sorted_by_number(realms.drop_last());
        let r = realms.last();
        let at = slot(front, r);
        lemma_sorted_by_number(realms.drop_last());
        lemma_slot_in_range(front, r);
        vstd::seq_lib::to_multiset_insert(front, at, r);
        assert(realms.drop_last().push(r) =~= realms);
        assert(realms.to_multiset() =~= realms.drop_last().to_multiset().insert(r));
        let all = front.insert(at, r);
        assert forall|i: int, j: int| 0 <= i < j < all.len() implies all[i].realm_number
            <= all[j].realm_number by {
            if j < at {
                assert(all[i] == front[i] && all[j] == front[j]);
            } else if j == at {
                assert(all[i] == front[i]);
                assert(front[at - 1].realm_number <= r.realm_number);
                if i < at - 1 {
                    assert(front[i].realm_number <= front[at - 1].realm_number);
                }
            } else if i < at {
                assert(all[i] == front[i] && all[j] == front[j - 1]);
                if i < j - 1 {
                    assert(front[i].realm_number <= front[j - 1].realm_number);
                }
            } else if i == at {
                assert(all[j] == front[j - 1]);
            } else {
                assert(all[i] == front[i - 1] && all[j] == front[j - 1]);
            }
        }
    }
}

/// The mapping merged so far and the next one can be merged: their sums are
/// totals of the first realms, which the totals of all realms bound.
proof fn lemma_next_merge_fits(
    all: Seq<RealmView>,
    n: int,
    which: CounterField,
)
    requires
        0 <= n < all.len(),
        forall|k: Seq<char>| total_count(all, which, k) <= usize::MAX,
    ensures
        sums_fit(merged_counts(all.take(n), which), all[n].counts(which)),
        merged_counts(all.take(n + 1), which) == merge_add_spec(
            merged_counts(all.take(n), which),
            all[n].counts(which),
        ),
{
    assert(all.take(n + 1).drop_last() =~= all.take(n));
    assert(all.take(n + 1).last() == all[n]);
    assert forall|k: Seq<char>| #[trigger]
        count_at(merged_counts(all.take(n), which), k) + count_at(all[n].counts(which), k)
        <= usize::MAX by {
        lemma_merged_counts_total(all.take(n), which, k);
        lemma_total_count_grows(all, n + 1, which, k);
    }
}

/// Some realm of the realms and one more has the outcome `o` where one of the
/// realms has it, or the one more.
proof fn lemma_has_outcome_push(realms: Seq<RealmView>, r: RealmView, o: Outcome)
    ensures
        has_outcome(realms.push(r), o) == (has_outcome(realms, o) || r.outcome == o),
{
    let more = realms.push(r);
    if has_outcome(realms, o) {
        let i = choose|i: int| 0 <= i < realms.len() && (#[trigger] realms[i]).outcome == o;
        assert(more[i].outcome == o);
    }
    if r.outcome == o {
        assert(more[realms.len() as int].outcome == o);
    }
    if has_outcome(more, o) {
        let i = choose|i: int| 0 <= i < more.len() && (#[trigger] more[i]).outcome == o;
        if i < realms.len() {
            assert(realms[i].outcome == o);
        }
    }
}

} // verus!
