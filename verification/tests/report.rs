use rift_wizard_stats::types::CounterField;
use rift_wizard_stats::{can_generate_run_report, generate_run_report, sort_by_realm_number,
    Counter, MergedRuns, Outcome, Purchase, Realm, Run};

fn name(s: &str) -> String {
    s.to_string()
}

fn counter(entries: &[(&str, usize)]) -> Counter {
    let mut c = Counter::new();
    for (k, v) in entries {
        c.insert(name(k), *v);
    }
    c
}

fn entries(c: &Option<Counter>) -> Option<Vec<(String, usize)>> {
    c.as_ref().map(|c| {
        let mut v = c.to_vec();
        v.sort();
        v
    })
}

fn realm(number: i64, outcome: Outcome, turns_run: i64) -> Realm {
    Realm { realm_number: number, outcome, turns_taken_run: turns_run, ..Realm::default() }
}

fn won(count: i64) -> Vec<Realm> {
    (1..=count).map(|n| realm(n, Outcome::Victory, n * 10)).collect()
}

#[test]
fn the_defaults_are_blank() {
    assert_eq!(Outcome::default(), Outcome::Unknown);
    let r = Realm::default();
    assert_eq!(r.realm_number, 0);
    assert_eq!(r.outcome, Outcome::Unknown);
    assert_eq!(r.turns_taken_realm, 0);
    assert_eq!(r.turns_taken_run, 0);
    assert!(r.spell_casts.is_none() && r.damage_to_enemies.is_none());
    assert!(r.damage_to_wizard.is_none() && r.items_used.is_none() && r.purchases.is_none());
    let run = Run::default();
    assert_eq!((run.realms, run.outcome, run.turns_taken_run), (0, Outcome::Unknown, 0));
    assert!(run.spell_casts.is_none() && run.purchases.is_none());
    let m = MergedRuns::default();
    assert_eq!((m.realms, m.turns_taken), (0, 0));
    assert_eq!((m.num_victory, m.num_defeat, m.num_abandoned, m.num_unknown), (0, 0, 0, 0));
    assert!(m.spell_casts.is_none() && m.purchases.is_none());
    let p = Purchase::default();
    assert_eq!((p.name.as_str(), p.outcome, p.realm), ("", Outcome::Unknown, 0));
}

#[test]
fn twenty_five_won_realms_are_a_victory() {
    let run = generate_run_report(won(25));
    assert_eq!(run.realms, 25);
    assert_eq!(run.outcome, Outcome::Victory);
    assert_eq!(run.turns_taken_run, 250);
}

#[test]
fn twenty_four_won_realms_are_an_abandoned_run() {
    let mut realms = won(25);
    realms.truncate(24);
    let run = generate_run_report(realms);
    assert_eq!(run.realms, 24);
    assert_eq!(run.outcome, Outcome::Abandoned);
}

#[test]
fn more_than_twenty_five_won_realms_are_a_victory() {
    assert_eq!(generate_run_report(won(26)).outcome, Outcome::Victory);
}

#[test]
fn no_realms_are_an_abandoned_run() {
    let run = generate_run_report(vec![]);
    assert_eq!(run.realms, 0);
    assert_eq!(run.outcome, Outcome::Abandoned);
    assert_eq!(run.turns_taken_run, 0);
    assert!(run.spell_casts.is_none());
    assert!(run.purchases.is_none());
}

#[test]
fn one_lost_realm_makes_the_run_a_defeat() {
    for at in 0..25 {
        let mut realms = won(25);
        realms[at].outcome = Outcome::Defeat;
        assert_eq!(generate_run_report(realms).outcome, Outcome::Defeat);
    }
    let run = generate_run_report(vec![realm(1, Outcome::Defeat, 5)]);
    assert_eq!(run.outcome, Outcome::Defeat);
}

#[test]
fn a_defeat_outweighs_an_unknown_outcome_wherever_it_stands() {
    let run = generate_run_report(vec![
        realm(1, Outcome::Unknown, 5),
        realm(2, Outcome::Defeat, 9),
        realm(3, Outcome::Victory, 12),
    ]);
    assert_eq!(run.outcome, Outcome::Defeat);
    let run = generate_run_report(vec![
        realm(1, Outcome::Defeat, 5),
        realm(2, Outcome::Unknown, 9),
    ]);
    assert_eq!(run.outcome, Outcome::Defeat);
}

#[test]
fn an_unknown_outcome_outweighs_victory_and_length() {
    let mut realms = won(25);
    realms[3].outcome = Outcome::Unknown;
    assert_eq!(generate_run_report(realms).outcome, Outcome::Unknown);
    let run = generate_run_report(vec![realm(1, Outcome::Victory, 5), realm(2, Outcome::Unknown, 9)]);
    assert_eq!(run.outcome, Outcome::Unknown);
}

#[test]
fn an_abandoned_realm_counts_like_a_won_one() {
    let mut realms = won(25);
    realms[7].outcome = Outcome::Abandoned;
    assert_eq!(generate_run_report(realms).outcome, Outcome::Victory);
}

#[test]
fn the_turns_of_a_run_are_the_largest_reported() {
    let run = generate_run_report(vec![
        realm(1, Outcome::Victory, 100),
        realm(2, Outcome::Victory, 340),
        realm(3, Outcome::Victory, 220),
    ]);
    assert_eq!(run.turns_taken_run, 340);
    let run = generate_run_report(vec![realm(1, Outcome::Victory, -4), realm(2, Outcome::Victory, -9)]);
    assert_eq!(run.turns_taken_run, 0);
}

#[test]
fn the_mappings_of_a_run_are_merged_over_its_realms() {
    let mut a = realm(1, Outcome::Victory, 10);
    a.spell_casts = Some(counter(&[("Fireball", 4), ("Bolt", 1)]));
    a.damage_to_enemies = Some(counter(&[("Goblin", 120)]));
    let mut b = realm(2, Outcome::Victory, 20);
    b.spell_casts = Some(counter(&[("Fireball", 2)]));
    b.items_used = Some(Counter::new());
    let mut c = realm(3, Outcome::Defeat, 30);
    c.damage_to_enemies = Some(counter(&[("Goblin", 30), ("Imp", 7)]));
    let run = generate_run_report(vec![a, b, c]);
    assert_eq!(run.realms, 3);
    assert_eq!(entries(&run.spell_casts), Some(vec![(name("Bolt"), 1), (name("Fireball"), 6)]));
    assert_eq!(entries(&run.damage_to_enemies), Some(vec![(name("Goblin"), 150), (name("Imp"), 7)]));
    assert!(run.damage_to_wizard.is_none());
    assert_eq!(entries(&run.items_used), Some(vec![]));
    assert!(run.purchases.is_none());
}

fn sample(order: &[usize]) -> Vec<Realm> {
    let make = |i: usize| -> Realm {
        let mut r = realm(i as i64 + 1, Outcome::Victory, (i as i64 + 1) * 7);
        match i {
            0 => r.spell_casts = Some(counter(&[("Fireball", 4), ("Bolt", 1)])),
            1 => r.spell_casts = Some(counter(&[("Fireball", 2)])),
            2 => r.outcome = Outcome::Unknown,
            3 => r.damage_to_wizard = Some(counter(&[("Goblin", 3)])),
            _ => r.spell_casts = Some(counter(&[("Bolt", 10), ("Spark", 5)])),
        }
        r
    };
    order.iter().map(|i| make(*i)).collect()
}

#[test]
fn the_order_of_the_realms_does_not_change_the_run() {
    let orders: [[usize; 5]; 4] = [[0, 1, 2, 3, 4], [4, 3, 2, 1, 0], [2, 0, 4, 1, 3], [1, 4, 0, 3, 2]];
    for order in orders {
        let run = generate_run_report(sample(&order));
        assert_eq!(run.realms, 5);
        assert_eq!(run.outcome, Outcome::Unknown);
        assert_eq!(run.turns_taken_run, 35);
        assert_eq!(
            entries(&run.spell_casts),
            Some(vec![(name("Bolt"), 11), (name("Fireball"), 6), (name("Spark"), 5)])
        );
        assert_eq!(entries(&run.damage_to_wizard), Some(vec![(name("Goblin"), 3)]));
        assert!(run.damage_to_enemies.is_none());
    }
}

#[test]
fn folding_into_the_summary_keeps_the_totals_of_the_realms() {
    let orders: [[usize; 5]; 3] = [[0, 1, 2, 3, 4], [3, 1, 4, 0, 2], [4, 2, 3, 1, 0]];
    for order in orders {
        let run = generate_run_report(sample(&order));
        let summary = MergedRuns::default().merge_run(run);
        assert_eq!(summary.realms, 5);
        assert_eq!(summary.num_unknown, 1);
        assert_eq!(summary.turns_taken, 35);
        assert_eq!(
            entries(&summary.spell_casts),
            Some(vec![(name("Bolt"), 1 + 10), (name("Fireball"), 4 + 2), (name("Spark"), 5)])
        );
        assert_eq!(entries(&summary.damage_to_wizard), Some(vec![(name("Goblin"), 3)]));
    }
}

#[test]
fn sorting_orders_by_number_and_keeps_ties_in_place() {
    let mut realms = vec![
        realm(3, Outcome::Victory, 1),
        realm(1, Outcome::Victory, 2),
        realm(2, Outcome::Defeat, 3),
        realm(1, Outcome::Unknown, 4),
        realm(-5, Outcome::Victory, 5),
        realm(2, Outcome::Victory, 6),
    ];
    sort_by_realm_number(&mut realms);
    let got: Vec<(i64, i64)> = realms.iter().map(|r| (r.realm_number, r.turns_taken_run)).collect();
    assert_eq!(got, vec![(-5, 5), (1, 2), (1, 4), (2, 3), (2, 6), (3, 1)]);
    let mut none: Vec<Realm> = vec![];
    sort_by_realm_number(&mut none);
    assert!(none.is_empty());
}

#[test]
fn a_realm_hands_out_its_mappings_by_name() {
    let mut r = Realm::default();
    r.spell_casts = Some(counter(&[("a", 1)]));
    r.damage_to_enemies = Some(counter(&[("b", 2)]));
    r.damage_to_wizard = Some(counter(&[("c", 3)]));
    r.items_used = Some(counter(&[("d", 4)]));
    assert_eq!(entries(r.counter(CounterField::SpellCasts)), Some(vec![(name("a"), 1)]));
    assert_eq!(entries(r.counter(CounterField::DamageToEnemies)), Some(vec![(name("b"), 2)]));
    assert_eq!(entries(r.counter(CounterField::DamageToWizard)), Some(vec![(name("c"), 3)]));
    assert_eq!(entries(r.counter(CounterField::ItemsUsed)), Some(vec![(name("d"), 4)]));
}

#[test]
fn a_run_report_is_refused_where_a_total_is_too_large() {
    let mut a = realm(1, Outcome::Victory, 10);
    a.items_used = Some(counter(&[("Potion", usize::MAX - 1)]));
    let mut b = realm(2, Outcome::Victory, 20);
    b.items_used = Some(counter(&[("Potion", 1)]));
    let mut c = realm(3, Outcome::Victory, 30);
    c.items_used = Some(counter(&[("Potion", 1)]));
    assert!(can_generate_run_report(&vec![]));
    let two = vec![a, b];
    assert!(can_generate_run_report(&two));
    let mut three = two;
    three.push(c);
    assert!(!can_generate_run_report(&three));
    three.pop();
    let run = generate_run_report(three);
    assert_eq!(entries(&run.items_used), Some(vec![(name("Potion"), usize::MAX)]));
}

fn run(realms: i64, outcome: Outcome, turns: i64, spells: Option<Counter>) -> Run {
    Run { realms, outcome, turns_taken_run: turns, spell_casts: spells, ..Run::default() }
}

#[test]
fn merging_a_run_counts_it_once_under_its_outcome() {
    let mut m = MergedRuns::default();
    m = m.merge_run(run(25, Outcome::Victory, 1000, None));
    assert_eq!((m.num_victory, m.num_defeat, m.num_abandoned, m.num_unknown), (1, 0, 0, 0));
    m = m.merge_run(run(3, Outcome::Defeat, 90, None));
    assert_eq!((m.num_victory, m.num_defeat, m.num_abandoned, m.num_unknown), (1, 1, 0, 0));
    m = m.merge_run(run(7, Outcome::Abandoned, 200, None));
    assert_eq!((m.num_victory, m.num_defeat, m.num_abandoned, m.num_unknown), (1, 1, 1, 0));
    m = m.merge_run(run(1, Outcome::Unknown, 10, None));
    assert_eq!((m.num_victory, m.num_defeat, m.num_abandoned, m.num_unknown), (1, 1, 1, 1));
    m = m.merge_run(run(2, Outcome::Defeat, 20, None));
    assert_eq!((m.num_victory, m.num_defeat, m.num_abandoned, m.num_unknown), (1, 2, 1, 1));
    assert_eq!(m.realms, 38);
    assert_eq!(m.turns_taken, 1320);
    assert_eq!(m.checked_runs(), Some(5));
    assert!(m.spell_casts.is_none());
    assert!(m.purchases.is_none());
}

#[test]
fn merging_runs_adds_their_mappings() {
    let mut m = MergedRuns::default();
    m = m.merge_run(run(1, Outcome::Defeat, 5, Some(counter(&[("Fireball", 4)]))));
    m = m.merge_run(run(1, Outcome::Defeat, 5, None));
    m = m.merge_run(run(1, Outcome::Defeat, 5, Some(counter(&[("Fireball", 1), ("Bolt", 2)]))));
    assert_eq!(entries(&m.spell_casts), Some(vec![(name("Bolt"), 2), (name("Fireball"), 5)]));
    assert!(m.damage_to_enemies.is_none());
}

#[test]
fn merging_runs_in_any_order_gives_one_summary() {
    let runs = |order: &[usize]| -> Vec<Run> {
        order
            .iter()
            .map(|i| match i {
                0 => run(25, Outcome::Victory, 1000, Some(counter(&[("Fireball", 4)]))),
                1 => run(3, Outcome::Defeat, 90, Some(counter(&[("Fireball", 1), ("Bolt", 2)]))),
                _ => run(7, Outcome::Abandoned, 200, None),
            })
            .collect()
    };
    for order in [[0, 1, 2], [2, 1, 0], [1, 0, 2], [1, 2, 0]] {
        let mut m = MergedRuns::default();
        for r in runs(&order) {
            assert!(m.can_merge_run(&r));
            m = m.merge_run(r);
        }
        assert_eq!(m.realms, 35);
        assert_eq!(m.turns_taken, 1290);
        assert_eq!((m.num_victory, m.num_defeat, m.num_abandoned, m.num_unknown), (1, 1, 1, 0));
        assert_eq!(entries(&m.spell_casts), Some(vec![(name("Bolt"), 2), (name("Fireball"), 5)]));
    }
}

#[test]
fn a_merge_is_refused_where_a_number_does_not_fit() {
    let mut m = MergedRuns::default();
    assert!(m.can_merge_run(&run(i64::MAX, Outcome::Victory, i64::MAX, None)));
    m.realms = 1;
    assert!(!m.can_merge_run(&run(i64::MAX, Outcome::Victory, 0, None)));
    assert!(m.can_merge_run(&run(i64::MAX - 1, Outcome::Victory, 0, None)));
    m.realms = -1;
    assert!(!m.can_merge_run(&run(i64::MIN, Outcome::Victory, 0, None)));
    m.realms = 0;
    m.turns_taken = i64::MAX;
    assert!(!m.can_merge_run(&run(0, Outcome::Victory, 1, None)));
    assert!(m.can_merge_run(&run(0, Outcome::Victory, 0, None)));
    m.turns_taken = 0;
    m.num_defeat = usize::MAX;
    assert!(!m.can_merge_run(&run(0, Outcome::Defeat, 0, None)));
    assert!(m.can_merge_run(&run(0, Outcome::Victory, 0, None)));
    assert_eq!(m.checked_runs(), Some(usize::MAX));
    m.num_unknown = 1;
    assert_eq!(m.checked_runs(), None);
    m.num_defeat = 0;
    m.spell_casts = Some(counter(&[("Fireball", usize::MAX)]));
    assert!(!m.can_merge_run(&run(0, Outcome::Victory, 0, Some(counter(&[("Fireball", 1)])))));
    assert!(m.can_merge_run(&run(0, Outcome::Victory, 0, Some(counter(&[("Bolt", 1)])))));
}
