use rift_wizard_stats::field::{decode_bare_key, decode_exact_line, decode_postfix_entry,
    decode_postfixed_int, decode_prefix_entry, decode_prefixed_int, decode_section_title,
    decode_victory, SectionTitle};
use rift_wizard_stats::{GatherError, IntErrorKind, Outcome};

fn name(s: &str) -> String {
    s.to_string()
}

#[test]
fn an_exact_line_must_match_character_for_character() {
    assert_eq!(decode_exact_line("", ""), Ok(()));
    assert_eq!(decode_exact_line("Turns taken:", "Turns taken:"), Ok(()));
    assert_eq!(
        decode_exact_line("Turns taken", "Turns taken:"),
        Err(GatherError::MissingExpectedDividerLine)
    );
    assert_eq!(
        decode_exact_line("Turns taken: ", "Turns taken:"),
        Err(GatherError::MissingExpectedDividerLine)
    );
    assert_eq!(
        decode_exact_line("turns taken:", "Turns taken:"),
        Err(GatherError::MissingExpectedDividerLine)
    );
    assert_eq!(decode_exact_line(" ", ""), Err(GatherError::MissingExpectedDividerLine));
    assert_eq!(decode_exact_line("", "x"), Err(GatherError::MissingExpectedDividerLine));
}

#[test]
fn a_prefixed_number_needs_its_prefix_and_a_number() {
    assert_eq!(decode_prefixed_int("Realm 3", "Realm "), Ok(3));
    assert_eq!(decode_prefixed_int("Realm -3", "Realm "), Ok(-3));
    assert_eq!(decode_prefixed_int("Realm +25", "Realm "), Ok(25));
    assert_eq!(
        decode_prefixed_int("Level 3", "Realm "),
        Err(GatherError::MissingExpectedPrefix(name("Realm ")))
    );
    assert_eq!(
        decode_prefixed_int("", "Realm "),
        Err(GatherError::MissingExpectedPrefix(name("Realm ")))
    );
    assert_eq!(
        decode_prefixed_int("Realm ", "Realm "),
        Err(GatherError::ParseInt(IntErrorKind::Empty))
    );
    assert_eq!(
        decode_prefixed_int("Realm three", "Realm "),
        Err(GatherError::ParseInt(IntErrorKind::InvalidDigit))
    );
    assert_eq!(
        decode_prefixed_int("Realm 3 ", "Realm "),
        Err(GatherError::ParseInt(IntErrorKind::InvalidDigit))
    );
    assert_eq!(
        decode_prefixed_int("Realm 9223372036854775808", "Realm "),
        Err(GatherError::ParseInt(IntErrorKind::PosOverflow))
    );
    assert_eq!(
        decode_prefixed_int("Realm -9223372036854775809", "Realm "),
        Err(GatherError::ParseInt(IntErrorKind::NegOverflow))
    );
}

#[test]
fn a_postfixed_number_is_cut_by_length() {
    assert_eq!(decode_postfixed_int("120 (L)", " (L)"), Ok(120));
    assert_eq!(decode_postfixed_int("340 (G)", " (G)"), Ok(340));
    assert_eq!(decode_postfixed_int("-5 (L)", " (L)"), Ok(-5));
    assert_eq!(
        decode_postfixed_int("(L)", " (L)"),
        Err(GatherError::LineTooShortToContainExpected(name(" (L)")))
    );
    assert_eq!(
        decode_postfixed_int("", " (L)"),
        Err(GatherError::LineTooShortToContainExpected(name(" (L)")))
    );
    assert_eq!(
        decode_postfixed_int("120 (G)", " (L)"),
        Err(GatherError::MissingExpectedPostfix(name(" (L)")))
    );
    assert_eq!(
        decode_postfixed_int("120 (L) ", " (L)"),
        Err(GatherError::MissingExpectedPostfix(name(" (L)")))
    );
    assert_eq!(
        decode_postfixed_int(" (L)", " (L)"),
        Err(GatherError::ParseInt(IntErrorKind::Empty))
    );
    assert_eq!(
        decode_postfixed_int("12 0 (L)", " (L)"),
        Err(GatherError::ParseInt(IntErrorKind::InvalidDigit))
    );
    assert_eq!(
        decode_postfixed_int(" (L) (L)", " (L)"),
        Err(GatherError::ParseInt(IntErrorKind::InvalidDigit))
    );
}

#[test]
fn the_outcome_line_names_a_victory_or_a_defeat() {
    assert_eq!(decode_victory("Outcome: VICTORY"), Ok(Outcome::Victory));
    assert_eq!(decode_victory("Outcome: DEFEAT"), Ok(Outcome::Defeat));
    assert_eq!(decode_victory("Outcome: VICTORY!"), Ok(Outcome::Victory));
    assert_eq!(decode_victory("Outcome: DEFEATED by a goblin"), Ok(Outcome::Defeat));
    assert_eq!(decode_victory("Outcome: SURVIVED"), Err(GatherError::NotVictoryOrDefeat));
    assert_eq!(decode_victory("Outcome: victory"), Err(GatherError::NotVictoryOrDefeat));
    assert_eq!(decode_victory("Outcome: "), Err(GatherError::NotVictoryOrDefeat));
    assert_eq!(decode_victory("Outcome:  VICTORY"), Err(GatherError::NotVictoryOrDefeat));
    assert_eq!(
        decode_victory("Outcome:VICTORY"),
        Err(GatherError::MissingExpectedPrefix(name("Outcome: ")))
    );
    assert_eq!(
        decode_victory(""),
        Err(GatherError::MissingExpectedPrefix(name("Outcome: ")))
    );
    assert_eq!(
        decode_victory("Weekly run"),
        Err(GatherError::MissingExpectedPrefix(name("Outcome: ")))
    );
}

#[test]
fn a_section_title_is_told_by_how_the_line_begins() {
    assert_eq!(decode_section_title("Spell Casts:"), SectionTitle::SpellCasts);
    assert_eq!(decode_section_title("Damage to Wizard:"), SectionTitle::DamageToWizard);
    assert_eq!(decode_section_title("Damage to Enemies:"), SectionTitle::DamageToEnemies);
    assert_eq!(decode_section_title("Items Used:"), SectionTitle::ItemsUsed);
    assert_eq!(decode_section_title("Purchases:"), SectionTitle::Purchases);
    assert_eq!(decode_section_title("Spell Casts: (this realm)"), SectionTitle::SpellCasts);
    assert_eq!(decode_section_title("Spell Casts"), SectionTitle::NoSection);
    assert_eq!(decode_section_title(" Spell Casts:"), SectionTitle::NoSection);
    assert_eq!(decode_section_title("spell casts:"), SectionTitle::NoSection);
    assert_eq!(decode_section_title("Something else"), SectionTitle::NoSection);
    assert_eq!(decode_section_title(""), SectionTitle::NoSection);
}

#[test]
fn a_prefix_entry_is_cut_at_the_first_colon_and_space() {
    assert_eq!(decode_prefix_entry("Fireball: 4"), Ok((name("Fireball"), 4)));
    assert_eq!(decode_prefix_entry("Magic Missile: 2"), Ok((name("Magic Missile"), 2)));
    assert_eq!(decode_prefix_entry("Orb: Fire: 2"), Err(GatherError::ParseInt(IntErrorKind::InvalidDigit)));
    assert_eq!(decode_prefix_entry("a:b: 0"), Ok((name("a:b"), 0)));
    assert_eq!(decode_prefix_entry("a: 5"), Ok((name("a"), 5)));
    assert_eq!(decode_prefix_entry("Fireball: +4"), Ok((name("Fireball"), 4)));
    assert_eq!(decode_prefix_entry("\u{c9}clair: 12"), Ok((name("\u{c9}clair"), 12)));
    assert_eq!(decode_prefix_entry(""), Err(GatherError::SectionEnded));
    assert_eq!(decode_prefix_entry("Fireball:4"), Err(GatherError::SectionEnded));
    assert_eq!(decode_prefix_entry("Damage to Wizard:"), Err(GatherError::SectionEnded));
    assert_eq!(decode_prefix_entry(": 5"), Err(GatherError::SectionEnded));
    assert_eq!(decode_prefix_entry(": five"), Err(GatherError::SectionEnded));
    assert_eq!(decode_prefix_entry(": "), Err(GatherError::SectionEnded));
    assert_eq!(
        decode_prefix_entry("Fireball: "),
        Err(GatherError::ParseInt(IntErrorKind::Empty))
    );
    assert_eq!(
        decode_prefix_entry("Fireball: -4"),
        Err(GatherError::ParseInt(IntErrorKind::InvalidDigit))
    );
    assert_eq!(
        decode_prefix_entry("Fireball: four"),
        Err(GatherError::ParseInt(IntErrorKind::InvalidDigit))
    );
    assert_eq!(
        decode_prefix_entry("Fireball: 340282366920938463463374607431768211456"),
        Err(GatherError::ParseInt(IntErrorKind::PosOverflow))
    );
}

#[test]
fn a_postfix_entry_is_cut_at_the_first_space() {
    assert_eq!(decode_postfix_entry("120 Goblin"), Ok((name("Goblin"), 120)));
    assert_eq!(decode_postfix_entry("30 Fire Goblin"), Ok((name("Fire Goblin"), 30)));
    assert_eq!(decode_postfix_entry("7 x"), Ok((name("x"), 7)));
    assert_eq!(decode_postfix_entry("7  Imp"), Ok((name(" Imp"), 7)));
    assert_eq!(decode_postfix_entry("4 \u{c9}clair"), Ok((name("\u{c9}clair"), 4)));
    assert_eq!(decode_postfix_entry(""), Err(GatherError::SectionEnded));
    assert_eq!(decode_postfix_entry("120"), Err(GatherError::SectionEnded));
    assert_eq!(decode_postfix_entry("Purchases:"), Err(GatherError::SectionEnded));
    assert_eq!(decode_postfix_entry("7 "), Err(GatherError::SectionEnded));
    assert_eq!(decode_postfix_entry("seven "), Err(GatherError::SectionEnded));
    assert_eq!(decode_postfix_entry(" "), Err(GatherError::SectionEnded));
    assert_eq!(
        decode_postfix_entry("Items Used:"),
        Err(GatherError::ParseInt(IntErrorKind::InvalidDigit))
    );
    assert_eq!(
        decode_postfix_entry(" Goblin"),
        Err(GatherError::ParseInt(IntErrorKind::Empty))
    );
    assert_eq!(
        decode_postfix_entry("-3 Goblin"),
        Err(GatherError::ParseInt(IntErrorKind::InvalidDigit))
    );
}

#[test]
fn a_bare_key_is_the_whole_line() {
    assert_eq!(decode_bare_key(name("Amulet of Fire")), Ok(name("Amulet of Fire")));
    assert_eq!(decode_bare_key(name(" ")), Ok(name(" ")));
    assert_eq!(decode_bare_key(name("")), Err(GatherError::SectionEnded));
}

#[test]
fn only_two_errors_end_a_section() {
    assert!(GatherError::SectionEnded.ends_section());
    assert!(GatherError::ReachedEOF.ends_section());
    assert!(!GatherError::IO(name("broken")).ends_section());
    assert!(!GatherError::ParseInt(IntErrorKind::Empty).ends_section());
    assert!(!GatherError::MissingExpectedPrefix(name("x")).ends_section());
    assert!(!GatherError::LineTooShortToContainExpected(name("x")).ends_section());
    assert!(!GatherError::MissingExpectedPostfix(name("x")).ends_section());
    assert!(!GatherError::MissingExpectedDividerLine.ends_section());
    assert!(!GatherError::NotVictoryOrDefeat.ends_section());
}
