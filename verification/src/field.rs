//! The decoders of single lines: what one line of a stat file means where a
//! given shape is expected.
//!
//! Each decoder is a function of the line alone. The spec function says what
//! the line decodes to; the executable function of the same name with
//! `decode_` before it computes exactly that.

use crate::error::{result_view, GatherError, GatherErrorView};
use crate::text::{chars_of, ends_with, find, find_spec, i64_of, occurs_at, parse_i64,
    parse_usize, starts_with, usize_of};
use crate::types::Outcome;
use vstd::prelude::*;
use vstd::slice::slice_subrange;
use vstd::string::StrSliceExecFns;

verus! {

/// The title of a section, as the line that starts the section names it.
#[derive(Clone, Copy, Debug, PartialEq, Eq, Structural)]
pub enum SectionTitle {
    SpellCasts,
    DamageToEnemies,
    DamageToWizard,
    ItemsUsed,
    Purchases,
    /// The line starts no section.
    NoSection,
}

impl View for SectionTitle {
    type V = SectionTitle;

    open spec fn view(&self) -> SectionTitle {
        *self
    }
}

/// A fixed line: the line must be `expected`, character for character.
pub open spec fn exact_line(line: Seq<char>, expected: Seq<char>) -> Result<(), GatherErrorView> {
    if line == expected {
        Ok(())
    } else {
        Err(GatherErrorView::MissingExpectedDividerLine)
    }
}

/// A number behind a fixed text: the line must begin with `prefix`, and all
/// that follows must be an `i64`.
pub open spec fn prefixed_int(line: Seq<char>, prefix: Seq<char>) -> Result<i64, GatherErrorView> {
    if !prefix.is_prefix_of(line) {
        Err(GatherErrorView::MissingExpectedPrefix(prefix))
    } else {
        match i64_of(line.skip(prefix.len() as int)) {
            Ok(v) => Ok(v as i64),
            Err(kind) => Err(GatherErrorView::ParseInt(kind)),
        }
    }
}

/// A number before a fixed text: the line must be at least as long as
/// `postfix` and end with it, and all that comes before must be an `i64`.
pub open spec fn postfixed_int(line: Seq<char>, postfix: Seq<char>) -> Result<
    i64,
    GatherErrorView,
> {
    if line.len() < postfix.len() {
        Err(GatherErrorView::LineTooShortToContainExpected(postfix))
    } else if !postfix.is_suffix_of(line) {
        Err(GatherErrorView::MissingExpectedPostfix(postfix))
    } else {
        match i64_of(line.take(line.len() - postfix.len())) {
            Ok(v) => Ok(v as i64),
            Err(kind) => Err(GatherErrorView::ParseInt(kind)),
        }
    }
}

/// The text that an outcome line begins with.
pub open spec fn outcome_prefix() -> Seq<char> {
    "Outcome: "@
}

/// The outcome line: `Outcome: ` and then a text that begins with `DEFEAT` or
/// with `VICTORY`.
pub open spec fn victory(line: Seq<char>) -> Result<Outcome, GatherErrorView> {
    if !outcome_prefix().is_prefix_of(line) {
        Err(GatherErrorView::MissingExpectedPrefix(outcome_prefix()))
    } else {
        let said = line.skip(outcome_prefix().len() as int);
        if "DEFEAT"@.is_prefix_of(said) {
            Ok(Outcome::Defeat)
        } else if "VICTORY"@.is_prefix_of(said) {
            Ok(Outcome::Victory)
        } else {
            Err(GatherErrorView::NotVictoryOrDefeat)
        }
    }
}

/// The section that a line starts: the one whose title the line begins with,
/// or none.
pub open spec fn section_title(line: Seq<char>) -> SectionTitle {
    if "Spell Casts:"@.is_prefix_of(line) {
        SectionTitle::SpellCasts
    } else if "Damage to Wizard:"@.is_prefix_of(line) {
        SectionTitle::DamageToWizard
    } else if "Damage to Enemies:"@.is_prefix_of(line) {
        SectionTitle::DamageToEnemies
    } else if "Items Used:"@.is_prefix_of(line) {
        SectionTitle::ItemsUsed
    } else if "Purchases:"@.is_prefix_of(line) {
        SectionTitle::Purchases
    } else {
        SectionTitle::NoSection
    }
}

/// An entry with the name first: the name, `": "`, the count. The line is cut
/// at the leftmost `": "`. A line without one, or with nothing before it, has
/// no name and does not belong to the section.
pub open spec fn prefix_entry(line: Seq<char>) -> Result<(Seq<char>, usize), GatherErrorView> {
    match find_spec(line, ": "@) {
        None => Err(GatherErrorView::SectionEnded),
        Some(at) => if at == 0 {
            Err(GatherErrorView::SectionEnded)
        } else {
            match usize_of(line.skip(at + ": "@.len())) {
                Ok(v) => Ok((line.take(at), v as usize)),
                Err(kind) => Err(GatherErrorView::ParseInt(kind)),
            }
        },
    }
}

/// An entry with the count first: the count, a space, the name. The line is
/// cut at the leftmost space. A line without one, or with nothing behind it,
/// has no name and does not belong to the section.
pub open spec fn postfix_entry(line: Seq<char>) -> Result<(Seq<char>, usize), GatherErrorView> {
    match find_spec(line, " "@) {
        None => Err(GatherErrorView::SectionEnded),
        Some(at) => if at + " "@.len() >= line.len() {
            Err(GatherErrorView::SectionEnded)
        } else {
            match usize_of(line.take(at)) {
                Ok(v) => Ok((line.skip(at + " "@.len()), v as usize)),
                Err(kind) => Err(GatherErrorView::ParseInt(kind)),
            }
        },
    }
}

/// A name alone: the whole line. An empty line does not belong to the section.
pub open spec fn bare_key(line: Seq<char>) -> Result<Seq<char>, GatherErrorView> {
    if line.len() == 0 {
        Err(GatherErrorView::SectionEnded)
    } else {
        Ok(line)
    }
}

/// Decodes a fixed line.
pub fn decode_exact_line(line: &str, expected: &str) -> (r: Result<(), GatherError>)
    ensures
        result_view(r) == exact_line(line@, expected@),
{
    let have = chars_of(line);
    let want = chars_of(expected);
    if have.len() == want.len() && starts_with(have.as_slice(), want.as_slice()) {
        assert(have@ =~= want@);
        Ok(())
    } else {
        Err(GatherError::MissingExpectedDividerLine)
    }
}

/// Decodes a number behind a fixed text.
pub fn decode_prefixed_int(line: &str, prefix: &str) -> (r: Result<i64, GatherError>)
    ensures
        result_view(r) == prefixed_int(line@, prefix@),
{
    let have = chars_of(line);
    let want = chars_of(prefix);
    if !starts_with(have.as_slice(), want.as_slice()) {
        return Err(GatherError::MissingExpectedPrefix(prefix.to_owned()));
    }
    let rest = slice_subrange(have.as_slice(), want.len(), have.len());
    assert(rest@ =~= line@.skip(prefix@.len() as int));
    match parse_i64(rest) {
        Ok(v) => Ok(v),
        Err(kind) => Err(GatherError::ParseInt(kind)),
    }
}

/// Decodes a number before a fixed text.
pub fn decode_postfixed_int(line: &str, postfix: &str) -> (r: Result<i64, GatherError>)
    ensures
        result_view(r) == postfixed_int(line@, postfix@),
{
    let have = chars_of(line);
    let want = chars_of(postfix);
    if have.len() < want.len() {
        return Err(GatherError::LineTooShortToContainExpected(postfix.to_owned()));
    }
    if !ends_with(have.as_slice(), want.as_slice()) {
        return Err(GatherError::MissingExpectedPostfix(postfix.to_owned()));
    }
    let rest = slice_subrange(have.as_slice(), 0, have.len() - want.len());
    assert(rest@ =~= line@.take(line@.len() - postfix@.len()));
    match parse_i64(rest) {
        Ok(v) => Ok(v),
        Err(kind) => Err(GatherError::ParseInt(kind)),
    }
}

/// Decodes the outcome line.
pub fn decode_victory(line: &str) -> (r: Result<Outcome, GatherError>)
    ensures
        result_view(r) == victory(line@),
{
    let prefix = "Outcome: ";
    let have = chars_of(line);
    let want = chars_of(prefix);
    if !starts_with(have.as_slice(), want.as_slice()) {
        return Err(GatherError::MissingExpectedPrefix(prefix.to_owned()));
    }
    let said = slice_subrange(have.as_slice(), want.len(), have.len());
    assert(said@ =~= line@.skip(outcome_prefix().len() as int));
    if starts_with(said, chars_of("DEFEAT").as_slice()) {
        return Ok(Outcome::Defeat);
    }
    if starts_with(said, chars_of("VICTORY").as_slice()) {
        return Ok(Outcome::Victory);
    }
    Err(GatherError::NotVictoryOrDefeat)
}

/// Decodes the line that may start a section.
pub fn decode_section_title(line: &str) -> (title: SectionTitle)
    ensures
        title == section_title(line@),
{
    let have = chars_of(line);
    if starts_with(have.as_slice(), chars_of("Spell Casts:").as_slice()) {
        SectionTitle::SpellCasts
    } else if starts_with(have.as_slice(), chars_of("Damage to Wizard:").as_slice()) {
        SectionTitle::DamageToWizard
    } else if starts_with(have.as_slice(), chars_of("Damage to Enemies:").as_slice()) {
        SectionTitle::DamageToEnemies
    } else if starts_with(have.as_slice(), chars_of("Items Used:").as_slice()) {
        SectionTitle::ItemsUsed
    } else if starts_with(have.as_slice(), chars_of("Purchases:").as_slice()) {
        SectionTitle::Purchases
    } else {
        SectionTitle::NoSection
    }
}

/// Decodes an entry with the name first.
pub fn decode_prefix_entry(line: &str) -> (r: Result<(String, usize), GatherError>)
    ensures
        result_view(r) == prefix_entry(line@),
{
    let have = chars_of(line);
    let delimiter = chars_of(": ");
    match find(have.as_slice(), delimiter.as_slice()) {
        None => Err(GatherError::SectionEnded),
        Some(at) => {
            assert(occurs_at(have@, delimiter@, at as int));
            if at == 0 {
                return Err(GatherError::SectionEnded);
            }
            let end: usize = have.len();
            let rest = slice_subrange(have.as_slice(), at + delimiter.len(), end);
            assert(rest@ =~= line@.skip(at + ": "@.len()));
            match parse_usize(rest) {
                Ok(v) => {
                    let key = line.substring_char(0, at).to_owned();
                    assert(key@ =~= line@.take(at as int));
                    Ok((key, v))
                },
                Err(kind) => Err(GatherError::ParseInt(kind)),
            }
        },
    }
}

/// Decodes an entry with the count first.
pub fn decode_postfix_entry(line: &str) -> (r: Result<(String, usize), GatherError>)
    ensures
        result_view(r) == postfix_entry(line@),
{
    let have = chars_of(line);
    let delimiter = chars_of(" ");
    match find(have.as_slice(), delimiter.as_slice()) {
        None => Err(GatherError::SectionEnded),
        Some(at) => {
            assert(occurs_at(have@, delimiter@, at as int));
            let end: usize = have.len();
            if at + delimiter.len() >= end {
                return Err(GatherError::SectionEnded);
            }
            let front = slice_subrange(have.as_slice(), 0, at);
            assert(front@ =~= line@.take(at as int));
            match parse_usize(front) {
                Ok(v) => {
                    let key = line.substring_char(at + delimiter.len(), end).to_owned();
                    assert(key@ =~= line@.skip(at + " "@.len()));
                    Ok((key, v))
                },
                Err(kind) => Err(GatherError::ParseInt(kind)),
            }
        },
    }
}

/// Decodes a name alone.
pub fn decode_bare_key(line: String) -> (r: Result<String, GatherError>)
    ensures
        result_view(r) == bare_key(line@),
{
    if line.as_str().unicode_len() == 0 {
        Err(GatherError::SectionEnded)
    } else {
        Ok(line)
    }
}

} // verus!
