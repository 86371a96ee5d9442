//! The reader of stat files: from the lines of one file to the `Realm` that
//! the file records.
//!
//! A stat file has a header (the number of the realm, then the outcome), a
//! block with the turns taken, and then any number of sections, each a title
//! line followed by its entries. Every reader here takes lines from a
//! `LineCursor`; a line that was taken is never put back.
//!
//! The spec function of a reader maps the lines that are left to a pair: what
//! the reader returns, and the lines that are left after it.

use crate::counter::Counter;
use crate::error::{result_view, GatherError, GatherErrorView};
use crate::field::{bare_key, decode_bare_key, decode_exact_line, decode_postfix_entry,
    decode_postfixed_int, decode_prefix_entry, decode_prefixed_int, decode_section_title,
    decode_victory, exact_line, postfix_entry, postfixed_int, prefix_entry, prefixed_int,
    section_title, victory, SectionTitle};
use crate::lines::{lines_view, pull, LineCursor, LineView};
use crate::merge::{has_key, lemma_map_of_entries_has_entry, lemma_map_of_entries_last_wins,
    map_of_entries};
use crate::text::lemma_find_spec_is_leftmost;
use crate::nameset::NameSet;
use crate::types::{CounterField, Outcome, Realm, RealmView};
use vstd::prelude::*;

verus! {

/// What a reader returns, and the lines that are left after it.
pub type Read<T> = (Result<T, GatherErrorView>, Seq<LineView>);

/// Takes one line, which must be `expected`.
pub open spec fn exact_line_read(lines: Seq<LineView>, expected: Seq<char>) -> Read<()> {
    (
        match pull(lines).0 {
            Ok(line) => exact_line(line, expected),
            Err(e) => Err(e),
        },
        pull(lines).1,
    )
}

/// Takes one line, which must be `prefix` and then a number.
pub open spec fn prefixed_int_read(lines: Seq<LineView>, prefix: Seq<char>) -> Read<i64> {
    (
        match pull(lines).0 {
            Ok(line) => prefixed_int(line, prefix),
            Err(e) => Err(e),
        },
        pull(lines).1,
    )
}

/// Takes one line, which must be a number and then `postfix`.
pub open spec fn postfixed_int_read(lines: Seq<LineView>, postfix: Seq<char>) -> Read<i64> {
    (
        match pull(lines).0 {
            Ok(line) => postfixed_int(line, postfix),
            Err(e) => Err(e),
        },
        pull(lines).1,
    )
}

/// Takes one line as the outcome line.
pub open spec fn victory_line_read(lines: Seq<LineView>) -> Read<Outcome> {
    (
        match pull(lines).0 {
            Ok(line) => victory(line),
            Err(e) => Err(e),
        },
        pull(lines).1,
    )
}

/// Whether the error says that a line lacks the text it should begin with.
pub open spec fn lacks_prefix(r: Result<Outcome, GatherErrorView>) -> bool {
    r matches Err(GatherErrorView::MissingExpectedPrefix(_))
}

/// Reads the outcome, which some files do not have and some have one line
/// later.
///
/// Where the first line does not begin like an outcome line, the next line is
/// tried in its place. Where that one does not begin like an outcome line
/// either, the file is taken to report no outcome: the outcome is `Unknown`,
/// both lines are gone, and reading goes on. Every other failure of either
/// line is the failure of the read.
pub open spec fn victory_read(lines: Seq<LineView>) -> Read<Outcome> {
    let first = victory_line_read(lines);
    if lacks_prefix(first.0) {
        let second = victory_line_read(first.1);
        if lacks_prefix(second.0) {
            (Ok(Outcome::Unknown), second.1)
        } else {
            second
        }
    } else {
        first
    }
}

/// Takes one line as the title of the next section. With no line left, or
/// with a line that starts no section, there is no further section.
pub open spec fn section_title_read(lines: Seq<LineView>) -> Read<SectionTitle> {
    (
        match pull(lines).0 {
            Ok(line) => Ok(section_title(line)),
            Err(e) => if e.ends_section() {
                Ok(SectionTitle::NoSection)
            } else {
                Err(e)
            },
        },
        pull(lines).1,
    )
}

/// The two shapes of an entry that has a count.
#[derive(Clone, Copy, Debug, PartialEq, Eq, Structural)]
pub enum EntryShape {
    /// The name, `": "`, the count: `Fireball: 4`.
    NameFirst,
    /// The count, a space, the name: `120 Goblin`.
    CountFirst,
}

/// What a line means as an entry of the given shape.
pub open spec fn entry(shape: EntryShape, line: Seq<char>) -> Result<
    (Seq<char>, usize),
    GatherErrorView,
> {
    match shape {
        EntryShape::NameFirst => prefix_entry(line),
        EntryShape::CountFirst => postfix_entry(line),
    }
}

/// What a read line means as an entry of the given shape: a line that could
/// not be read is a read failure.
pub open spec fn entry_of(shape: EntryShape, line: LineView) -> Result<
    (Seq<char>, usize),
    GatherErrorView,
> {
    match line {
        Ok(text) => entry(shape, text),
        Err(failure) => Err(GatherErrorView::IO(failure)),
    }
}

/// What a read line means as a name alone.
pub open spec fn name_of(line: LineView) -> Result<Seq<char>, GatherErrorView> {
    match line {
        Ok(text) => bare_key(text),
        Err(failure) => Err(GatherErrorView::IO(failure)),
    }
}

/// `first` put before the items that `read` returns, where it returns any.
pub open spec fn after<T>(first: Seq<T>, read: Read<Seq<T>>) -> Read<Seq<T>> {
    (
        match read.0 {
            Ok(items) => Ok(first + items),
            Err(e) => Err(e),
        },
        read.1,
    )
}

/// The entries of one section, in the order of their lines.
///
/// The section ends where the input ends, or with the first line that is no
/// entry of the section: that line is taken, and is gone. A line that is an
/// entry but for its count, and a line that could not be read, fail the read.
pub open spec fn entries_read(lines: Seq<LineView>, shape: EntryShape) -> Read<
    Seq<(Seq<char>, usize)>,
>
    decreases lines.len(),
{
    if lines.len() == 0 {
        (Ok(Seq::empty()), lines)
    } else {
        match entry_of(shape, lines[0]) {
            Ok(e) => after(seq![e], entries_read(lines.skip(1), shape)),
            Err(x) => if x.ends_section() {
                (Ok(Seq::empty()), lines.skip(1))
            } else {
                (Err(x), lines.skip(1))
            },
        }
    }
}

/// The names of one section of names alone, in the order of their lines. The
/// section ends where the input ends, or with the first empty line, which is
/// taken.
pub open spec fn names_read(lines: Seq<LineView>) -> Read<Seq<Seq<char>>>
    decreases lines.len(),
{
    if lines.len() == 0 {
        (Ok(Seq::empty()), lines)
    } else {
        match name_of(lines[0]) {
            Ok(name) => after(seq![name], names_read(lines.skip(1))),
            Err(x) => if x.ends_section() {
                (Ok(Seq::empty()), lines.skip(1))
            } else {
                (Err(x), lines.skip(1))
            },
        }
    }
}

/// An entry with its count as a natural number.
pub open spec fn widen(e: (Seq<char>, usize)) -> (Seq<char>, nat) {
    (e.0, e.1 as nat)
}

/// The mapping that the entries of one section write: each name with the
/// count of its last entry.
pub open spec fn tally(entries: Seq<(Seq<char>, usize)>) -> Map<Seq<char>, nat> {
    map_of_entries(entries.map_values(|e: (Seq<char>, usize)| widen(e)))
}

/// Reads one section of entries into a mapping.
pub open spec fn counter_read(lines: Seq<LineView>, shape: EntryShape) -> Read<
    Map<Seq<char>, nat>,
> {
    let read = entries_read(lines, shape);
    (
        match read.0 {
            Ok(entries) => Ok(tally(entries)),
            Err(e) => Err(e),
        },
        read.1,
    )
}

/// Reads one section of names alone into a set.
pub open spec fn name_set_read(lines: Seq<LineView>) -> Read<Set<Seq<char>>> {
    let read = names_read(lines);
    (
        match read.0 {
            Ok(names) => Ok(names.to_set()),
            Err(e) => Err(e),
        },
        read.1,
    )
}

/// The failure of `read`, as the failure of a read of another type.
pub open spec fn failed<T, U>(read: Read<T>) -> Read<U>
    recommends
        read.0 is Err,
{
    (Err(read.0->Err_0), read.1)
}

/// Reads the header: the line `Realm ` and a number, then the outcome.
/// Returns the number of the realm and its outcome.
pub open spec fn header_read(lines: Seq<LineView>) -> Read<(i64, Outcome)> {
    let number = prefixed_int_read(lines, "Realm "@);
    let outcome = victory_read(number.1);
    if number.0 is Err {
        failed(number)
    } else if outcome.0 is Err {
        failed(outcome)
    } else {
        (Ok((number.0->Ok_0, outcome.0->Ok_0)), outcome.1)
    }
}

/// Reads the block of the turns taken: an empty line, the line
/// `Turns taken:`, the turns of this realm and `" (L)"`, the turns of the run
/// so far and `" (G)"`, and an empty line. Returns the two numbers, the
/// realm's first.
pub open spec fn turns_read(lines: Seq<LineView>) -> Read<(i64, i64)> {
    let gap = exact_line_read(lines, ""@);
    let heading = exact_line_read(gap.1, "Turns taken:"@);
    let realm = postfixed_int_read(heading.1, " (L)"@);
    let run = postfixed_int_read(realm.1, " (G)"@);
    let end = exact_line_read(run.1, ""@);
    if gap.0 is Err {
        failed(gap)
    } else if heading.0 is Err {
        failed(heading)
    } else if realm.0 is Err {
        failed(realm)
    } else if run.0 is Err {
        failed(run)
    } else if end.0 is Err {
        failed(end)
    } else {
        (Ok((realm.0->Ok_0, run.0->Ok_0)), end.1)
    }
}

/// Reads the entries of the section `title` and puts them into `realm`, in
/// place of what an earlier section of that title may have put there.
pub open spec fn section_read(lines: Seq<LineView>, title: SectionTitle, realm: RealmView) -> Read<
    RealmView,
> {
    match title {
        SectionTitle::SpellCasts => {
            let body = counter_read(lines, EntryShape::NameFirst);
            match body.0 {
                Ok(m) => (Ok(RealmView { spell_casts: Some(m), ..realm }), body.1),
                Err(e) => (Err(e), body.1),
            }
        },
        SectionTitle::DamageToEnemies => {
            let body = counter_read(lines, EntryShape::CountFirst);
            match body.0 {
                Ok(m) => (Ok(RealmView { damage_to_enemies: Some(m), ..realm }), body.1),
                Err(e) => (Err(e), body.1),
            }
        },
        SectionTitle::DamageToWizard => {
            let body = counter_read(lines, EntryShape::CountFirst);
            match body.0 {
                Ok(m) => (Ok(RealmView { damage_to_wizard: Some(m), ..realm }), body.1),
                Err(e) => (Err(e), body.1),
            }
        },
        SectionTitle::ItemsUsed => {
            let body = counter_read(lines, EntryShape::NameFirst);
            match body.0 {
                Ok(m) => (Ok(RealmView { items_used: Some(m), ..realm }), body.1),
                Err(e) => (Err(e), body.1),
            }
        },
        SectionTitle::Purchases => {
            let body = name_set_read(lines);
            match body.0 {
                Ok(s) => (Ok(RealmView { purchases: Some(s), ..realm }), body.1),
                Err(e) => (Err(e), body.1),
            }
        },
        SectionTitle::NoSection => (Ok(realm), lines),
    }
}

/// Reads sections into `realm` for as long as the next line is the title of
/// one. The first line that is no title ends the record: that line is taken,
/// and `realm` is returned as it is then. The end of the input ends the
/// record in the same way.
pub open spec fn sections_read(lines: Seq<LineView>, realm: RealmView) -> Read<RealmView>
    decreases lines.len(),
    via sections_read_decreases
{
    let title = section_title_read(lines);
    match title.0 {
        Err(e) => (Err(e), title.1),
        Ok(SectionTitle::NoSection) => (Ok(realm), title.1),
        Ok(t) => {
            let body = section_read(title.1, t, realm);
            match body.0 {
                Err(e) => (Err(e), body.1),
                Ok(filled) => sections_read(body.1, filled),
            }
        },
    }
}

#[via_fn]
proof fn sections_read_decreases(lines: Seq<LineView>, realm: RealmView) {
    let title = section_title_read(lines);
    if let Ok(t) = title.0 {
        if t != SectionTitle::NoSection {
            lemma_section_read_rest(title.1, t, realm);
        }
    }
}

/// Reads one stat file: the header, the turns, and the sections.
///
/// A failure anywhere is the failure of the whole read, and then there is no
/// record, however much of one had been read.
pub open spec fn realm_read(lines: Seq<LineView>) -> Read<RealmView> {
    let header = header_read(lines);
    let turns = turns_read(header.1);
    if header.0 is Err {
        failed(header)
    } else if turns.0 is Err {
        failed(turns)
    } else {
        sections_read(
            turns.1,
            RealmView {
                realm_number: header.0->Ok_0.0 as int,
                outcome: header.0->Ok_0.1,
                turns_taken_realm: turns.0->Ok_0.0 as int,
                turns_taken_run: turns.0->Ok_0.1 as int,
                ..RealmView::blank()
            },
        )
    }
}

/// Whether `rest` is what is left of `lines` after some lines were taken from
/// the front.
pub open spec fn left_of(rest: Seq<LineView>, lines: Seq<LineView>) -> bool {
    exists|n: int| 0 <= n <= lines.len() && rest == #[trigger] lines.skip(n)
}

/// Takes one line and hands it to `f`, which says what the line means.
///
/// With no line left, or with a line that could not be read, `f` is not
/// called, and the result is that failure.
pub fn parse<T, F>(cursor: &mut LineCursor, f: F) -> (r: Result<T, GatherError>) where
    F: FnOnce(String) -> Result<T, GatherError>,

    requires
        forall|line: String| f.requires((line,)),
    ensures
        final(cursor)@ == pull(old(cursor)@).1,
        match pull(old(cursor)@).0 {
            Ok(text) => exists|line: String| line@ == text && f.ensures((line,), r),
            Err(e) => r matches Err(failure) && failure@ == e,
        },
{
    let line = match cursor.next_line() {
        Ok(line) => line,
        Err(e) => return Err(e),
    };
    f(line)
}

/// Takes one line, which must be `expected`.
pub fn expect_exact_line(cursor: &mut LineCursor, expected: &str) -> (r: Result<(), GatherError>)
    ensures
        result_view(r) == exact_line_read(old(cursor)@, expected@).0,
        final(cursor)@ == exact_line_read(old(cursor)@, expected@).1,
{
    let decode = |line: String| -> (d: Result<(), GatherError>)
        ensures
            result_view(d) == exact_line(line@, expected@),
        { decode_exact_line(line.as_str(), expected) };
    parse(cursor, decode)
}

/// Takes one line, which must be `prefix` and then a number.
pub fn expect_prefix_read_int(cursor: &mut LineCursor, prefix: &str) -> (r: Result<
    i64,
    GatherError,
>)
    ensures
        result_view(r) == prefixed_int_read(old(cursor)@, prefix@).0,
        final(cursor)@ == prefixed_int_read(old(cursor)@, prefix@).1,
{
    let decode = |line: String| -> (d: Result<i64, GatherError>)
        ensures
            result_view(d) == prefixed_int(line@, prefix@),
        { decode_prefixed_int(line.as_str(), prefix) };
    parse(cursor, decode)
}

/// Takes one line, which must be a number and then `postfix`.
pub fn expect_postfix_read_int(cursor: &mut LineCursor, postfix: &str) -> (r: Result<
    i64,
    GatherError,
>)
    ensures
        result_view(r) == postfixed_int_read(old(cursor)@, postfix@).0,
        final(cursor)@ == postfixed_int_read(old(cursor)@, postfix@).1,
{
    let decode = |line: String| -> (d: Result<i64, GatherError>)
        ensures
            result_view(d) == postfixed_int(line@, postfix@),
        { decode_postfixed_int(line.as_str(), postfix) };
    parse(cursor, decode)
}

/// Reads the outcome, trying a second line where the first does not begin
/// like an outcome line, and settling for `Unknown` where the second does not
/// either.
pub fn read_victory(cursor: &mut LineCursor) -> (r: Result<Outcome, GatherError>)
    ensures
        result_view(r) == victory_read(old(cursor)@).0,
        final(cursor)@ == victory_read(old(cursor)@).1,
{
    let parser_fn = |line: String| -> (d: Result<Outcome, GatherError>)
        ensures
            result_view(d) == victory(line@),
        { decode_victory(line.as_str()) };
    match parse(cursor, parser_fn) {
        Err(GatherError::MissingExpectedPrefix(_)) => match parse(cursor, parser_fn) {
            Err(GatherError::MissingExpectedPrefix(_)) => Ok(Outcome::Unknown),
            other => other,
        },
        other => other,
    }
}

/// Takes one line as the title of the next section.
pub fn read_section_title(cursor: &mut LineCursor) -> (r: Result<SectionTitle, GatherError>)
    ensures
        result_view(r) == section_title_read(old(cursor)@).0,
        final(cursor)@ == section_title_read(old(cursor)@).1,
{
    let decode = |line: String| -> (d: Result<SectionTitle, GatherError>)
        ensures
            d == Ok::<SectionTitle, GatherError>(section_title(line@)),
        { Ok(decode_section_title(line.as_str())) };
    match parse(cursor, decode) {
        Ok(title) => Ok(title),
        Err(e) => if e.ends_section() {
            Ok(SectionTitle::NoSection)
        } else {
            Err(e)
        },
    }
}

/// Decodes a line as an entry of the given shape.
pub fn decode_entry(shape: EntryShape, line: &str) -> (r: Result<(String, usize), GatherError>)
    ensures
        result_view(r) == entry(shape, line@),
{
    match shape {
        EntryShape::NameFirst => decode_prefix_entry(line),
        EntryShape::CountFirst => decode_postfix_entry(line),
    }
}

/// Reads one section of entries of the given shape into a counter.
pub fn read_hashmap_until_empty(cursor: &mut LineCursor, shape: EntryShape) -> (r: Result<
    Counter,
    GatherError,
>)
    ensures
        result_view(r) == counter_read(old(cursor)@, shape).0,
        final(cursor)@ == counter_read(old(cursor)@, shape).1,
{
    let ghost start = cursor@;
    let ghost mut done: Seq<(Seq<char>, usize)> = Seq::empty();
    let mut result = Counter::new();
    assert(done.map_values(|e: (Seq<char>, usize)| widen(e)) =~= Seq::empty());
    assert(Seq::<(Seq<char>, usize)>::empty() + entries_read(start, shape).0->Ok_0
        =~= entries_read(start, shape).0->Ok_0);
    loop
        invariant
            start == old(cursor)@,
            result@ == tally(done),
            entries_read(start, shape) == after(done, entries_read(cursor@, shape)),
        decreases cursor@.len(),
    {
        let ghost here = cursor@;
        let decode = |line: String| -> (d: Result<(String, usize), GatherError>)
            ensures
                result_view(d) == entry(shape, line@),
            { decode_entry(shape, line.as_str()) };
        let step = parse(cursor, decode);
        match step {
            Ok((key, value)) => {
                let ghost e = (key@, value);
                result.insert(key, value);
                proof {
                    lemma_tally_push(done, e);
                    let rest = entries_read(here.skip(1), shape);
                    if rest.0 is Ok {
                        assert(done + (seq![e] + rest.0->Ok_0) =~= done.push(e) + rest.0->Ok_0);
                    }
                    done = done.push(e);
                }
            },
            Err(e) => {
                assert(done + Seq::<(Seq<char>, usize)>::empty() =~= done);
                if e.ends_section() {
                    return Ok(result);
                } else {
                    return Err(e);
                }
            },
        }
    }
}

/// Reads one section whose entries have the name first.
pub fn read_hashmap_prefix_until_empty(cursor: &mut LineCursor) -> (r: Result<
    Counter,
    GatherError,
>)
    ensures
        result_view(r) == counter_read(old(cursor)@, EntryShape::NameFirst).0,
        final(cursor)@ == counter_read(old(cursor)@, EntryShape::NameFirst).1,
{
    read_hashmap_until_empty(cursor, EntryShape::NameFirst)
}

/// Reads one section whose entries have the count first.
pub fn read_hashmap_postfix_until_empty(cursor: &mut LineCursor) -> (r: Result<
    Counter,
    GatherError,
>)
    ensures
        result_view(r) == counter_read(old(cursor)@, EntryShape::CountFirst).0,
        final(cursor)@ == counter_read(old(cursor)@, EntryShape::CountFirst).1,
{
    read_hashmap_until_empty(cursor, EntryShape::CountFirst)
}

/// Reads one section of names alone into a set.
pub fn read_hashset_until_empty(cursor: &mut LineCursor) -> (r: Result<NameSet, GatherError>)
    ensures
        result_view(r) == name_set_read(old(cursor)@).0,
        final(cursor)@ == name_set_read(old(cursor)@).1,
{
    let ghost start = cursor@;
    let ghost mut done: Seq<Seq<char>> = Seq::empty();
    let mut result = NameSet::new();
    assert(done.to_set() =~= Set::empty());
    assert(Seq::<Seq<char>>::empty() + names_read(start).0->Ok_0 =~= names_read(start).0->Ok_0);
    loop
        invariant
            start == old(cursor)@,
            result@ == done.to_set(),
            names_read(start) == after(done, names_read(cursor@)),
        decreases cursor@.len(),
    {
        let ghost here = cursor@;
        let decode = |line: String| -> (d: Result<String, GatherError>)
            ensures
                result_view(d) == bare_key(line@),
            { decode_bare_key(line) };
        let step = parse(cursor, decode);
        match step {
            Ok(name) => {
                let ghost n = name@;
                result.insert(name);
                proof {
                    done.lemma_push_to_set_commute(n);
                    let rest = names_read(here.skip(1));
                    if rest.0 is Ok {
                        assert(done + (seq![n] + rest.0->Ok_0) =~= done.push(n) + rest.0->Ok_0);
                    }
                    done = done.push(n);
                }
            },
            Err(e) => {
                assert(done + Seq::<Seq<char>>::empty() =~= done);
                if e.ends_section() {
                    return Ok(result);
                } else {
                    return Err(e);
                }
            },
        }
    }
}

/// Reads the header.
fn read_header(cursor: &mut LineCursor) -> (r: Result<(i64, Outcome), GatherError>)
    ensures
        result_view(r) == header_read(old(cursor)@).0,
        final(cursor)@ == header_read(old(cursor)@).1,
{
    let realm_number = match expect_prefix_read_int(cursor, "Realm ") {
        Ok(val) => val,
        Err(err) => return Err(err),
    };
    let outcome = match read_victory(cursor) {
        Ok(val) => val,
        Err(err) => return Err(err),
    };
    Ok((realm_number, outcome))
}

/// Reads the block of the turns taken.
fn read_turns(cursor: &mut LineCursor) -> (r: Result<(i64, i64), GatherError>)
    ensures
        result_view(r) == turns_read(old(cursor)@).0,
        final(cursor)@ == turns_read(old(cursor)@).1,
{
    match expect_exact_line(cursor, "") {
        Ok(_) => (),
        Err(err) => return Err(err),
    };
    match expect_exact_line(cursor, "Turns taken:") {
        Ok(_) => (),
        Err(err) => return Err(err),
    };
    let turns_taken_realm = match expect_postfix_read_int(cursor, " (L)") {
        Ok(val) => val,
        Err(err) => return Err(err),
    };
    let turns_taken_run = match expect_postfix_read_int(cursor, " (G)") {
        Ok(val) => val,
        Err(err) => return Err(err),
    };
    match expect_exact_line(cursor, "") {
        Ok(_) => (),
        Err(err) => return Err(err),
    };
    Ok((turns_taken_realm, turns_taken_run))
}

/// Reads the entries of the section `title` and puts them into `realm`.
fn read_section(cursor: &mut LineCursor, title: SectionTitle, realm: Realm) -> (r: Result<
    Realm,
    GatherError,
>)
    ensures
        result_view(r) == section_read(old(cursor)@, title, realm@).0,
        final(cursor)@ == section_read(old(cursor)@, title, realm@).1,
{
    let mut realm = realm;
    match title {
        SectionTitle::SpellCasts => realm.spell_casts = match read_hashmap_prefix_until_empty(
            cursor,
        ) {
            Ok(val) => Some(val),
            Err(err) => return Err(err),
        },
        SectionTitle::DamageToEnemies => realm.damage_to_enemies =
            match read_hashmap_postfix_until_empty(cursor) {
            Ok(val) => Some(val),
            Err(err) => return Err(err),
        },
        SectionTitle::DamageToWizard => realm.damage_to_wizard =
            match read_hashmap_postfix_until_empty(cursor) {
            Ok(val) => Some(val),
            Err(err) => return Err(err),
        },
        SectionTitle::ItemsUsed => realm.items_used = match read_hashmap_prefix_until_empty(
            cursor,
        ) {
            Ok(val) => Some(val),
            Err(err) => return Err(err),
        },
        SectionTitle::Purchases => realm.purchases = match read_hashset_until_empty(cursor) {
            Ok(val) => Some(val),
            Err(err) => return Err(err),
        },
        SectionTitle::NoSection => (),
    }
    Ok(realm)
}

/// Reads one stat file from the lines that `cursor` has left.
///
/// The header comes first, then the turns, then the sections, each read to
/// its end before the next title is looked for. The record ends with the
/// first line that is no title, or with the input. Whatever fails first fails
/// the whole read.
pub fn gather_stats(cursor: &mut LineCursor) -> (r: Result<Realm, GatherError>)
    ensures
        result_view(r) == realm_read(old(cursor)@).0,
        final(cursor)@ == realm_read(old(cursor)@).1,
        r matches Ok(realm) ==> realm@.names_nonempty(),
        r matches Err(e) ==> e@ != GatherErrorView::SectionEnded,
{
    proof {
        lemma_realm_read_failure(cursor@);
    }
    let mut realm = Realm::default();

    let (realm_number, outcome) = match read_header(cursor) {
        Ok(val) => val,
        Err(err) => return Err(err),
    };
    realm.realm_number = realm_number;
    realm.outcome = outcome;

    let (turns_taken_realm, turns_taken_run) = match read_turns(cursor) {
        Ok(val) => val,
        Err(err) => return Err(err),
    };
    realm.turns_taken_realm = turns_taken_realm;
    realm.turns_taken_run = turns_taken_run;

    loop
        invariant
            sections_read(cursor@, realm@) == realm_read(old(cursor)@),
        decreases cursor@.len(),
    {
        proof {
            lemma_realm_read_named(old(cursor)@);
            lemma_realm_read_failure(old(cursor)@);
        }
        let title = match read_section_title(cursor) {
            Ok(title) => title,
            Err(err) => return Err(err),
        };
        if title == SectionTitle::NoSection {
            return Ok(realm);
        }
        proof {
            lemma_section_read_rest(cursor@, title, realm@);
        }
        realm = match read_section(cursor, title, realm) {
            Ok(filled) => filled,
            Err(err) => return Err(err),
        };
    }
}

/// Reads one stat file from its lines.
pub fn gather_stats_from_lines(lines: Vec<Result<String, String>>) -> (r: Result<
    Realm,
    GatherError,
>)
    ensures
        result_view(r) == realm_read(lines_view(lines@)).0,
        r matches Ok(realm) ==> realm@.names_nonempty(),
        r matches Err(e) ==> e@ != GatherErrorView::SectionEnded,
{
    let mut cursor = LineCursor::new(lines);
    gather_stats(&mut cursor)
}

/// One more entry at the end is one more insertion into the mapping.
pub proof fn lemma_tally_push(entries: Seq<(Seq<char>, usize)>, e: (Seq<char>, usize))
    ensures
        tally(entries.push(e)) == tally(entries).insert(e.0, e.1 as nat),
{
    let f = |e: (Seq<char>, usize)| widen(e);
    assert(entries.push(e).map_values(f).drop_last() =~= entries.map_values(f));
}

/// Within one section the last entry of a name decides its count: where no
/// later entry has the name of entry `i`, the mapping holds the count of
/// entry `i`. Counts of one name are not added up within a section.
pub proof fn lemma_tally_last_wins(entries: Seq<(Seq<char>, usize)>, i: int)
    requires
        0 <= i < entries.len(),
        forall|j: int| i < j < entries.len() ==> (#[trigger] entries[j]).0 != entries[i].0,
    ensures
        tally(entries).contains_key(entries[i].0),
        tally(entries)[entries[i].0] == entries[i].1,
{
    let wide = entries.map_values(|e: (Seq<char>, usize)| widen(e));
    assert forall|j: int| i < j < wide.len() implies (#[trigger] wide[j]).0 != wide[i].0 by {
        assert(wide[j].0 == entries[j].0);
    }
    lemma_map_of_entries_last_wins(wide, i);
}

/// No name of a section of names alone is empty.
pub proof fn lemma_names_read_nonempty(lines: Seq<LineView>, i: int)
    requires
        names_read(lines).0 is Ok,
        0 <= i < names_read(lines).0->Ok_0.len(),
    ensures
        names_read(lines).0->Ok_0[i].len() > 0,
    decreases lines.len(),
{
    if lines.len() > 0 && name_of(lines[0]) is Ok {
        if i > 0 {
            lemma_names_read_nonempty(lines.skip(1), i - 1);
        }
    }
}

/// An entry has a name: no line without one is an entry.
pub proof fn lemma_entry_named(shape: EntryShape, line: Seq<char>)
    ensures
        entry(shape, line) matches Ok(e) ==> e.0.len() > 0,
{
    lemma_find_spec_is_leftmost(line, ": "@);
    lemma_find_spec_is_leftmost(line, " "@);
}

/// Every entry of a section has a name.
pub proof fn lemma_entries_read_named(lines: Seq<LineView>, shape: EntryShape, i: int)
    requires
        entries_read(lines, shape).0 is Ok,
        0 <= i < entries_read(lines, shape).0->Ok_0.len(),
    ensures
        entries_read(lines, shape).0->Ok_0[i].0.len() > 0,
    decreases lines.len(),
{
    if lines.len() > 0 && entry_of(shape, lines[0]) is Ok {
        if i > 0 {
            lemma_entries_read_named(lines.skip(1), shape, i - 1);
        } else {
            lemma_entry_named(shape, lines[0]->Ok_0);
        }
    }
}

/// Every key of the mapping of a section is the name of one of its entries.
pub proof fn lemma_tally_has_entry(entries: Seq<(Seq<char>, usize)>, k: Seq<char>)
    requires
        tally(entries).contains_key(k),
    ensures
        exists|i: int| 0 <= i < entries.len() && (#[trigger] entries[i]).0 == k,
{
    let wide = entries.map_values(|e: (Seq<char>, usize)| widen(e));
    lemma_map_of_entries_has_entry(wide, k);
    let i = choose|i: int| 0 <= i < wide.len() && (#[trigger] wide[i]).0 == k;
    assert(entries[i].0 == k);
}

/// Reading a section into a realm whose names are not empty gives a realm
/// whose names are not empty.
pub proof fn lemma_section_read_named(lines: Seq<LineView>, title: SectionTitle, realm: RealmView)
    requires
        realm.names_nonempty(),
    ensures
        section_read(lines, title, realm).0 matches Ok(filled) ==> filled.names_nonempty(),
{
    if let Ok(filled) = section_read(lines, title, realm).0 {
        assert forall|which: CounterField, k: Seq<char>| #[trigger]
            has_key(filled.counts(which), k) implies k.len() > 0 by {
            if filled.counts(which) != realm.counts(which) {
                let shape = if title == SectionTitle::SpellCasts || title
                    == SectionTitle::ItemsUsed {
                    EntryShape::NameFirst
                } else {
                    EntryShape::CountFirst
                };
                let entries = entries_read(lines, shape).0->Ok_0;
                lemma_tally_has_entry(entries, k);
                let i = choose|i: int| 0 <= i < entries.len() && (#[trigger] entries[i]).0 == k;
                lemma_entries_read_named(lines, shape, i);
            } else {
                assert(has_key(realm.counts(which), k));
            }
        }
        assert forall|k: Seq<char>|
            filled.purchases is Some && #[trigger] filled.purchases->Some_0.contains(
                k,
            ) implies k.len() > 0 by {
            if title == SectionTitle::Purchases {
                let names = names_read(lines).0->Ok_0;
                assert(names.contains(k));
                let i = choose|i: int| 0 <= i < names.len() && names[i] == k;
                lemma_names_read_nonempty(lines, i);
            } else {
                assert(realm.purchases->Some_0.contains(k));
            }
        }
    }
}

/// Reading sections into a realm whose names are not empty gives a realm
/// whose names are not empty.
pub proof fn lemma_sections_read_named(lines: Seq<LineView>, realm: RealmView)
    requires
        realm.names_nonempty(),
    ensures
        sections_read(lines, realm).0 matches Ok(filled) ==> filled.names_nonempty(),
    decreases lines.len(),
{
    let title = section_title_read(lines);
    if let Ok(t) = title.0 {
        if t != SectionTitle::NoSection {
            let body = section_read(title.1, t, realm);
            lemma_section_read_named(title.1, t, realm);
            lemma_section_read_rest(title.1, t, realm);
            if let Ok(filled) = body.0 {
                lemma_sections_read_named(body.1, filled);
            }
        }
    }
}

/// No mapping of a realm that was read from a stat file, and no purchase, has
/// an empty name.
pub proof fn lemma_realm_read_named(lines: Seq<LineView>)
    ensures
        realm_read(lines).0 matches Ok(realm) ==> realm.names_nonempty(),
{
    let header = header_read(lines);
    let turns = turns_read(header.1);
    if header.0 is Ok && turns.0 is Ok {
        let start = RealmView {
            realm_number: header.0->Ok_0.0 as int,
            outcome: header.0->Ok_0.1,
            turns_taken_realm: turns.0->Ok_0.0 as int,
            turns_taken_run: turns.0->Ok_0.1 as int,
            ..RealmView::blank()
        };
        assert(start.names_nonempty()) by {
            assert forall|which: CounterField, k: Seq<char>| #[trigger]
                has_key(start.counts(which), k) implies k.len() > 0 by {
                assert(start.counts(which) is None);
            }
        }
        lemma_sections_read_named(turns.1, start);
    }
}

/// A section reader leaves no more lines than it found.
pub proof fn lemma_entries_read_rest(lines: Seq<LineView>, shape: EntryShape)
    ensures
        entries_read(lines, shape).1.len() <= lines.len(),
    decreases lines.len(),
{
    if lines.len() > 0 {
        lemma_entries_read_rest(lines.skip(1), shape);
    }
}

/// The reader of names leaves no more lines than it found.
pub proof fn lemma_names_read_rest(lines: Seq<LineView>)
    ensures
        names_read(lines).1.len() <= lines.len(),
    decreases lines.len(),
{
    if lines.len() > 0 {
        lemma_names_read_rest(lines.skip(1));
    }
}

/// Reading the entries of a section leaves no more lines than it found.
pub proof fn lemma_section_read_rest(lines: Seq<LineView>, title: SectionTitle, realm: RealmView)
    ensures
        section_read(lines, title, realm).1.len() <= lines.len(),
{
    lemma_entries_read_rest(lines, EntryShape::NameFirst);
    lemma_entries_read_rest(lines, EntryShape::CountFirst);
    lemma_names_read_rest(lines);
}

/// What is left of what is left of `lines` is left of `lines`.
pub proof fn lemma_left_of_left(a: Seq<LineView>, b: Seq<LineView>, lines: Seq<LineView>)
    requires
        left_of(a, b),
        left_of(b, lines),
    ensures
        left_of(a, lines),
{
    let n = choose|n: int| 0 <= n <= b.len() && a == #[trigger] b.skip(n);
    let m = choose|m: int| 0 <= m <= lines.len() && b == #[trigger] lines.skip(m);
    assert(lines.skip(m).skip(n) =~= lines.skip(m + n));
}

/// Taking one line leaves the lines behind it.
pub proof fn lemma_pull_left(lines: Seq<LineView>)
    ensures
        left_of(pull(lines).1, lines),
{
    if lines.len() == 0 {
        assert(lines.skip(0) =~= lines);
    } else {
        assert(pull(lines).1 == lines.skip(1));
    }
}

/// Reading a section takes lines from the front only.
pub proof fn lemma_section_read_left(lines: Seq<LineView>, title: SectionTitle, realm: RealmView)
    ensures
        left_of(section_read(lines, title, realm).1, lines),
{
    lemma_entries_read_left(lines, EntryShape::NameFirst);
    lemma_entries_read_left(lines, EntryShape::CountFirst);
    lemma_names_read_left(lines);
    assert(lines.skip(0) =~= lines);
}

/// Reading entries takes lines from the front only.
pub proof fn lemma_entries_read_left(lines: Seq<LineView>, shape: EntryShape)
    ensures
        left_of(entries_read(lines, shape).1, lines),
    decreases lines.len(),
{
    if lines.len() == 0 {
        assert(lines.skip(0) =~= lines);
    } else {
        lemma_entries_read_left(lines.skip(1), shape);
        lemma_pull_left(lines);
        if entry_of(shape, lines[0]) is Ok {
            lemma_left_of_left(entries_read(lines, shape).1, lines.skip(1), lines);
        }
    }
}

/// Reading names takes lines from the front only.
pub proof fn lemma_names_read_left(lines: Seq<LineView>)
    ensures
        left_of(names_read(lines).1, lines),
    decreases lines.len(),
{
    if lines.len() == 0 {
        assert(lines.skip(0) =~= lines);
    } else {
        lemma_names_read_left(lines.skip(1));
        lemma_pull_left(lines);
        if name_of(lines[0]) is Ok {
            lemma_left_of_left(names_read(lines).1, lines.skip(1), lines);
        }
    }
}

/// Reading the sections takes lines from the front only.
pub proof fn lemma_sections_read_left(lines: Seq<LineView>, realm: RealmView)
    ensures
        left_of(sections_read(lines, realm).1, lines),
    decreases lines.len(),
{
    let title = section_title_read(lines);
    lemma_pull_left(lines);
    if let Ok(t) = title.0 {
        if t != SectionTitle::NoSection {
            let body = section_read(title.1, t, realm);
            lemma_section_read_left(title.1, t, realm);
            lemma_section_read_rest(title.1, t, realm);
            lemma_left_of_left(body.1, title.1, lines);
            if let Ok(filled) = body.0 {
                lemma_sections_read_left(body.1, filled);
                lemma_left_of_left(sections_read(body.1, filled).1, body.1, lines);
            }
        }
    }
}

/// Reading a stat file takes lines from the front only: no line is put back,
/// and none is taken out of turn.
pub proof fn lemma_realm_read_left(lines: Seq<LineView>)
    ensures
        left_of(realm_read(lines).1, lines),
{
    let number = prefixed_int_read(lines, "Realm "@);
    lemma_pull_left(lines);
    let first = victory_line_read(number.1);
    lemma_pull_left(number.1);
    lemma_left_of_left(first.1, number.1, lines);
    let second = victory_line_read(first.1);
    lemma_pull_left(first.1);
    lemma_left_of_left(second.1, first.1, lines);
    let header = header_read(lines);
    assert(left_of(header.1, lines));

    let gap = exact_line_read(header.1, ""@);
    lemma_pull_left(header.1);
    lemma_left_of_left(gap.1, header.1, lines);
    let heading = exact_line_read(gap.1, "Turns taken:"@);
    lemma_pull_left(gap.1);
    lemma_left_of_left(heading.1, gap.1, lines);
    let realm = postfixed_int_read(heading.1, " (L)"@);
    lemma_pull_left(heading.1);
    lemma_left_of_left(realm.1, heading.1, lines);
    let run = postfixed_int_read(realm.1, " (G)"@);
    lemma_pull_left(realm.1);
    lemma_left_of_left(run.1, realm.1, lines);
    let end = exact_line_read(run.1, ""@);
    lemma_pull_left(run.1);
    lemma_left_of_left(end.1, run.1, lines);
    let turns = turns_read(header.1);
    assert(left_of(turns.1, lines));

    if header.0 is Ok && turns.0 is Ok {
        let start = RealmView {
            realm_number: header.0->Ok_0.0 as int,
            outcome: header.0->Ok_0.1,
            turns_taken_realm: turns.0->Ok_0.0 as int,
            turns_taken_run: turns.0->Ok_0.1 as int,
            ..RealmView::blank()
        };
        lemma_sections_read_left(turns.1, start);
        lemma_left_of_left(sections_read(turns.1, start).1, turns.1, lines);
    }
}

/// A section reader never fails with the end of its section.
pub proof fn lemma_entries_read_failure(lines: Seq<LineView>, shape: EntryShape)
    ensures
        entries_read(lines, shape).0 matches Err(e) ==> !e.ends_section(),
    decreases lines.len(),
{
    if lines.len() > 0 {
        lemma_entries_read_failure(lines.skip(1), shape);
    }
}

/// The reader of names never fails with the end of its section.
pub proof fn lemma_names_read_failure(lines: Seq<LineView>)
    ensures
        names_read(lines).0 matches Err(e) ==> !e.ends_section(),
    decreases lines.len(),
{
    if lines.len() > 0 {
        lemma_names_read_failure(lines.skip(1));
    }
}

/// Reading the sections never fails with the end of a section.
pub proof fn lemma_sections_read_failure(lines: Seq<LineView>, realm: RealmView)
    ensures
        sections_read(lines, realm).0 != Err::<RealmView, GatherErrorView>(
            GatherErrorView::SectionEnded,
        ),
    decreases lines.len(),
{
    let title = section_title_read(lines);
    if let Ok(t) = title.0 {
        if t != SectionTitle::NoSection {
            let body = section_read(title.1, t, realm);
            lemma_entries_read_failure(title.1, EntryShape::NameFirst);
            lemma_entries_read_failure(title.1, EntryShape::CountFirst);
            lemma_names_read_failure(title.1);
            lemma_section_read_rest(title.1, t, realm);
            if let Ok(filled) = body.0 {
                lemma_sections_read_failure(body.1, filled);
            }
        }
    }
}

/// The end of a section is no failure of a file: reading a stat file never
/// fails with `SectionEnded`.
pub proof fn lemma_realm_read_failure(lines: Seq<LineView>)
    ensures
        realm_read(lines).0 != Err::<RealmView, GatherErrorView>(GatherErrorView::SectionEnded),
{
    let header = header_read(lines);
    let turns = turns_read(header.1);
    if header.0 is Ok && turns.0 is Ok {
        let start = RealmView {
            realm_number: header.0->Ok_0.0 as int,
            outcome: header.0->Ok_0.1,
            turns_taken_realm: turns.0->Ok_0.0 as int,
            turns_taken_run: turns.0->Ok_0.1 as int,
            ..RealmView::blank()
        };
        lemma_sections_read_failure(turns.1, start);
    }
}

} // verus!
