//! Character-level helpers: prefix and suffix tests, substring search and
//! decimal integers.
//!
//! A line of a stat file is handled as its sequence of characters. What a
//! text means is said by spec functions over `Seq<char>`; the executable
//! functions compute exactly what those say.

use vstd::prelude::*;

verus! {

/// Why a text is not a decimal integer of the wanted range.
#[derive(Clone, Copy, Debug, PartialEq, Eq, Structural)]
pub enum IntErrorKind {
    /// The text has no characters at all.
    Empty,
    /// A character that is not a decimal digit, or a sign with nothing after it.
    InvalidDigit,
    /// The digits read so far already exceed the largest value of the range.
    PosOverflow,
    /// The digits read so far already fall below the smallest value of the range.
    NegOverflow,
}

/// `c` is one of `'0'` to `'9'`.
pub open spec fn is_digit(c: char) -> bool {
    48 <= c as u32 && c as u32 <= 57
}

/// The value of the decimal digit `c`.
pub open spec fn digit_value(c: char) -> nat
    recommends
        is_digit(c),
{
    (c as u32 - 48) as nat
}

/// The number that the decimal digits `s` write, most significant digit first.
pub open spec fn digits_value(s: Seq<char>) -> nat
    decreases s.len(),
{
    if s.len() == 0 {
        0
    } else {
        digits_value(s.drop_last()) * 10 + digit_value(s.last())
    }
}

/// How many digits `s` starts with.
pub open spec fn digit_run(s: Seq<char>) -> nat
    decreases s.len(),
{
    if s.len() == 0 || !is_digit(s[0]) {
        0
    } else {
        1 + digit_run(s.skip(1))
    }
}

/// What reading `body` as an unsigned decimal number of at most `limit` gives.
///
/// The text is read from the left. The first thing that goes wrong decides the
/// error: digits that already exceed `limit` give `PosOverflow` even when a
/// character that is no digit follows them.
pub open spec fn magnitude_of(body: Seq<char>, limit: nat) -> Result<nat, IntErrorKind> {
    let run = digit_run(body);
    let value = digits_value(body.take(run as int));
    if value > limit {
        Err(IntErrorKind::PosOverflow)
    } else if run < body.len() {
        Err(IntErrorKind::InvalidDigit)
    } else {
        Ok(value)
    }
}

/// What reading `s` as a decimal integer between `min` and `max` gives.
///
/// The text is an optional sign followed by one or more digits, with nothing
/// before, between or after. `'+'` is always a sign; `'-'` is a sign only
/// where `signed` holds, and an ordinary (so invalid) character otherwise.
pub open spec fn decimal_of(s: Seq<char>, signed: bool, min: int, max: int) -> Result<
    int,
    IntErrorKind,
>
    recommends
        min <= 0 <= max,
{
    if s.len() == 0 {
        Err(IntErrorKind::Empty)
    } else {
        let negative = signed && s[0] == '-';
        let body = if s[0] == '+' || negative {
            s.skip(1)
        } else {
            s
        };
        if body.len() == 0 {
            Err(IntErrorKind::InvalidDigit)
        } else if negative {
            match magnitude_of(body, (-min) as nat) {
                Ok(m) => Ok(-(m as int)),
                Err(IntErrorKind::PosOverflow) => Err(IntErrorKind::NegOverflow),
                Err(e) => Err(e),
            }
        } else {
            match magnitude_of(body, max as nat) {
                Ok(m) => Ok(m as int),
                Err(e) => Err(e),
            }
        }
    }
}

/// What reading `s` as an `i64` gives.
pub open spec fn i64_of(s: Seq<char>) -> Result<int, IntErrorKind> {
    decimal_of(s, true, i64::MIN as int, i64::MAX as int)
}

/// What reading `s` as a `usize` gives.
pub open spec fn usize_of(s: Seq<char>) -> Result<int, IntErrorKind> {
    decimal_of(s, false, 0, usize::MAX as int)
}

/// `pat` stands in `s` at index `i`.
pub open spec fn occurs_at(s: Seq<char>, pat: Seq<char>, i: int) -> bool {
    0 <= i && i + pat.len() <= s.len() && s.subrange(i, i + pat.len()) == pat
}

/// `i` is the leftmost index at which `pat` stands in `s`.
pub open spec fn first_occurrence(s: Seq<char>, pat: Seq<char>, i: int) -> bool {
    occurs_at(s, pat, i) && forall|j: int| 0 <= j < i ==> !occurs_at(s, pat, j)
}

/// The leftmost index at which `pat` stands in `s`, if it stands anywhere.
pub open spec fn find_spec(s: Seq<char>, pat: Seq<char>) -> Option<int> {
    if exists|i: int| occurs_at(s, pat, i) {
        Some(choose|i: int| first_occurrence(s, pat, i))
    } else {
        None
    }
}

/// The characters of `s`, in order.
pub fn chars_of(s: &str) -> (out: Vec<char>)
    ensures
        out@ == s@,
{
    let mut out: Vec<char> = Vec::new();
    for c in it: s.chars()
        invariant
            it.seq() == s@,
            out@ == it.seq().take(it.index() as int),
    {
        out.push(c);
    }
    out
}

/// Whether `s` begins with `prefix`.
pub fn starts_with(s: &[char], prefix: &[char]) -> (r: bool)
    ensures
        r == prefix@.is_prefix_of(s@),
{
    matches_at(s, prefix, 0)
}

/// Whether `s` ends with `suffix`.
pub fn ends_with(s: &[char], suffix: &[char]) -> (r: bool)
    ensures
        r == suffix@.is_suffix_of(s@),
{
    if suffix.len() > s.len() {
        false
    } else {
        matches_at(s, suffix, s.len() - suffix.len())
    }
}

/// Whether `pat` stands in `s` at index `at`.
pub fn matches_at(s: &[char], pat: &[char], at: usize) -> (r: bool)
    ensures
        r == occurs_at(s@, pat@, at as int),
{
    if at > s.len() || pat.len() > s.len() - at {
        return false;
    }
    let mut k: usize = 0;
    while k < pat.len()
        invariant
            at + pat.len() <= s.len(),
            k <= pat.len(),
            forall|j: int| 0 <= j < k ==> s[at + j] == pat[j],
        decreases pat.len() - k,
    {
        if s[at + k] != pat[k] {
            assert(s@.subrange(at as int, at + pat.len())[k as int] == s[at + k]);
            return false;
        }
        k += 1;
    }
    assert(s@.subrange(at as int, at + pat.len()) =~= pat@);
    true
}

/// The leftmost index at which `pat` stands in `s`.
pub fn find(s: &[char], pat: &[char]) -> (r: Option<usize>)
    ensures
        r.is_some() == find_spec(s@, pat@).is_some(),
        r matches Some(i) ==> find_spec(s@, pat@) == Some(i as int) && first_occurrence(
            s@,
            pat@,
            i as int,
        ),
{
    if pat.len() > s.len() {
        return None;
    }
    let last: usize = s.len() - pat.len();
    let mut i: usize = 0;
    loop
        invariant
            last == s.len() - pat.len(),
            i <= last,
            forall|j: int| 0 <= j < i ==> !occurs_at(s@, pat@, j),
        decreases last - i,
    {
        if matches_at(s, pat, i) {
            proof {
                lemma_first_occurrence_is_found(s@, pat@, i as int);
            }
            return Some(i);
        }
        if i == last {
            return None;
        }
        i += 1;
    }
}

/// Reads the characters of `s` from `start` on as an unsigned decimal number
/// of at most `limit`.
fn read_magnitude(s: &[char], start: usize, limit: u64) -> (r: Result<u64, IntErrorKind>)
    requires
        start <= s.len(),
    ensures
        match magnitude_of(s@.skip(start as int), limit as nat) {
            Ok(m) => r == Ok::<u64, IntErrorKind>(m as u64) && m <= limit,
            Err(e) => r == Err::<u64, IntErrorKind>(e),
        },
{
    let ghost body = s@.skip(start as int);
    let mut acc: u64 = 0;
    let mut i: usize = start;
    while i < s.len()
        invariant
            start <= i <= s.len(),
            body == s@.skip(start as int),
            forall|j: int| 0 <= j < i - start ==> is_digit(#[trigger] body[j]),
            acc == digits_value(body.take(i - start)),
            acc <= limit,
        decreases s.len() - i,
    {
        let c = s[i];
        let code: u32 = c as u32;
        assert(body[i - start] == c);
        if code < 48 || code > 57 {
            proof {
                lemma_digit_run(body, i - start);
            }
            return Err(IntErrorKind::InvalidDigit);
        }
        let d: u64 = (code - 48) as u64;
        proof {
            assert(body.take(i - start + 1).drop_last() =~= body.take(i - start));
            assert(body.take(i - start + 1).last() == c);
            assert(digits_value(body.take(i - start + 1)) == acc * 10 + d);
        }
        if acc > limit / 10 || d > limit - acc * 10 {
            proof {
                // The run of digits reaches at least one character further, and
                // a longer run never writes a smaller number.
                let run = digit_run(body) as int;
                lemma_digit_run_marks_end(body);
                lemma_digit_run_bound(body);
                assert(run > i - start);
                lemma_digits_value_grows(body.take(run), i - start + 1, run);
                assert(body.take(run).take(i - start + 1) =~= body.take(i - start + 1));
                assert(body.take(run).take(run) =~= body.take(run));
            }
            return Err(IntErrorKind::PosOverflow);
        }
        acc = acc * 10 + d;
        i += 1;
    }
    proof {
        lemma_digit_run(body, i - start);
        assert(body.take(i - start) =~= body);
    }
    Ok(acc)
}

/// Reads `s` as an `i64`: an optional `'+'` or `'-'`, then decimal digits.
pub fn parse_i64(s: &[char]) -> (r: Result<i64, IntErrorKind>)
    ensures
        match i64_of(s@) {
            Ok(v) => r == Ok::<i64, IntErrorKind>(v as i64) && i64::MIN <= v <= i64::MAX,
            Err(e) => r == Err::<i64, IntErrorKind>(e),
        },
{
    if s.len() == 0 {
        return Err(IntErrorKind::Empty);
    }
    let negative = s[0] == '-';
    let start: usize = if s[0] == '+' || negative {
        1
    } else {
        0
    };
    assert(s@.skip(0) =~= s@);
    if start == s.len() {
        return Err(IntErrorKind::InvalidDigit);
    }
    if negative {
        match read_magnitude(s, start, 9223372036854775808u64) {
            Ok(m) => {
                if m == 9223372036854775808u64 {
                    Ok(i64::MIN)
                } else {
                    Ok(-(m as i64))
                }
            },
            Err(IntErrorKind::PosOverflow) => Err(IntErrorKind::NegOverflow),
            Err(e) => Err(e),
        }
    } else {
        match read_magnitude(s, start, 9223372036854775807u64) {
            Ok(m) => Ok(m as i64),
            Err(e) => Err(e),
        }
    }
}

/// Reads `s` as a `usize`: an optional `'+'`, then decimal digits.
pub fn parse_usize(s: &[char]) -> (r: Result<usize, IntErrorKind>)
    ensures
        match usize_of(s@) {
            Ok(v) => r == Ok::<usize, IntErrorKind>(v as usize) && 0 <= v <= usize::MAX,
            Err(e) => r == Err::<usize, IntErrorKind>(e),
        },
{
    if s.len() == 0 {
        return Err(IntErrorKind::Empty);
    }
    let start: usize = if s[0] == '+' {
        1
    } else {
        0
    };
    assert(s@.skip(0) =~= s@);
    if start == s.len() {
        return Err(IntErrorKind::InvalidDigit);
    }
    match read_magnitude(s, start, usize::MAX as u64) {
        Ok(m) => Ok(m as usize),
        Err(e) => Err(e),
    }
}

/// A leftmost occurrence is the only leftmost occurrence, so `find_spec` is it.
pub proof fn lemma_first_occurrence_is_found(s: Seq<char>, pat: Seq<char>, i: int)
    requires
        first_occurrence(s, pat, i),
    ensures
        find_spec(s, pat) == Some(i),
{
    let j = choose|j: int| first_occurrence(s, pat, j);
    assert(first_occurrence(s, pat, j));
    if j < i {
        assert(!occurs_at(s, pat, j));
    }
    if i < j {
        assert(!occurs_at(s, pat, i));
    }
}

/// Where `pat` stands anywhere in `s`, it stands somewhere leftmost.
pub proof fn lemma_leftmost_occurrence(s: Seq<char>, pat: Seq<char>, i: int)
    requires
        occurs_at(s, pat, i),
    ensures
        exists|j: int| first_occurrence(s, pat, j),
    decreases i,
{
    if exists|j: int| 0 <= j < i && occurs_at(s, pat, j) {
        let j = choose|j: int| 0 <= j < i && occurs_at(s, pat, j);
        lemma_leftmost_occurrence(s, pat, j);
    } else {
        assert(first_occurrence(s, pat, i));
    }
}

/// What `find_spec` gives is a leftmost occurrence.
pub proof fn lemma_find_spec_is_leftmost(s: Seq<char>, pat: Seq<char>)
    ensures
        find_spec(s, pat) matches Some(at) ==> first_occurrence(s, pat, at),
{
    if exists|i: int| occurs_at(s, pat, i) {
        let i = choose|i: int| occurs_at(s, pat, i);
        lemma_leftmost_occurrence(s, pat, i);
    }
}

/// Each digit but the last weighs ten times more than its right neighbour, so
/// a longer run of digits never writes a smaller number.
pub proof fn lemma_digits_value_grows(s: Seq<char>, k: int, n: int)
    requires
        0 <= k <= n <= s.len(),
    ensures
        digits_value(s.take(k)) <= digits_value(s.take(n)),
    decreases n - k,
{
    if k < n {
        lemma_digits_value_grows(s, k, n - 1);
        assert(s.take(n).drop_last() =~= s.take(n - 1));
    }
}

/// `digit_run` is the index of the first character that is no digit, or the
/// length where there is none.
pub proof fn lemma_digit_run(s: Seq<char>, n: int)
    requires
        0 <= n <= s.len(),
        forall|i: int| 0 <= i < n ==> is_digit(#[trigger] s[i]),
        n == s.len() || !is_digit(s[n]),
    ensures
        digit_run(s) == n,
    decreases n,
{
    if n > 0 {
        let t = s.skip(1);
        assert forall|i: int| 0 <= i < n - 1 implies is_digit(#[trigger] t[i]) by {
            assert(t[i] == s[i + 1]);
        }
        lemma_digit_run(t, n - 1);
    }
}

/// `digit_run` never exceeds the length.
pub proof fn lemma_digit_run_bound(s: Seq<char>)
    ensures
        digit_run(s) <= s.len(),
    decreases s.len(),
{
    if s.len() > 0 && is_digit(s[0]) {
        lemma_digit_run_bound(s.skip(1));
    }
}

/// Every character before `digit_run` is a digit, and the one at it, if there
/// is one, is not.
pub proof fn lemma_digit_run_marks_end(s: Seq<char>)
    ensures
        forall|i: int| 0 <= i < digit_run(s) ==> is_digit(#[trigger] s[i]),
        digit_run(s) < s.len() ==> !is_digit(s[digit_run(s) as int]),
    decreases s.len(),
{
    if s.len() > 0 && is_digit(s[0]) {
        let t = s.skip(1);
        lemma_digit_run_marks_end(t);
        lemma_digit_run_bound(t);
        assert forall|i: int| 0 <= i < digit_run(s) implies is_digit(#[trigger] s[i]) by {
            if i > 0 {
                assert(s[i] == t[i - 1]);
            }
        }
        if digit_run(s) < s.len() {
            assert(s[digit_run(s) as int] == t[digit_run(t) as int]);
        }
    }
}

} // verus!
