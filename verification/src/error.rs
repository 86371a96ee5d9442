//! The ways in which reading a stat file fails.

use crate::text::IntErrorKind;
use vstd::prelude::*;

verus! {

/// Why a line, or a whole stat file, could not be read.
#[derive(Debug, PartialEq, Eq)]
pub enum GatherError {
    /// Reading the input failed. Holds what the failure said of itself.
    IO(String),
    /// A number was expected and the text is not one.
    ParseInt(IntErrorKind),
    /// A line was expected and the input has no more lines.
    ReachedEOF,
    /// The line does not begin with the text held here.
    MissingExpectedPrefix(String),
    /// The line is shorter than the text held here, which it should end with.
    LineTooShortToContainExpected(String),
    /// The line does not end with the text held here.
    MissingExpectedPostfix(String),
    /// The line is not the fixed line that the format has at this place.
    MissingExpectedDividerLine,
    /// The outcome line names neither a victory nor a defeat.
    NotVictoryOrDefeat,
    /// The line does not belong to the section being read. The section
    /// readers take this as the end of the section; no file fails with it.
    SectionEnded,
}

/// A `GatherError` as plain values.
pub enum GatherErrorView {
    IO(Seq<char>),
    ParseInt(IntErrorKind),
    ReachedEOF,
    MissingExpectedPrefix(Seq<char>),
    LineTooShortToContainExpected(Seq<char>),
    MissingExpectedPostfix(Seq<char>),
    MissingExpectedDividerLine,
    NotVictoryOrDefeat,
    SectionEnded,
}

impl View for GatherError {
    type V = GatherErrorView;

    open spec fn view(&self) -> GatherErrorView {
        match self {
            GatherError::IO(m) => GatherErrorView::IO(m@),
            GatherError::ParseInt(k) => GatherErrorView::ParseInt(*k),
            GatherError::ReachedEOF => GatherErrorView::ReachedEOF,
            GatherError::MissingExpectedPrefix(p) => GatherErrorView::MissingExpectedPrefix(p@),
            GatherError::LineTooShortToContainExpected(p) => {
                GatherErrorView::LineTooShortToContainExpected(p@)
            },
            GatherError::MissingExpectedPostfix(p) => GatherErrorView::MissingExpectedPostfix(p@),
            GatherError::MissingExpectedDividerLine => GatherErrorView::MissingExpectedDividerLine,
            GatherError::NotVictoryOrDefeat => GatherErrorView::NotVictoryOrDefeat,
            GatherError::SectionEnded => GatherErrorView::SectionEnded,
        }
    }
}

/// A result of reading as plain values.
pub open spec fn result_view<T: View>(r: Result<T, GatherError>) -> Result<T::V, GatherErrorView> {
    match r {
        Ok(v) => Ok(v@),
        Err(e) => Err(e@),
    }
}

impl GatherErrorView {
    /// Whether a section reader takes this error as the end of its section:
    /// the line does not belong to the section, or the input has ended.
    pub open spec fn ends_section(self) -> bool {
        self == GatherErrorView::SectionEnded || self == GatherErrorView::ReachedEOF
    }
}

impl GatherError {
    /// Whether a section reader takes this error as the end of its section.
    pub fn ends_section(&self) -> (r: bool)
        ensures
            r == self@.ends_section(),
    {
        match self {
            GatherError::SectionEnded => true,
            GatherError::ReachedEOF => true,
            _ => false,
        }
    }
}

} // verus!
