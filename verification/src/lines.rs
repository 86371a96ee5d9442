//! `LineCursor`: the lines of one input, handed out one by one, front to back.

use crate::error::{result_view, GatherError, GatherErrorView};
use vstd::prelude::*;

verus! {

/// One line as it was read: its text, or what the failed read said of itself.
pub type LineView = Result<Seq<char>, Seq<char>>;

/// One read line as plain values.
pub open spec fn line_view(line: Result<String, String>) -> LineView {
    match line {
        Ok(text) => Ok(text@),
        Err(failure) => Err(failure@),
    }
}

/// Read lines as plain values.
pub open spec fn lines_view(lines: Seq<Result<String, String>>) -> Seq<LineView> {
    Seq::new(lines.len(), |i: int| line_view(lines[i]))
}

/// What taking the next line from `lines` gives, and the lines that are left.
///
/// With no line left the input has ended, and stays ended. A line that could
/// not be read is taken like any other, and gives the read failure.
pub open spec fn pull(lines: Seq<LineView>) -> (Result<Seq<char>, GatherErrorView>, Seq<LineView>) {
    if lines.len() == 0 {
        (Err(GatherErrorView::ReachedEOF), lines)
    } else {
        (
            match lines[0] {
                Ok(text) => Ok(text),
                Err(failure) => Err(GatherErrorView::IO(failure)),
            },
            lines.skip(1),
        )
    }
}

/// The lines of one input, forward only: a line that was taken is gone.
///
/// Its view is the sequence of the lines not yet taken.
#[derive(Debug)]
pub struct LineCursor {
    lines: Vec<Result<String, String>>,
    taken: usize,
}

impl View for LineCursor {
    type V = Seq<LineView>;

    closed spec fn view(&self) -> Seq<LineView> {
        lines_view(self.lines@).skip(self.taken as int)
    }
}

impl LineCursor {
    #[verifier::type_invariant]
    spec fn taken_in_range(self) -> bool {
        self.taken <= self.lines@.len()
    }

    /// A cursor before the first of `lines`.
    pub fn new(lines: Vec<Result<String, String>>) -> (cursor: LineCursor)
        ensures
            cursor@ == lines_view(lines@),
    {
        let cursor = LineCursor { lines, taken: 0 };
        assert(cursor@ =~= lines_view(lines@));
        cursor
    }

    /// How many lines are left.
    pub fn remaining(&self) -> (n: usize)
        ensures
            n == self@.len(),
    {
        proof {
            use_type_invariant(self);
        }
        self.lines.len() - self.taken
    }

    /// Takes the next line.
    pub fn next_line(&mut self) -> (line: Result<String, GatherError>)
        ensures
            result_view(line) == pull(old(self)@).0,
            final(self)@ == pull(old(self)@).1,
    {
        proof {
            use_type_invariant(&*self);
        }
        if self.taken >= self.lines.len() {
            return Err(GatherError::ReachedEOF);
        }
        let at: usize = self.taken;
        let line = match &self.lines[at] {
            Ok(text) => Ok(text.clone()),
            Err(failure) => Err(GatherError::IO(failure.clone())),
        };
        self.taken = at + 1;
        assert(self@ =~= old(self)@.skip(1));
        line
    }
}

} // verus!
