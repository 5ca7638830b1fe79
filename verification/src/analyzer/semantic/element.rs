//! The place for checks on single elements.  None is made yet: every
//! result passes through as it is.
use crate::analyzer::diagnostic::Diagnostic;
use crate::analyzer::stage::{Peekable, Stage};
use crate::analyzer::syntactic::{reports, Result, ResultView};
use std::collections::VecDeque;
use vstd::prelude::*;

verus! {

pub struct Analyzer<T: Stage<Item = Result>> {
    reader: Peekable<T>,
    trace: VecDeque<Diagnostic>,
}

impl<T: Stage<Item = Result>> Analyzer<T> {
    pub fn new(reader: T) -> (analyzer: Self)
        requires
            reader.well_formed(),
        ensures
            analyzer.well_formed(),
            analyzer.pending() == reader.pending(),
    {
        let analyzer = Self { reader: Peekable::new(reader), trace: VecDeque::new() };
        assert(analyzer.pending() =~= analyzer.reader.pending());
        analyzer
    }
}

impl<T: Stage<Item = Result>> Stage for Analyzer<T> {
    type Item = Result;

    closed spec fn well_formed(&self) -> bool {
        self.reader.well_formed()
    }

    closed spec fn pending(&self) -> Seq<ResultView> {
        reports(self.trace@) + self.reader.pending()
    }

    fn next(&mut self) -> (item: Option<Result>) {
        if let Some(diagnostic) = self.trace.pop_front() {
            assert(self.pending() =~= old(self).pending().skip(1));
            return Some(Result::from(diagnostic));
        }
        let item = self.reader.next();
        assert(self.pending() =~= self.reader.pending());
        assert(old(self).pending() =~= old(self).reader.pending());
        item
    }
}

} // verus!
