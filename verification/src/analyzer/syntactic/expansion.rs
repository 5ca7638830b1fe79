//! The place between parsing and checking where the tree may one day be
//! rewritten.  For now every result passes through as it is.
use crate::analyzer::diagnostic::Diagnostic;
use crate::analyzer::stage::{Peekable, Stage};
use crate::analyzer::syntactic::{reports, Result, ResultView};
use std::collections::VecDeque;
use vstd::prelude::*;

verus! {

pub struct Analyzer<I: Stage<Item = Result>> {
    trace: VecDeque<Diagnostic>,
    upstream: Peekable<I>,
}

impl<I: Stage<Item = Result>> Analyzer<I> {
    pub fn new(upstream: I) -> (analyzer: Self)
        requires
            upstream.well_formed(),
        ensures
            analyzer.well_formed(),
            analyzer.pending() == upstream.pending(),
    {
        let upstream = Peekable::new(upstream);
        let trace = VecDeque::new();
        let analyzer = Self { trace, upstream };
        assert(analyzer.pending() =~= analyzer.upstream.pending());
        analyzer
    }
}

impl<I: Stage<Item = Result>> Stage for Analyzer<I> {
    type Item = Result;

    closed spec fn well_formed(&self) -> bool {
        self.upstream.well_formed()
    }

    closed spec fn pending(&self) -> Seq<ResultView> {
        reports(self.trace@) + self.upstream.pending()
    }

    fn next(&mut self) -> (item: Option<Result>) {
        if let Some(diagnostic) = self.trace.pop_front() {
            assert(self.pending() =~= old(self).pending().skip(1));
            return Some(Result::from(diagnostic));
        }
        let item = self.upstream.next();
        assert(self.pending() =~= self.upstream.pending());
        assert(old(self).pending() =~= old(self).upstream.pending());
        item
    }
}

} // verus!
