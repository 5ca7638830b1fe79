//! Source locations and the messages that every stage can attach to them.
pub mod render;

use std::rc::Rc;
use vstd::prelude::*;

verus! {

/// A place in the source: how many characters were read before it, and the
/// zero-based column and row that this amounts to.
#[derive(Clone, Copy, Debug, PartialEq, Eq, Structural)]
pub struct Position {
    pub abs: usize,
    pub col: usize,
    pub row: usize,
}

impl Position {
    /// The position reached from `self` by reading `c`.
    pub open spec fn after(self, c: char) -> Position {
        if c == '\n' {
            Position { abs: (self.abs + 1) as usize, col: 0, row: (self.row + 1) as usize }
        } else {
            Position { abs: (self.abs + 1) as usize, col: (self.col + 1) as usize, row: self.row }
        }
    }

    /// The position reached from `self` by reading `chars`, first to last.
    pub open spec fn after_all(self, chars: Seq<char>) -> Position
        decreases chars.len(),
    {
        if chars.len() == 0 {
            self
        } else {
            self.after(chars[0]).after_all(chars.skip(1))
        }
    }

    /// Column and row never run ahead of the number of characters read.
    pub open spec fn well_formed(self) -> bool {
        self.col <= self.abs && self.row <= self.abs
    }
}

impl Default for Position {
    fn default() -> (position: Self)
        ensures
            position == (Position { abs: 0, col: 0, row: 0 }),
    {
        Position { abs: 0, col: 0, row: 0 }
    }
}

/// `Rc::clone`: a second handle to the allocation behind `handle`, so the
/// value behind the result is the value behind `handle`.
#[verifier::external_body]
pub(crate) fn share<T>(handle: &Rc<T>) -> (shared: Rc<T>)
    ensures
        shared == *handle,
{
    Rc::clone(handle)
}

/// The half-open range `[start, end)` of a named source.
#[derive(Debug)]
pub struct Span {
    pub end: Position,
    pub source: Rc<String>,
    pub start: Position,
}

pub struct SpanView {
    pub source: Seq<char>,
    pub start: Position,
    pub end: Position,
}

impl View for Span {
    type V = SpanView;

    open spec fn view(&self) -> SpanView {
        SpanView { source: self.source@, start: self.start, end: self.end }
    }
}

impl SpanView {
    /// The range does not end before it starts.
    pub open spec fn well_formed(self) -> bool {
        self.start.abs <= self.end.abs
    }

    /// The number of characters in the range.
    pub open spec fn len(self) -> int {
        self.end.abs - self.start.abs
    }

    /// The range from the start of `self` to the end of `last`.
    pub open spec fn through(self, last: SpanView) -> SpanView {
        SpanView { source: self.source, start: self.start, end: last.end }
    }
}

impl Span {
    pub fn new(source: Rc<String>, start: Position, end: Position) -> (span: Self)
        ensures
            span == (Span { end, source, start }),
    {
        Self { end, source, start }
    }
}

impl Clone for Span {
    fn clone(&self) -> (span: Self)
        ensures
            span == *self,
    {
        Span { end: self.end, source: share(&self.source), start: self.start }
    }
}

impl Default for Span {
    fn default() -> (span: Self)
        ensures
            span@ == (SpanView {
                source: Seq::empty(),
                start: Position { abs: 0, col: 0, row: 0 },
                end: Position { abs: 0, col: 0, row: 0 },
            }),
    {
        Span { end: Position::default(), source: Rc::new(String::new()), start: Position::default() }
    }
}

/// How serious a diagnostic is.
#[derive(Clone, Copy, Debug, PartialEq, Eq, Structural)]
pub enum Kind {
    Critical,
    Error,
    Debug,
    Warning,
}

/// A message about a range of the source.
#[derive(Debug)]
pub struct Diagnostic {
    pub kind: Kind,
    pub message: String,
    pub span: Span,
}

pub struct DiagnosticView {
    pub kind: Kind,
    pub message: Seq<char>,
    pub span: SpanView,
}

impl View for Diagnostic {
    type V = DiagnosticView;

    open spec fn view(&self) -> DiagnosticView {
        DiagnosticView { kind: self.kind, message: self.message@, span: self.span@ }
    }
}

impl Diagnostic {
    pub fn new(kind: Kind, message: &str, span: Span) -> (diagnostic: Self)
        ensures
            diagnostic@ == (DiagnosticView { kind, message: message@, span: span@ }),
    {
        Self { kind, message: message.to_owned(), span }
    }
}

impl Clone for Diagnostic {
    fn clone(&self) -> (diagnostic: Self)
        ensures
            diagnostic == *self,
    {
        Diagnostic { kind: self.kind, message: self.message.clone(), span: self.span.clone() }
    }
}

} // verus!
