//! Tokens: what the tokenizer cuts the source into.
pub mod tokenizer;

use crate::analyzer::diagnostic::{Span, SpanView};
use vstd::prelude::*;

verus! {

#[derive(Clone, Copy, Debug, PartialEq, Eq, Structural)]
pub enum Delimiter {
    LeftBrace,
    RightBrace,
    Semicolon,
}

#[derive(Debug, PartialEq, Eq)]
pub enum Lexeme {
    Comment(String),
    Identifier(String),
    Literal(String),
}

pub enum LexemeView {
    Comment(Seq<char>),
    Identifier(Seq<char>),
    Literal(Seq<char>),
}

impl View for Lexeme {
    type V = LexemeView;

    open spec fn view(&self) -> LexemeView {
        match self {
            Lexeme::Comment(text) => LexemeView::Comment(text@),
            Lexeme::Identifier(text) => LexemeView::Identifier(text@),
            Lexeme::Literal(text) => LexemeView::Literal(text@),
        }
    }
}

impl Clone for Lexeme {
    fn clone(&self) -> (lexeme: Self)
        ensures
            lexeme == *self,
    {
        match self {
            Lexeme::Comment(text) => Lexeme::Comment(text.clone()),
            Lexeme::Identifier(text) => Lexeme::Identifier(text.clone()),
            Lexeme::Literal(text) => Lexeme::Literal(text.clone()),
        }
    }
}

#[derive(Clone, Copy, Debug, PartialEq, Eq, Structural)]
pub enum Operator {
    Borrow,
    Borrowable,
    Pipe,
}

#[derive(Debug, PartialEq, Eq)]
pub enum Kind {
    Delimiter(Delimiter),
    Lexeme(Lexeme),
    Operator(Operator),
    Unknown(String),
}

pub enum KindView {
    Delimiter(Delimiter),
    Lexeme(LexemeView),
    Operator(Operator),
    Unknown(Seq<char>),
}

impl View for Kind {
    type V = KindView;

    open spec fn view(&self) -> KindView {
        match self {
            Kind::Delimiter(delimiter) => KindView::Delimiter(*delimiter),
            Kind::Lexeme(lexeme) => KindView::Lexeme(lexeme@),
            Kind::Operator(operator) => KindView::Operator(*operator),
            Kind::Unknown(text) => KindView::Unknown(text@),
        }
    }
}

impl Clone for Kind {
    fn clone(&self) -> (kind: Self)
        ensures
            kind == *self,
    {
        match self {
            Kind::Delimiter(delimiter) => Kind::Delimiter(*delimiter),
            Kind::Lexeme(lexeme) => Kind::Lexeme(lexeme.clone()),
            Kind::Operator(operator) => Kind::Operator(*operator),
            Kind::Unknown(text) => Kind::Unknown(text.clone()),
        }
    }
}

/// A classified piece of the source and the range it was read from.
#[derive(Debug)]
pub struct Token {
    pub kind: Kind,
    pub span: Span,
}

pub struct TokenView {
    pub kind: KindView,
    pub span: SpanView,
}

impl View for Token {
    type V = TokenView;

    open spec fn view(&self) -> TokenView {
        TokenView { kind: self.kind@, span: self.span@ }
    }
}

impl Token {
    pub fn new(kind: Kind, span: Span) -> (token: Self)
        ensures
            token == (Token { kind, span }),
    {
        Self { kind, span }
    }
}

impl Clone for Token {
    fn clone(&self) -> (token: Self)
        ensures
            token == *self,
    {
        Token { kind: self.kind.clone(), span: self.span.clone() }
    }
}

} // verus!
