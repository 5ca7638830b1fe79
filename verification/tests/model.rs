use markup_type::analyzer::diagnostic::{Diagnostic, Kind as Severity, Position, Span};
use markup_type::analyzer::lexical::{self, Token};
use markup_type::analyzer::syntactic::{
    Attribute, Borrow, Borrowable, Comment, Element, Kind, Node, ProcessingInstruction, Result,
    Text,
};
use std::rc::Rc;

fn span() -> Span {
    Span::new(
        Rc::new("input.mt".to_string()),
        Position { abs: 3, col: 1, row: 2 },
        Position { abs: 8, col: 6, row: 2 },
    )
}

#[test]
fn position_starts_at_zero() {
    assert_eq!(Position::default(), Position { abs: 0, col: 0, row: 0 });
}

#[test]
fn span_keeps_its_parts() {
    let span = span();
    assert_eq!(span.source.as_str(), "input.mt");
    assert_eq!(span.start, Position { abs: 3, col: 1, row: 2 });
    assert_eq!(span.end, Position { abs: 8, col: 6, row: 2 });
    let copy = span.clone();
    assert!(Rc::ptr_eq(&copy.source, &span.source));
    assert_eq!(copy.start, span.start);
    assert_eq!(copy.end, span.end);
}

#[test]
fn default_span_is_empty() {
    let span = Span::default();
    assert_eq!(span.source.as_str(), "");
    assert_eq!(span.start, Position::default());
    assert_eq!(span.end, Position::default());
}

#[test]
fn diagnostic_keeps_its_parts() {
    let diagnostic = Diagnostic::new(Severity::Warning, "careful", span());
    assert_eq!(diagnostic.kind, Severity::Warning);
    assert_eq!(diagnostic.message, "careful");
    assert_eq!(diagnostic.span.start.abs, 3);
    let copy = diagnostic.clone();
    assert_eq!(copy.kind, Severity::Warning);
    assert_eq!(copy.message, "careful");
    assert_eq!(copy.span.end.abs, 8);
}

#[test]
fn token_keeps_its_parts() {
    let token = Token::new(lexical::Kind::Unknown("@".to_string()), span());
    assert_eq!(token.kind, lexical::Kind::Unknown("@".to_string()));
    assert_eq!(token.span.end.col, 6);
    let copy = token.clone();
    assert_eq!(copy.kind, token.kind);
    assert_eq!(
        lexical::Kind::Lexeme(lexical::Lexeme::Literal("a".to_string())).clone(),
        lexical::Kind::Lexeme(lexical::Lexeme::Literal("a".to_string()))
    );
    assert_ne!(
        lexical::Kind::Lexeme(lexical::Lexeme::Literal("a".to_string())),
        lexical::Kind::Lexeme(lexical::Lexeme::Identifier("a".to_string()))
    );
}

#[test]
fn node_parts_keep_what_they_are_given() {
    let attribute = Attribute::new("id".to_string(), Some("7".to_string()));
    assert_eq!(attribute.name, "id");
    assert_eq!(attribute.value.as_deref(), Some("7"));
    assert_eq!(Attribute::new("id".to_string(), None).value, None);
    assert_eq!(Borrow::new("a".to_string()).name, "a");
    assert_eq!(Borrowable::new("b".to_string()).name, "b");
    assert_eq!(Comment::new("# c".to_string()).value, "# c");
    assert_eq!(Element::new("d".to_string()).name, "d");
    assert_eq!(Text::new("e".to_string()).value, "e");
}

#[test]
fn kind_is_made_from_each_of_its_parts() {
    assert!(matches!(Kind::new(Attribute::new("a".to_string(), None)), Kind::Attribute(_)));
    assert!(matches!(Kind::new(Comment::new("c".to_string())), Kind::Comment(_)));
    assert!(matches!(Kind::new(Element::new("e".to_string())), Kind::Element(_)));
    assert!(matches!(Kind::new(Text::new("t".to_string())), Kind::Text(_)));
    assert!(matches!(
        Kind::new(ProcessingInstruction::from(Borrow::new("b".to_string()))),
        Kind::ProcessingInstruction(ProcessingInstruction::Borrow(_))
    ));
    assert!(matches!(
        Kind::from(ProcessingInstruction::from(Borrowable::new("b".to_string()))),
        Kind::ProcessingInstruction(ProcessingInstruction::Borrowable(_))
    ));
    match Kind::from(Element::new("named".to_string())) {
        Kind::Element(element) => assert_eq!(element.name, "named"),
        other => panic!("not an element: {:?}", other),
    }
}

#[test]
fn kind_has_a_word_for_messages() {
    assert_eq!(Kind::new(Attribute::new("a".to_string(), None)).label(), "attribute");
    assert_eq!(Kind::new(Comment::new("c".to_string())).label(), "comment");
    assert_eq!(Kind::new(Element::new("e".to_string())).label(), "element");
    assert_eq!(Kind::new(Text::new("t".to_string())).label(), "text");
    assert_eq!(
        Kind::new(ProcessingInstruction::from(Borrow::new("b".to_string()))).label(),
        "borrow"
    );
    assert_eq!(
        Kind::new(ProcessingInstruction::from(Borrowable::new("b".to_string()))).label(),
        "borrowable"
    );
}

#[test]
fn node_keeps_its_parts() {
    let node = Node::new(4, Element::new("e".to_string()), span());
    assert_eq!(node.depth, 4);
    assert!(matches!(node.kind, Kind::Element(_)));
    assert_eq!(node.span.start.abs, 3);
    let copy = node.clone();
    assert_eq!(copy.depth, 4);
    assert!(matches!(copy.kind, Kind::Element(_)));
}

#[test]
fn result_is_a_node_or_a_diagnostic() {
    let node = Node::new(1, Text::new("t".to_string()), span());
    match Result::new(node) {
        Result::Value(node) => assert_eq!(node.depth, 1),
        Result::Diagnostic(_) => panic!("not a node"),
    }
    let diagnostic = Diagnostic::new(Severity::Critical, "bad", span());
    match Result::new(diagnostic) {
        Result::Diagnostic(diagnostic) => assert_eq!(diagnostic.message, "bad"),
        Result::Value(_) => panic!("not a diagnostic"),
    }
    let shared = Result::from(Node::new(2, Comment::new("c".to_string()), span()));
    match (&shared, &shared.clone()) {
        (Result::Value(first), Result::Value(second)) => assert!(Rc::ptr_eq(first, second)),
        _ => panic!("not nodes"),
    }
}
