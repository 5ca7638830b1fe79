use markup_type::analyzer::diagnostic::{Diagnostic, Kind as Severity, Position, Span};
use markup_type::analyzer::lexical::tokenizer;
use markup_type::analyzer::lexical::{self, Token};
use markup_type::analyzer::stage::{Buffer, Stage};
use markup_type::analyzer::syntactic::converter::Analyzer;
use markup_type::analyzer::syntactic::{Kind, Node, ProcessingInstruction, Result};
use std::rc::Rc;

fn parse(text: &str) -> Vec<Result> {
    let reader = Buffer::new(text.chars().collect::<Vec<char>>());
    let tokens = tokenizer::Analyzer::new("input.mt", reader);
    let mut analyzer = Analyzer::new(tokens);
    let mut results = Vec::new();
    while let Some(result) = analyzer.next() {
        results.push(result);
    }
    results
}

fn node(result: &Result) -> &Node {
    match result {
        Result::Value(node) => node,
        Result::Diagnostic(diagnostic) => panic!("a diagnostic: {:?}", diagnostic),
    }
}

fn diagnostic(result: &Result) -> &Diagnostic {
    match result {
        Result::Diagnostic(diagnostic) => diagnostic,
        Result::Value(node) => panic!("a node: {:?}", node),
    }
}

fn describe(result: &Result) -> String {
    match result {
        Result::Diagnostic(diagnostic) => format!("! {}", diagnostic.message),
        Result::Value(node) => match &node.kind {
            Kind::Attribute(attribute) => {
                format!("{} |{}={:?}", node.depth, attribute.name, attribute.value)
            }
            Kind::Comment(comment) => format!("{} #{}", node.depth, comment.value),
            Kind::Element(element) => format!("{} {}", node.depth, element.name),
            Kind::ProcessingInstruction(ProcessingInstruction::Borrow(borrow)) => {
                format!("{} {}<-", node.depth, borrow.name)
            }
            Kind::ProcessingInstruction(ProcessingInstruction::Borrowable(borrowable)) => {
                format!("{} {}->", node.depth, borrowable.name)
            }
            Kind::Text(text) => format!("{} '{}'", node.depth, text.value),
        },
    }
}

fn outline(text: &str) -> Vec<String> {
    parse(text).iter().map(describe).collect()
}

fn token(kind: lexical::Kind, start: usize, end: usize) -> Token {
    let source = Rc::new("tokens".to_string());
    let start = Position { abs: start, col: start, row: 0 };
    let end = Position { abs: end, col: end, row: 0 };
    Token::new(kind, Span::new(source, start, end))
}

#[test]
fn delimiters_give_no_result() {
    assert!(parse("").is_empty());
    assert!(parse(";;{ ; } ;").is_empty());
}

#[test]
fn each_lexeme_gives_its_node() {
    assert_eq!(outline("item 'loose' #note"), vec!["0 item", "0 'loose'", "0 ##note"]);
}

#[test]
fn depth_follows_the_braces() {
    assert_eq!(
        outline("a { b { c } d } e"),
        vec!["0 a", "1 b", "2 c", "1 d", "0 e"]
    );
}

#[test]
fn closing_brace_at_depth_zero_leaves_the_depth() {
    assert_eq!(outline("} a { b } } c"), vec!["0 a", "1 b", "0 c"]);
}

#[test]
fn semicolon_does_not_move_the_depth() {
    assert_eq!(outline("{ a; b; }"), vec!["1 a", "1 b"]);
}

#[test]
fn identifier_before_a_borrow_is_one_node() {
    let results = parse("  item<- x");
    assert_eq!(results.iter().map(describe).collect::<Vec<_>>(), vec!["0 item<-", "0 x"]);
    let borrow = node(&results[0]);
    assert_eq!(borrow.span.start.abs, 2);
    assert_eq!(borrow.span.end.abs, 8);
    assert_eq!(borrow.span.source.as_str(), "input.mt");
}

#[test]
fn identifier_before_a_borrowable_is_one_node() {
    let results = parse("box -> { item }");
    assert_eq!(results.iter().map(describe).collect::<Vec<_>>(), vec!["0 box->", "1 item"]);
    let marker = node(&results[0]);
    assert_eq!(marker.span.start.abs, 0);
    assert_eq!(marker.span.end.abs, 6);
}

#[test]
fn element_span_is_the_identifier() {
    let results = parse(" item ");
    let element = node(&results[0]);
    assert_eq!((element.span.start.abs, element.span.end.abs), (1, 5));
}

#[test]
fn attribute_with_a_value_covers_pipe_name_and_value() {
    let results = parse("|name \"v\" item");
    assert_eq!(
        results.iter().map(describe).collect::<Vec<_>>(),
        vec!["0 |name=Some(\"v\")", "0 item"]
    );
    let attribute = node(&results[0]);
    assert_eq!((attribute.span.start.abs, attribute.span.end.abs), (0, 9));
}

#[test]
fn attribute_without_a_value_covers_pipe_and_name() {
    let results = parse("|name item");
    assert_eq!(
        results.iter().map(describe).collect::<Vec<_>>(),
        vec!["0 |name=None", "0 item"]
    );
    let attribute = node(&results[0]);
    assert_eq!((attribute.span.start.abs, attribute.span.end.abs), (0, 5));
}

#[test]
fn attribute_name_may_be_a_literal() {
    assert_eq!(outline("{ |'a b' 'c' }"), vec!["1 |a b=Some(\"c\")"]);
}

#[test]
fn pipe_without_a_name_is_reported_at_the_pipe() {
    let results = parse("a | ; b");
    assert_eq!(
        results.iter().map(describe).collect::<Vec<_>>(),
        vec!["0 a", "! an identifier was expected after the property declaration", "0 b"]
    );
    let report = diagnostic(&results[1]);
    assert_eq!(report.kind, Severity::Error);
    assert_eq!((report.span.start.abs, report.span.end.abs), (2, 3));
}

#[test]
fn pipe_at_the_end_of_input_is_reported() {
    assert_eq!(
        outline("a |"),
        vec!["0 a", "! an identifier was expected after the property declaration"]
    );
}

#[test]
fn pipe_takes_the_token_after_it_even_if_it_is_no_name() {
    assert_eq!(
        outline("| { a"),
        vec!["! an identifier was expected after the property declaration", "0 a"]
    );
}

#[test]
fn lone_operator_is_reported_and_takes_one_token() {
    let results = parse("<- a -> b");
    assert_eq!(
        results.iter().map(describe).collect::<Vec<_>>(),
        vec![
            "! an unknown token was unexpectedly found",
            "0 a->",
            "0 b",
        ]
    );
    let report = diagnostic(&results[0]);
    assert_eq!(report.kind, Severity::Error);
    assert_eq!((report.span.start.abs, report.span.end.abs), (0, 2));
    assert_eq!(outline("<-"), vec!["! an unknown token was unexpectedly found"]);
}

#[test]
fn unknown_token_is_reported() {
    let results = parse("a @@ b");
    assert_eq!(
        results.iter().map(describe).collect::<Vec<_>>(),
        vec!["0 a", "! an unknown token was unexpectedly found", "0 b"]
    );
    let report = diagnostic(&results[1]);
    assert_eq!((report.span.start.abs, report.span.end.abs), (2, 4));
}

#[test]
fn parse_unknown_takes_one_token_whatever_it_is() {
    let tokens = vec![
        token(lexical::Kind::Lexeme(lexical::Lexeme::Identifier("a".to_string())), 0, 1),
        token(lexical::Kind::Lexeme(lexical::Lexeme::Identifier("b".to_string())), 2, 3),
    ];
    let mut analyzer = Analyzer::new(Buffer::new(tokens));
    let first = analyzer.parse_unknown().unwrap();
    assert_eq!(describe(&first), "! an unknown token was unexpectedly found");
    assert_eq!(diagnostic(&first).span.start.abs, 0);
    let second = analyzer.next().unwrap();
    assert_eq!(describe(&second), "0 b");
    assert!(analyzer.next().is_none());
}

#[test]
fn converter_reads_tokens_from_any_producer() {
    let tokens = vec![
        token(lexical::Kind::Delimiter(lexical::Delimiter::LeftBrace), 0, 1),
        token(lexical::Kind::Lexeme(lexical::Lexeme::Identifier("a".to_string())), 1, 2),
        token(lexical::Kind::Operator(lexical::Operator::Borrow), 2, 4),
        token(lexical::Kind::Delimiter(lexical::Delimiter::RightBrace), 4, 5),
        token(lexical::Kind::Lexeme(lexical::Lexeme::Literal("t".to_string())), 5, 8),
    ];
    let mut analyzer = Analyzer::new(Buffer::new(tokens));
    let mut seen = Vec::new();
    while let Some(result) = analyzer.next() {
        seen.push(describe(&result));
    }
    assert_eq!(seen, vec!["1 a<-", "0 't'"]);
}

#[test]
fn depth_is_the_number_of_open_braces_before_the_node() {
    let text = "a { b { |k 'v' c; } 'd' { e<- } } f -> g";
    let chars: Vec<char> = text.chars().collect();
    let results = parse(text);
    assert_eq!(results.len(), 8);
    for result in &results {
        let node = node(result);
        let before = &chars[..node.span.start.abs];
        let opened = before.iter().filter(|c| **c == '{').count();
        let closed = before.iter().filter(|c| **c == '}').count();
        assert_eq!(node.depth as usize, opened - closed);
    }
}
