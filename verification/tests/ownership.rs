use markup_type::analyzer::diagnostic::{Diagnostic, Kind as Severity, Position, Span};
use markup_type::analyzer::lexical::tokenizer;
use markup_type::analyzer::semantic::ownership::{Analyzer, BorrowChecker};
use markup_type::analyzer::stage::{Buffer, Stage};
use markup_type::analyzer::syntactic::{
    converter, Borrow, Element, Kind, Node, ProcessingInstruction, Result, Text,
};
use std::rc::Rc;

fn checked(text: &str) -> Vec<Result> {
    let reader = Buffer::new(text.chars().collect::<Vec<char>>());
    let tokens = tokenizer::Analyzer::new("input.mt", reader);
    let nodes = converter::Analyzer::new(tokens);
    let mut analyzer = Analyzer::new(nodes);
    let mut results = Vec::new();
    while let Some(result) = analyzer.next() {
        results.push(result);
    }
    results
}

fn reports(results: &[Result]) -> Vec<&Diagnostic> {
    results
        .iter()
        .filter_map(|result| match result {
            Result::Diagnostic(diagnostic) => Some(diagnostic),
            Result::Value(_) => None,
        })
        .collect()
}

fn messages(text: &str) -> Vec<String> {
    reports(&checked(text)).iter().map(|report| report.message.clone()).collect()
}

fn span(start: usize, end: usize) -> Span {
    let source = Rc::new("nodes".to_string());
    Span::new(
        source,
        Position { abs: start, col: start, row: 0 },
        Position { abs: end, col: end, row: 0 },
    )
}

fn element(name: &str, depth: u16) -> Node {
    Node::new(depth, Element::new(name.to_string()), span(0, name.len()))
}

fn borrow_of(name: &str) -> Borrow {
    Borrow::new(name.to_string())
}

fn borrow_node(name: &str, depth: u16) -> Node {
    Node::new(depth, ProcessingInstruction::from(borrow_of(name)), span(10, 10 + name.len() + 2))
}

#[test]
fn borrow_of_a_collected_element_draws_no_diagnostic() {
    let results = checked("box -> { item; } item<-;");
    assert_eq!(results.len(), 3);
    assert!(reports(&results).is_empty());
}

#[test]
fn borrow_in_a_nested_block_reaches_one_level_down() {
    assert!(messages("{ box -> { item } item<- }").is_empty());
}

#[test]
fn borrow_without_a_borrowable_is_not_found() {
    let results = checked("a item<-; b");
    let found = reports(&results);
    assert_eq!(found.len(), 1);
    assert_eq!(found[0].kind, Severity::Error);
    assert_eq!(
        found[0].message,
        "the borrowable 'item' was expected to be used, but it was not found"
    );
    assert!(found[0].message.contains("was expected to be used, but it was not found"));
    assert_eq!((found[0].span.start.abs, found[0].span.end.abs), (2, 8));
    assert_eq!(results.len(), 4);
    assert!(matches!(results[2], Result::Diagnostic(_)));
}

#[test]
fn borrow_of_the_marker_name_is_not_found() {
    assert_eq!(
        messages("box -> { item; } box<-;"),
        vec!["the borrowable 'box' was expected to be used, but it was not found"]
    );
}

#[test]
fn marker_written_without_a_blank_declares_nothing() {
    assert_eq!(
        messages("box-> { item; } box<-;"),
        vec![
            "an unknown token was unexpectedly found",
            "the borrowable 'box' was expected to be used, but it was not found",
        ]
    );
}

#[test]
fn name_passed_over_by_an_earlier_borrow_is_already_borrowed() {
    let results = checked("box -> { x; w; } x<-; w<-; x<-;");
    let found = reports(&results);
    assert_eq!(found.len(), 1);
    assert_eq!(found[0].kind, Severity::Error);
    assert_eq!(found[0].message, "the borrowable 'x' has been already borrowed");
    assert!(found[0].message.contains("has been already borrowed"));
    assert_eq!((found[0].span.start.abs, found[0].span.end.abs), (27, 30));
    assert_eq!(results.len(), 7);
    assert!(matches!(results[6], Result::Diagnostic(_)));
}

#[test]
fn name_skipped_by_a_borrow_counts_as_borrowed() {
    assert_eq!(
        messages("box -> { y; x; } x<-; y<-;"),
        vec!["the borrowable 'y' has been already borrowed"]
    );
}

#[test]
fn borrowed_element_stays_available() {
    assert!(messages("box -> { x; } x<-; x<-; x<-;").is_empty());
}

#[test]
fn element_at_the_depth_of_the_borrow_is_not_reached() {
    assert_eq!(
        messages("box -> item; item<-;"),
        vec!["the borrowable 'item' was expected to be used, but it was not found"]
    );
}

#[test]
fn element_two_levels_down_is_not_reached() {
    assert_eq!(
        messages("box -> { { deep } } deep<-;"),
        vec!["the borrowable 'deep' was expected to be used, but it was not found"]
    );
}

#[test]
fn collected_elements_take_the_depth_of_the_first() {
    assert!(messages("box -> { a { b } } b<-;").is_empty());
}

#[test]
fn elements_after_the_block_are_not_collected() {
    assert_eq!(
        messages("box -> { a } b; b<-;"),
        vec!["the borrowable 'b' was expected to be used, but it was not found"]
    );
}

#[test]
fn served_borrow_discards_the_scopes_it_passed() {
    assert_eq!(
        messages("p -> { a } q -> { b } a<-; b<-;"),
        vec!["the borrowable 'b' was expected to be used, but it was not found"]
    );
    assert!(messages("p -> { a } q -> { b } b<-; a<-;").is_empty());
}

#[test]
fn upstream_diagnostics_pass_through() {
    assert_eq!(
        messages("@@ box -> { item } | ; item<-"),
        vec![
            "an unknown token was unexpectedly found",
            "an identifier was expected after the property declaration",
        ]
    );
}

#[test]
fn checker_starts_with_nothing_to_borrow() {
    let checker = BorrowChecker::new();
    assert!(!checker.contains(&borrow_of("x"), &borrow_node("x", 0)));
}

#[test]
fn checker_collects_elements_only_while_a_marker_is_open() {
    let mut checker = BorrowChecker::new();
    checker.allocate(&element("x", 1));
    assert!(!checker.contains(&borrow_of("x"), &borrow_node("x", 0)));
    checker.borrowable();
    checker.allocate(&element("x", 1));
    assert!(checker.contains(&borrow_of("x"), &borrow_node("x", 0)));
    assert!(!checker.contains(&borrow_of("y"), &borrow_node("y", 0)));
    assert!(!checker.contains(&borrow_of("x"), &borrow_node("x", 1)));
}

#[test]
fn checker_looks_at_elements_only() {
    let mut checker = BorrowChecker::new();
    checker.borrowable();
    checker.allocate(&Node::new(1, Text::new("x".to_string()), span(0, 3)));
    checker.allocate(&element("y", 1));
    assert!(!checker.contains(&borrow_of("x"), &borrow_node("x", 0)));
    assert!(checker.contains(&borrow_of("y"), &borrow_node("y", 0)));
}

#[test]
fn checker_closes_markers_by_the_fall_of_the_depth() {
    let mut checker = BorrowChecker::new();
    checker.borrowable();
    checker.borrowable();
    checker.dealloc(&element("a", 1), &element("b", 1));
    checker.dealloc(&element("a", 1), &element("b", 2));
    checker.dealloc(&element("a", 2), &element("b", 1));
    checker.allocate(&element("x", 1));
    assert!(checker.contains(&borrow_of("x"), &borrow_node("x", 0)));
    checker.dealloc(&element("a", 5), &element("b", 0));
    checker.allocate(&element("y", 1));
    assert!(!checker.contains(&borrow_of("y"), &borrow_node("y", 0)));
}

#[test]
fn checker_serves_a_borrow_and_records_the_names_it_met() {
    let mut checker = BorrowChecker::new();
    checker.borrowable();
    checker.allocate(&element("x", 1));
    checker.allocate(&element("w", 1));
    assert!(checker.borrow(&borrow_of("w"), &borrow_node("w", 0)).is_none());
    assert!(checker.contains(&borrow_of("w"), &borrow_node("w", 0)));
    assert!(!checker.contains(&borrow_of("x"), &borrow_node("x", 0)));
    let refused = checker.borrow(&borrow_of("x"), &borrow_node("x", 0)).unwrap();
    assert_eq!(refused.kind, Severity::Error);
    assert_eq!(refused.message, "the borrowable 'x' has been already borrowed");
    assert_eq!((refused.span.start.abs, refused.span.end.abs), (10, 13));
    let missing = checker.borrow(&borrow_of("z"), &borrow_node("z", 0)).unwrap();
    assert_eq!(
        missing.message,
        "the borrowable 'z' was expected to be used, but it was not found"
    );
}

#[test]
fn checker_looks_up_the_trace_at_the_depth_of_the_borrow() {
    let mut checker = BorrowChecker::new();
    checker.borrowable();
    checker.allocate(&element("x", 3));
    checker.allocate(&element("w", 3));
    assert!(checker.borrow(&borrow_of("w"), &borrow_node("w", 2)).is_none());
    let refused = checker.borrow(&borrow_of("x"), &borrow_node("x", 2)).unwrap();
    assert_eq!(
        refused.message,
        "the borrowable 'x' was expected to be used, but it was not found"
    );
}

#[test]
fn checker_handles_the_deepest_borrow() {
    let mut checker = BorrowChecker::new();
    checker.borrowable();
    checker.allocate(&element("x", u16::MAX));
    assert!(!checker.contains(&borrow_of("x"), &borrow_node("x", u16::MAX)));
    assert!(checker.contains(&borrow_of("x"), &borrow_node("x", u16::MAX - 1)));
    assert!(checker.borrow(&borrow_of("x"), &borrow_node("x", u16::MAX)).is_some());
}

#[test]
fn element_kind_is_kept_when_collected() {
    let mut checker = BorrowChecker::new();
    checker.borrowable();
    let node = element("x", 1);
    assert!(matches!(node.kind, Kind::Element(_)));
    checker.allocate(&node);
    assert!(checker.borrow(&borrow_of("x"), &borrow_node("x", 0)).is_none());
}
