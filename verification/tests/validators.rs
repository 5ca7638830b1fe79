use markup_type::analyzer::diagnostic::{Diagnostic, Kind as Severity};
use markup_type::analyzer::lexical::tokenizer;
use markup_type::analyzer::semantic::{attribute, element};
use markup_type::analyzer::stage::{Buffer, Stage};
use markup_type::analyzer::syntactic::{converter, expansion, Kind, Node, Result};

fn parsed(text: &str) -> Vec<Result> {
    let reader = Buffer::new(text.chars().collect::<Vec<char>>());
    let tokens = tokenizer::Analyzer::new("input.mt", reader);
    drain(converter::Analyzer::new(tokens))
}

fn drain<S: Stage<Item = Result>>(mut stage: S) -> Vec<Result> {
    let mut results = Vec::new();
    while let Some(result) = stage.next() {
        results.push(result);
    }
    results
}

fn validated(text: &str) -> Vec<Result> {
    drain(attribute::Analyzer::new(Buffer::new(parsed(text))))
}

fn shown(results: &[Result]) -> Vec<String> {
    results.iter().map(|result| format!("{:?}", result)).collect()
}

fn reports(results: &[Result]) -> Vec<&Diagnostic> {
    results
        .iter()
        .filter_map(|result| match result {
            Result::Diagnostic(diagnostic) => Some(diagnostic),
            Result::Value(_) => None,
        })
        .collect()
}

fn value(result: &Result) -> &Node {
    match result {
        Result::Value(node) => node,
        Result::Diagnostic(diagnostic) => panic!("a diagnostic: {:?}", diagnostic),
    }
}

#[test]
fn attribute_before_an_element_draws_no_diagnostic() {
    let results = validated("|name \"v\" item");
    assert_eq!(results.len(), 2);
    assert!(reports(&results).is_empty());
    assert_eq!(shown(&results), shown(&parsed("|name \"v\" item")));
}

#[test]
fn attribute_before_a_text_draws_one_diagnostic_at_the_attribute() {
    let results = validated("  |name \"v\" 'loose' item");
    assert_eq!(results.len(), 4);
    let found = reports(&results);
    assert_eq!(found.len(), 1);
    assert_eq!(found[0].kind, Severity::Error);
    assert_eq!(found[0].message, "attribute cannot be followed by a text");
    assert_eq!((found[0].span.start.abs, found[0].span.end.abs), (2, 11));
    assert!(matches!(value(&results[0]).kind, Kind::Attribute(_)));
    assert!(matches!(value(&results[1]).kind, Kind::Text(_)));
    assert!(matches!(results[2], Result::Diagnostic(_)));
    assert!(matches!(value(&results[3]).kind, Kind::Element(_)));
}

#[test]
fn attribute_before_a_borrow_draws_one_diagnostic() {
    let results = validated("|a x<-");
    let found = reports(&results);
    assert_eq!(found.len(), 1);
    assert_eq!(found[0].message, "attribute cannot be followed by a borrow");
    assert_eq!((found[0].span.start.abs, found[0].span.end.abs), (0, 2));
    assert!(matches!(results[2], Result::Diagnostic(_)));
}

#[test]
fn every_waiting_attribute_is_reported_last_one_first() {
    let results = validated("|a |b 'v' |c 'w' 'loose'");
    let found = reports(&results);
    assert_eq!(found.len(), 3);
    assert_eq!((found[0].span.start.abs, found[0].span.end.abs), (10, 16));
    assert_eq!((found[1].span.start.abs, found[1].span.end.abs), (3, 9));
    assert_eq!((found[2].span.start.abs, found[2].span.end.abs), (0, 2));
    assert_eq!(results.len(), 7);
    assert!(matches!(results[4], Result::Diagnostic(_)));
    assert!(matches!(results[5], Result::Diagnostic(_)));
    assert!(matches!(results[6], Result::Diagnostic(_)));
}

#[test]
fn element_takes_the_waiting_attributes_with_it() {
    let results = validated("|a |b item 'loose'");
    assert!(reports(&results).is_empty());
    assert_eq!(results.len(), 4);
}

#[test]
fn attributes_are_reported_once() {
    let results = validated("|a 'one' 'two' x<-");
    assert_eq!(reports(&results).len(), 1);
}

#[test]
fn comment_and_borrowable_leave_attributes_waiting() {
    let results = validated("|a #note\n box -> 'loose'");
    let found = reports(&results);
    assert_eq!(found.len(), 1);
    assert_eq!((found[0].span.start.abs, found[0].span.end.abs), (0, 2));
    assert_eq!(results.len(), 5);
    assert!(matches!(results[4], Result::Diagnostic(_)));
}

#[test]
fn upstream_diagnostics_pass_through_and_leave_attributes_waiting() {
    let results = validated("|a @@ 'loose'");
    let found = reports(&results);
    assert_eq!(found.len(), 2);
    assert_eq!(found[0].message, "an unknown token was unexpectedly found");
    assert_eq!(found[1].message, "attribute cannot be followed by a text");
}

#[test]
fn attribute_check_changes_nothing_without_attributes() {
    let text = "box -> { item; 'text' } item<- # done\n @@ other <-";
    let before = parsed(text);
    assert_eq!(before.len(), 7);
    let after = validated(text);
    assert_eq!(shown(&after), shown(&before));
}

#[test]
fn element_check_changes_nothing() {
    let text = "|a 'v' item { |b 'loose' x<- } @@";
    let before = parsed(text);
    let after = drain(element::Analyzer::new(Buffer::new(parsed(text))));
    assert_eq!(shown(&after), shown(&before));
    assert_eq!(after.len(), 5);
}

#[test]
fn expansion_changes_nothing() {
    let text = "|a 'v' item { |b 'loose' x<- } @@";
    let before = parsed(text);
    let after = drain(expansion::Analyzer::new(Buffer::new(parsed(text))));
    assert_eq!(shown(&after), shown(&before));
}

#[test]
fn stages_answer_none_for_good_at_the_end() {
    let mut stage = attribute::Analyzer::new(Buffer::new(parsed("|a 'v' 'loose'")));
    assert!(stage.next().is_some());
    assert!(stage.next().is_some());
    assert!(stage.next().is_some());
    assert!(stage.next().is_none());
    assert!(stage.next().is_none());
}
