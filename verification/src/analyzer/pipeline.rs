//! The stages in a row: tokenizer, converter, expansion, attribute check,
//! element check, ownership check.
use crate::analyzer::diagnostic::Position;
use crate::analyzer::lexical::tokenizer::{self, tokens};
use crate::analyzer::semantic::attribute::{self, validate};
use crate::analyzer::semantic::element;
use crate::analyzer::semantic::ownership::{self, check, CheckerView};
use crate::analyzer::stage::{collect, views, Buffer, Stage};
use crate::analyzer::syntactic::converter::{self, depth_fits, parse, peak};
use crate::analyzer::syntactic::expansion;
use crate::analyzer::syntactic::{Result, ResultView};
use vstd::prelude::*;

verus! {

/// What the analysis of the text `chars` of the source named `source`
/// gives: its tokens, parsed from depth 0, checked for the placement of
/// attributes and then for the use of borrowed elements.
pub open spec fn analysis(chars: Seq<char>, source: Seq<char>) -> Seq<ResultView> {
    check(
        validate(
            parse(tokens(chars, Position { abs: 0, col: 0, row: 0 }, source), 0),
            Seq::empty(),
        ),
        CheckerView { scope: Seq::empty(), trace: Seq::empty(), transferring: 0 },
    )
}

/// Analyzes a whole text and collects the results, nodes and diagnostics
/// in source order.  A text whose braces nest deeper than a node can tell
/// is not analyzed.
pub fn analyze(source: &str, characters: Vec<char>) -> (results: Option<Vec<Result>>)
    ensures
        results is Some <==> peak(
            tokens(characters@, Position { abs: 0, col: 0, row: 0 }, source@),
            0,
        ) <= u16::MAX,
        results matches Some(all) ==> views(all@) == analysis(characters@, source@),
{
    let ghost chars = characters@;
    let reader = Buffer::new(characters);
    assert(reader.pending() =~= chars);
    let tokens = collect(tokenizer::Analyzer::new(source, reader));
    if !depth_fits(&tokens) {
        return None;
    }
    let nodes = converter::Analyzer::new(Buffer::new(tokens));
    let expanded = expansion::Analyzer::new(nodes);
    let attributes = attribute::Analyzer::new(expanded);
    let elements = element::Analyzer::new(attributes);
    let results = collect(ownership::Analyzer::new(elements));
    Some(results)
}

} // verus!
