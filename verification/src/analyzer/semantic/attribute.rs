//! The attribute-context check: an attribute may be followed by another
//! attribute or by the element it belongs to, not by loose text or a borrow.
//!
//! `validate` says which results a sequence of results turns into; the
//! `Analyzer` produces exactly those, one per call.
use crate::analyzer::diagnostic::{self, share, Diagnostic, DiagnosticView};
use crate::analyzer::stage::{views, Peekable, Stage};
use crate::analyzer::syntactic::{
    reports, Element, Kind, KindView, Node, NodeView, ProcessingInstruction, Result, ResultView,
};
use crate::analyzer::text::join;
use std::collections::VecDeque;
use std::rc::Rc;
use vstd::prelude::*;

verus! {

/// The diagnostic about `attribute`, which a node of kind `follower` came
/// after.
pub open spec fn complaint(attribute: NodeView, follower: KindView) -> ResultView {
    ResultView::Diagnostic(
        DiagnosticView {
            kind: diagnostic::Kind::Error,
            message: "attribute cannot be followed by a "@ + follower.label(),
            span: attribute.span,
        },
    )
}

/// One complaint for each attribute of `stack`, the one seen last first.
pub open spec fn complaints(stack: Seq<NodeView>, follower: KindView) -> Seq<ResultView>
    decreases stack.len(),
{
    if stack.len() == 0 {
        Seq::empty()
    } else {
        seq![complaint(stack.last(), follower)] + complaints(stack.drop_last(), follower)
    }
}

/// A node whose coming ends the wait of the attributes before it badly.
pub open spec fn is_misplaced_after_attribute(kind: KindView) -> bool {
    kind is Borrow || kind is Text
}

/// The results that `results` turns into when the attributes of `stack`
/// have been seen and are waiting for their element.  Every result passes
/// through; after a text or a borrow come the complaints about the waiting
/// attributes, and an element takes the waiting attributes with it.
pub open spec fn validate(results: Seq<ResultView>, stack: Seq<NodeView>) -> Seq<ResultView>
    decreases results.len(),
{
    if results.len() == 0 {
        Seq::empty()
    } else {
        let first = results[0];
        let rest = results.skip(1);
        match first {
            ResultView::Value(node) => {
                if node.kind is Attribute {
                    seq![first] + validate(rest, stack.push(node))
                } else if is_misplaced_after_attribute(node.kind) {
                    seq![first] + complaints(stack, node.kind) + validate(rest, Seq::empty())
                } else if node.kind is Element {
                    seq![first] + validate(rest, Seq::empty())
                } else {
                    seq![first] + validate(rest, stack)
                }
            },
            ResultView::Diagnostic(_) => seq![first] + validate(rest, stack),
        }
    }
}

/// The attributes that wait after `result` has come, when those of
/// `stack` waited before it.  An attribute joins them, a text, a borrow or
/// an element leaves none waiting, and anything else changes nothing: so
/// there wait never more than the attributes that have come since the last
/// text, borrow or element.
pub open spec fn waiting_after(stack: Seq<NodeView>, result: ResultView) -> Seq<NodeView> {
    match result {
        ResultView::Value(node) => {
            if node.kind is Attribute {
                stack.push(node)
            } else if is_misplaced_after_attribute(node.kind) || node.kind is Element {
                Seq::empty()
            } else {
                stack
            }
        },
        ResultView::Diagnostic(_) => stack,
    }
}

pub struct Analyzer<T: Stage<Item = Result>> {
    reader: Peekable<T>,
    stack: Vec<Rc<Node>>,
    trace: VecDeque<Diagnostic>,
}

impl<T: Stage<Item = Result>> Analyzer<T> {
    /// The results that have not been read yet.
    pub closed spec fn upstream(&self) -> Seq<ResultView> {
        self.reader.pending()
    }

    /// The attributes that wait for their element, the one seen first first.
    pub closed spec fn waiting(&self) -> Seq<NodeView> {
        views(self.stack@)
    }

    /// The diagnostics that are handed out before anything more is read.
    pub closed spec fn queued(&self) -> Seq<ResultView> {
        reports(self.trace@)
    }

    /// What is pending is what is queued, and then what the unread results
    /// turn into with the waiting attributes.
    pub proof fn lemma_pending(&self)
        ensures
            self.pending() == self.queued() + validate(self.upstream(), self.waiting()),
    {
    }

    /// Reports every waiting attribute, the one seen last first, as followed
    /// by `node`, and lets none wait any longer.
    fn validate_attribute_context(&mut self, node: &Node)
        ensures
            final(self).reader == old(self).reader,
            final(self).stack@.len() == 0,
            reports(final(self).trace@) == reports(old(self).trace@) + complaints(
                views(old(self).stack@),
                node.kind@,
            ),
    {
        let ghost waiting = views(self.stack@);
        proof {
            assert(reports(self.trace@) + complaints(waiting, node.kind@) =~= reports(
                self.trace@,
            ) + complaints(views(self.stack@), node.kind@));
        }
        loop
            invariant_except_break
                self.reader == old(self).reader,
                reports(self.trace@) + complaints(views(self.stack@), node.kind@) == reports(
                    old(self).trace@,
                ) + complaints(waiting, node.kind@),
            ensures
                self.reader == old(self).reader,
                self.stack@.len() == 0,
                reports(self.trace@) == reports(old(self).trace@) + complaints(
                    waiting,
                    node.kind@,
                ),
            decreases self.stack@.len(),
        {
            let ghost stack = views(self.stack@);
            let ghost queue = reports(self.trace@);
            let attribute = match self.stack.pop() {
                None => {
                    assert(queue + Seq::<ResultView>::empty() =~= queue);
                    break ;
                },
                Some(attribute) => attribute,
            };
            let message = join("attribute cannot be followed by a ", node.kind.label());
            let diagnostic = Diagnostic::new(
                diagnostic::Kind::Error,
                message.as_str(),
                attribute.span.clone(),
            );
            self.trace.push_back(diagnostic);
            proof {
                assert(views(self.stack@) =~= stack.drop_last());
                assert(reports(self.trace@) =~= queue.push(complaint(stack.last(), node.kind@)));
                assert(queue + (seq![complaint(stack.last(), node.kind@)] + complaints(
                    stack.drop_last(),
                    node.kind@,
                )) =~= queue.push(complaint(stack.last(), node.kind@)) + complaints(
                    stack.drop_last(),
                    node.kind@,
                ));
            }
        }
    }

    /// Hands the waiting attributes to `_element`: none waits any longer.
    fn validate_attribute_name_and_value(&mut self, _element: &Element)
        ensures
            final(self).reader == old(self).reader,
            final(self).trace == old(self).trace,
            final(self).stack@.len() == 0,
    {
        loop
            invariant_except_break
                self.reader == old(self).reader,
                self.trace == old(self).trace,
            ensures
                self.reader == old(self).reader,
                self.trace == old(self).trace,
                self.stack@.len() == 0,
            decreases self.stack@.len(),
        {
            if self.stack.pop().is_none() {
                break ;
            }
        }
    }

    pub fn new(reader: T) -> (analyzer: Self)
        requires
            reader.well_formed(),
        ensures
            analyzer.well_formed(),
            analyzer.pending() == validate(reader.pending(), Seq::empty()),
            analyzer.upstream() == reader.pending(),
            analyzer.waiting() == Seq::<NodeView>::empty(),
            analyzer.queued() == Seq::<ResultView>::empty(),
    {
        let analyzer = Self {
            reader: Peekable::new(reader),
            stack: Vec::new(),
            trace: VecDeque::new(),
        };
        assert(views(analyzer.stack@) =~= Seq::<NodeView>::empty());
        assert(analyzer.pending() =~= validate(analyzer.reader.pending(), Seq::empty()));
        analyzer
    }
}

impl<T: Stage<Item = Result>> Stage for Analyzer<T> {
    type Item = Result;

    closed spec fn well_formed(&self) -> bool {
        self.reader.well_formed()
    }

    closed spec fn pending(&self) -> Seq<ResultView> {
        reports(self.trace@) + validate(self.reader.pending(), views(self.stack@))
    }

    fn next(&mut self) -> (item: Option<Result>)
        ensures
            old(self).queued().len() > 0 ==> {
                &&& final(self).queued() == old(self).queued().skip(1)
                &&& final(self).upstream() == old(self).upstream()
                &&& final(self).waiting() == old(self).waiting()
            },
            old(self).queued().len() == 0 && old(self).upstream().len() > 0 ==> {
                &&& final(self).upstream() == old(self).upstream().skip(1)
                &&& final(self).waiting() == waiting_after(
                    old(self).waiting(),
                    old(self).upstream()[0],
                )
            },
    {
        if let Some(diagnostic) = self.trace.pop_front() {
            assert(self.pending() =~= old(self).pending().skip(1));
            assert(self.queued() =~= old(self).queued().skip(1));
            return Some(Result::from(diagnostic));
        }
        let ghost results = self.reader.pending();
        let ghost stack = views(self.stack@);
        assert(old(self).pending() =~= validate(results, stack));
        let result = self.reader.next();
        if let Some(Result::Value(node)) = &result {
            match &node.kind {
                Kind::Attribute(_) => {
                    self.stack.push(share(node));
                    assert(views(self.stack@) =~= stack.push(node@));
                },
                Kind::ProcessingInstruction(ProcessingInstruction::Borrow(_)) | Kind::Text(_) => {
                    self.validate_attribute_context(node);
                    assert(views(self.stack@) =~= Seq::<NodeView>::empty());
                },
                Kind::Element(element) => {
                    self.validate_attribute_name_and_value(element);
                    assert(views(self.stack@) =~= Seq::<NodeView>::empty());
                },
                _ => {},
            }
        }
        proof {
            if results.len() > 0 {
                assert(self.pending() =~= validate(results, stack).skip(1));
            } else {
                assert(self.pending() =~= validate(results, stack));
            }
        }
        result
    }
}

/// Where no attribute comes, the check changes nothing.
pub proof fn lemma_validate_without_attributes(results: Seq<ResultView>)
    requires
        forall|i: int|
            0 <= i < results.len() ==> !(#[trigger] results[i] matches ResultView::Value(node)
                && node.kind is Attribute),
    ensures
        validate(results, Seq::empty()) == results,
    decreases results.len(),
{
    if results.len() > 0 {
        let rest = results.skip(1);
        assert forall|i: int| 0 <= i < rest.len() implies !(#[trigger] rest[i]
            matches ResultView::Value(node) && node.kind is Attribute) by {
            assert(rest[i] == results[i + 1]);
        }
        lemma_validate_without_attributes(rest);
        assert(results[0] matches ResultView::Value(node) ==> !(node.kind is Attribute));
        assert(seq![results[0]] + rest =~= results);
        match results[0] {
            ResultView::Value(node) => {
                assert(complaints(Seq::empty(), node.kind) =~= Seq::<ResultView>::empty());
                assert(seq![results[0]] + Seq::<ResultView>::empty() + rest =~= results);
            },
            ResultView::Diagnostic(_) => {},
        }
    }
}

/// An attribute right before an element draws no diagnostic; an attribute
/// right before a text or a borrow draws exactly one, about the range of
/// the attribute, and it comes right after the node that caused it.
pub proof fn lemma_attribute_placement(
    attribute: NodeView,
    follower: NodeView,
    rest: Seq<ResultView>,
)
    requires
        attribute.kind is Attribute,
    ensures
        follower.kind is Element ==> validate(
            seq![ResultView::Value(attribute), ResultView::Value(follower)] + rest,
            Seq::empty(),
        ) == seq![ResultView::Value(attribute), ResultView::Value(follower)] + validate(
            rest,
            Seq::empty(),
        ),
        is_misplaced_after_attribute(follower.kind) ==> validate(
            seq![ResultView::Value(attribute), ResultView::Value(follower)] + rest,
            Seq::empty(),
        ) == seq![
            ResultView::Value(attribute),
            ResultView::Value(follower),
            complaint(attribute, follower.kind),
        ] + validate(rest, Seq::empty()),
{
    let first = ResultView::Value(attribute);
    let second = ResultView::Value(follower);
    let results = seq![first, second] + rest;
    let waiting = Seq::<NodeView>::empty().push(attribute);
    assert(results.skip(1) =~= seq![second] + rest);
    assert(results.skip(1).skip(1) =~= rest);
    assert(results.skip(1)[0] == second);
    let tail = validate(rest, Seq::empty());
    if follower.kind is Element {
        assert(validate(results.skip(1), waiting) == seq![second] + tail);
        assert(seq![first] + (seq![second] + tail) =~= seq![first, second] + tail);
    }
    if is_misplaced_after_attribute(follower.kind) {
        assert(waiting.drop_last() =~= Seq::<NodeView>::empty());
        assert(waiting.last() == attribute);
        assert(complaints(waiting.drop_last(), follower.kind) =~= Seq::<ResultView>::empty());
        assert(complaints(waiting, follower.kind) == seq![complaint(waiting.last(), follower.kind)]
            + complaints(waiting.drop_last(), follower.kind));
        assert(complaints(waiting, follower.kind) =~= seq![complaint(attribute, follower.kind)]);
        assert(validate(results.skip(1), waiting) == seq![second] + complaints(
            waiting,
            follower.kind,
        ) + tail);
        assert(seq![first] + (seq![second] + complaints(waiting, follower.kind) + tail)
            =~= seq![first, second, complaint(attribute, follower.kind)] + tail);
    }
}

} // verus!
