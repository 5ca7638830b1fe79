//! Nodes: what the converter groups tokens into, and the unit that flows
//! through every later stage.
pub mod converter;
pub mod expansion;

use crate::analyzer::diagnostic::{Diagnostic, DiagnosticView, Span, SpanView};
use std::rc::Rc;
use vstd::prelude::*;
use vstd::std_specs::convert::{FromSpecImpl, IntoSpec};

verus! {

fn clone_text(text: &Option<String>) -> (copy: Option<String>)
    ensures
        copy == *text,
{
    match text {
        Some(text) => Some(text.clone()),
        None => None,
    }
}

#[derive(Debug)]
pub struct Attribute {
    pub name: String,
    pub value: Option<String>,
}

impl Attribute {
    pub fn new(name: String, value: Option<String>) -> (attribute: Self)
        ensures
            attribute == (Attribute { name, value }),
    {
        Self { name, value }
    }
}

impl Clone for Attribute {
    fn clone(&self) -> (attribute: Self)
        ensures
            attribute == *self,
    {
        Attribute { name: self.name.clone(), value: clone_text(&self.value) }
    }
}

#[derive(Debug)]
pub struct Borrow {
    pub name: String,
}

impl Borrow {
    pub fn new(name: String) -> (borrow: Self)
        ensures
            borrow == (Borrow { name }),
    {
        Self { name }
    }
}

impl Clone for Borrow {
    fn clone(&self) -> (borrow: Self)
        ensures
            borrow == *self,
    {
        Borrow { name: self.name.clone() }
    }
}

#[derive(Debug)]
pub struct Borrowable {
    pub name: String,
}

impl Borrowable {
    pub fn new(name: String) -> (borrowable: Self)
        ensures
            borrowable == (Borrowable { name }),
    {
        Self { name }
    }
}

impl Clone for Borrowable {
    fn clone(&self) -> (borrowable: Self)
        ensures
            borrowable == *self,
    {
        Borrowable { name: self.name.clone() }
    }
}

#[derive(Debug)]
pub struct Comment {
    pub value: String,
}

impl Comment {
    pub fn new(value: String) -> (comment: Self)
        ensures
            comment == (Comment { value }),
    {
        Self { value }
    }
}

impl Clone for Comment {
    fn clone(&self) -> (comment: Self)
        ensures
            comment == *self,
    {
        Comment { value: self.value.clone() }
    }
}

#[derive(Debug)]
pub struct Element {
    pub name: String,
}

impl Element {
    pub fn new(name: String) -> (element: Self)
        ensures
            element == (Element { name }),
    {
        Self { name }
    }
}

impl Clone for Element {
    fn clone(&self) -> (element: Self)
        ensures
            element == *self,
    {
        Element { name: self.name.clone() }
    }
}

#[derive(Debug)]
pub enum ProcessingInstruction {
    Borrow(Borrow),
    Borrowable(Borrowable),
}

impl Clone for ProcessingInstruction {
    fn clone(&self) -> (instruction: Self)
        ensures
            instruction == *self,
    {
        match self {
            ProcessingInstruction::Borrow(borrow) => ProcessingInstruction::Borrow(borrow.clone()),
            ProcessingInstruction::Borrowable(borrowable) => ProcessingInstruction::Borrowable(
                borrowable.clone(),
            ),
        }
    }
}

impl From<Borrow> for ProcessingInstruction {
    fn from(value: Borrow) -> (instruction: Self) {
        Self::Borrow(value)
    }
}

impl FromSpecImpl<Borrow> for ProcessingInstruction {
    open spec fn obeys_from_spec() -> bool {
        true
    }

    open spec fn from_spec(value: Borrow) -> Self {
        ProcessingInstruction::Borrow(value)
    }
}

impl From<Borrowable> for ProcessingInstruction {
    fn from(value: Borrowable) -> (instruction: Self) {
        Self::Borrowable(value)
    }
}

impl FromSpecImpl<Borrowable> for ProcessingInstruction {
    open spec fn obeys_from_spec() -> bool {
        true
    }

    open spec fn from_spec(value: Borrowable) -> Self {
        ProcessingInstruction::Borrowable(value)
    }
}

#[derive(Debug)]
pub struct Text {
    pub value: String,
}

impl Text {
    pub fn new(value: String) -> (text: Self)
        ensures
            text == (Text { value }),
    {
        Self { value }
    }
}

impl Clone for Text {
    fn clone(&self) -> (text: Self)
        ensures
            text == *self,
    {
        Text { value: self.value.clone() }
    }
}

/// What a node is.
#[derive(Debug)]
pub enum Kind {
    Attribute(Attribute),
    Comment(Comment),
    Element(Element),
    ProcessingInstruction(ProcessingInstruction),
    Text(Text),
}

#[allow(inconsistent_fields)]
pub enum KindView {
    Attribute { name: Seq<char>, value: Option<Seq<char>> },
    Comment { value: Seq<char> },
    Element { name: Seq<char> },
    Borrow { name: Seq<char> },
    Borrowable { name: Seq<char> },
    Text { value: Seq<char> },
}

impl KindView {
    /// The word by which messages call a node of this kind.
    pub open spec fn label(self) -> Seq<char> {
        match self {
            KindView::Attribute { .. } => "attribute"@,
            KindView::Comment { .. } => "comment"@,
            KindView::Element { .. } => "element"@,
            KindView::Borrow { .. } => "borrow"@,
            KindView::Borrowable { .. } => "borrowable"@,
            KindView::Text { .. } => "text"@,
        }
    }
}

impl View for Kind {
    type V = KindView;

    open spec fn view(&self) -> KindView {
        match self {
            Kind::Attribute(attribute) => KindView::Attribute {
                name: attribute.name@,
                value: match attribute.value {
                    Some(value) => Some(value@),
                    None => None,
                },
            },
            Kind::Comment(comment) => KindView::Comment { value: comment.value@ },
            Kind::Element(element) => KindView::Element { name: element.name@ },
            Kind::ProcessingInstruction(ProcessingInstruction::Borrow(borrow)) => KindView::Borrow {
                name: borrow.name@,
            },
            Kind::ProcessingInstruction(
                ProcessingInstruction::Borrowable(borrowable),
            ) => KindView::Borrowable { name: borrowable.name@ },
            Kind::Text(text) => KindView::Text { value: text.value@ },
        }
    }
}

impl Clone for Kind {
    fn clone(&self) -> (kind: Self)
        ensures
            kind == *self,
    {
        match self {
            Kind::Attribute(attribute) => Kind::Attribute(attribute.clone()),
            Kind::Comment(comment) => Kind::Comment(comment.clone()),
            Kind::Element(element) => Kind::Element(element.clone()),
            Kind::ProcessingInstruction(instruction) => Kind::ProcessingInstruction(
                instruction.clone(),
            ),
            Kind::Text(text) => Kind::Text(text.clone()),
        }
    }
}

impl From<Attribute> for Kind {
    fn from(value: Attribute) -> (kind: Self) {
        Self::Attribute(value)
    }
}

impl FromSpecImpl<Attribute> for Kind {
    open spec fn obeys_from_spec() -> bool {
        true
    }

    open spec fn from_spec(value: Attribute) -> Self {
        Kind::Attribute(value)
    }
}

impl From<Comment> for Kind {
    fn from(value: Comment) -> (kind: Self) {
        Self::Comment(value)
    }
}

impl FromSpecImpl<Comment> for Kind {
    open spec fn obeys_from_spec() -> bool {
        true
    }

    open spec fn from_spec(value: Comment) -> Self {
        Kind::Comment(value)
    }
}

impl From<Element> for Kind {
    fn from(value: Element) -> (kind: Self) {
        Self::Element(value)
    }
}

impl FromSpecImpl<Element> for Kind {
    open spec fn obeys_from_spec() -> bool {
        true
    }

    open spec fn from_spec(value: Element) -> Self {
        Kind::Element(value)
    }
}

impl From<ProcessingInstruction> for Kind {
    fn from(value: ProcessingInstruction) -> (kind: Self) {
        Self::ProcessingInstruction(value)
    }
}

impl FromSpecImpl<ProcessingInstruction> for Kind {
    open spec fn obeys_from_spec() -> bool {
        true
    }

    open spec fn from_spec(value: ProcessingInstruction) -> Self {
        Kind::ProcessingInstruction(value)
    }
}

impl From<Text> for Kind {
    fn from(value: Text) -> (kind: Self) {
        Self::Text(value)
    }
}

impl FromSpecImpl<Text> for Kind {
    open spec fn obeys_from_spec() -> bool {
        true
    }

    open spec fn from_spec(value: Text) -> Self {
        Kind::Text(value)
    }
}

impl Kind {
    pub fn new<T: Into<Self>>(value: T) -> (kind: Self)
        ensures
            call_ensures(T::into, (value,), kind),
            T::obeys_into_spec() ==> kind == value.into_spec(),
    {
        value.into()
    }

    /// The word by which messages call a node of this kind.
    pub fn label(&self) -> (label: &'static str)
        ensures
            label@ == self@.label(),
    {
        match self {
            Kind::Attribute(_) => "attribute",
            Kind::Comment(_) => "comment",
            Kind::Element(_) => "element",
            Kind::ProcessingInstruction(kind) => match kind {
                ProcessingInstruction::Borrow(_) => "borrow",
                ProcessingInstruction::Borrowable(_) => "borrowable",
            },
            Kind::Text(_) => "text",
        }
    }
}

/// A piece of the document and the brace depth at which it stands.
#[derive(Debug)]
pub struct Node {
    pub depth: u16,
    pub kind: Kind,
    pub span: Span,
}

pub struct NodeView {
    pub depth: nat,
    pub kind: KindView,
    pub span: SpanView,
}

impl View for Node {
    type V = NodeView;

    open spec fn view(&self) -> NodeView {
        NodeView { depth: self.depth as nat, kind: self.kind@, span: self.span@ }
    }
}

impl Node {
    pub fn new<T: Into<Kind>>(depth: u16, kind: T, span: Span) -> (node: Self)
        ensures
            node.depth == depth,
            node.span == span,
            call_ensures(T::into, (kind,), node.kind),
            T::obeys_into_spec() ==> node.kind == kind.into_spec(),
    {
        let kind = kind.into();
        Self { depth, kind, span }
    }
}

impl Clone for Node {
    fn clone(&self) -> (node: Self)
        ensures
            node == *self,
    {
        Node { depth: self.depth, kind: self.kind.clone(), span: self.span.clone() }
    }
}

/// What flows from stage to stage: a node, or a diagnostic about the source.
#[derive(Debug)]
pub enum Result {
    Diagnostic(Diagnostic),
    Value(Rc<Node>),
}

pub enum ResultView {
    Diagnostic(DiagnosticView),
    Value(NodeView),
}

impl View for Result {
    type V = ResultView;

    open spec fn view(&self) -> ResultView {
        match self {
            Result::Diagnostic(diagnostic) => ResultView::Diagnostic(diagnostic@),
            Result::Value(node) => ResultView::Value(node@),
        }
    }
}

/// The results that a queue of diagnostics stands for, in order.
pub open spec fn reports(queue: Seq<Diagnostic>) -> Seq<ResultView> {
    queue.map_values(|diagnostic: Diagnostic| ResultView::Diagnostic(diagnostic@))
}

impl From<Diagnostic> for Result {
    fn from(value: Diagnostic) -> (result: Self) {
        Self::Diagnostic(value)
    }
}

impl FromSpecImpl<Diagnostic> for Result {
    open spec fn obeys_from_spec() -> bool {
        true
    }

    open spec fn from_spec(value: Diagnostic) -> Self {
        Result::Diagnostic(value)
    }
}

impl From<Node> for Result {
    fn from(value: Node) -> (result: Self) {
        Self::Value(Rc::new(value))
    }
}

impl FromSpecImpl<Node> for Result {
    open spec fn obeys_from_spec() -> bool {
        true
    }

    open spec fn from_spec(value: Node) -> Self {
        Result::Value(Rc::new(value))
    }
}

impl Result {
    pub fn new<T: Into<Self>>(value: T) -> (result: Self)
        ensures
            call_ensures(T::into, (value,), result),
            T::obeys_into_spec() ==> result == value.into_spec(),
    {
        value.into()
    }
}

impl Clone for Result {
    fn clone(&self) -> (result: Self)
        ensures
            result == *self,
    {
        match self {
            Result::Diagnostic(diagnostic) => Result::Diagnostic(diagnostic.clone()),
            Result::Value(node) => Result::Value(crate::analyzer::diagnostic::share(node)),
        }
    }
}

} // verus!
