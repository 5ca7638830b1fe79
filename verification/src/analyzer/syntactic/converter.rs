//! The converter: tokens in, nodes and syntax diagnostics out.
//!
//! `parse` says which results a sequence of tokens gives; the `Analyzer`
//! produces exactly those, one per call, looking one token ahead.
use crate::analyzer::diagnostic::{self, Diagnostic, DiagnosticView, Span};
use crate::analyzer::lexical::{self, Token, TokenView};
use crate::analyzer::stage::{views, Peekable, Stage};
use crate::analyzer::syntactic::{
    Attribute, Borrow, Borrowable, Comment, Element, KindView, Node, NodeView,
    ProcessingInstruction, Result, ResultView, Text,
};
use vstd::prelude::*;

verus! {

/// The brace depth after a delimiter read at `depth`.  A closing brace at
/// depth 0 leaves the depth at 0.
pub open spec fn step_depth(depth: nat, delimiter: lexical::Delimiter) -> nat {
    match delimiter {
        lexical::Delimiter::LeftBrace => depth + 1,
        lexical::Delimiter::RightBrace => if depth > 0 {
            (depth - 1) as nat
        } else {
            0
        },
        lexical::Delimiter::Semicolon => depth,
    }
}

/// The name that a token gives to an attribute: the text of an identifier
/// or of a literal.
pub open spec fn name_of(kind: lexical::KindView) -> Option<Seq<char>> {
    match kind {
        lexical::KindView::Lexeme(lexical::LexemeView::Identifier(name)) => Some(name),
        lexical::KindView::Lexeme(lexical::LexemeView::Literal(name)) => Some(name),
        _ => None,
    }
}

/// The text of a literal token.
pub open spec fn literal_of(kind: lexical::KindView) -> Option<Seq<char>> {
    match kind {
        lexical::KindView::Lexeme(lexical::LexemeView::Literal(value)) => Some(value),
        _ => None,
    }
}

/// The second token of `tokens` is the operator `operator`.
pub open spec fn follows(tokens: Seq<TokenView>, operator: lexical::Operator) -> bool {
    tokens.len() > 1 && tokens[1].kind == lexical::KindView::Operator(operator)
}

/// The diagnostic for a token that has no place where it stands.
pub open spec fn unexpected(token: TokenView) -> ResultView {
    ResultView::Diagnostic(
        DiagnosticView {
            kind: diagnostic::Kind::Error,
            message: "an unknown token was unexpectedly found"@,
            span: token.span,
        },
    )
}

/// What the pipe `pipe` declares at `depth` when `rest` comes after it: an
/// attribute named by the first token of `rest`, with the second token as
/// its value where that is a literal; or a diagnostic where the first token
/// gives no name.
pub open spec fn declaration(pipe: TokenView, rest: Seq<TokenView>, depth: nat) -> ResultView {
    if rest.len() > 0 && name_of(rest[0].kind) is Some {
        let name = name_of(rest[0].kind)->0;
        if rest.len() > 1 && literal_of(rest[1].kind) is Some {
            ResultView::Value(
                NodeView {
                    depth,
                    kind: KindView::Attribute { name, value: literal_of(rest[1].kind) },
                    span: pipe.span.through(rest[1].span),
                },
            )
        } else {
            ResultView::Value(
                NodeView {
                    depth,
                    kind: KindView::Attribute { name, value: None },
                    span: pipe.span.through(rest[0].span),
                },
            )
        }
    } else {
        ResultView::Diagnostic(
            DiagnosticView {
                kind: diagnostic::Kind::Error,
                message: "an identifier was expected after the property declaration"@,
                span: pipe.span,
            },
        )
    }
}

/// The number of tokens of `rest` that `declaration` takes.  The token
/// after the pipe is taken whether it gives a name or not.
pub open spec fn declaration_len(rest: Seq<TokenView>) -> nat {
    if rest.len() == 0 {
        0
    } else if name_of(rest[0].kind) is Some && rest.len() > 1 && literal_of(rest[1].kind)
        is Some {
        2
    } else {
        1
    }
}

/// The result that starts at the first token of `tokens`, which is no
/// delimiter, at `depth`.
pub open spec fn produce(tokens: Seq<TokenView>, depth: nat) -> ResultView
    recommends
        tokens.len() > 0,
        !(tokens[0].kind is Delimiter),
{
    let token = tokens[0];
    match token.kind {
        lexical::KindView::Lexeme(lexical::LexemeView::Comment(value)) => ResultView::Value(
            NodeView { depth, kind: KindView::Comment { value }, span: token.span },
        ),
        lexical::KindView::Lexeme(lexical::LexemeView::Identifier(name)) => {
            if follows(tokens, lexical::Operator::Borrow) {
                ResultView::Value(
                    NodeView {
                        depth,
                        kind: KindView::Borrow { name },
                        span: token.span.through(tokens[1].span),
                    },
                )
            } else if follows(tokens, lexical::Operator::Borrowable) {
                ResultView::Value(
                    NodeView {
                        depth,
                        kind: KindView::Borrowable { name },
                        span: token.span.through(tokens[1].span),
                    },
                )
            } else {
                ResultView::Value(
                    NodeView { depth, kind: KindView::Element { name }, span: token.span },
                )
            }
        },
        lexical::KindView::Lexeme(lexical::LexemeView::Literal(value)) => ResultView::Value(
            NodeView { depth, kind: KindView::Text { value }, span: token.span },
        ),
        lexical::KindView::Operator(lexical::Operator::Pipe) => declaration(
            token,
            tokens.skip(1),
            depth,
        ),
        _ => unexpected(token),
    }
}

/// The number of tokens that the result of `produce` takes.
pub open spec fn produce_len(tokens: Seq<TokenView>) -> nat
    recommends
        tokens.len() > 0,
        !(tokens[0].kind is Delimiter),
{
    match tokens[0].kind {
        lexical::KindView::Lexeme(lexical::LexemeView::Identifier(_)) => {
            if follows(tokens, lexical::Operator::Borrow) || follows(
                tokens,
                lexical::Operator::Borrowable,
            ) {
                2
            } else {
                1
            }
        },
        lexical::KindView::Operator(lexical::Operator::Pipe) => 1 + declaration_len(
            tokens.skip(1),
        ),
        _ => 1,
    }
}

/// The results that `tokens` gives when its first token stands at `depth`.
/// Delimiters give no result: braces move the depth, semicolons do nothing.
pub open spec fn parse(tokens: Seq<TokenView>, depth: nat) -> Seq<ResultView>
    decreases tokens.len(),
{
    if tokens.len() == 0 {
        Seq::empty()
    } else {
        match tokens[0].kind {
            lexical::KindView::Delimiter(delimiter) => parse(
                tokens.skip(1),
                step_depth(depth, delimiter),
            ),
            _ => seq![produce(tokens, depth)] + parse(
                tokens.skip(produce_len(tokens) as int),
                depth,
            ),
        }
    }
}

/// The highest depth that is reached while `tokens` is parsed from `depth`.
pub open spec fn peak(tokens: Seq<TokenView>, depth: nat) -> nat
    decreases tokens.len(),
{
    if tokens.len() == 0 {
        depth
    } else {
        match tokens[0].kind {
            lexical::KindView::Delimiter(delimiter) => {
                let deeper = peak(tokens.skip(1), step_depth(depth, delimiter));
                if deeper > depth {
                    deeper
                } else {
                    depth
                }
            },
            _ => peak(tokens.skip(produce_len(tokens) as int), depth),
        }
    }
}

/// The depth never rises above its peak, and the peak is no further above
/// it than there are tokens.
pub proof fn lemma_peak_bounds(tokens: Seq<TokenView>, depth: nat)
    ensures
        depth <= peak(tokens, depth) <= depth + tokens.len(),
    decreases tokens.len(),
{
    if tokens.len() > 0 {
        match tokens[0].kind {
            lexical::KindView::Delimiter(delimiter) => {
                lemma_peak_bounds(tokens.skip(1), step_depth(depth, delimiter));
            },
            _ => {
                lemma_peak_bounds(tokens.skip(produce_len(tokens) as int), depth);
            },
        }
    }
}

/// The number of tokens that the result starting at the token number `at`
/// takes.
fn production_len(tokens: &Vec<Token>, at: usize) -> (taken: usize)
    requires
        at < tokens@.len(),
        !(tokens@[at as int]@.kind is Delimiter),
    ensures
        taken == produce_len(views(tokens@).skip(at as int)),
        0 < taken,
        at + taken <= tokens@.len(),
{
    let ghost rest = views(tokens@).skip(at as int);
    let len = tokens.len();
    proof {
        assert(rest[0] == tokens@[at as int]@);
        if at + 1 < len {
            assert(rest[1] == tokens@[at + 1]@);
            assert(rest.skip(1)[0] == tokens@[at + 1]@);
        }
        if at + 2 < len {
            assert(rest.skip(1)[1] == tokens@[at + 2]@);
        }
    }
    match &tokens[at].kind {
        lexical::Kind::Lexeme(lexical::Lexeme::Identifier(_)) => {
            if at + 1 < len {
                match &tokens[at + 1].kind {
                    lexical::Kind::Operator(lexical::Operator::Borrow) => 2,
                    lexical::Kind::Operator(lexical::Operator::Borrowable) => 2,
                    _ => 1,
                }
            } else {
                1
            }
        },
        lexical::Kind::Operator(lexical::Operator::Pipe) => {
            if at + 1 < len {
                let named = match &tokens[at + 1].kind {
                    lexical::Kind::Lexeme(lexical::Lexeme::Identifier(_)) => true,
                    lexical::Kind::Lexeme(lexical::Lexeme::Literal(_)) => true,
                    _ => false,
                };
                if named && at + 2 < len {
                    match &tokens[at + 2].kind {
                        lexical::Kind::Lexeme(lexical::Lexeme::Literal(_)) => 3,
                        _ => 2,
                    }
                } else {
                    2
                }
            } else {
                1
            }
        },
        _ => 1,
    }
}

/// Says whether the depth stays within what a node can carry while
/// `tokens` is parsed from depth 0; if so, a converter can take them.
pub fn depth_fits(tokens: &Vec<Token>) -> (fits: bool)
    ensures
        fits == (peak(views(tokens@), 0) <= u16::MAX),
{
    let ghost all = views(tokens@);
    let mut at: usize = 0;
    let mut depth: usize = 0;
    let mut high: usize = 0;
    assert(all.skip(0) =~= all);
    proof {
        lemma_peak_bounds(all, 0);
    }
    while at < tokens.len()
        invariant
            all == views(tokens@),
            at <= tokens@.len(),
            depth <= high <= at,
            peak(all, 0) == if high > peak(all.skip(at as int), depth as nat) {
                high as nat
            } else {
                peak(all.skip(at as int), depth as nat)
            },
        decreases tokens@.len() - at,
    {
        let ghost rest = all.skip(at as int);
        assert(rest[0] == tokens@[at as int]@);
        match &tokens[at].kind {
            lexical::Kind::Delimiter(delimiter) => {
                proof {
                    assert(rest.skip(1) =~= all.skip(at + 1));
                    lemma_peak_bounds(rest.skip(1), step_depth(depth as nat, *delimiter));
                }
                match delimiter {
                    lexical::Delimiter::LeftBrace => {
                        depth += 1;
                    },
                    lexical::Delimiter::RightBrace => {
                        if depth > 0 {
                            depth -= 1;
                        }
                    },
                    lexical::Delimiter::Semicolon => {},
                }
                if depth > high {
                    high = depth;
                }
                at += 1;
            },
            _ => {
                let taken = production_len(tokens, at);
                assert(rest.skip(taken as int) =~= all.skip(at + taken));
                at += taken;
            },
        }
    }
    high <= 0xffff
}

/// What a token adds to the number of open braces.
pub open spec fn weight(token: TokenView) -> int {
    match token.kind {
        lexical::KindView::Delimiter(lexical::Delimiter::LeftBrace) => 1,
        lexical::KindView::Delimiter(lexical::Delimiter::RightBrace) => -1,
        _ => 0,
    }
}

/// The number of opening braces in `tokens` minus the number of closing ones.
pub open spec fn balance(tokens: Seq<TokenView>) -> int
    decreases tokens.len(),
{
    if tokens.len() == 0 {
        0
    } else {
        weight(tokens[0]) + balance(tokens.skip(1))
    }
}

/// For each result of `parse`, the place of its first token, counted from
/// `base` for the first token of `tokens`.
pub open spec fn origins(tokens: Seq<TokenView>, base: int) -> Seq<int>
    decreases tokens.len(),
{
    if tokens.len() == 0 {
        Seq::empty()
    } else {
        match tokens[0].kind {
            lexical::KindView::Delimiter(_) => origins(tokens.skip(1), base + 1),
            _ => seq![base] + origins(
                tokens.skip(produce_len(tokens) as int),
                base + produce_len(tokens),
            ),
        }
    }
}

/// Every brace of `tokens` moves the depth by one when parsing starts at
/// `depth`: no closing brace comes at depth 0, where it would leave the
/// depth as it is, and no brace is taken by a pipe as the token after it.
pub open spec fn braces_counted(tokens: Seq<TokenView>, depth: nat) -> bool
    decreases tokens.len(),
{
    if tokens.len() == 0 {
        true
    } else {
        match tokens[0].kind {
            lexical::KindView::Delimiter(delimiter) => {
                &&& depth + weight(tokens[0]) >= 0
                &&& braces_counted(tokens.skip(1), step_depth(depth, delimiter))
            },
            _ => {
                &&& forall|i: int|
                    0 <= i < produce_len(tokens) && i < tokens.len() ==> weight(
                        #[trigger] tokens[i],
                    ) == 0
                &&& braces_counted(tokens.skip(produce_len(tokens) as int), depth)
            },
        }
    }
}

/// A result takes at least one token and no more than there are.
pub proof fn lemma_produce_len_bounds(tokens: Seq<TokenView>)
    requires
        tokens.len() > 0,
    ensures
        0 < produce_len(tokens) <= tokens.len(),
{
}

/// Tokens that are no braces in front of a sequence do not change the
/// balance of any of its prefixes that holds them all.
proof fn lemma_balance_after_unbraced(tokens: Seq<TokenView>, count: int, end: int)
    requires
        0 <= count <= end <= tokens.len(),
        forall|i: int| 0 <= i < count ==> weight(#[trigger] tokens[i]) == 0,
    ensures
        balance(tokens.take(end)) == balance(tokens.skip(count).take(end - count)),
    decreases count,
{
    if count == 0 {
        assert(tokens.skip(0) =~= tokens);
    } else {
        let rest = tokens.skip(1);
        assert(tokens.take(end)[0] == tokens[0]);
        assert(tokens.take(end).skip(1) =~= rest.take(end - 1));
        assert forall|i: int| 0 <= i < count - 1 implies weight(#[trigger] rest[i]) == 0 by {
            assert(rest[i] == tokens[i + 1]);
        }
        lemma_balance_after_unbraced(rest, count - 1, end - 1);
        assert(rest.skip(count - 1) =~= tokens.skip(count));
    }
}

/// The depth of a node counts the braces before it, from any start.  See
/// `lemma_depth_consistency` for the statement about a whole document.
pub proof fn lemma_depth_counts_braces(tokens: Seq<TokenView>, depth: nat, base: int, index: int)
    requires
        braces_counted(tokens, depth),
        0 <= index < parse(tokens, depth).len(),
    ensures
        origins(tokens, base).len() == parse(tokens, depth).len(),
        ({
            let at = origins(tokens, base)[index] - base;
            &&& 0 <= at < tokens.len()
            &&& match parse(tokens, depth)[index] {
                ResultView::Value(node) => {
                    &&& node.depth == depth + balance(tokens.take(at))
                    &&& node.span.start == tokens[at].span.start
                },
                ResultView::Diagnostic(diagnostic) => diagnostic.span.start
                    == tokens[at].span.start,
            }
        }),
    decreases tokens.len(),
{
    lemma_origins_len(tokens, depth, base);
    match tokens[0].kind {
        lexical::KindView::Delimiter(delimiter) => {
            let rest = tokens.skip(1);
            let deeper = step_depth(depth, delimiter);
            lemma_depth_counts_braces(rest, deeper, base + 1, index);
            let at = origins(rest, base + 1)[index] - (base + 1);
            assert(tokens.take(at + 1)[0] == tokens[0]);
            assert(tokens.take(at + 1).skip(1) =~= rest.take(at));
        },
        _ => {
            lemma_produce_len_bounds(tokens);
            let taken = produce_len(tokens) as int;
            let rest = tokens.skip(taken);
            if index == 0 {
                assert(tokens.take(0) =~= Seq::<TokenView>::empty());
            } else {
                lemma_depth_counts_braces(rest, depth, base + taken, index - 1);
                let at = origins(rest, base + taken)[index - 1] - (base + taken);
                lemma_balance_after_unbraced(tokens, taken, taken + at);
            }
        },
    }
}

/// `origins` names one place for each result of `parse`.
proof fn lemma_origins_len(tokens: Seq<TokenView>, depth: nat, base: int)
    ensures
        origins(tokens, base).len() == parse(tokens, depth).len(),
    decreases tokens.len(),
{
    if tokens.len() > 0 {
        match tokens[0].kind {
            lexical::KindView::Delimiter(delimiter) => {
                lemma_origins_len(tokens.skip(1), step_depth(depth, delimiter), base + 1);
            },
            _ => {
                lemma_produce_len_bounds(tokens);
                lemma_origins_len(
                    tokens.skip(produce_len(tokens) as int),
                    depth,
                    base + produce_len(tokens),
                );
            },
        }
    }
}

/// Depth is the count of open braces.  In a document whose braces are all
/// counted, the result number `index` starts at the token number
/// `origins(tokens, 0)[index]`; if it is a node, its depth is the number of
/// opening braces minus the number of closing braces among the tokens
/// before that one, and its span starts where that token starts.
pub proof fn lemma_depth_consistency(tokens: Seq<TokenView>, index: int)
    requires
        braces_counted(tokens, 0),
        0 <= index < parse(tokens, 0).len(),
    ensures
        origins(tokens, 0).len() == parse(tokens, 0).len(),
        0 <= origins(tokens, 0)[index] < tokens.len(),
        parse(tokens, 0)[index] matches ResultView::Value(node) ==> {
            &&& node.depth == balance(tokens.take(origins(tokens, 0)[index]))
            &&& node.span.start == tokens[origins(tokens, 0)[index]].span.start
        },
{
    lemma_depth_counts_braces(tokens, 0, 0, index);
}

/// Groups a stream of tokens into depth-tagged nodes.
pub struct Analyzer<I: Stage<Item = Token>> {
    depth: u16,
    upstream: Peekable<I>,
}

impl<I: Stage<Item = Token>> Analyzer<I> {
    /// The tokens that have not been read yet.
    pub closed spec fn tokens(&self) -> Seq<TokenView> {
        self.upstream.pending()
    }

    /// The brace depth at the first token that has not been read yet.
    pub closed spec fn depth(&self) -> nat {
        self.depth as nat
    }

    /// `self` is what `before` becomes by producing `result` from its
    /// first token, which is no delimiter.
    pub open spec fn has_produced(&self, before: &Self, result: Option<Result>) -> bool {
        &&& result matches Some(produced)
        &&& produced@ == produce(before.tokens(), before.depth())
        &&& produce_len(before.tokens()) <= before.tokens().len()
        &&& self.tokens() == before.tokens().skip(produce_len(before.tokens()) as int)
        &&& self.depth() == before.depth()
    }

    fn parse_delimiter(&mut self, kind: lexical::Delimiter)
        requires
            old(self).well_formed(),
            old(self).tokens().len() > 0,
            old(self).tokens()[0].kind == lexical::KindView::Delimiter(kind),
        ensures
            final(self).well_formed(),
            final(self).tokens() == old(self).tokens().skip(1),
            final(self).depth() == step_depth(old(self).depth(), kind),
    {
        proof {
            lemma_peak_bounds(self.tokens().skip(1), step_depth(self.depth(), kind));
        }
        self.upstream.next();
        match kind {
            lexical::Delimiter::LeftBrace => {
                self.depth += 1;
            },
            lexical::Delimiter::RightBrace => {
                if self.depth > 0 {
                    self.depth -= 1;
                }
            },
            lexical::Delimiter::Semicolon => {},
        }
    }

    fn parse_comment_lexeme(&mut self, value: String) -> (result: Option<Result>)
        requires
            old(self).well_formed(),
            old(self).tokens().len() > 0,
            old(self).tokens()[0].kind == lexical::KindView::Lexeme(
                lexical::LexemeView::Comment(value@),
            ),
        ensures
            final(self).well_formed(),
            final(self).has_produced(old(self), result),
    {
        let token = self.upstream.next().unwrap();
        let data = Comment::new(value);
        let node = Node::new(self.depth, data, token.span);
        Some(Result::from(node))
    }

    fn parse_identifier_lexeme(&mut self, value: String) -> (result: Option<Result>)
        requires
            old(self).well_formed(),
            old(self).tokens().len() > 0,
            old(self).tokens()[0].kind == lexical::KindView::Lexeme(
                lexical::LexemeView::Identifier(value@),
            ),
        ensures
            final(self).well_formed(),
            final(self).has_produced(old(self), result),
    {
        let ghost tokens = self.tokens();
        let namet = self.upstream.next().unwrap();
        let operator = match self.upstream.peek() {
            Some(item) => match item.kind {
                lexical::Kind::Operator(operator) => Some(operator),
                _ => None,
            },
            None => None,
        };
        proof {
            if tokens.len() > 1 {
                assert(tokens.skip(1).skip(1) =~= tokens.skip(2));
                assert(tokens.skip(1)[0] == tokens[1]);
            }
        }
        match operator {
            Some(lexical::Operator::Borrow) => {
                let item = self.upstream.next().unwrap();
                let data = Borrow::new(value);
                let span = Span::new(namet.span.source, namet.span.start, item.span.end);
                let pi = ProcessingInstruction::from(data);
                let node = Node::new(self.depth, pi, span);
                Some(Result::from(node))
            },
            Some(lexical::Operator::Borrowable) => {
                let item = self.upstream.next().unwrap();
                let data = Borrowable::new(value);
                let span = Span::new(namet.span.source, namet.span.start, item.span.end);
                let pi = ProcessingInstruction::from(data);
                let node = Node::new(self.depth, pi, span);
                Some(Result::from(node))
            },
            _ => {
                let data = Element::new(value);
                let node = Node::new(self.depth, data, namet.span);
                Some(Result::from(node))
            },
        }
    }

    fn parse_literal_lexeme(&mut self, value: String) -> (result: Option<Result>)
        requires
            old(self).well_formed(),
            old(self).tokens().len() > 0,
            old(self).tokens()[0].kind == lexical::KindView::Lexeme(
                lexical::LexemeView::Literal(value@),
            ),
        ensures
            final(self).well_formed(),
            final(self).has_produced(old(self), result),
    {
        let item = self.upstream.next().unwrap();
        let data = Text::new(value);
        let node = Node::new(self.depth, data, item.span);
        Some(Result::from(node))
    }

    fn parse_lexeme(&mut self, kind: lexical::Lexeme) -> (result: Option<Result>)
        requires
            old(self).well_formed(),
            old(self).tokens().len() > 0,
            old(self).tokens()[0].kind == lexical::KindView::Lexeme(kind@),
        ensures
            final(self).well_formed(),
            final(self).has_produced(old(self), result),
    {
        match kind {
            lexical::Lexeme::Comment(value) => self.parse_comment_lexeme(value),
            lexical::Lexeme::Identifier(value) => self.parse_identifier_lexeme(value),
            lexical::Lexeme::Literal(value) => self.parse_literal_lexeme(value),
        }
    }

    /// Reads what follows the pipe `token`, which was read already.
    fn parse_pipe_operator(&mut self, token: Token) -> (result: Option<Result>)
        requires
            old(self).upstream.well_formed(),
        ensures
            final(self).upstream.well_formed(),
            final(self).depth == old(self).depth,
            result matches Some(produced) && produced@ == declaration(
                token@,
                old(self).tokens(),
                old(self).depth(),
            ),
            declaration_len(old(self).tokens()) <= old(self).tokens().len(),
            final(self).tokens() == old(self).tokens().skip(
                declaration_len(old(self).tokens()) as int,
            ),
    {
        let ghost rest = self.tokens();
        proof {
            assert(rest.skip(0) =~= rest);
            if rest.len() > 1 {
                assert(rest.skip(1).skip(1) =~= rest.skip(2));
                assert(rest.skip(1)[0] == rest[1]);
            }
        }
        if let Some(namet) = self.upstream.next() {
            let name = match namet.kind {
                lexical::Kind::Lexeme(lexical::Lexeme::Identifier(name)) => Some(name),
                lexical::Kind::Lexeme(lexical::Lexeme::Literal(name)) => Some(name),
                _ => None,
            };
            if let Some(name) = name {
                let value = match self.upstream.peek() {
                    Some(valuet) => match &valuet.kind {
                        lexical::Kind::Lexeme(lexical::Lexeme::Literal(value)) => Some(
                            value.clone(),
                        ),
                        _ => None,
                    },
                    None => None,
                };
                if let Some(value) = value {
                    let valuet = self.upstream.next().unwrap();
                    let data = Attribute::new(name, Some(value));
                    let span = Span::new(token.span.source, token.span.start, valuet.span.end);
                    let node = Node::new(self.depth, data, span);
                    return Some(Result::from(node));
                }
                let data = Attribute::new(name, None);
                let span = Span::new(token.span.source, token.span.start, namet.span.end);
                let node = Node::new(self.depth, data, span);
                return Some(Result::from(node));
            }
        }
        let message = "an identifier was expected after the property declaration";
        let diagnostic = Diagnostic::new(diagnostic::Kind::Error, message, token.span);
        Some(Result::from(diagnostic))
    }

    fn parse_operator(&mut self, kind: lexical::Operator) -> (result: Option<Result>)
        requires
            old(self).well_formed(),
            old(self).tokens().len() > 0,
            old(self).tokens()[0].kind == lexical::KindView::Operator(kind),
        ensures
            final(self).well_formed(),
            final(self).has_produced(old(self), result),
    {
        match kind {
            lexical::Operator::Pipe => {
                let ghost tokens = self.tokens();
                let token = self.upstream.next().unwrap();
                let result = self.parse_pipe_operator(token);
                proof {
                    let taken = declaration_len(tokens.skip(1)) as int;
                    assert(tokens.skip(1).skip(taken) =~= tokens.skip(1 + taken));
                }
                result
            },
            _ => self.parse_unknown(),
        }
    }

    /// Takes one token, whatever it is, and reports it as unexpected.  The
    /// depth stays as it is, so the tokens after it must not lead above the
    /// highest depth that a node can have.
    pub fn parse_unknown(&mut self) -> (result: Option<Result>)
        requires
            old(self).well_formed(),
            old(self).tokens().len() > 0,
            peak(old(self).tokens().skip(1), old(self).depth()) <= u16::MAX,
        ensures
            final(self).well_formed(),
            result matches Some(produced) && produced@ == unexpected(old(self).tokens()[0]),
            final(self).tokens() == old(self).tokens().skip(1),
            final(self).depth() == old(self).depth(),
            final(self).pending() == parse(old(self).tokens().skip(1), old(self).depth()),
    {
        let token = self.upstream.next().unwrap();
        let message = "an unknown token was unexpectedly found";
        let diagnostic = Diagnostic::new(diagnostic::Kind::Error, message, token.span);
        Some(Result::from(diagnostic))
    }

    /// What is pending is what the unread tokens give at the present depth.
    pub proof fn lemma_pending(&self)
        ensures
            self.pending() == parse(self.tokens(), self.depth()),
    {
    }

    /// A converter for the tokens of `upstream`, starting at depth 0.
    pub fn new(upstream: I) -> (analyzer: Self)
        requires
            upstream.well_formed(),
            peak(upstream.pending(), 0) <= u16::MAX,
        ensures
            analyzer.well_formed(),
            analyzer.tokens() == upstream.pending(),
            analyzer.depth() == 0,
            analyzer.pending() == parse(upstream.pending(), 0),
    {
        let upstream = Peekable::new(upstream);
        let depth: u16 = 0;
        Self { depth, upstream }
    }

}

impl<I: Stage<Item = Token>> Stage for Analyzer<I> {
    type Item = Result;

    closed spec fn well_formed(&self) -> bool {
        &&& self.upstream.well_formed()
        &&& peak(self.upstream.pending(), self.depth as nat) <= u16::MAX
    }

    closed spec fn pending(&self) -> Seq<ResultView> {
        parse(self.upstream.pending(), self.depth as nat)
    }

    fn next(&mut self) -> (item: Option<Result>) {
        loop
            invariant
                self.well_formed(),
                self.pending() == old(self).pending(),
            decreases self.tokens().len(),
        {
            let kind = match self.upstream.peek() {
                None => {
                    return None;
                },
                Some(token) => token.kind.clone(),
            };
            let ghost tokens = self.tokens();
            let ghost depth = self.depth();
            match kind {
                lexical::Kind::Delimiter(delimiter) => {
                    self.parse_delimiter(delimiter);
                },
                lexical::Kind::Lexeme(lexeme) => {
                    let result = self.parse_lexeme(lexeme);
                    proof {
                        let rest = parse(tokens.skip(produce_len(tokens) as int), depth);
                        assert((seq![produce(tokens, depth)] + rest).skip(1) =~= rest);
                    }
                    return result;
                },
                lexical::Kind::Operator(operator) => {
                    let result = self.parse_operator(operator);
                    proof {
                        let rest = parse(tokens.skip(produce_len(tokens) as int), depth);
                        assert((seq![produce(tokens, depth)] + rest).skip(1) =~= rest);
                    }
                    return result;
                },
                _ => {
                    let result = self.parse_unknown();
                    proof {
                        let rest = parse(tokens.skip(produce_len(tokens) as int), depth);
                        assert((seq![produce(tokens, depth)] + rest).skip(1) =~= rest);
                    }
                    return result;
                },
            }
        }
    }
}

} // verus!
