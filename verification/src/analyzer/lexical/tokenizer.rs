//! The tokenizer: characters in, tokens out.
//!
//! `tokens` says which tokens a sequence of characters is cut into; the
//! `Analyzer` produces exactly those, one per call, reading no further ahead
//! than the token at hand needs.
use crate::analyzer::diagnostic::{share, Position, Span, SpanView};
use crate::analyzer::lexical::{
    Delimiter, Kind, KindView, Lexeme, LexemeView, Operator, Token, TokenView,
};
use crate::analyzer::stage::{Peekable, Stage};
use crate::analyzer::text::push;
use std::rc::Rc;
use vstd::prelude::*;

verus! {

/// Characters that separate tokens and belong to none.
pub open spec fn is_blank(c: char) -> bool {
    c == '\n' || c == '\r' || c == '\t' || c == ' '
}

pub open spec fn is_line_break(c: char) -> bool {
    c == '\n' || c == '\r'
}

pub open spec fn is_delimiter(c: char) -> bool {
    c == '{' || c == '}' || c == ';'
}

pub open spec fn is_quote(c: char) -> bool {
    c == '\'' || c == '"'
}

/// Characters that an identifier can begin with.
pub open spec fn is_word_start(c: char) -> bool {
    ('A' <= c && c <= 'Z') || ('a' <= c && c <= 'z') || c == '_'
}

/// Characters that an identifier can go on with.
pub open spec fn is_word(c: char) -> bool {
    ('0' <= c && c <= '9') || ('A' <= c && c <= 'Z') || ('a' <= c && c <= 'z') || c == '-' || c
        == '_'
}

/// Characters that begin a comment, an identifier or a literal.
pub open spec fn is_lexeme_start(c: char) -> bool {
    c == '#' || is_word_start(c) || is_quote(c)
}

pub open spec fn is_operator_start(c: char) -> bool {
    c == '<' || c == '-' || c == '|'
}

/// The number of leading characters that can be part of an identifier.
pub open spec fn word_len(chars: Seq<char>) -> nat
    decreases chars.len(),
{
    if chars.len() > 0 && is_word(chars[0]) {
        1 + word_len(chars.skip(1))
    } else {
        0
    }
}

/// The number of leading characters that are not blank.
pub open spec fn solid_len(chars: Seq<char>) -> nat
    decreases chars.len(),
{
    if chars.len() > 0 && !is_blank(chars[0]) {
        1 + solid_len(chars.skip(1))
    } else {
        0
    }
}

/// The number of characters before the first line break.
pub open spec fn line_len(chars: Seq<char>) -> nat
    decreases chars.len(),
{
    if chars.len() > 0 && !is_line_break(chars[0]) {
        1 + line_len(chars.skip(1))
    } else {
        0
    }
}

/// The number of leading blanks.
pub open spec fn blank_len(chars: Seq<char>) -> nat
    decreases chars.len(),
{
    if chars.len() > 0 && is_blank(chars[0]) {
        1 + blank_len(chars.skip(1))
    } else {
        0
    }
}

/// The number of characters that a comment starting at `chars` takes: the
/// line, and the line break where there is one.
pub open spec fn comment_len(chars: Seq<char>) -> nat {
    if line_len(chars) < chars.len() {
        line_len(chars) + 1
    } else {
        line_len(chars)
    }
}

/// The text of a literal whose opening `delimiter` stood just before
/// `chars`.  A backslash is dropped and admits the character after it as
/// it is; `escaped` says that `chars` starts right after such a backslash.
/// The text ends before the first `delimiter` that is not escaped, or with
/// the input.
pub open spec fn literal_text(chars: Seq<char>, delimiter: char, escaped: bool) -> Seq<char>
    decreases chars.len(),
{
    if chars.len() == 0 {
        Seq::empty()
    } else if escaped {
        seq![chars[0]] + literal_text(chars.skip(1), delimiter, false)
    } else if chars[0] == '\\' {
        literal_text(chars.skip(1), delimiter, true)
    } else if chars[0] == delimiter {
        Seq::empty()
    } else {
        seq![chars[0]] + literal_text(chars.skip(1), delimiter, false)
    }
}

/// The number of characters of `chars` that the literal of `literal_text`
/// takes, the closing delimiter included where there is one.
pub open spec fn literal_len(chars: Seq<char>, delimiter: char, escaped: bool) -> nat
    decreases chars.len(),
{
    if chars.len() == 0 {
        0
    } else if escaped {
        1 + literal_len(chars.skip(1), delimiter, false)
    } else if chars[0] == '\\' {
        1 + literal_len(chars.skip(1), delimiter, true)
    } else if chars[0] == delimiter {
        1
    } else {
        1 + literal_len(chars.skip(1), delimiter, false)
    }
}

/// The kind of the token that starts at the first character of `chars`,
/// which is not blank.
pub open spec fn scan_kind(chars: Seq<char>) -> KindView
    recommends
        chars.len() > 0,
        !is_blank(chars[0]),
{
    let c = chars[0];
    if c == '{' {
        KindView::Delimiter(Delimiter::LeftBrace)
    } else if c == '}' {
        KindView::Delimiter(Delimiter::RightBrace)
    } else if c == ';' {
        KindView::Delimiter(Delimiter::Semicolon)
    } else if c == '#' {
        KindView::Lexeme(LexemeView::Comment(chars.take(line_len(chars) as int)))
    } else if is_word_start(c) {
        KindView::Lexeme(LexemeView::Identifier(chars.take(word_len(chars) as int)))
    } else if is_quote(c) {
        KindView::Lexeme(LexemeView::Literal(literal_text(chars.skip(1), c, false)))
    } else if c == '<' {
        if chars.len() > 1 && chars[1] == '-' {
            KindView::Operator(Operator::Borrow)
        } else {
            KindView::Unknown(seq!['<'])
        }
    } else if c == '-' {
        if chars.len() > 1 && chars[1] == '>' {
            KindView::Operator(Operator::Borrowable)
        } else {
            KindView::Unknown(seq!['-'])
        }
    } else if c == '|' {
        KindView::Operator(Operator::Pipe)
    } else {
        KindView::Unknown(chars.take(solid_len(chars) as int))
    }
}

/// The number of characters that the token of `scan_kind` takes.
pub open spec fn scan_len(chars: Seq<char>) -> nat
    recommends
        chars.len() > 0,
        !is_blank(chars[0]),
{
    let c = chars[0];
    if is_delimiter(c) {
        1
    } else if c == '#' {
        comment_len(chars)
    } else if is_word_start(c) {
        word_len(chars)
    } else if is_quote(c) {
        1 + literal_len(chars.skip(1), c, false)
    } else if c == '<' {
        if chars.len() > 1 && chars[1] == '-' {
            2
        } else {
            1
        }
    } else if c == '-' {
        if chars.len() > 1 && chars[1] == '>' {
            2
        } else {
            1
        }
    } else if c == '|' {
        1
    } else {
        solid_len(chars)
    }
}

/// The token that starts at the first character of `chars`, which is not
/// blank and stands at `position` in the source named `source`.
pub open spec fn first_token(chars: Seq<char>, position: Position, source: Seq<char>) -> TokenView
    recommends
        chars.len() > 0,
        !is_blank(chars[0]),
{
    TokenView {
        kind: scan_kind(chars),
        span: SpanView {
            source,
            start: position,
            end: position.after_all(chars.take(scan_len(chars) as int)),
        },
    }
}

/// The tokens that `chars` is cut into, when its first character stands at
/// `position` in the source named `source`.
pub open spec fn tokens(chars: Seq<char>, position: Position, source: Seq<char>) -> Seq<TokenView>
    decreases chars.len(),
{
    if chars.len() == 0 {
        Seq::empty()
    } else if is_blank(chars[0]) {
        tokens(chars.skip(1), position.after(chars[0]), source)
    } else {
        proof {
            lemma_scan_len_bounds(chars);
        }
        let token = first_token(chars, position, source);
        seq![token] + tokens(chars.skip(scan_len(chars) as int), token.span.end, source)
    }
}

pub proof fn lemma_word_len_bound(chars: Seq<char>)
    ensures
        word_len(chars) <= chars.len(),
    decreases chars.len(),
{
    if chars.len() > 0 && is_word(chars[0]) {
        lemma_word_len_bound(chars.skip(1));
    }
}

pub proof fn lemma_solid_len_bound(chars: Seq<char>)
    ensures
        solid_len(chars) <= chars.len(),
    decreases chars.len(),
{
    if chars.len() > 0 && !is_blank(chars[0]) {
        lemma_solid_len_bound(chars.skip(1));
    }
}

pub proof fn lemma_line_len_bound(chars: Seq<char>)
    ensures
        line_len(chars) <= chars.len(),
    decreases chars.len(),
{
    if chars.len() > 0 && !is_line_break(chars[0]) {
        lemma_line_len_bound(chars.skip(1));
    }
}

pub proof fn lemma_literal_len_bound(chars: Seq<char>, delimiter: char, escaped: bool)
    ensures
        literal_len(chars, delimiter, escaped) <= chars.len(),
    decreases chars.len(),
{
    if chars.len() > 0 {
        if escaped {
            lemma_literal_len_bound(chars.skip(1), delimiter, false);
        } else if chars[0] == '\\' {
            lemma_literal_len_bound(chars.skip(1), delimiter, true);
        } else if chars[0] != delimiter {
            lemma_literal_len_bound(chars.skip(1), delimiter, false);
        }
    }
}

/// A token takes at least one character and no more than there are.
pub proof fn lemma_scan_len_bounds(chars: Seq<char>)
    requires
        chars.len() > 0,
        !is_blank(chars[0]),
    ensures
        0 < scan_len(chars) <= chars.len(),
{
    lemma_word_len_bound(chars);
    lemma_word_len_bound(chars.skip(1));
    lemma_solid_len_bound(chars);
    lemma_solid_len_bound(chars.skip(1));
    lemma_line_len_bound(chars);
    lemma_line_len_bound(chars.skip(1));
    lemma_literal_len_bound(chars.skip(1), chars[0], false);
}

/// Reading `chars` and then `c` is reading `chars` with `c` at its end.
pub proof fn lemma_after_all_push(position: Position, chars: Seq<char>, c: char)
    ensures
        position.after_all(chars.push(c)) == position.after_all(chars).after(c),
    decreases chars.len(),
{
    let longer = chars.push(c);
    if chars.len() == 0 {
        assert(longer.skip(1) =~= Seq::<char>::empty());
        assert(longer[0] == c);
        assert(position.after_all(longer) == position.after(c).after_all(longer.skip(1)));
    } else {
        assert(longer.skip(1) =~= chars.skip(1).push(c));
        assert(longer[0] == chars[0]);
        lemma_after_all_push(position.after(chars[0]), chars.skip(1), c);
        assert(position.after_all(longer) == position.after(chars[0]).after_all(longer.skip(1)));
    }
}

/// Reading `first` and then `second` is reading the two in a row.
pub proof fn lemma_after_all_concat(position: Position, first: Seq<char>, second: Seq<char>)
    ensures
        position.after_all(first + second) == position.after_all(first).after_all(second),
    decreases first.len(),
{
    if first.len() == 0 {
        assert(first + second =~= second);
    } else {
        assert((first + second)[0] == first[0]);
        assert((first + second).skip(1) =~= first.skip(1) + second);
        lemma_after_all_concat(position.after(first[0]), first.skip(1), second);
    }
}

/// As long as the counters do not overflow, reading `chars` adds their
/// number to the offset and keeps column and row behind it.
pub proof fn lemma_after_all_offset(position: Position, chars: Seq<char>)
    requires
        position.well_formed(),
        position.abs + chars.len() <= usize::MAX,
    ensures
        position.after_all(chars).abs == position.abs + chars.len(),
        position.after_all(chars).well_formed(),
    decreases chars.len(),
{
    if chars.len() > 0 {
        lemma_after_all_offset(position.after(chars[0]), chars.skip(1));
    }
}

/// Every token covers exactly the characters it was read from.  The
/// `index`-th token of `chars` starts at an offset of `chars` that holds no
/// blank; it is the token that scanning from there gives, so the length of
/// its span is the number of characters that this token takes; and its
/// start and its end are the positions reached by reading everything
/// before them.
pub proof fn lemma_span_coverage(
    chars: Seq<char>,
    position: Position,
    source: Seq<char>,
    index: int,
)
    requires
        position.well_formed(),
        position.abs + chars.len() <= usize::MAX,
        0 <= index < tokens(chars, position, source).len(),
    ensures
        ({
            let token = tokens(chars, position, source)[index];
            let start = token.span.start.abs - position.abs;
            let end = token.span.end.abs - position.abs;
            &&& 0 <= start < end <= chars.len()
            &&& !is_blank(chars[start])
            &&& token == first_token(chars.skip(start), token.span.start, source)
            &&& token.span.len() == scan_len(chars.skip(start))
            &&& token.span.start == position.after_all(chars.take(start))
            &&& token.span.end == position.after_all(chars.take(end))
        }),
    decreases chars.len(),
{
    let token = tokens(chars, position, source)[index];
    if is_blank(chars[0]) {
        let rest = chars.skip(1);
        let moved = position.after(chars[0]);
        lemma_span_coverage(rest, moved, source, index);
        let start = token.span.start.abs - moved.abs;
        let end = token.span.end.abs - moved.abs;
        assert(rest.skip(start) =~= chars.skip(start + 1));
        assert(chars.take(start + 1).skip(1) =~= rest.take(start));
        assert(chars.take(end + 1).skip(1) =~= rest.take(end));
    } else {
        lemma_scan_len_bounds(chars);
        let taken = scan_len(chars) as int;
        let first = first_token(chars, position, source);
        lemma_after_all_offset(position, chars.take(taken));
        if index == 0 {
            assert(chars.skip(0) =~= chars);
            assert(chars.take(0) =~= Seq::<char>::empty());
        } else {
            let rest = chars.skip(taken);
            lemma_span_coverage(rest, first.span.end, source, index - 1);
            let start = token.span.start.abs - first.span.end.abs;
            let end = token.span.end.abs - first.span.end.abs;
            assert(rest.skip(start) =~= chars.skip(taken + start));
            assert(chars.take(taken + start) =~= chars.take(taken) + rest.take(start));
            assert(chars.take(taken + end) =~= chars.take(taken) + rest.take(end));
            lemma_after_all_concat(position, chars.take(taken), rest.take(start));
            lemma_after_all_concat(position, chars.take(taken), rest.take(end));
        }
    }
}

/// The text of a literal is decided by the characters that the literal
/// takes.
pub proof fn lemma_literal_text_within(chars: Seq<char>, delimiter: char, escaped: bool)
    ensures
        literal_len(chars, delimiter, escaped) <= chars.len(),
        literal_text(
            chars.take(literal_len(chars, delimiter, escaped) as int),
            delimiter,
            escaped,
        ) == literal_text(chars, delimiter, escaped),
    decreases chars.len(),
{
    lemma_literal_len_bound(chars, delimiter, escaped);
    let taken = literal_len(chars, delimiter, escaped) as int;
    if chars.len() > 0 {
        let front = chars.take(taken);
        assert(front[0] == chars[0]);
        if escaped || chars[0] == '\\' || chars[0] != delimiter {
            let next = !escaped && chars[0] == '\\';
            lemma_literal_text_within(chars.skip(1), delimiter, next);
            assert(front.skip(1) =~= chars.skip(1).take(taken - 1));
        } else {
            assert(front.skip(1) =~= Seq::<char>::empty());
        }
    } else {
        assert(chars.take(0) =~= chars);
    }
}

/// The text of a token is the text of its span: all of it for an
/// identifier and for an unknown token, the line without its line break
/// for a comment, and for a literal what stands between the delimiters
/// with the escapes resolved.
pub proof fn lemma_span_text(chars: Seq<char>, position: Position, source: Seq<char>, index: int)
    requires
        position.well_formed(),
        position.abs + chars.len() <= usize::MAX,
        0 <= index < tokens(chars, position, source).len(),
    ensures
        ({
            let token = tokens(chars, position, source)[index];
            let start = token.span.start.abs - position.abs;
            let end = token.span.end.abs - position.abs;
            &&& 0 <= start < end <= chars.len()
            &&& token.kind matches KindView::Lexeme(LexemeView::Identifier(text)) ==> text
                == chars.subrange(start, end)
            &&& token.kind matches KindView::Unknown(text) ==> text == chars.subrange(start, end)
            &&& token.kind matches KindView::Lexeme(LexemeView::Comment(text)) ==> text
                == chars.subrange(start, start + line_len(chars.skip(start)))
            &&& token.kind matches KindView::Lexeme(LexemeView::Literal(text)) ==> text
                == literal_text(chars.subrange(start + 1, end), chars[start], false)
        }),
{
    lemma_span_coverage(chars, position, source, index);
    let token = tokens(chars, position, source)[index];
    let start = token.span.start.abs - position.abs;
    let end = token.span.end.abs - position.abs;
    let rest = chars.skip(start);
    lemma_line_len_bound(rest);
    assert(rest.take(end - start) =~= chars.subrange(start, end));
    assert(rest.take(line_len(rest) as int) =~= chars.subrange(start, start + line_len(rest)));
    if rest[0] == '<' || rest[0] == '-' {
        assert(rest.take(1) =~= seq![rest[0]]);
    }
    if is_quote(rest[0]) {
        lemma_literal_text_within(rest.skip(1), rest[0], false);
        assert(rest.skip(1).take(end - start - 1) =~= chars.subrange(start + 1, end));
    }
}

/// Tokens come in the order of the source and do not overlap: a token
/// ends after it starts, and no later than any token after it starts.
pub proof fn lemma_tokens_in_order(
    chars: Seq<char>,
    position: Position,
    source: Seq<char>,
    first: int,
    second: int,
)
    requires
        position.well_formed(),
        position.abs + chars.len() <= usize::MAX,
        0 <= first < second < tokens(chars, position, source).len(),
    ensures
        ({
            let all = tokens(chars, position, source);
            all[first].span.start.abs < all[first].span.end.abs <= all[second].span.start.abs
        }),
    decreases chars.len(),
{
    if is_blank(chars[0]) {
        lemma_tokens_in_order(chars.skip(1), position.after(chars[0]), source, first, second);
    } else {
        lemma_scan_len_bounds(chars);
        let taken = scan_len(chars) as int;
        let end = first_token(chars, position, source).span.end;
        lemma_after_all_offset(position, chars.take(taken));
        if first == 0 {
            lemma_span_coverage(chars, position, source, 0);
            lemma_span_coverage(chars.skip(taken), end, source, second - 1);
        } else {
            lemma_tokens_in_order(chars.skip(taken), end, source, first - 1, second - 1);
        }
    }
}

/// Only blanks lie outside the spans: every character that is no blank
/// belongs to a token, whose number the proof hands back.  So a text
/// without blanks is covered by the spans of its tokens from end to end.
pub proof fn lemma_spans_leave_only_blanks(
    chars: Seq<char>,
    position: Position,
    source: Seq<char>,
    offset: int,
) -> (index: int)
    requires
        position.well_formed(),
        position.abs + chars.len() <= usize::MAX,
        0 <= offset < chars.len(),
        !is_blank(chars[offset]),
    ensures
        0 <= index < tokens(chars, position, source).len(),
        ({
            let token = tokens(chars, position, source)[index];
            token.span.start.abs <= position.abs + offset < token.span.end.abs
        }),
    decreases chars.len(),
{
    if is_blank(chars[0]) {
        lemma_spans_leave_only_blanks(
            chars.skip(1),
            position.after(chars[0]),
            source,
            offset - 1,
        )
    } else {
        lemma_scan_len_bounds(chars);
        let taken = scan_len(chars) as int;
        let end = first_token(chars, position, source).span.end;
        lemma_after_all_offset(position, chars.take(taken));
        if offset < taken {
            0
        } else {
            let rest = tokens(chars.skip(taken), end, source);
            let index = lemma_spans_leave_only_blanks(
                chars.skip(taken),
                end,
                source,
                offset - taken,
            );
            assert(tokens(chars, position, source)[index + 1] == rest[index]);
            index + 1
        }
    }
}

/// Cuts a stream of characters into tokens.
pub struct Analyzer<T: Stage<Item = char>> {
    reader: Peekable<T>,
    position: Position,
    source: Rc<String>,
}

impl<T: Stage<Item = char>> Analyzer<T> {
    /// The characters that have not been read yet.
    pub closed spec fn characters(&self) -> Seq<char> {
        self.reader.pending()
    }

    /// The position of the first character that has not been read yet.
    pub closed spec fn position(&self) -> Position {
        self.position
    }

    /// The name of the source, which every span is stamped with.
    pub closed spec fn source(&self) -> Seq<char> {
        self.source@
    }

    /// `self` is what `before` becomes by reading `count` characters.
    pub open spec fn has_read(&self, before: &Self, count: nat) -> bool {
        &&& count <= before.characters().len()
        &&& self.characters() == before.characters().skip(count as int)
        &&& self.position() == before.position().after_all(
            before.characters().take(count as int),
        )
        &&& self.source() == before.source()
    }

    /// `self` is what `before` becomes by reading its first token, `token`.
    pub open spec fn has_scanned(&self, before: &Self, token: TokenView) -> bool {
        &&& token == first_token(before.characters(), before.position(), before.source())
        &&& self.has_read(before, scan_len(before.characters()))
    }

    /// `self` is what `before` becomes by handing out `token`: the blanks
    /// in front of the token and the token itself have been read, and
    /// nothing more.  The span of the token starts after those blanks, ends
    /// where reading has stopped, and is as long as the token has
    /// characters.
    pub open spec fn has_handed_out(&self, before: &Self, token: TokenView) -> bool {
        let blanks = blank_len(before.characters()) as int;
        let rest = before.characters().skip(blanks);
        &&& blanks < before.characters().len()
        &&& token == first_token(
            rest,
            before.position().after_all(before.characters().take(blanks)),
            before.source(),
        )
        &&& token.span.end == self.position()
        &&& token.span.len() == scan_len(rest)
        &&& blanks + scan_len(rest) <= before.characters().len()
        &&& self.characters() == rest.skip(scan_len(rest) as int)
        &&& self.source() == before.source()
    }

    /// Reads one character, if there is one, and moves the position past it.
    fn advance(&mut self) -> (item: Option<char>)
        requires
            old(self).well_formed(),
        ensures
            final(self).well_formed(),
            final(self).source == old(self).source,
            old(self).characters().len() == 0 ==> item is None && final(self).characters()
                == old(self).characters() && final(self).position() == old(self).position(),
            old(self).characters().len() > 0 ==> item == Some(old(self).characters()[0])
                && final(self).characters() == old(self).characters().skip(1)
                && final(self).position() == old(self).position().after(
                old(self).characters()[0],
            ),
    {
        let item = self.reader.next();
        if let Some(c) = item {
            self.position.abs += 1;
            if c == '\n' {
                self.position.row += 1;
                self.position.col = 0;
            } else {
                self.position.col += 1;
            }
        }
        item
    }

    fn tokenize_delimiter(&mut self) -> (token: Token)
        requires
            old(self).well_formed(),
            old(self).characters().len() > 0,
            is_delimiter(old(self).characters()[0]),
        ensures
            final(self).well_formed(),
            final(self).has_scanned(old(self), token@),
    {
        let position = self.position;
        let ghost chars = self.characters();
        let c = self.advance().unwrap();
        let kind = if c == '{' {
            Kind::Delimiter(Delimiter::LeftBrace)
        } else if c == '}' {
            Kind::Delimiter(Delimiter::RightBrace)
        } else {
            Kind::Delimiter(Delimiter::Semicolon)
        };
        proof {
            assert(chars.take(1) =~= Seq::<char>::empty().push(chars[0]));
            lemma_after_all_push(position, Seq::empty(), chars[0]);
        }
        let span = Span::new(share(&self.source), position, self.position);
        Token::new(kind, span)
    }

    fn tokenize_comment_lexeme(&mut self) -> (kind: Kind)
        requires
            old(self).well_formed(),
            old(self).characters().len() > 0,
            old(self).characters()[0] == '#',
        ensures
            final(self).well_formed(),
            kind@ == scan_kind(old(self).characters()),
            final(self).has_read(old(self), scan_len(old(self).characters())),
    {
        let ghost chars = self.characters();
        let ghost start = self.position;
        let ghost mut count: int = 0;
        let mut content = String::new();
        proof {
            assert(chars.skip(0) =~= chars);
            assert(chars.take(0) =~= Seq::<char>::empty());
        }
        loop
            invariant_except_break
                self.well_formed(),
                self.source == old(self).source,
                0 <= count <= chars.len(),
                self.characters() == chars.skip(count as int),
                self.position == start.after_all(chars.take(count as int)),
                content@ == chars.take(count as int),
                line_len(chars) == count + line_len(chars.skip(count as int)),
            ensures
                self.well_formed(),
                self.source == old(self).source,
                comment_len(chars) <= chars.len(),
                self.characters() == chars.skip(comment_len(chars) as int),
                self.position == start.after_all(chars.take(comment_len(chars) as int)),
                content@ == chars.take(line_len(chars) as int),
            decreases self.characters().len(),
        {
            let item = self.advance();
            proof {
                if item is Some {
                    assert(chars.skip(count as int).skip(1) =~= chars.skip(count + 1));
                    assert(chars.take(count + 1) =~= chars.take(count as int).push(
                        chars[count as int],
                    ));
                    lemma_after_all_push(start, chars.take(count as int), chars[count as int]);
                }
            }
            match item {
                None => {
                    break ;
                },
                Some(c) => {
                    if c == '\n' || c == '\r' {
                        break ;
                    }
                    push(&mut content, c);
                    proof {
                        count = count + 1;
                    }
                },
            }
        }
        Kind::Lexeme(Lexeme::Comment(content))
    }

    fn tokenize_identifier_lexeme(&mut self) -> (kind: Kind)
        requires
            old(self).well_formed(),
            old(self).characters().len() > 0,
            is_word_start(old(self).characters()[0]),
        ensures
            final(self).well_formed(),
            kind@ == scan_kind(old(self).characters()),
            final(self).has_read(old(self), scan_len(old(self).characters())),
    {
        let ghost chars = self.characters();
        let ghost start = self.position;
        let ghost mut count: int = 0;
        let mut content = String::new();
        proof {
            assert(chars.skip(0) =~= chars);
            assert(chars.take(0) =~= Seq::<char>::empty());
        }
        loop
            invariant_except_break
                self.well_formed(),
                self.source == old(self).source,
                0 <= count <= chars.len(),
                self.characters() == chars.skip(count as int),
                self.position == start.after_all(chars.take(count as int)),
                content@ == chars.take(count as int),
                word_len(chars) == count + word_len(chars.skip(count as int)),
            ensures
                self.well_formed(),
                self.source == old(self).source,
                word_len(chars) <= chars.len(),
                self.characters() == chars.skip(word_len(chars) as int),
                self.position == start.after_all(chars.take(word_len(chars) as int)),
                content@ == chars.take(word_len(chars) as int),
            decreases self.characters().len(),
        {
            let c = match self.reader.peek() {
                None => {
                    break ;
                },
                Some(c) => *c,
            };
            match c {
                '0'..='9' | 'A'..='Z' | 'a'..='z' | '-' | '_' => {
                    push(&mut content, c);
                },
                _ => {
                    break ;
                },
            }
            self.advance();
            proof {
                assert(chars.skip(count as int).skip(1) =~= chars.skip(count + 1));
                assert(chars.take(count + 1) =~= chars.take(count as int).push(
                    chars[count as int],
                ));
                lemma_after_all_push(start, chars.take(count as int), chars[count as int]);
                count = count + 1;
            }
        }
        Kind::Lexeme(Lexeme::Identifier(content))
    }

    fn tokenize_literal_lexeme(&mut self) -> (kind: Kind)
        requires
            old(self).well_formed(),
            old(self).characters().len() > 0,
            is_quote(old(self).characters()[0]),
        ensures
            final(self).well_formed(),
            kind@ == scan_kind(old(self).characters()),
            final(self).has_read(old(self), scan_len(old(self).characters())),
    {
        let ghost chars = self.characters();
        let ghost start = self.position;
        let delimiter = self.advance().unwrap();
        let ghost body = chars.skip(1);
        let ghost mut count: int = 0;
        let mut content = String::new();
        let mut escape = false;
        proof {
            assert(chars.take(1) =~= Seq::<char>::empty().push(chars[0]));
            lemma_after_all_push(start, Seq::empty(), chars[0]);
            assert(body.skip(0) =~= body);
            assert(body.take(0) =~= Seq::<char>::empty());
            assert(chars.take(1) =~= chars.take(1) + body.take(0));
        }
        loop
            invariant_except_break
                self.well_formed(),
                self.source == old(self).source,
                body == chars.skip(1),
                chars.len() > 0,
                0 <= count <= body.len(),
                self.characters() == body.skip(count as int),
                self.position == start.after_all(chars.take(1 + count)),
                literal_text(body, delimiter, false) == content@ + literal_text(
                    body.skip(count as int),
                    delimiter,
                    escape,
                ),
                literal_len(body, delimiter, false) == count + literal_len(
                    body.skip(count as int),
                    delimiter,
                    escape,
                ),
            ensures
                self.well_formed(),
                self.source == old(self).source,
                literal_len(body, delimiter, false) <= body.len(),
                self.characters() == body.skip(literal_len(body, delimiter, false) as int),
                self.position == start.after_all(
                    chars.take(1 + literal_len(body, delimiter, false) as int),
                ),
                content@ == literal_text(body, delimiter, false),
            decreases self.characters().len(),
        {
            let ghost rest = body.skip(count as int);
            let ghost text = content@;
            let item = self.advance();
            proof {
                if item is Some {
                    assert(rest.skip(1) =~= body.skip(count + 1));
                    assert(chars.take(1 + count + 1) =~= chars.take(1 + count).push(
                        body[count as int],
                    ));
                    lemma_after_all_push(start, chars.take(1 + count), body[count as int]);
                } else {
                    assert(text + Seq::<char>::empty() =~= text);
                }
            }
            match item {
                None => {
                    break ;
                },
                Some(c) => {
                    if escape {
                        push(&mut content, c);
                        escape = false;
                        assert(text + (seq![c] + literal_text(rest.skip(1), delimiter, false))
                            =~= text.push(c) + literal_text(rest.skip(1), delimiter, false));
                    } else if c == '\\' {
                        escape = true;
                    } else if c == delimiter {
                        assert(text + Seq::<char>::empty() =~= text);
                        break ;
                    } else {
                        push(&mut content, c);
                        assert(text + (seq![c] + literal_text(rest.skip(1), delimiter, false))
                            =~= text.push(c) + literal_text(rest.skip(1), delimiter, false));
                    }
                    proof {
                        count = count + 1;
                    }
                },
            }
        }
        proof {
            let taken = literal_len(body, delimiter, false);
            assert(body.skip(taken as int) =~= chars.skip(1 + taken as int));
        }
        Kind::Lexeme(Lexeme::Literal(content))
    }

    fn tokenize_lexeme(&mut self) -> (token: Token)
        requires
            old(self).well_formed(),
            old(self).characters().len() > 0,
            is_lexeme_start(old(self).characters()[0]),
        ensures
            final(self).well_formed(),
            final(self).has_scanned(old(self), token@),
    {
        let position = self.position;
        let c = *self.reader.peek().unwrap();
        let kind = match c {
            '#' => self.tokenize_comment_lexeme(),
            '\'' | '"' => self.tokenize_literal_lexeme(),
            _ => self.tokenize_identifier_lexeme(),
        };
        let span = Span::new(share(&self.source), position, self.position);
        Token::new(kind, span)
    }

    fn tokenize_borrow_operator(&mut self) -> (kind: Kind)
        requires
            old(self).well_formed(),
        ensures
            final(self).well_formed(),
            final(self).source == old(self).source,
            old(self).characters().len() > 0 && old(self).characters()[0] == '-' ==> kind@
                == KindView::Operator(Operator::Borrow) && final(self).characters() == old(
                self,
            ).characters().skip(1) && final(self).position() == old(self).position().after('-'),
            !(old(self).characters().len() > 0 && old(self).characters()[0] == '-') ==> kind@
                == KindView::Unknown(seq!['<']) && final(self).characters() == old(
                self,
            ).characters() && final(self).position() == old(self).position(),
    {
        let follows = match self.reader.peek() {
            Some(c) => *c == '-',
            None => false,
        };
        if follows {
            self.advance();
            Kind::Operator(Operator::Borrow)
        } else {
            proof {
                reveal_strlit("<");
            }
            let symbol = "<".to_owned();
            assert(symbol@ =~= seq!['<']);
            Kind::Unknown(symbol)
        }
    }

    fn tokenize_borrowable_transfer_operator(&mut self) -> (kind: Kind)
        requires
            old(self).well_formed(),
        ensures
            final(self).well_formed(),
            final(self).source == old(self).source,
            old(self).characters().len() > 0 && old(self).characters()[0] == '>' ==> kind@
                == KindView::Operator(Operator::Borrowable) && final(self).characters() == old(
                self,
            ).characters().skip(1) && final(self).position() == old(self).position().after('>'),
            !(old(self).characters().len() > 0 && old(self).characters()[0] == '>') ==> kind@
                == KindView::Unknown(seq!['-']) && final(self).characters() == old(
                self,
            ).characters() && final(self).position() == old(self).position(),
    {
        let follows = match self.reader.peek() {
            Some(c) => *c == '>',
            None => false,
        };
        if follows {
            self.advance();
            Kind::Operator(Operator::Borrowable)
        } else {
            proof {
                reveal_strlit("-");
            }
            let symbol = "-".to_owned();
            assert(symbol@ =~= seq!['-']);
            Kind::Unknown(symbol)
        }
    }

    fn tokenize_pipe_operator(&mut self) -> (kind: Kind)
        ensures
            *final(self) == *old(self),
            kind@ == KindView::Operator(Operator::Pipe),
    {
        Kind::Operator(Operator::Pipe)
    }

    fn tokenize_operator(&mut self) -> (token: Token)
        requires
            old(self).well_formed(),
            old(self).characters().len() > 0,
            is_operator_start(old(self).characters()[0]),
        ensures
            final(self).well_formed(),
            final(self).has_scanned(old(self), token@),
    {
        let position = self.position;
        let ghost chars = self.characters();
        let c = self.advance().unwrap();
        let kind = match c {
            '<' => self.tokenize_borrow_operator(),
            '-' => self.tokenize_borrowable_transfer_operator(),
            _ => self.tokenize_pipe_operator(),
        };
        proof {
            assert(chars.take(1) =~= Seq::<char>::empty().push(chars[0]));
            lemma_after_all_push(position, Seq::empty(), chars[0]);
            if scan_len(chars) == 2 {
                assert(chars.take(2) =~= chars.take(1).push(chars[1]));
                lemma_after_all_push(position, chars.take(1), chars[1]);
                assert(chars.skip(1).skip(1) =~= chars.skip(2));
            }
        }
        let span = Span::new(share(&self.source), position, self.position);
        Token::new(kind, span)
    }

    fn tokenize_unknown(&mut self) -> (token: Token)
        requires
            old(self).well_formed(),
            old(self).characters().len() > 0,
            !is_blank(old(self).characters()[0]),
            !is_delimiter(old(self).characters()[0]),
            !is_lexeme_start(old(self).characters()[0]),
            !is_operator_start(old(self).characters()[0]),
        ensures
            final(self).well_formed(),
            final(self).has_scanned(old(self), token@),
    {
        let position = self.position;
        let ghost chars = self.characters();
        let ghost mut count: int = 0;
        let mut content = String::new();
        proof {
            assert(chars.skip(0) =~= chars);
            assert(chars.take(0) =~= Seq::<char>::empty());
        }
        loop
            invariant_except_break
                self.well_formed(),
                self.source == old(self).source,
                0 <= count <= chars.len(),
                self.characters() == chars.skip(count as int),
                self.position == position.after_all(chars.take(count as int)),
                content@ == chars.take(count as int),
                solid_len(chars) == count + solid_len(chars.skip(count as int)),
            ensures
                self.well_formed(),
                self.source == old(self).source,
                solid_len(chars) <= chars.len(),
                self.characters() == chars.skip(solid_len(chars) as int),
                self.position == position.after_all(chars.take(solid_len(chars) as int)),
                content@ == chars.take(solid_len(chars) as int),
            decreases self.characters().len(),
        {
            let c = match self.reader.peek() {
                None => {
                    break ;
                },
                Some(c) => *c,
            };
            match c {
                '\n' | '\r' | '\t' | ' ' => {
                    break ;
                },
                _ => {
                    push(&mut content, c);
                },
            }
            self.advance();
            proof {
                assert(chars.skip(count as int).skip(1) =~= chars.skip(count + 1));
                assert(chars.take(count + 1) =~= chars.take(count as int).push(
                    chars[count as int],
                ));
                lemma_after_all_push(position, chars.take(count as int), chars[count as int]);
                count = count + 1;
            }
        }
        let kind = Kind::Unknown(content);
        let span = Span::new(share(&self.source), position, self.position);
        Token::new(kind, span)
    }

    /// What is pending is what the unread characters are cut into.
    pub proof fn lemma_pending(&self)
        ensures
            self.pending() == tokens(self.characters(), self.position(), self.source()),
    {
    }

    /// A tokenizer for the characters of `reader`, which come from the
    /// source named `source`.
    pub fn new(source: &str, reader: T) -> (analyzer: Self)
        requires
            reader.well_formed(),
            reader.pending().len() <= usize::MAX,
        ensures
            analyzer.well_formed(),
            analyzer.characters() == reader.pending(),
            analyzer.position() == (Position { abs: 0, col: 0, row: 0 }),
            analyzer.source() == source@,
            analyzer.pending() == tokens(
                reader.pending(),
                Position { abs: 0, col: 0, row: 0 },
                source@,
            ),
    {
        Self {
            reader: Peekable::new(reader),
            position: Position::default(),
            source: Rc::new(source.to_owned()),
        }
    }
}

impl<T: Stage<Item = char>> Stage for Analyzer<T> {
    type Item = Token;

    closed spec fn well_formed(&self) -> bool {
        &&& self.reader.well_formed()
        &&& self.position.well_formed()
        &&& self.position.abs + self.reader.pending().len() <= usize::MAX
    }

    closed spec fn pending(&self) -> Seq<TokenView> {
        tokens(self.reader.pending(), self.position, self.source@)
    }

    fn next(&mut self) -> (item: Option<Token>)
        ensures
            item matches Some(token) ==> final(self).has_handed_out(old(self), token@),
            item is None ==> final(self).characters().len() == 0 && blank_len(
                old(self).characters(),
            ) == old(self).characters().len(),
    {
        let ghost origin = *old(self);
        let ghost mut skipped: int = 0;
        proof {
            assert(origin.characters().skip(0) =~= origin.characters());
            assert(origin.characters().take(0) =~= Seq::<char>::empty());
        }
        loop
            invariant
                self.well_formed(),
                self.pending() == old(self).pending(),
                origin == *old(self),
                0 <= skipped <= origin.characters().len(),
                self.characters() == origin.characters().skip(skipped),
                self.position() == origin.position().after_all(
                    origin.characters().take(skipped),
                ),
                self.source() == origin.source(),
                blank_len(origin.characters()) == skipped + blank_len(self.characters()),
            decreases self.characters().len(),
        {
            let ghost chars = self.characters();
            let c = match self.reader.peek() {
                None => {
                    return None;
                },
                Some(c) => *c,
            };
            let ghost before = *self;
            match c {
                '\n' | '\r' | '\t' | ' ' => {
                    self.advance();
                    proof {
                        let all = origin.characters();
                        assert(all.skip(skipped).skip(1) =~= all.skip(skipped + 1));
                        assert(all.take(skipped + 1) =~= all.take(skipped).push(all[skipped]));
                        lemma_after_all_push(origin.position(), all.take(skipped), all[skipped]);
                        skipped = skipped + 1;
                    }
                },
                '{' | '}' | ';' => {
                    let token = self.tokenize_delimiter();
                    proof {
                        before.lemma_pending_after_scan(self, token@);
                        self.lemma_handed_out(&origin, &before, skipped, token@);
                    }
                    return Some(token);
                },
                'A'..='Z' | 'a'..='z' | '\'' | '"' | '#' | '_' => {
                    let token = self.tokenize_lexeme();
                    proof {
                        before.lemma_pending_after_scan(self, token@);
                        self.lemma_handed_out(&origin, &before, skipped, token@);
                    }
                    return Some(token);
                },
                '<' | '-' | '|' => {
                    let token = self.tokenize_operator();
                    proof {
                        before.lemma_pending_after_scan(self, token@);
                        self.lemma_handed_out(&origin, &before, skipped, token@);
                    }
                    return Some(token);
                },
                _ => {
                    let token = self.tokenize_unknown();
                    proof {
                        before.lemma_pending_after_scan(self, token@);
                        self.lemma_handed_out(&origin, &before, skipped, token@);
                    }
                    return Some(token);
                },
            }
        }
    }
}

impl<T: Stage<Item = char>> Analyzer<T> {
    /// Reading the blanks in front of a token and then the token is handing
    /// the token out.
    proof fn lemma_handed_out(&self, origin: &Self, before: &Self, skipped: int, token: TokenView)
        requires
            before.well_formed(),
            0 <= skipped <= origin.characters().len(),
            before.characters() == origin.characters().skip(skipped),
            before.position() == origin.position().after_all(origin.characters().take(skipped)),
            before.source() == origin.source(),
            blank_len(origin.characters()) == skipped + blank_len(before.characters()),
            before.characters().len() > 0,
            !is_blank(before.characters()[0]),
            self.has_scanned(before, token),
        ensures
            self.has_handed_out(origin, token),
    {
        let rest = before.characters();
        lemma_scan_len_bounds(rest);
        lemma_after_all_offset(before.position(), rest.take(scan_len(rest) as int));
    }

    /// Reading the first token leaves the tokens after it pending.
    proof fn lemma_pending_after_scan(&self, after: &Self, token: TokenView)
        requires
            self.characters().len() > 0,
            !is_blank(self.characters()[0]),
            after.has_scanned(self, token),
        ensures
            self.pending().len() > 0,
            self.pending()[0] == token,
            after.pending() == self.pending().skip(1),
    {
        let rest = tokens(
            self.characters().skip(scan_len(self.characters()) as int),
            token.span.end,
            self.source(),
        );
        assert(self.pending() == seq![token] + rest);
        assert((seq![token] + rest).skip(1) =~= rest);
    }
}

/// Builds a tokenizer for the source whose name it holds.
pub struct Configurator<'a>(pub &'a str);

impl<'a> Configurator<'a> {
    pub fn build<I: Stage<Item = char>>(self, upstream: I) -> (analyzer: Analyzer<I>)
        requires
            upstream.well_formed(),
            upstream.pending().len() <= usize::MAX,
        ensures
            analyzer.well_formed(),
            analyzer.pending() == tokens(
                upstream.pending(),
                Position { abs: 0, col: 0, row: 0 },
                self.0@,
            ),
    {
        Analyzer::new(self.0, upstream)
    }
}

} // verus!
