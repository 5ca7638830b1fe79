//! How a diagnostic is laid out for a terminal.
//!
//! The text is put together from the plain parts of the diagnostic and
//! from pieces that the `colored` crate has dressed with terminal styles.
//! Whether `colored` adds any style depends on the environment, so the
//! layout is stated for whatever pieces come back.
use crate::analyzer::diagnostic::{Diagnostic, DiagnosticView, Kind};
use crate::analyzer::text::{decimal, repeat, repeated, replace, replaced, to_decimal};
use colored::Colorize;
use vstd::prelude::*;
use vstd::string::StringExecFns;

verus! {

/// `styled` is `text` with something before it and something after it.
pub open spec fn wraps(styled: Seq<char>, text: Seq<char>) -> bool {
    exists|before: Seq<char>, after: Seq<char>| styled == #[trigger] (before + text + after)
}

/// The text holds no escape character, which starts every terminal style.
pub open spec fn is_unstyled(text: Seq<char>) -> bool {
    !text.contains('\u{1b}')
}

/// `text` with blanks after it up to `width` characters.
pub open spec fn padded(text: Seq<char>, width: nat) -> Seq<char> {
    if text.len() < width {
        text + repeated(' ', (width - text.len()) as nat)
    } else {
        text
    }
}

/// `Colorize::red`, `on_black` and `bold`, then `Display` of the
/// `ColoredString`: the text as it is or, where colours are on, between
/// the code of the style and the code that ends it.  A text that holds a
/// style of its own may come back changed inside.
#[verifier::external_body]
fn red_on_black_bold(text: &str) -> (styled: String)
    ensures
        is_unstyled(text@) ==> wraps(styled@, text@),
{
    text.red().on_black().bold().to_string()
}

/// `Colorize::red` and `bold`, then `Display` of the `ColoredString`: as
/// for `red_on_black_bold`.
#[verifier::external_body]
fn red_bold(text: &str) -> (styled: String)
    ensures
        is_unstyled(text@) ==> wraps(styled@, text@),
{
    text.red().bold().to_string()
}

/// `Colorize::yellow` and `bold`, then `Display` of the `ColoredString`:
/// as for `red_on_black_bold`.
#[verifier::external_body]
fn yellow_bold(text: &str) -> (styled: String)
    ensures
        is_unstyled(text@) ==> wraps(styled@, text@),
{
    text.yellow().bold().to_string()
}

/// `Colorize::green` and `bold`, then `Display` of the `ColoredString`:
/// as for `red_on_black_bold`.
#[verifier::external_body]
fn green_bold(text: &str) -> (styled: String)
    ensures
        is_unstyled(text@) ==> wraps(styled@, text@),
{
    text.green().bold().to_string()
}

/// `Colorize::blue` and `bold`, then `Display` of the `ColoredString`: as
/// for `red_on_black_bold`.
#[verifier::external_body]
fn blue_bold(text: &str) -> (styled: String)
    ensures
        is_unstyled(text@) ==> wraps(styled@, text@),
{
    text.blue().bold().to_string()
}

/// `Colorize::bold`, then `Display` of the `ColoredString`: as for
/// `red_on_black_bold`.
#[verifier::external_body]
fn bold(text: &str) -> (styled: String)
    ensures
        is_unstyled(text@) ==> wraps(styled@, text@),
{
    text.bold().to_string()
}

/// The pieces of a rendered diagnostic that carry a style.
#[derive(Debug)]
pub struct Styled {
    /// The word for the severity.
    pub tag: String,
    /// The colon after the tag.
    pub colon: String,
    pub message: String,
    /// The arrow in front of the location.
    pub arrow: String,
    /// The row number in front of the source line, three characters wide.
    pub row: String,
    /// The carets under the source line, with the blanks that lead to them.
    pub underline: String,
    /// The bar of the gutter.
    pub pipe: String,
}

pub struct StyledView {
    pub tag: Seq<char>,
    pub colon: Seq<char>,
    pub message: Seq<char>,
    pub arrow: Seq<char>,
    pub row: Seq<char>,
    pub underline: Seq<char>,
    pub pipe: Seq<char>,
}

impl View for Styled {
    type V = StyledView;

    open spec fn view(&self) -> StyledView {
        StyledView {
            tag: self.tag@,
            colon: self.colon@,
            message: self.message@,
            arrow: self.arrow@,
            row: self.row@,
            underline: self.underline@,
            pipe: self.pipe@,
        }
    }
}

impl StyledView {
    /// Each piece of `self` is the piece of `plain` with something around
    /// it, as far as the plain piece holds no style of its own.
    pub open spec fn dresses(self, plain: StyledView) -> bool {
        &&& is_unstyled(plain.tag) ==> wraps(self.tag, plain.tag)
        &&& is_unstyled(plain.colon) ==> wraps(self.colon, plain.colon)
        &&& is_unstyled(plain.message) ==> wraps(self.message, plain.message)
        &&& is_unstyled(plain.arrow) ==> wraps(self.arrow, plain.arrow)
        &&& is_unstyled(plain.row) ==> wraps(self.row, plain.row)
        &&& is_unstyled(plain.underline) ==> wraps(self.underline, plain.underline)
        &&& is_unstyled(plain.pipe) ==> wraps(self.pipe, plain.pipe)
    }
}

impl Kind {
    /// The word for the severity.
    pub open spec fn tag(self) -> Seq<char> {
        match self {
            Kind::Critical => "critical"@,
            Kind::Error => "error"@,
            Kind::Debug => "debug"@,
            Kind::Warning => "warning"@,
        }
    }
}

impl DiagnosticView {
    /// Where the diagnostic points: source, row and column, the last two
    /// counted from one.
    pub open spec fn location(self) -> Seq<char> {
        self.span.source + ":"@ + decimal((self.span.start.row + 1) as nat) + ":"@ + decimal(
            (self.span.start.col + 1) as nat,
        )
    }

    /// One caret for each character of the span, under the column where
    /// the span starts.
    pub open spec fn underline(self) -> Seq<char> {
        repeated(' ', self.span.start.col as nat) + repeated('^', self.span.len() as nat)
    }

    /// The pieces that carry a style, before any style is put on.
    pub open spec fn plain(self) -> StyledView {
        StyledView {
            tag: self.kind.tag(),
            colon: ":"@,
            message: self.message,
            arrow: "-->"@,
            row: padded(decimal(self.span.start.row as nat), 3),
            underline: self.underline(),
            pipe: "|"@,
        }
    }

    /// The five lines of a rendered diagnostic: tag and message; the
    /// location; an empty gutter; the row number and the source line; the
    /// underline.
    pub open spec fn layout(self, source_line: Seq<char>, styled: StyledView) -> Seq<char> {
        styled.tag + styled.colon + " "@ + styled.message + "\n   "@ + styled.arrow + " "@
            + self.location() + "\n    |\n"@ + styled.row + " | "@ + source_line + "\n    | "@
            + styled.underline
    }

    /// The rendered diagnostic: the layout, in which then every bar and
    /// after that every arrow is replaced by its styled piece.
    pub open spec fn composed(self, source_line: Seq<char>, styled: StyledView) -> Seq<char> {
        replaced(
            replaced(self.layout(source_line, styled), "|"@, styled.pipe),
            "-->"@,
            styled.arrow,
        )
    }
}

impl Diagnostic {
    /// Where the diagnostic points, as `source:row:column`.
    pub fn location(&self) -> (text: String)
        ensures
            text@ == self@.location(),
    {
        let mut text = self.span.source.as_str().to_owned();
        text.append(":");
        text.append(to_decimal(self.span.start.row as u128 + 1).as_str());
        text.append(":");
        text.append(to_decimal(self.span.start.col as u128 + 1).as_str());
        text
    }

    /// The carets that go under the source line.
    pub fn underline(&self) -> (text: String)
        requires
            self@.span.well_formed(),
        ensures
            text@ == self@.underline(),
    {
        let mut text = repeat(' ', self.span.start.col);
        text.append(repeat('^', self.span.end.abs - self.span.start.abs).as_str());
        text
    }

    /// The row number, three characters wide.
    fn row(&self) -> (text: String)
        ensures
            text@ == padded(decimal(self.span.start.row as nat), 3),
    {
        let mut text = to_decimal(self.span.start.row as u128);
        let width = text.as_str().unicode_len();
        if width < 3 {
            text.append(repeat(' ', 3 - width).as_str());
        }
        text
    }

    /// The pieces that carry a style, without any style.
    pub fn plain(&self) -> (styled: Styled)
        requires
            self@.span.well_formed(),
        ensures
            styled@ == self@.plain(),
    {
        let tag = match self.kind {
            Kind::Critical => "critical",
            Kind::Warning => "warning",
            Kind::Debug => "debug",
            Kind::Error => "error",
        };
        Styled {
            tag: tag.to_owned(),
            colon: ":".to_owned(),
            message: self.message.clone(),
            arrow: "-->".to_owned(),
            row: self.row(),
            underline: self.underline(),
            pipe: "|".to_owned(),
        }
    }

    /// The pieces that carry a style, styled as the environment allows.
    pub fn style(&self) -> (styled: Styled)
        requires
            self@.span.well_formed(),
        ensures
            styled@.dresses(self@.plain()),
    {
        let tag = match self.kind {
            Kind::Critical => red_on_black_bold("critical"),
            Kind::Warning => yellow_bold("warning"),
            Kind::Debug => green_bold("debug"),
            Kind::Error => red_bold("error"),
        };
        Styled {
            tag,
            colon: bold(":"),
            message: bold(self.message.as_str()),
            arrow: blue_bold("-->"),
            row: blue_bold(self.row().as_str()),
            underline: yellow_bold(self.underline().as_str()),
            pipe: blue_bold("|"),
        }
    }

    /// Puts the rendered diagnostic together from the pieces `styled` and
    /// the line of the source that the diagnostic points into.
    pub fn compose(&self, source_line: &str, styled: &Styled) -> (text: String)
        ensures
            text@ == self@.composed(source_line@, styled@),
    {
        let mut text = styled.tag.clone();
        text.append(styled.colon.as_str());
        text.append(" ");
        text.append(styled.message.as_str());
        text.append("\n   ");
        text.append(styled.arrow.as_str());
        text.append(" ");
        text.append(self.location().as_str());
        text.append("\n    |\n");
        text.append(styled.row.as_str());
        text.append(" | ");
        text.append(source_line);
        text.append("\n    | ");
        text.append(styled.underline.as_str());
        proof {
            reveal_strlit("|");
            reveal_strlit("-->");
        }
        let barred = replace(text.as_str(), "|", styled.pipe.as_str());
        replace(barred.as_str(), "-->", styled.arrow.as_str())
    }

    /// Renders the diagnostic for a terminal.  `source_line` is the line
    /// of the source at the row where the span starts.
    pub fn render(&self, source_line: &str) -> (text: String)
        requires
            self@.span.well_formed(),
        ensures
            exists|styled: StyledView|
                styled.dresses(self@.plain()) && text@ == #[trigger] self@.composed(
                    source_line@,
                    styled,
                ),
    {
        let styled = self.style();
        self.compose(source_line, &styled)
    }
}

} // verus!
