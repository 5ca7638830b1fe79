use markup_type::analyzer::diagnostic::Position;
use markup_type::analyzer::lexical::tokenizer::{Analyzer, Configurator};
use markup_type::analyzer::lexical::{Delimiter, Kind, Lexeme, Operator, Token};
use markup_type::analyzer::stage::{Buffer, Stage};

fn tokenize(text: &str) -> Vec<Token> {
    let reader = Buffer::new(text.chars().collect::<Vec<char>>());
    let mut analyzer = Analyzer::new("input.mt", reader);
    let mut tokens = Vec::new();
    while let Some(token) = analyzer.next() {
        tokens.push(token);
    }
    tokens
}

fn kinds(text: &str) -> Vec<Kind> {
    tokenize(text).into_iter().map(|token| token.kind).collect()
}

fn position(abs: usize, col: usize, row: usize) -> Position {
    Position { abs, col, row }
}

#[test]
fn empty_input_gives_no_token() {
    assert!(tokenize("").is_empty());
    assert!(tokenize(" \t\r\n  ").is_empty());
}

#[test]
fn delimiters_are_one_character_each() {
    assert_eq!(
        kinds("{};"),
        vec![
            Kind::Delimiter(Delimiter::LeftBrace),
            Kind::Delimiter(Delimiter::RightBrace),
            Kind::Delimiter(Delimiter::Semicolon),
        ]
    );
    let tokens = tokenize("{};");
    assert_eq!(tokens[1].span.start, position(1, 1, 0));
    assert_eq!(tokens[1].span.end, position(2, 2, 0));
}

#[test]
fn identifier_takes_word_characters() {
    let tokens = tokenize("  item-1_x;");
    assert_eq!(tokens.len(), 2);
    assert_eq!(tokens[0].kind, Kind::Lexeme(Lexeme::Identifier("item-1_x".to_string())));
    assert_eq!(tokens[0].span.start, position(2, 2, 0));
    assert_eq!(tokens[0].span.end, position(10, 10, 0));
    assert_eq!(tokens[1].kind, Kind::Delimiter(Delimiter::Semicolon));
}

#[test]
fn identifier_cannot_start_with_a_digit() {
    assert_eq!(kinds("1abc x"), vec![
        Kind::Unknown("1abc".to_string()),
        Kind::Lexeme(Lexeme::Identifier("x".to_string())),
    ]);
}

#[test]
fn literal_resolves_escapes() {
    let tokens = tokenize(r"'a\'b'");
    assert_eq!(tokens.len(), 1);
    assert_eq!(tokens[0].kind, Kind::Lexeme(Lexeme::Literal("a'b".to_string())));
    assert_eq!(tokens[0].span.end.abs - tokens[0].span.start.abs, 6);
}

#[test]
fn literal_ends_only_at_its_own_delimiter() {
    assert_eq!(
        kinds("\"it's\" 'say \"hi\"'"),
        vec![
            Kind::Lexeme(Lexeme::Literal("it's".to_string())),
            Kind::Lexeme(Lexeme::Literal("say \"hi\"".to_string())),
        ]
    );
}

#[test]
fn literal_escape_admits_any_character() {
    assert_eq!(kinds(r#""a\\b\nc""#), vec![Kind::Lexeme(Lexeme::Literal(r"a\bnc".to_string()))]);
}

#[test]
fn unterminated_literal_ends_with_the_input() {
    let tokens = tokenize("'abc");
    assert_eq!(tokens.len(), 1);
    assert_eq!(tokens[0].kind, Kind::Lexeme(Lexeme::Literal("abc".to_string())));
    assert_eq!(tokens[0].span.end, position(4, 4, 0));
    assert_eq!(kinds("'abc\\"), vec![Kind::Lexeme(Lexeme::Literal("abc".to_string()))]);
}

#[test]
fn literal_may_span_lines() {
    let tokens = tokenize("'a\nb' x");
    assert_eq!(tokens[0].kind, Kind::Lexeme(Lexeme::Literal("a\nb".to_string())));
    assert_eq!(tokens[0].span.end, position(5, 2, 1));
    assert_eq!(tokens[1].span.start, position(6, 3, 1));
}

#[test]
fn comment_runs_to_the_end_of_the_line() {
    let tokens = tokenize("# note {}\nitem");
    assert_eq!(tokens.len(), 2);
    assert_eq!(tokens[0].kind, Kind::Lexeme(Lexeme::Comment("# note {}".to_string())));
    assert_eq!(tokens[0].span.start, position(0, 0, 0));
    assert_eq!(tokens[0].span.end, position(10, 0, 1));
    assert_eq!(tokens[1].kind, Kind::Lexeme(Lexeme::Identifier("item".to_string())));
    assert_eq!(tokens[1].span.start, position(10, 0, 1));
}

#[test]
fn comment_at_the_end_of_input_is_no_error() {
    let tokens = tokenize("#last");
    assert_eq!(tokens.len(), 1);
    assert_eq!(tokens[0].kind, Kind::Lexeme(Lexeme::Comment("#last".to_string())));
    assert_eq!(tokens[0].span.end, position(5, 5, 0));
}

#[test]
fn comment_stops_at_a_carriage_return() {
    assert_eq!(
        kinds("#a\r\nb"),
        vec![
            Kind::Lexeme(Lexeme::Comment("#a".to_string())),
            Kind::Lexeme(Lexeme::Identifier("b".to_string())),
        ]
    );
}

#[test]
fn borrow_operator_needs_both_characters() {
    assert_eq!(kinds("<-"), vec![Kind::Operator(Operator::Borrow)]);
    assert_eq!(
        kinds("<x"),
        vec![Kind::Unknown("<".to_string()), Kind::Lexeme(Lexeme::Identifier("x".to_string()))]
    );
    assert_eq!(kinds("<"), vec![Kind::Unknown("<".to_string())]);
    let tokens = tokenize("<-");
    assert_eq!(tokens[0].span.end, position(2, 2, 0));
}

#[test]
fn borrowable_operator_needs_both_characters() {
    assert_eq!(kinds("->"), vec![Kind::Operator(Operator::Borrowable)]);
    assert_eq!(kinds("-"), vec![Kind::Unknown("-".to_string())]);
    assert_eq!(
        kinds("- >"),
        vec![Kind::Unknown("-".to_string()), Kind::Unknown(">".to_string())]
    );
    assert_eq!(
        kinds("-a"),
        vec![Kind::Unknown("-".to_string()), Kind::Lexeme(Lexeme::Identifier("a".to_string()))]
    );
}

#[test]
fn pipe_is_an_operator() {
    assert_eq!(
        kinds("|name"),
        vec![
            Kind::Operator(Operator::Pipe),
            Kind::Lexeme(Lexeme::Identifier("name".to_string())),
        ]
    );
}

#[test]
fn hyphen_belongs_to_the_identifier_before_it() {
    assert_eq!(
        kinds("box-> item<-"),
        vec![
            Kind::Lexeme(Lexeme::Identifier("box-".to_string())),
            Kind::Unknown(">".to_string()),
            Kind::Lexeme(Lexeme::Identifier("item".to_string())),
            Kind::Operator(Operator::Borrow),
        ]
    );
    assert_eq!(
        kinds("box ->"),
        vec![
            Kind::Lexeme(Lexeme::Identifier("box".to_string())),
            Kind::Operator(Operator::Borrowable),
        ]
    );
}

#[test]
fn unknown_token_runs_to_the_next_blank() {
    let tokens = tokenize("@{x}; y");
    assert_eq!(tokens.len(), 2);
    assert_eq!(tokens[0].kind, Kind::Unknown("@{x};".to_string()));
    assert_eq!(tokens[0].span.end, position(5, 5, 0));
    assert_eq!(tokens[1].kind, Kind::Lexeme(Lexeme::Identifier("y".to_string())));
}

#[test]
fn positions_count_rows_and_columns() {
    let tokens = tokenize("a\n  b\n\nc");
    assert_eq!(tokens[0].span.start, position(0, 0, 0));
    assert_eq!(tokens[0].span.end, position(1, 1, 0));
    assert_eq!(tokens[1].span.start, position(4, 2, 1));
    assert_eq!(tokens[1].span.end, position(5, 3, 1));
    assert_eq!(tokens[2].span.start, position(7, 0, 3));
    assert_eq!(tokens[2].span.end, position(8, 1, 3));
}

#[test]
fn span_length_is_the_number_of_characters_read() {
    let text = "box -> { |id \"7\" item; 'x\\'y' } # done\nitem<- @@";
    let chars: Vec<char> = text.chars().collect();
    let tokens = tokenize(text);
    assert_eq!(tokens.len(), 14);
    for token in &tokens {
        let start = token.span.start.abs;
        let end = token.span.end.abs;
        assert!(start < end && end <= chars.len());
        let covered: String = chars[start..end].iter().collect();
        match &token.kind {
            Kind::Lexeme(Lexeme::Identifier(text)) => assert_eq!(&covered, text),
            Kind::Unknown(text) => assert_eq!(&covered, text),
            Kind::Lexeme(Lexeme::Comment(text)) => assert_eq!(covered.trim_end_matches('\n'), text),
            Kind::Lexeme(Lexeme::Literal(text)) => assert_eq!(end - start, text.len() + 2 + covered.matches('\\').count()),
            Kind::Delimiter(_) => assert_eq!(end - start, 1),
            Kind::Operator(Operator::Pipe) => assert_eq!(end - start, 1),
            Kind::Operator(_) => assert_eq!(end - start, 2),
        }
    }
}

#[test]
fn spans_carry_the_source_name() {
    let tokens = tokenize("a b");
    assert_eq!(tokens[0].span.source.as_str(), "input.mt");
    assert_eq!(tokens[1].span.source.as_str(), "input.mt");
}

#[test]
fn configurator_builds_a_tokenizer_for_its_source() {
    let reader = Buffer::new("x".chars().collect::<Vec<char>>());
    let mut analyzer = Configurator("named.mt").build(reader);
    let token = analyzer.next().unwrap();
    assert_eq!(token.kind, Kind::Lexeme(Lexeme::Identifier("x".to_string())));
    assert_eq!(token.span.source.as_str(), "named.mt");
    assert!(analyzer.next().is_none());
    assert!(analyzer.next().is_none());
}
