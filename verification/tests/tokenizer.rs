use rc_lexer::location::span::Span;
use rc_lexer::tokenizer::error::{TokenError, TokenErrorKind};
use rc_lexer::tokenizer::token::Token;
use rc_lexer::tokenizer::{tokens_from_input, Tokenizer};

fn scan(src: &str) -> Vec<Result<(Token<'_>, Span), TokenError>> {
    let mut tokenizer = Tokenizer::new(src);
    let mut items = Vec::new();
    while let Some(item) = tokenizer.next() {
        items.push(item);
    }
    items
}

fn raw_token_stream(src: &str) -> Vec<Token<'_>> {
    scan(src).into_iter().map(|t| t.unwrap().0).collect()
}

fn compare_raw_token_stream<'a>(lhs: &[Token<'a>], rhs: Vec<Token<'a>>) {
    assert_eq!(lhs, &rhs[..]);
}

#[test]
fn semicolon_insertion() {
    let src = "5\n\r\n()\n'a'\n";

    let expected = [
        Token::Int(5),
        Token::Semi,
        Token::LParen,
        Token::RParen,
        Token::Semi,
        Token::Char('a'),
        Token::Semi,
    ];

    compare_raw_token_stream(&expected, raw_token_stream(src));
}

#[test]
fn indentation() {
    let src = r"
case a of
 b -> case c of
       d -> e
 f -> g
";

    let expected = [
        Token::Case,
        Token::Ident("a"),
        Token::Of,
        Token::Indent,
        Token::Ident("b"),
        Token::Arrow,
        Token::Case,
        Token::Ident("c"),
        Token::Of,
        Token::Indent,
        Token::Ident("d"),
        Token::Arrow,
        Token::Ident("e"),
        Token::Semi,
        Token::Dedent,
        Token::Ident("f"),
        Token::Arrow,
        Token::Ident("g"),
        Token::Semi,
        Token::Dedent,
    ];

    compare_raw_token_stream(&expected, raw_token_stream(src));
}

#[test]
#[should_panic]
fn illegal_indentation() {
    let src = r"
        case a of
         b -> case c of
               d -> e
            x -> y
         f -> g
        ";

    raw_token_stream(src).into_iter().for_each(drop);
}

fn kinds(src: &str) -> Vec<Result<Token<'_>, TokenErrorKind>> {
    scan(src).into_iter().map(|r| r.map(|t| t.0).map_err(|e| e.kind)).collect()
}

fn spans(src: &str) -> Vec<(usize, usize)> {
    scan(src)
        .into_iter()
        .map(|r| match r {
            Ok((_, span)) => (span.start, span.end),
            Err(e) => (e.span.start, e.span.end),
        })
        .collect()
}

#[test]
fn misaligned_dedent_is_an_error() {
    let src = "a\n    b\n  c\n";
    assert_eq!(
        kinds(src),
        vec![
            Ok(Token::Ident("a")),
            Ok(Token::Semi),
            Ok(Token::Indent),
            Ok(Token::Ident("b")),
            Ok(Token::Semi),
            Err(TokenErrorKind::IllegalIndentLvl),
            Ok(Token::Ident("c")),
            Ok(Token::Semi),
        ]
    );
}

#[test]
fn misaligned_dedent_between_two_levels() {
    let src = "a\n  b\n      c\n    d\n  e\n";
    assert_eq!(
        kinds(src),
        vec![
            Ok(Token::Ident("a")),
            Ok(Token::Semi),
            Ok(Token::Indent),
            Ok(Token::Ident("b")),
            Ok(Token::Semi),
            Ok(Token::Indent),
            Ok(Token::Ident("c")),
            Ok(Token::Semi),
            Err(TokenErrorKind::IllegalIndentLvl),
            Ok(Token::Ident("d")),
            Ok(Token::Semi),
            Ok(Token::Ident("e")),
            Ok(Token::Semi),
            Ok(Token::Dedent),
        ]
    );
}

#[test]
fn dedent_to_column_zero_closes_every_level() {
    let src = "a\n  b\n    c\nd";
    assert_eq!(
        kinds(src),
        vec![
            Ok(Token::Ident("a")),
            Ok(Token::Semi),
            Ok(Token::Indent),
            Ok(Token::Ident("b")),
            Ok(Token::Semi),
            Ok(Token::Indent),
            Ok(Token::Ident("c")),
            Ok(Token::Semi),
            Ok(Token::Dedent),
            Ok(Token::Dedent),
            Ok(Token::Ident("d")),
        ]
    );
}

#[test]
fn indents_balance_dedents_and_unclosed_levels() {
    for src in ["a\n  b\n    c\nd", "a\n  b\n    c\n  d", "a\n  b\n    c", "\ncase a of\n b -> c\n"] {
        let mut tokenizer = Tokenizer::new(src);
        let mut indents = 0usize;
        let mut dedents = 0usize;
        while let Some(item) = tokenizer.next() {
            match item.unwrap().0 {
                Token::Indent => indents += 1,
                Token::Dedent => dedents += 1,
                _ => {}
            }
            assert_eq!(indents, dedents + tokenizer.unclosed_levels());
        }
        assert_eq!(indents, dedents + tokenizer.unclosed_levels());
    }
}

#[test]
fn levels_stay_open_at_the_end_of_the_text() {
    let mut tokenizer = Tokenizer::new("a\n  b\n    c");
    while tokenizer.next().is_some() {}
    assert_eq!(tokenizer.unclosed_levels(), 2);
    assert!(tokenizer.next().is_none());
    assert_eq!(tokenizer.unclosed_levels(), 2);
}

#[test]
fn owed_dedents_count_as_unclosed() {
    let mut tokenizer = Tokenizer::new("a\n  b\n    c\nd");
    let mut seen = Vec::new();
    while let Some(item) = tokenizer.next() {
        let token = item.unwrap().0;
        seen.push((token, tokenizer.unclosed_levels()));
    }
    let dedents: Vec<usize> =
        seen.iter().filter(|(t, _)| *t == Token::Dedent).map(|(_, n)| *n).collect();
    assert_eq!(dedents, vec![1, 0]);
}

#[test]
fn number_boundary() {
    assert_eq!(kinds("5."), vec![Ok(Token::Int(5)), Err(TokenErrorKind::Illegal('.'))]);
    assert_eq!(spans("5."), vec![(0, 1), (1, 2)]);

    let items = kinds("5.0");
    assert_eq!(items, vec![Ok(Token::Float("5.0"))]);
    match items[0] {
        Ok(Token::Float(spelling)) => assert_eq!(spelling.parse::<f64>().unwrap(), 5.0),
        _ => unreachable!(),
    }
}

#[test]
fn float_takes_both_digit_runs() {
    assert_eq!(
        kinds("12.50+1"),
        vec![Ok(Token::Float("12.50")), Ok(Token::Plus), Ok(Token::Int(1))]
    );
    assert_eq!(spans("12.50+1"), vec![(0, 5), (5, 6), (6, 7)]);
    assert_eq!(
        kinds("1.2.3"),
        vec![Ok(Token::Float("1.2")), Err(TokenErrorKind::Illegal('.')), Ok(Token::Int(3))]
    );
}

#[test]
fn integer_limits() {
    assert_eq!(kinds("9223372036854775807"), vec![Ok(Token::Int(i64::MAX))]);
    assert_eq!(kinds("007"), vec![Ok(Token::Int(7))]);
    assert_eq!(
        kinds("9223372036854775808 1"),
        vec![Err(TokenErrorKind::Illegal('9')), Ok(Token::Int(1))]
    );
    assert_eq!(spans("9223372036854775808 1"), vec![(0, 19), (20, 21)]);
    assert_eq!(
        kinds("123456789012345678901234567890\n"),
        vec![Err(TokenErrorKind::Illegal('1'))]
    );
}

#[test]
fn character_literal_errors() {
    assert_eq!(
        kinds("'ab'"),
        vec![Err(TokenErrorKind::Expected('\'')), Err(TokenErrorKind::UnexpectedEof)]
    );
    assert_eq!(spans("'ab'"), vec![(0, 3), (3, 4)]);
    assert_eq!(kinds("'"), vec![Err(TokenErrorKind::UnexpectedEof)]);
    assert_eq!(kinds("'a"), vec![Err(TokenErrorKind::Expected('\''))]);
    assert_eq!(spans("'a"), vec![(0, 2)]);
}

#[test]
fn character_literals() {
    assert_eq!(kinds("'a' '''"), vec![Ok(Token::Char('a')), Ok(Token::Char('\''))]);
    assert_eq!(kinds("'\u{e9}'"), vec![Ok(Token::Char('\u{e9}'))]);
    assert_eq!(spans("'\u{e9}'"), vec![(0, 4)]);
    assert_eq!(kinds("'\n'"), vec![Ok(Token::Char('\n'))]);
}

#[test]
fn no_separator_after_a_failed_literal() {
    assert_eq!(
        kinds("'ab\nc"),
        vec![Err(TokenErrorKind::Expected('\'')), Ok(Token::Ident("c"))]
    );
}

#[test]
fn operators_and_delimiters() {
    assert_eq!(
        kinds("( ) ; + - * / = > < != & | ! ->"),
        vec![
            Ok(Token::LParen),
            Ok(Token::RParen),
            Ok(Token::Semi),
            Ok(Token::Plus),
            Ok(Token::Minus),
            Ok(Token::Star),
            Ok(Token::Slash),
            Ok(Token::Eq),
            Ok(Token::Gt),
            Ok(Token::Lt),
            Ok(Token::BangEq),
            Ok(Token::Amp),
            Ok(Token::Pipe),
            Ok(Token::Bang),
            Ok(Token::Arrow),
        ]
    );
}

#[test]
fn two_character_forms_come_first() {
    assert_eq!(
        kinds("-->!==!"),
        vec![
            Ok(Token::Minus),
            Ok(Token::Arrow),
            Ok(Token::BangEq),
            Ok(Token::Eq),
            Ok(Token::Bang),
        ]
    );
    assert_eq!(spans("-->!==!"), vec![(0, 1), (1, 3), (3, 5), (5, 6), (6, 7)]);
}

#[test]
fn keywords_booleans_and_identifiers() {
    assert_eq!(
        kinds("if then else case of true false iff _x a1_B True"),
        vec![
            Ok(Token::If),
            Ok(Token::Then),
            Ok(Token::Else),
            Ok(Token::Case),
            Ok(Token::Of),
            Ok(Token::Bool(true)),
            Ok(Token::Bool(false)),
            Ok(Token::Ident("iff")),
            Ok(Token::Ident("_x")),
            Ok(Token::Ident("a1_B")),
            Ok(Token::Ident("True")),
        ]
    );
}

#[test]
fn separator_follows_terminable_tokens_only() {
    assert_eq!(kinds("of\n"), vec![Ok(Token::Of)]);
    assert_eq!(kinds("+\n"), vec![Ok(Token::Plus)]);
    assert_eq!(kinds("(\n"), vec![Ok(Token::LParen)]);
    assert_eq!(kinds("true\n"), vec![Ok(Token::Bool(true)), Ok(Token::Semi)]);
    assert_eq!(kinds("1.5\n"), vec![Ok(Token::Float("1.5")), Ok(Token::Semi)]);
    assert_eq!(kinds(")\n"), vec![Ok(Token::RParen), Ok(Token::Semi)]);
    assert_eq!(kinds("x"), vec![Ok(Token::Ident("x"))]);
}

#[test]
fn carriage_return_needs_its_line_feed() {
    assert_eq!(
        kinds("a\r\nb"),
        vec![Ok(Token::Ident("a")), Ok(Token::Semi), Ok(Token::Ident("b"))]
    );
    assert_eq!(kinds("a\rb"), vec![Ok(Token::Ident("a")), Ok(Token::Ident("b"))]);
}

#[test]
fn line_break_after_other_whitespace_is_skipped() {
    assert_eq!(kinds("a \n  b"), vec![Ok(Token::Ident("a")), Ok(Token::Ident("b"))]);
    assert_eq!(kinds("+\t\n    1"), vec![Ok(Token::Plus), Ok(Token::Int(1))]);
}

#[test]
fn tabs_do_not_indent() {
    assert_eq!(
        kinds("a\n\tb"),
        vec![Ok(Token::Ident("a")), Ok(Token::Semi), Ok(Token::Ident("b"))]
    );
}

#[test]
fn spans_cut_the_tokens_out_of_the_source() {
    let src = "case  x1 -> 'c' 42 3.25 != (f)\n";
    for item in scan(src) {
        let (token, span) = item.unwrap();
        let text = &src[span.as_range()];
        match token {
            Token::Case => assert_eq!(text, "case"),
            Token::Ident(name) => assert_eq!(text, name),
            Token::Arrow => assert_eq!(text, "->"),
            Token::Char(c) => assert_eq!(text, format!("'{}'", c)),
            Token::Int(n) => assert_eq!(text.parse::<i64>().unwrap(), n),
            Token::Float(spelling) => assert_eq!(text, spelling),
            Token::BangEq => assert_eq!(text, "!="),
            Token::LParen => assert_eq!(text, "("),
            Token::RParen => assert_eq!(text, ")"),
            Token::Semi => assert_eq!(text, ")"),
            other => panic!("unexpected token {:?}", other),
        }
    }
}

#[test]
fn spans_count_bytes_not_characters() {
    let src = "x \u{e9} y \u{20ac}\u{1f600}z";
    assert_eq!(
        kinds(src),
        vec![
            Ok(Token::Ident("x")),
            Err(TokenErrorKind::Illegal('\u{e9}')),
            Ok(Token::Ident("y")),
            Err(TokenErrorKind::Illegal('\u{20ac}')),
            Err(TokenErrorKind::Illegal('\u{1f600}')),
            Ok(Token::Ident("z")),
        ]
    );
    assert_eq!(spans(src), vec![(0, 1), (2, 4), (5, 6), (7, 10), (10, 14), (14, 15)]);
    for (start, end) in spans(src) {
        assert!(src.get(start..end).is_some());
    }
}

#[test]
fn layout_tokens_carry_the_span_under_construction() {
    let src = "a\n  b\nc";
    assert_eq!(
        kinds(src),
        vec![
            Ok(Token::Ident("a")),
            Ok(Token::Semi),
            Ok(Token::Indent),
            Ok(Token::Ident("b")),
            Ok(Token::Semi),
            Ok(Token::Dedent),
            Ok(Token::Ident("c")),
        ]
    );
    assert_eq!(spans(src), vec![(0, 1), (0, 1), (0, 4), (4, 5), (4, 5), (4, 6), (6, 7)]);
}

#[test]
fn empty_and_blank_inputs_yield_nothing() {
    assert_eq!(kinds(""), vec![]);
    assert_eq!(kinds("   \t "), vec![]);
    assert_eq!(kinds("\n\n\n"), vec![]);
    assert_eq!(kinds("\r\n"), vec![]);
}

#[test]
fn the_end_is_final() {
    let mut tokenizer = Tokenizer::new("a");
    assert!(tokenizer.next().is_some());
    assert!(tokenizer.next().is_none());
    assert!(tokenizer.next().is_none());
}

#[test]
fn scanning_goes_on_after_an_error() {
    assert_eq!(
        kinds("a $ b # c"),
        vec![
            Ok(Token::Ident("a")),
            Err(TokenErrorKind::Illegal('$')),
            Ok(Token::Ident("b")),
            Err(TokenErrorKind::Illegal('#')),
            Ok(Token::Ident("c")),
        ]
    );
}

#[test]
fn tokens_from_input_collects_tokens() {
    let tokens = tokens_from_input("f (x)\n").unwrap();
    assert_eq!(
        tokens,
        vec![
            (Token::Ident("f"), Span::new(0, 1)),
            (Token::LParen, Span::new(2, 3)),
            (Token::Ident("x"), Span::new(3, 4)),
            (Token::RParen, Span::new(4, 5)),
            (Token::Semi, Span::new(4, 5)),
        ]
    );
    assert_eq!(tokens_from_input("").unwrap(), vec![]);
}

#[test]
fn tokens_from_input_collects_every_error() {
    let errors = tokens_from_input("a $ b # 'c").unwrap_err();
    assert_eq!(
        errors,
        vec![
            TokenError::new(TokenErrorKind::Illegal('$'), Span::new(2, 3)),
            TokenError::new(TokenErrorKind::Illegal('#'), Span::new(6, 7)),
            TokenError::new(TokenErrorKind::Expected('\''), Span::new(8, 10)),
        ]
    );
}
