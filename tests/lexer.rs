use arith_parse::{tokenize, Lexer, LexerError, Span, Token, TokenKind, TokenValue};

fn check(input: &str, kind: TokenKind) {
    let mut lexer = Lexer::new(input);

    let first = lexer.next().unwrap();
    assert_eq!(first.kind, kind);
    assert_eq!(first.value, None);
    // The stream stops at the end of the input; the final token carries no value.
    assert!(lexer.next().is_none());
    let end = lexer.next_token().unwrap();
    assert_eq!(end.kind, TokenKind::Eof);
    assert_eq!(end.value, None);
}

#[test]
fn lex_single_tokens() {
    let kinds = vec![
        ("+", TokenKind::Plus),
        ("-", TokenKind::Minus),
        ("*", TokenKind::Star),
        ("/", TokenKind::Slash),
    ];

    for kind in kinds {
        check(kind.0, kind.1);
    }
}

fn kinds_and_spans(tokens: &[Token]) -> Vec<(TokenKind, usize, usize)> {
    tokens
        .iter()
        .map(|t| (t.kind, t.span.start, t.span.end))
        .collect()
}

#[test]
fn tokenize_sum_of_two_numbers() {
    let tokens = tokenize("1+2").unwrap();
    assert_eq!(
        kinds_and_spans(&tokens),
        vec![
            (TokenKind::Number, 0, 1),
            (TokenKind::Plus, 1, 2),
            (TokenKind::Number, 2, 3),
        ]
    );
    assert_eq!(tokens[0].value, Some(TokenValue::String("1")));
    assert_eq!(tokens[1].value, None);
    assert_eq!(tokens[2].value, Some(TokenValue::String("2")));
}

#[test]
fn tokenize_decimal_number() {
    let tokens = tokenize("100.000").unwrap();
    assert_eq!(tokens.len(), 1);
    assert_eq!(tokens[0].kind, TokenKind::Number);
    assert_eq!(tokens[0].span, Span::new(0, 7));
    assert_eq!(tokens[0].value, Some(TokenValue::String("100.000")));
}

#[test]
fn tokenize_trailing_dot_fails() {
    let r = tokenize("1.");
    assert!(matches!(
        r,
        Err(LexerError::IllegalCharacterAfterDecimal { offset: 1 })
    ));
}

#[test]
fn tokenize_dot_before_operator_fails() {
    let r = tokenize("2.+3");
    assert_eq!(
        r.unwrap_err(),
        LexerError::IllegalCharacterAfterDecimal { offset: 1 }
    );
}

#[test]
fn tokenize_empty_source() {
    assert!(tokenize("").unwrap().is_empty());
}

#[test]
fn tokenize_unrecognized_character() {
    assert_eq!(
        tokenize("1+x").unwrap_err(),
        LexerError::UnrecognizedCharacter {
            offset: 2,
            found: 'x'
        }
    );
    assert_eq!(
        tokenize(" 1").unwrap_err(),
        LexerError::UnrecognizedCharacter {
            offset: 0,
            found: ' '
        }
    );
}

#[test]
fn tokenize_second_decimal_point_ends_number() {
    assert_eq!(
        tokenize("1.2.3").unwrap_err(),
        LexerError::UnrecognizedCharacter {
            offset: 3,
            found: '.'
        }
    );
    let mut lexer = Lexer::new("1.2.3");
    let first = lexer.next_token().unwrap();
    assert_eq!(first.span, Span::new(0, 3));
    assert_eq!(first.value, Some(TokenValue::String("1.2")));
}

#[test]
fn tokenize_long_expression() {
    let tokens = tokenize("12.5*3-40/2").unwrap();
    assert_eq!(
        kinds_and_spans(&tokens),
        vec![
            (TokenKind::Number, 0, 4),
            (TokenKind::Star, 4, 5),
            (TokenKind::Number, 5, 6),
            (TokenKind::Minus, 6, 7),
            (TokenKind::Number, 7, 9),
            (TokenKind::Slash, 9, 10),
            (TokenKind::Number, 10, 11),
        ]
    );
}

#[test]
fn tokenize_is_deterministic() {
    for src in ["1+2", "3.25*4-1", "1.", "7/x", ""] {
        assert_eq!(tokenize(src), tokenize(src));
    }
}

#[test]
fn token_spans_are_ordered_and_inside_source() {
    let src = "10+2.5*300/4-1";
    let tokens = tokenize(src).unwrap();
    for t in &tokens {
        assert!(t.span.start <= t.span.end);
        assert!(t.span.end <= src.len());
    }
    for pair in tokens.windows(2) {
        assert!(pair[0].span.end <= pair[1].span.start);
    }
}

#[test]
fn eof_is_repeated_at_the_end() {
    let mut lexer = Lexer::new("7");
    assert_eq!(lexer.next_token().unwrap().kind, TokenKind::Number);
    for _ in 0..3 {
        let t = lexer.next_token().unwrap();
        assert_eq!(t.kind, TokenKind::Eof);
        assert_eq!(t.span, Span::new(1, 1));
        assert_eq!(t.value, None);
    }
}

#[test]
fn failed_step_consumes_nothing() {
    let mut lexer = Lexer::new("1+?");
    lexer.next_token().unwrap();
    lexer.next_token().unwrap();
    let peeked = lexer.peek_token();
    let e1 = lexer.next_token().unwrap_err();
    let e2 = lexer.next_token().unwrap_err();
    assert_eq!(peeked.unwrap_err(), e1);
    assert_eq!(e1, e2);
    assert_eq!(
        e1,
        LexerError::UnrecognizedCharacter {
            offset: 2,
            found: '?'
        }
    );
}

#[test]
fn fault_in_iteration_gives_error_token_then_ends() {
    let mut lexer = Lexer::new("4*#5");
    assert_eq!(lexer.next().unwrap().kind, TokenKind::Number);
    assert_eq!(lexer.next().unwrap().kind, TokenKind::Star);
    let err = lexer.next().unwrap();
    assert_eq!(err.kind, TokenKind::Error);
    assert_eq!(err.span, Span::new(2, 3));
    assert_eq!(err.value, None);
    assert!(lexer.next().is_none());
}

#[test]
fn peek_does_not_move_the_cursor() {
    let mut lexer = Lexer::new("8-9");
    let a = lexer.peek_token().unwrap();
    let b = lexer.peek_token().unwrap();
    assert_eq!(a, b);
    assert_eq!(lexer.next_token().unwrap(), a);
    assert_eq!(lexer.next_token().unwrap().kind, TokenKind::Minus);
}

#[test]
fn collect_from_lexer() {
    let mut lexer = Lexer::new("5/6");
    let tokens = lexer.tokenize_collect().unwrap();
    assert_eq!(tokens.len(), 3);
    assert_eq!(tokens[1].kind, TokenKind::Slash);
    assert_eq!(tokens[2].value, Some(TokenValue::String("6")));
}

#[test]
fn kind_text() {
    assert_eq!(TokenKind::Plus.as_str(), "+");
    assert_eq!(TokenKind::Minus.as_str(), "-");
    assert_eq!(TokenKind::Star.as_str(), "*");
    assert_eq!(TokenKind::Slash.as_str(), "/");
    assert_eq!(TokenKind::Number.as_str(), "Number");
    assert_eq!(TokenKind::Eof.as_str(), "Eof");
    assert_eq!(TokenKind::Error.as_str(), "Error");
}

#[test]
fn token_new_keeps_fields() {
    let t = Token::new(TokenKind::Number, 3, 5, Some(TokenValue::String("42")));
    assert_eq!(t.kind, TokenKind::Number);
    assert_eq!(t.span, Span::new(3, 5));
    assert_eq!(t.value, Some(TokenValue::String("42")));
}
