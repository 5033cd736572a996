use algorithm_j::{parse, Expression, ParseContext, ParseError, Token, TokenKind};

#[test]
fn test_lexing() {
    let mut ctx = ParseContext::new(r"let in \=.() hello true false -");
    assert_eq!(ctx.next(), Token::new(TokenKind::Let, 0, 3));
    assert_eq!(ctx.next(), Token::new(TokenKind::In, 4, 2));
    assert_eq!(ctx.next(), Token::new(TokenKind::BSlash, 7, 1));
    assert_eq!(ctx.next(), Token::new(TokenKind::Eq, 8, 1));
    assert_eq!(ctx.next(), Token::new(TokenKind::Dot, 9, 1));
    assert_eq!(ctx.next(), Token::new(TokenKind::LParen, 10, 1));
    assert_eq!(ctx.next(), Token::new(TokenKind::RParen, 11, 1));
    assert_eq!(ctx.next(), Token::new(TokenKind::Id, 13, 5));
    assert_eq!(ctx.next(), Token::new(TokenKind::True, 19, 4));
    assert_eq!(ctx.next(), Token::new(TokenKind::False, 24, 5));
    assert_eq!(ctx.next(), Token::new(TokenKind::Error, 30, 1));
    assert_eq!(ctx.next(), Token::new(TokenKind::EOF, 31, 1));
}

#[test]
fn test_abs() {
    let e_parse = parse(r"\x. x");
    let e_correct = Expression::Abs {
        name: "x".into(),
        e: Expression::Var { name: "x".into() }.into(),
    };

    assert_eq!(e_parse, Ok(e_correct))
}

#[test]
fn test_app() {
    let e_parse = parse(r"(\x. x) true");
    let e_correct = Expression::App {
        e0: Expression::Abs {
            name: "x".into(),
            e: Expression::Var { name: "x".into() }.into(),
        }
        .into(),
        e1: Expression::True.into(),
    };

    assert_eq!(e_parse, Ok(e_correct))
}

#[test]
fn test_let() {
    let e_parse = parse(r"let id = (\x. x) in id true");
    let e_correct = Expression::Let {
        name: "id".into(),
        e0: Expression::Abs {
            name: "x".into(),
            e: Expression::Var { name: "x".into() }.into(),
        }
        .into(),
        e1: Expression::App {
            e0: Expression::Var { name: "id".into() }.into(),
            e1: Expression::True.into(),
        }
        .into(),
    };

    assert_eq!(e_parse, Ok(e_correct))
}

#[test]
fn application_is_left_associative() {
    let e = parse("f x y").unwrap();
    let expected = Expression::App {
        e0: Expression::App {
            e0: Expression::Var { name: "f".into() }.into(),
            e1: Expression::Var { name: "x".into() }.into(),
        }
        .into(),
        e1: Expression::Var { name: "y".into() }.into(),
    };
    assert_eq!(e, expected);
}

#[test]
fn identifiers_take_apostrophes_and_underscores() {
    let e = parse("  x'_y  ").unwrap();
    assert_eq!(e, Expression::Var { name: "x'_y".into() });
}

#[test]
fn whitespace_is_skipped_between_tokens() {
    let mut ctx = ParseContext::new("  \t true\n false  ");
    assert_eq!(ctx.next(), Token::new(TokenKind::True, 4, 4));
    assert_eq!(ctx.next(), Token::new(TokenKind::False, 10, 5));
    assert_eq!(ctx.next(), Token::new(TokenKind::EOF, 17, 1));
    assert_eq!(ctx.next(), Token::new(TokenKind::EOF, 17, 1));
}

#[test]
fn non_ascii_letters_are_identifiers() {
    let e = parse("λé").unwrap();
    assert_eq!(e, Expression::Var { name: "λé".into() });
}

#[test]
fn unexpected_token_at_start() {
    let r = parse(")");
    assert_eq!(
        r,
        Err(ParseError::UnexpectedToken {
            unexpected: TokenKind::RParen,
            expected: vec![
                TokenKind::LParen,
                TokenKind::Id,
                TokenKind::BSlash,
                TokenKind::Let,
                TokenKind::True,
                TokenKind::False
            ],
            pos: 0,
        })
    );
}

#[test]
fn empty_input_is_unexpected_end() {
    match parse("") {
        Err(ParseError::UnexpectedToken { unexpected, pos, .. }) => {
            assert_eq!(unexpected, TokenKind::EOF);
            assert_eq!(pos, 0);
        }
        other => panic!("unexpected result {:?}", other),
    }
}

#[test]
fn lambda_without_name_expects_identifier() {
    let r = parse(r"\ . x");
    assert_eq!(
        r,
        Err(ParseError::UnexpectedToken {
            unexpected: TokenKind::Dot,
            expected: vec![TokenKind::Id],
            pos: 2,
        })
    );
}

#[test]
fn invalid_token_is_reported() {
    assert_eq!(parse("-"), Err(ParseError::InvalidToken { lexeme: "-".into(), pos: 0 }));
    assert_eq!(parse("x -"), Err(ParseError::InvalidToken { lexeme: "-".into(), pos: 2 }));
}

#[test]
fn token_kinds_have_texts() {
    assert_eq!(TokenKind::BSlash.text(), "\\");
    assert_eq!(TokenKind::EOF.text(), "End of File");
    assert_eq!(TokenKind::Let.text(), "let");
}

#[test]
fn default_token_is_empty_eof() {
    assert_eq!(Token::default(), Token::new(TokenKind::EOF, 0, 0));
}

#[test]
fn leftover_input_is_unexpected() {
    assert_eq!(
        parse("x ) y"),
        Err(ParseError::UnexpectedToken {
            unexpected: TokenKind::RParen,
            expected: vec![TokenKind::EOF],
            pos: 2,
        })
    );
    match parse("true in") {
        Err(ParseError::UnexpectedToken { unexpected, pos, .. }) => {
            assert_eq!(unexpected, TokenKind::In);
            assert_eq!(pos, 5);
        }
        other => panic!("unexpected result {:?}", other),
    }
}

#[test]
fn white_space_agrees_with_char_is_whitespace() {
    for u in 0u32..0x11000 {
        let c = match char::from_u32(u) {
            Some(c) => c,
            None => continue,
        };
        if c.is_alphabetic() || "\\=.()".contains(c) {
            continue;
        }
        let src = format!("{}x", c);
        let mut ctx = ParseContext::new(&src);
        let tok = ctx.next();
        if c.is_whitespace() {
            assert_eq!(tok, Token::new(TokenKind::Id, 1, 1), "char {:x}", u);
        } else {
            assert_eq!(tok, Token::new(TokenKind::Error, 0, 1), "char {:x}", u);
        }
    }
}
