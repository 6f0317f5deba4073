use rust_in_action::calc::{lex, LexError, LexErrorKind, Loc, Token, TokenKind};

#[test]
fn test_lex() {
    let examples = vec![
        ("1", Ok(vec![Token::new(TokenKind::Number(1), Loc(0, 1))])),
        (
            "1 + 2 * 3 - -10",
            Ok(vec![
                Token::number(1, Loc(0, 1)),
                Token::plus(Loc(2, 3)),
                Token::number(2, Loc(4, 5)),
                Token::asterisk(Loc(6, 7)),
                Token::number(3, Loc(8, 9)),
                Token::minus(Loc(10, 11)),
                Token::minus(Loc(12, 13)),
                Token::number(10, Loc(13, 15)),
            ]),
        ),
    ];
    for (input, expected) in examples {
        let actual = lex(input);
        assert_eq!(actual, expected);
    }
}

#[test]
fn lex_reports_invalid_char() {
    assert_eq!(lex("1 + a"), Err(LexError::invalid_char('a', Loc(4, 5))));
    assert_eq!(lex("?"), Err(LexError::invalid_char('?', Loc(0, 1))));
}

#[test]
fn lex_parens_slash_and_blanks() {
    assert_eq!(
        lex("(42)\t/\n7"),
        Ok(vec![
            Token::lparen(Loc(0, 1)),
            Token::number(42, Loc(1, 3)),
            Token::rparen(Loc(3, 4)),
            Token::slash(Loc(5, 6)),
            Token::number(7, Loc(7, 8)),
        ])
    );
    assert_eq!(lex(""), Ok(vec![]));
    assert_eq!(lex("   "), Ok(vec![]));
}

#[test]
fn lex_largest_number() {
    assert_eq!(
        lex("18446744073709551615"),
        Ok(vec![Token::number(u64::MAX, Loc(0, 20))])
    );
}

#[test]
fn lex_error_kinds() {
    let e = LexError::eof(Loc(3, 3));
    assert_eq!(e.value, LexErrorKind::Eof);
    assert_eq!(e.loc, Loc(3, 3));
}
