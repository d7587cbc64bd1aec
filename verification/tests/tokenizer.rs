use loxyde::token::{SourceLocation, TokError, Token};
use loxyde::tokenizer::Tokenizer;

/// Scan the whole source, collecting every yielded element up to (not
/// including) `Eof`.
fn scan_all(src: &str) -> Vec<(Result<Token, TokError>, SourceLocation)> {
    let mut t = Tokenizer::new(src);
    let mut out = Vec::new();
    let mut guard = 0;
    while let Some(item) = t.next() {
        out.push(item);
        guard += 1;
        assert!(guard <= 10_000, "scanner failed to terminate");
    }
    out
}

fn ok_tokens(src: &str) -> Vec<Token> {
    scan_all(src)
        .into_iter()
        .map(|(r, _)| r.expect("expected no lexical error"))
        .collect()
}

#[test]
fn whitespace_only_yields_exactly_eof() {
    for src in ["", " ", "   \t\r\n  ", "\n\n", "\u{a0}\u{2003}"] {
        let mut t = Tokenizer::new(src);
        let (res, loc) = t.next_token();
        assert_eq!(res, Ok(Token::Eof), "source {:?}", src);
        assert_eq!(loc, SourceLocation { offset: src.len(), len: 0 });
        // The lazy sequence itself is exactly empty before Eof.
        let mut t2 = Tokenizer::new(src);
        assert!(t2.next().is_none());
    }
}

#[test]
fn two_char_operators_are_combined() {
    let cases = [
        ("!=", Token::BangEqual),
        ("==", Token::EqualEqual),
        ("<=", Token::LessEqual),
        (">=", Token::GreaterEqual),
    ];
    for (src, expected) in cases {
        let all = scan_all(src);
        assert_eq!(all.len(), 1, "source {:?}", src);
        assert_eq!(all[0].0, Ok(expected));
        assert_eq!(all[0].1, SourceLocation { offset: 0, len: 2 });
    }
}

#[test]
fn single_char_operators_when_not_followed_by_equal() {
    assert_eq!(ok_tokens("! = < >"), vec![Token::Bang, Token::Equal, Token::Less, Token::Greater]);
    assert_eq!(ok_tokens("!<"), vec![Token::Bang, Token::Less]);
}

#[test]
fn punctuation_tokens() {
    assert_eq!(
        ok_tokens("(){},.-+;*/"),
        vec![
            Token::LeftParen,
            Token::RightParen,
            Token::LeftBrace,
            Token::RightBrace,
            Token::Comma,
            Token::Dot,
            Token::Minus,
            Token::Plus,
            Token::Semicolon,
            Token::Star,
            Token::Slash,
        ]
    );
}

#[test]
fn string_literal_spans_include_quotes() {
    let all = scan_all("\"abc\"");
    assert_eq!(all.len(), 1);
    assert_eq!(all[0].0, Ok(Token::String("abc".to_string())));
    assert_eq!(all[0].1, SourceLocation { offset: 0, len: 5 });
}

#[test]
fn string_literal_multibyte_payload_and_byte_span() {
    let all = scan_all("\"héllo\"");
    assert_eq!(all[0].0, Ok(Token::String("héllo".to_string())));
    // h + 2-byte é + llo = 6 bytes, plus two quotes.
    assert_eq!(all[0].1, SourceLocation { offset: 0, len: 8 });
}

#[test]
fn unterminated_string_reports_error_then_only_eof() {
    let mut t = Tokenizer::new("\"abc");
    let (res, loc) = t.next_token();
    assert_eq!(res, Err(TokError::UnterminatedString));
    assert_eq!(loc, SourceLocation { offset: 0, len: 4 });
    // Nothing inside the unterminated string is scanned again.
    let (res2, loc2) = t.next_token();
    assert_eq!(res2, Ok(Token::Eof));
    assert_eq!(loc2, SourceLocation { offset: 4, len: 0 });
}

#[test]
fn unterminated_string_after_other_tokens() {
    let all = scan_all("var \"oops");
    assert_eq!(all.len(), 2);
    assert_eq!(all[0].0, Ok(Token::Var));
    assert_eq!(all[1].0, Err(TokError::UnterminatedString));
    assert_eq!(all[1].1, SourceLocation { offset: 4, len: 5 });
}

#[test]
fn number_lexemes_reparse_to_their_value() {
    for (src, value) in [("12.5", 12.5_f64), ("0", 0.0), ("007", 7.0), ("0.1", 0.1)] {
        let all = scan_all(src);
        assert_eq!(all.len(), 1, "source {:?}", src);
        match &all[0].0 {
            Ok(Token::Number(text)) => {
                assert_eq!(text, src);
                let reparsed: f64 = text.parse().expect("number lexeme must reparse");
                assert_eq!(reparsed, value);
            },
            other => panic!("expected a number token, got {:?}", other),
        }
        assert_eq!(all[0].1, SourceLocation { offset: 0, len: src.len() });
    }
}

#[test]
fn trailing_dot_is_its_own_token() {
    let all = scan_all("12.");
    assert_eq!(all.len(), 2);
    assert_eq!(all[0].0, Ok(Token::Number("12".to_string())));
    assert_eq!(all[0].1, SourceLocation { offset: 0, len: 2 });
    assert_eq!(all[1].0, Ok(Token::Dot));
    assert_eq!(all[1].1, SourceLocation { offset: 2, len: 1 });
}

#[test]
fn number_with_fraction_needs_digit_after_dot() {
    assert_eq!(
        ok_tokens("1.x"),
        vec![Token::Number("1".to_string()), Token::Dot, Token::Identifier("x".to_string())]
    );
}

#[test]
fn keywords_are_recognized_case_sensitively() {
    let cases = [
        ("and", Token::And),
        ("class", Token::Class),
        ("else", Token::Else),
        ("false", Token::False),
        ("fun", Token::Fun),
        ("for", Token::For),
        ("if", Token::If),
        ("nil", Token::Nil),
        ("or", Token::Or),
        ("print", Token::Print),
        ("return", Token::Return),
        ("super", Token::Super),
        ("this", Token::This),
        ("true", Token::True),
        ("var", Token::Var),
        ("while", Token::While),
    ];
    for (src, expected) in cases {
        assert_eq!(ok_tokens(src), vec![expected], "keyword {:?}", src);
    }
}

#[test]
fn near_keywords_are_identifiers() {
    for src in ["PRINT", "Print2", "printx", "andy", "fora", "_var", "whil"] {
        assert_eq!(ok_tokens(src), vec![Token::Identifier(src.to_string())], "source {:?}", src);
    }
}

#[test]
fn multibyte_identifier_has_byte_span() {
    let all = scan_all("héllo");
    assert_eq!(all[0].0, Ok(Token::Identifier("héllo".to_string())));
    assert_eq!(all[0].1, SourceLocation { offset: 0, len: 6 });
}

#[test]
fn comments_are_discarded_to_end_of_line() {
    assert_eq!(ok_tokens("// nothing here"), Vec::<Token>::new());
    let all = scan_all("// a comment\n42");
    assert_eq!(all.len(), 1);
    assert_eq!(all[0].0, Ok(Token::Number("42".to_string())));
    assert_eq!(all[0].1, SourceLocation { offset: 13, len: 2 });
    assert_eq!(ok_tokens("// a\n// b\n// c\n+"), vec![Token::Plus]);
    assert_eq!(ok_tokens("1 / 2"), vec![
        Token::Number("1".to_string()),
        Token::Slash,
        Token::Number("2".to_string()),
    ]);
}

#[test]
fn unexpected_character_is_reported_and_scanning_continues() {
    let all = scan_all("@ +");
    assert_eq!(all.len(), 2);
    assert_eq!(all[0].0, Err(TokError::UnexpectedCharacter('@')));
    assert_eq!(all[0].1, SourceLocation { offset: 0, len: 1 });
    assert_eq!(all[1].0, Ok(Token::Plus));
    assert_eq!(all[1].1, SourceLocation { offset: 2, len: 1 });
}

#[test]
fn mixed_statement_scans_in_order() {
    let toks = ok_tokens("var x = 12.5; // init\nprint x >= 2;");
    assert_eq!(
        toks,
        vec![
            Token::Var,
            Token::Identifier("x".to_string()),
            Token::Equal,
            Token::Number("12.5".to_string()),
            Token::Semicolon,
            Token::Print,
            Token::Identifier("x".to_string()),
            Token::GreaterEqual,
            Token::Number("2".to_string()),
            Token::Semicolon,
        ]
    );
}

#[test]
fn offsets_are_bytes_not_chars() {
    // "é" is two bytes: the identifier after it starts at byte 3.
    let all = scan_all("é x");
    assert_eq!(all[0].0, Ok(Token::Identifier("é".to_string())));
    assert_eq!(all[0].1, SourceLocation { offset: 0, len: 2 });
    assert_eq!(all[1].1, SourceLocation { offset: 3, len: 1 });
}

#[test]
fn one_pass_reports_multiple_independent_errors() {
    let all = scan_all("@ var #");
    assert_eq!(all.len(), 3);
    assert_eq!(all[0].0, Err(TokError::UnexpectedCharacter('@')));
    assert_eq!(all[1].0, Ok(Token::Var));
    assert_eq!(all[2].0, Err(TokError::UnexpectedCharacter('#')));
    assert_eq!(all[2].1, SourceLocation { offset: 6, len: 1 });
}

#[test]
fn string_may_span_a_newline() {
    let all = scan_all("\"a\nb\"");
    assert_eq!(all.len(), 1);
    assert_eq!(all[0].0, Ok(Token::String("a\nb".to_string())));
    assert_eq!(all[0].1, SourceLocation { offset: 0, len: 5 });
}
