use lexer::error::ScanError;
use lexer::operator::Operator;
use lexer::token::{lex, scan, Token};

/// The floating-point value that a `Number` token denotes: its integer part
/// in base ten plus each fractional digit scaled by the matching negative
/// power of ten.
fn number_value(t: &Token) -> f64 {
    match t {
        Token::Number { integer, fraction } => {
            let mut v = 0.0f64;
            for d in integer {
                v = v * 10.0 + f64::from(*d - b'0');
            }
            let mut coef = 0.1f64;
            for d in fraction {
                v += f64::from(*d - b'0') * coef;
                coef *= 0.1;
            }
            v
        }
        _ => panic!("not a number token"),
    }
}

fn lex_ok(input: &[u8]) -> Vec<Token> {
    let mut out = Vec::new();
    lex(input, &mut out).expect("scan should succeed");
    out
}

fn lex_err(input: &[u8]) -> ScanError {
    let mut out = Vec::new();
    lex(input, &mut out).expect_err("scan should fail")
}

#[test]
fn empty_input_yields_no_tokens() {
    assert_eq!(lex_ok(b""), vec![]);
}

#[test]
fn whitespace_only_yields_no_tokens() {
    assert_eq!(lex_ok(b" \t\r\n  \x0c "), vec![]);
}

#[test]
fn digit_only_input_decodes_base_ten() {
    let toks = lex_ok(b"042");
    assert_eq!(
        toks,
        vec![Token::Number { integer: b"042".to_vec(), fraction: vec![] }]
    );
    assert_eq!(number_value(&toks[0]), 42.0);
}

#[test]
fn decimal_input_decodes_fraction() {
    let toks = lex_ok(b"3.14");
    assert_eq!(
        toks,
        vec![Token::Number { integer: b"3".to_vec(), fraction: b"14".to_vec() }]
    );
    assert!((number_value(&toks[0]) - 3.14).abs() < 1e-9);
}

#[test]
fn trailing_dot_is_consumed_with_empty_fraction() {
    let toks = lex_ok(b"1.");
    assert_eq!(
        toks,
        vec![Token::Number { integer: b"1".to_vec(), fraction: vec![] }]
    );
    assert_eq!(number_value(&toks[0]), 1.0);
}

#[test]
fn second_dot_stops_the_number() {
    // the number ends at the second dot, which then fits no category
    assert_eq!(
        lex_err(b"1.2.3"),
        ScanError::UnknownCharacter { byte: b'.', position: 3 }
    );
}

#[test]
fn identifier_yields_one_name() {
    assert_eq!(lex_ok(b"_foo_bar1"), vec![Token::Name(b"_foo_bar1".to_vec())]);
}

#[test]
fn identifier_stops_at_non_matching_byte() {
    assert_eq!(
        lex_ok(b"abc+def"),
        vec![
            Token::Name(b"abc".to_vec()),
            Token::Operator(Operator::Add),
            Token::Name(b"def".to_vec()),
        ]
    );
}

#[test]
fn string_literal_strips_delimiters() {
    assert_eq!(lex_ok(b"\"abc\""), vec![Token::String(b"abc".to_vec())]);
}

#[test]
fn single_quoted_literal_matches_single_quote() {
    assert_eq!(lex_ok(b"'xy'"), vec![Token::String(b"xy".to_vec())]);
}

#[test]
fn backslash_has_no_special_meaning_in_strings() {
    assert_eq!(lex_ok(b"\"a\\b\""), vec![Token::String(b"a\\b".to_vec())]);
}

#[test]
fn unterminated_string_fails() {
    assert_eq!(
        lex_err(b"\"abc"),
        ScanError::UnterminatedString { delimiter: b'"', position: 0 }
    );
}

#[test]
fn balanced_brackets_scan_inner_tokens() {
    assert_eq!(
        lex_ok(b"(1+2)"),
        vec![
            Token::Operator(Operator::LeftBracket),
            Token::Number { integer: b"1".to_vec(), fraction: vec![] },
            Token::Operator(Operator::Add),
            Token::Number { integer: b"2".to_vec(), fraction: vec![] },
            Token::Operator(Operator::RightBracket),
        ]
    );
}

#[test]
fn nested_brackets_scan_flat() {
    assert_eq!(
        lex_ok(b"((1))"),
        vec![
            Token::Operator(Operator::LeftBracket),
            Token::Operator(Operator::LeftBracket),
            Token::Number { integer: b"1".to_vec(), fraction: vec![] },
            Token::Operator(Operator::RightBracket),
            Token::Operator(Operator::RightBracket),
        ]
    );
}

#[test]
fn unbalanced_bracket_fails() {
    assert_eq!(lex_err(b"(1+2"), ScanError::UnmatchedBracket { position: 4 });
}

#[test]
fn top_level_close_bracket_is_an_operator() {
    assert_eq!(lex_ok(b")"), vec![Token::Operator(Operator::RightBracket)]);
}

#[test]
fn scan_with_terminator_reports_consumed_bytes() {
    let mut out = Vec::new();
    let consumed = scan(b"1) rest", 0, Some(b')'), &mut out).expect("should stop at terminator");
    assert_eq!(consumed, 2);
    assert_eq!(
        out,
        vec![Token::Number { integer: b"1".to_vec(), fraction: vec![] }]
    );
}

#[test]
fn rescan_yields_identical_tokens() {
    let input = b"x = (a1+b_2) * 3.5";
    assert_eq!(lex_ok(input), lex_ok(input));
}

#[test]
fn mixed_input_scans_in_order() {
    assert_eq!(
        lex_ok(b"x = (a1+b_2) * 3.5"),
        vec![
            Token::Name(b"x".to_vec()),
            Token::Operator(Operator::Eq),
            Token::Operator(Operator::LeftBracket),
            Token::Name(b"a1".to_vec()),
            Token::Operator(Operator::Add),
            Token::Name(b"b_2".to_vec()),
            Token::Operator(Operator::RightBracket),
            Token::Operator(Operator::Mul),
            Token::Number { integer: b"3".to_vec(), fraction: b"5".to_vec() },
        ]
    );
}

#[test]
fn unknown_byte_fails_with_byte_and_position() {
    assert_eq!(
        lex_err(b"  @"),
        ScanError::UnknownCharacter { byte: b'@', position: 2 }
    );
}

#[test]
fn failed_scan_leaves_output_unchanged() {
    let mut out = vec![Token::Name(b"kept".to_vec())];
    assert!(lex(b"1 + @", &mut out).is_err());
    assert_eq!(out, vec![Token::Name(b"kept".to_vec())]);
}

#[test]
fn every_operator_byte_classifies() {
    let expected = [
        (b'+', Operator::Add),
        (b'-', Operator::Sub),
        (b'*', Operator::Mul),
        (b'/', Operator::Div),
        (b'<', Operator::Lesser),
        (b'=', Operator::Eq),
        (b'>', Operator::Greater),
        (b'!', Operator::Not),
        (b'&', Operator::And),
        (b'|', Operator::Or),
        (b'^', Operator::Xor),
        (b'(', Operator::LeftBracket),
        (b')', Operator::RightBracket),
        (b'[', Operator::LeftIndex),
        (b']', Operator::RightIndex),
    ];
    for (byte, kind) in expected {
        assert_eq!(Operator::from_ascii(byte), Ok(kind));
        assert_eq!(kind.to_ascii(), byte);
    }
}

#[test]
fn from_ascii_rejects_a_byte_outside_the_set() {
    assert_eq!(
        Operator::from_ascii(b'@'),
        Err(ScanError::InvalidOperatorByte { byte: b'@' })
    );
}

#[test]
fn operator_bytes_scan_one_token_each() {
    assert_eq!(
        lex_ok(b"+-*/<=>!&|^[]"),
        vec![
            Token::Operator(Operator::Add),
            Token::Operator(Operator::Sub),
            Token::Operator(Operator::Mul),
            Token::Operator(Operator::Div),
            Token::Operator(Operator::Lesser),
            Token::Operator(Operator::Eq),
            Token::Operator(Operator::Greater),
            Token::Operator(Operator::Not),
            Token::Operator(Operator::And),
            Token::Operator(Operator::Or),
            Token::Operator(Operator::Xor),
            Token::Operator(Operator::LeftIndex),
            Token::Operator(Operator::RightIndex),
        ]
    );
}

#[test]
fn token_bytes_reconstruct_each_lexeme() {
    assert_eq!(Token::Operator(Operator::Add).bytes(), b"+".to_vec());
    assert_eq!(Token::Name(b"abc".to_vec()).bytes(), b"abc".to_vec());
    assert_eq!(Token::String(b"hi".to_vec()).bytes(), b"hi".to_vec());
    assert_eq!(
        Token::Number { integer: b"3".to_vec(), fraction: b"14".to_vec() }.bytes(),
        b"3.14".to_vec()
    );
    assert_eq!(
        Token::Number { integer: b"42".to_vec(), fraction: vec![] }.bytes(),
        b"42".to_vec()
    );
}

#[test]
fn ascii_samples_cover_the_operator_set() {
    let samples = Operator::get_ascii_samples();
    assert_eq!(samples, "+-*/<=>!&|^()[]");
    for byte in samples.bytes() {
        assert!(Operator::from_ascii(byte).is_ok());
    }
}
