use pyfront::lexeme::{Delimiter, Keyword, Lexeme, Operator, Prefix};
use pyfront::lexer::{Lexer, LexerError};

fn lex(src: &str) -> Result<Vec<Lexeme>, LexerError> {
    let mut lexer = Lexer::new(src.chars().collect());
    lexer.lex()?;
    Ok(lexer.output())
}

fn chars(s: &str) -> Vec<char> {
    s.chars().collect()
}

#[test]
fn indentation_balance_on_flat_input() {
    let toks = lex("a = 1\nif b:\n    c = 2\nd = 3\n").unwrap();
    let indents = toks.iter().filter(|t| matches!(t, Lexeme::Indent)).count();
    let dedents = toks.iter().filter(|t| matches!(t, Lexeme::Dedent)).count();
    assert_eq!(indents, 1);
    assert_eq!(dedents, 1);
}

#[test]
fn indentation_balance_nested() {
    let toks = lex("a = 1\nif b:\n  c = 2\n  if d:\n      e = 4\nf = 5\n").unwrap();
    let indents = toks.iter().filter(|t| matches!(t, Lexeme::Indent)).count();
    let dedents = toks.iter().filter(|t| matches!(t, Lexeme::Dedent)).count();
    assert_eq!(indents, dedents);
    assert_eq!(indents, 2);
}

#[test]
fn indentation_mismatch_is_an_error() {
    assert!(matches!(
        lex("if a:\n  b = 1\n c = 2\n"),
        Err(LexerError::IndentationError(_))
    ));
}

#[test]
fn blank_lines_leave_the_stack_alone() {
    let toks = lex("a = 1\n\n   \nb = 2\n").unwrap();
    let indents = toks.iter().filter(|t| matches!(t, Lexeme::Indent)).count();
    let dedents = toks.iter().filter(|t| matches!(t, Lexeme::Dedent)).count();
    assert_eq!(indents, 0);
    assert_eq!(dedents, 0);
}

#[test]
fn delimiter_transparency() {
    let toks = lex("(\n1\n)").unwrap();
    assert_eq!(
        toks,
        vec![
            Lexeme::Delimiter(0, Delimiter::ParenOpen),
            Lexeme::Integer(1),
            Lexeme::Delimiter(4, Delimiter::ParenClose),
            Lexeme::Newline,
        ]
    );
    let newlines = toks.iter().filter(|t| matches!(t, Lexeme::Newline)).count();
    assert_eq!(newlines, 1);
}

#[test]
fn floor_div_assign_is_one_token() {
    let toks = lex("//=").unwrap();
    assert_eq!(
        toks,
        vec![Lexeme::Operator(Operator::FloorDivAssign), Lexeme::Newline]
    );
}

#[test]
fn pow_is_one_token() {
    let toks = lex("**").unwrap();
    assert_eq!(toks, vec![Lexeme::Operator(Operator::Pow), Lexeme::Newline]);
}

#[test]
fn longest_match_falls_back() {
    let toks = lex("a<=-1").unwrap();
    assert_eq!(
        toks,
        vec![
            Lexeme::Identifier(0, chars("a")),
            Lexeme::Operator(Operator::LessThanEqual),
            Lexeme::Operator(Operator::UnarySub),
            Lexeme::Integer(1),
            Lexeme::Newline,
        ]
    );
}

#[test]
fn minus_before_digit_is_unary() {
    let toks = lex("-1").unwrap();
    assert_eq!(
        toks,
        vec![
            Lexeme::Operator(Operator::UnarySub),
            Lexeme::Integer(1),
            Lexeme::Newline,
        ]
    );
}

#[test]
fn minus_before_space_stays_binary() {
    let toks = lex("- ").unwrap();
    assert_eq!(toks, vec![Lexeme::Operator(Operator::Sub), Lexeme::Newline]);
}

#[test]
fn invalid_operator_is_an_error() {
    assert!(matches!(lex("!"), Err(LexerError::InvalidOperator(0))));
}

#[test]
fn mismatched_close_is_an_error() {
    assert!(matches!(lex("(]"), Err(LexerError::MismatchedDelimiter(1))));
}

#[test]
fn integer_bases() {
    let toks = lex("0x1f 0b101 0o17 1_000 9 0").unwrap();
    assert_eq!(
        toks,
        vec![
            Lexeme::Integer(31),
            Lexeme::Integer(5),
            Lexeme::Integer(15),
            Lexeme::Integer(1000),
            Lexeme::Integer(9),
            Lexeme::Integer(0),
            Lexeme::Newline,
        ]
    );
}

#[test]
fn float_literals() {
    let toks = lex("1.5 .5 2e3 5.").unwrap();
    assert_eq!(
        toks,
        vec![
            Lexeme::Float(chars("1.5")),
            Lexeme::Float(chars(".5")),
            Lexeme::Float(chars("2e3")),
            Lexeme::Float(chars("5.")),
            Lexeme::Newline,
        ]
    );
}

#[test]
fn leading_zero_run_becomes_float() {
    let toks = lex("012").unwrap();
    assert_eq!(toks, vec![Lexeme::Float(chars("12")), Lexeme::Newline]);
}

#[test]
fn lone_dot_is_access() {
    let toks = lex("a.b").unwrap();
    assert_eq!(
        toks,
        vec![
            Lexeme::Identifier(0, chars("a")),
            Lexeme::Operator(Operator::Access),
            Lexeme::Identifier(2, chars("b")),
            Lexeme::Newline,
        ]
    );
}

#[test]
fn decimal_at_the_64_bit_edge() {
    let toks = lex("9223372036854775807").unwrap();
    assert_eq!(toks, vec![Lexeme::Integer(i64::MAX), Lexeme::Newline]);
    assert!(matches!(
        lex("9223372036854775808"),
        Err(LexerError::InvalidInteger(0))
    ));
}

#[test]
fn glued_operator_run_is_an_invalid_integer() {
    assert!(matches!(lex("1+2"), Err(LexerError::InvalidInteger(0))));
}

#[test]
fn two_dots_make_an_invalid_float() {
    assert!(matches!(lex("1.2.3"), Err(LexerError::InvalidFloat(0))));
}

#[test]
fn base_literal_with_trailing_garbage_is_an_error() {
    assert!(matches!(lex("0b102"), Err(LexerError::InvalidInteger(0))));
    assert!(matches!(lex("0xfg"), Err(LexerError::InvalidInteger(0))));
}

#[test]
fn empty_base_literal_is_zero() {
    let toks = lex("0x").unwrap();
    assert_eq!(toks, vec![Lexeme::Integer(0), Lexeme::Newline]);
}

#[test]
fn hex_escape_decodes_to_one_character() {
    let toks = lex("'\\x41' '\\n'").unwrap();
    assert_eq!(
        toks,
        vec![
            Lexeme::Str(0, chars("A")),
            Lexeme::Str(7, chars("\n")),
            Lexeme::Newline,
        ]
    );
}

#[test]
fn unicode_and_octal_escapes() {
    let toks = lex("'\\t\\u0041\\101'").unwrap();
    assert_eq!(toks, vec![Lexeme::Str(0, chars("\tAA")), Lexeme::Newline]);
}

#[test]
fn surrogate_escape_is_rejected() {
    assert!(matches!(
        lex("'\\ud800'"),
        Err(LexerError::InvalidUnicode16(0))
    ));
}

#[test]
fn out_of_range_unicode32_is_rejected() {
    assert!(matches!(
        lex("'\\U00110000'"),
        Err(LexerError::InvalidUnicode32(0))
    ));
}

#[test]
fn malformed_hex_escape_is_rejected() {
    assert!(matches!(lex("'\\xZZ'"), Err(LexerError::InvalidHex(0))));
}

#[test]
fn malformed_octal_escape_is_rejected() {
    assert!(matches!(lex("'\\7a8'"), Err(LexerError::InvalidOctal(2))));
}

#[test]
fn unicode_escape_in_bytes_is_rejected() {
    assert!(matches!(lex("b'\\u0041'"), Err(LexerError::InvalidEscape(3))));
}

#[test]
fn unterminated_string_is_an_eof_error() {
    assert!(matches!(lex("'abc"), Err(LexerError::Eof)));
}

#[test]
fn raw_prefix_keeps_backslashes() {
    let toks = lex("r'a\\nb'").unwrap();
    assert_eq!(toks, vec![Lexeme::Str(0, chars("a\\nb")), Lexeme::Newline]);
}

#[test]
fn bytes_literal_is_utf8_encoded() {
    let toks = lex("b'hi'").unwrap();
    assert_eq!(toks, vec![Lexeme::Bytes(0, b"hi".to_vec()), Lexeme::Newline]);
    let toks = lex("b'\\xe9'").unwrap();
    assert_eq!(
        toks,
        vec![Lexeme::Bytes(0, vec![0xC3, 0xA9]), Lexeme::Newline]
    );
}

#[test]
fn unknown_string_prefix_is_rejected() {
    assert!(matches!(lex("q'a'"), Err(LexerError::InvalidPrefix(0))));
}

#[test]
fn triple_quoted_string_crosses_lines() {
    let toks = lex("'''a\nb'''").unwrap();
    assert_eq!(toks, vec![Lexeme::Str(0, chars("a\nb")), Lexeme::Newline]);
}

#[test]
fn words_split_into_keywords_and_identifiers() {
    let toks = lex("if x yield None").unwrap();
    assert_eq!(
        toks,
        vec![
            Lexeme::Keyword(0, Keyword::If),
            Lexeme::Identifier(3, chars("x")),
            Lexeme::Keyword(5, Keyword::Yield),
            Lexeme::Keyword(11, Keyword::NoneKw),
            Lexeme::Newline,
        ]
    );
}

#[test]
fn comments_are_swallowed() {
    let toks = lex("a # hello\nb").unwrap();
    assert_eq!(
        toks,
        vec![
            Lexeme::Identifier(0, chars("a")),
            Lexeme::Newline,
            Lexeme::Identifier(10, chars("b")),
            Lexeme::Newline,
        ]
    );
}

#[test]
fn backslash_continues_the_line() {
    let toks = lex("a \\\nb").unwrap();
    assert_eq!(
        toks,
        vec![
            Lexeme::Identifier(0, chars("a")),
            Lexeme::Identifier(4, chars("b")),
            Lexeme::Newline,
        ]
    );
}

#[test]
fn stray_backslash_is_an_error() {
    assert!(matches!(lex("a \\b"), Err(LexerError::InvalidEscape(3))));
}

#[test]
fn empty_input_produces_no_tokens() {
    assert_eq!(lex("").unwrap(), Vec::<Lexeme>::new());
}

#[test]
fn classification_predicates() {
    assert_eq!(Delimiter::is_delimiter('('), Some(Delimiter::ParenOpen));
    assert_eq!(Delimiter::is_delimiter('x'), None);
    assert!(Delimiter::ParenOpen.is_opening());
    assert!(Delimiter::ParenClose.is_closing());
    assert!(Delimiter::ParenClose.is_matching(Delimiter::ParenOpen));
    assert!(!Delimiter::ParenClose.is_matching(Delimiter::ListOpen));
    assert!(Operator::is_operator_term('<'));
    assert!(!Operator::is_operator_term('x'));
    assert_eq!(
        Operator::is_operator(&['/', '/', '=']),
        Some(Operator::FloorDivAssign)
    );
    assert_eq!(Operator::is_operator(&['*', '*']), Some(Operator::Pow));
    assert_eq!(Operator::is_operator(&['!']), None);
    assert!(Lexeme::Operator(Operator::UnarySub).is_unary());
    assert!(!Lexeme::Operator(Operator::Sub).is_unary());
}

#[test]
fn prefix_and_keyword_predicates() {
    assert_eq!(
        Prefix::is_prefix(&['b']),
        Some((Prefix::Bytes, Prefix::Ignore))
    );
    assert_eq!(Prefix::is_prefix(&['R', 'b']), Some((Prefix::Bytes, Prefix::Raw)));
    assert_eq!(Prefix::is_prefix(&['q']), None);
    assert_eq!(Keyword::is_keyword(&['i', 'f']), Some(Keyword::If));
    assert_eq!(Keyword::is_keyword(&['z', 'z']), None);
    assert!(Keyword::And.is_comp_keyword());
    assert!(!Keyword::If.is_comp_keyword());
    assert!(Operator::Equals.is_comp_op());
    assert!(!Operator::Assign.is_comp_op());
}

#[test]
fn float_with_empty_fraction_and_exponent() {
    let toks = lex("5.e3").unwrap();
    assert_eq!(toks, vec![Lexeme::Float(chars("5.e3")), Lexeme::Newline]);
}

#[test]
fn octal_digit_out_of_range_is_garbage() {
    assert!(matches!(lex("0o8"), Err(LexerError::InvalidInteger(0))));
}

#[test]
fn empty_string_literal() {
    let toks = lex("''").unwrap();
    assert_eq!(toks, vec![Lexeme::Str(0, Vec::new()), Lexeme::Newline]);
}

#[test]
fn backslash_newline_inside_string_is_elided() {
    let toks = lex("'a\\\nb'").unwrap();
    assert_eq!(toks, vec![Lexeme::Str(0, chars("ab")), Lexeme::Newline]);
}

#[test]
fn input_ending_indented_keeps_the_stack_open() {
    let toks = lex("if a:\n  b = 1").unwrap();
    let indents = toks.iter().filter(|t| matches!(t, Lexeme::Indent)).count();
    let dedents = toks.iter().filter(|t| matches!(t, Lexeme::Dedent)).count();
    assert_eq!(indents, 1);
    assert_eq!(dedents, 0);
}

#[test]
fn rarer_operator_spellings() {
    let toks = lex("a -> b @ c ; d").unwrap();
    let ops: Vec<&Lexeme> = toks
        .iter()
        .filter(|t| matches!(t, Lexeme::Operator(_)))
        .collect();
    assert_eq!(
        ops,
        vec![
            &Lexeme::Operator(Operator::FuncAnno),
            &Lexeme::Operator(Operator::Dec),
            &Lexeme::Operator(Operator::Term),
        ]
    );
}

#[test]
fn tilde_before_digit_is_unary_not() {
    let toks = lex("~1").unwrap();
    assert_eq!(
        toks,
        vec![
            Lexeme::Operator(Operator::UnaryNot),
            Lexeme::Integer(1),
            Lexeme::Newline,
        ]
    );
    let toks = lex("~ ").unwrap();
    assert_eq!(toks, vec![Lexeme::Operator(Operator::Not), Lexeme::Newline]);
}
