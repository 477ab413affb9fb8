use pyfront::ast::{Ast, Atom, Comparison, Expression, Primary, Statement};
use pyfront::lexeme::{Delimiter, Keyword, Lexeme, Operator};
use pyfront::lexer::{Lexer, LexerError};
use pyfront::parser::{ParseError, Parser};

fn parse(src: &str) -> Result<Vec<Ast>, ParseError> {
    let mut lexer = Lexer::new(src.chars().collect());
    match lexer.lex() {
        Ok(()) => {}
        Err(e) => return Err(ParseError::from(e)),
    }
    let mut parser = Parser::new(lexer.output());
    parser.parse()?;
    Ok(parser.output())
}

fn single_assignment(src: &str) -> (Expression, Expression) {
    let mut out = parse(src).unwrap();
    assert_eq!(out.len(), 1);
    match out.remove(0) {
        Ast::Statement(Statement::Assignment(lhs, rhs)) => (lhs, rhs),
        other => panic!("expected an assignment, got {:?}", other),
    }
}

fn int_atom(e: &Expression, expected: i64) -> bool {
    matches!(
        e,
        Expression::Primary(Primary::Atom(Atom::Literal(Lexeme::Integer(v)))) if *v == expected
    )
}

#[test]
fn adjacent_strings_concatenate() {
    let (_, rhs) = single_assignment("x = 'a' 'b'\n");
    match rhs {
        Expression::Primary(Primary::Atom(Atom::Literal(Lexeme::Str(off, content)))) => {
            assert_eq!(off, 4);
            assert_eq!(content, vec!['a', 'b']);
        }
        other => panic!("expected one merged string literal, got {:?}", other),
    }
}

#[test]
fn adjacent_bytes_concatenate() {
    let (_, rhs) = single_assignment("x = b'a' b'b'\n");
    match rhs {
        Expression::Primary(Primary::Atom(Atom::Literal(Lexeme::Bytes(off, content)))) => {
            assert_eq!(off, 4);
            assert_eq!(content, b"ab".to_vec());
        }
        other => panic!("expected one merged bytes literal, got {:?}", other),
    }
}

#[test]
fn multiplication_binds_tighter_than_addition() {
    let (_, rhs) = single_assignment("x = 2 + 3 * 4\n");
    match rhs {
        Expression::Operation(lhs, Operator::Add, Some(inner)) => {
            assert!(int_atom(&lhs, 2));
            match *inner {
                Expression::Operation(l, Operator::Mul, Some(r)) => {
                    assert!(int_atom(&l, 3));
                    assert!(int_atom(&r, 4));
                }
                other => panic!("expected a multiplication, got {:?}", other),
            }
        }
        other => panic!("expected an addition, got {:?}", other),
    }
}

#[test]
fn power_takes_a_unary_right_operand() {
    let (_, rhs) = single_assignment("x = 2 ** -3\n");
    match rhs {
        Expression::Operation(lhs, Operator::Pow, Some(inner)) => {
            assert!(int_atom(&lhs, 2));
            match *inner {
                Expression::Operation(ref l, Operator::UnarySub, None) => {
                    assert!(int_atom(l, 3));
                }
                ref other => panic!("expected a unary operand, got {:?}", other),
            }
        }
        other => panic!("expected a power operation, got {:?}", other),
    }
}

#[test]
fn numbers_are_not_callable() {
    assert!(matches!(parse("5("), Err(ParseError::LiteralNotCallable)));
}

#[test]
fn numbers_are_not_subscriptable() {
    assert!(matches!(parse("5["), Err(ParseError::LiteralNotSubscriptable)));
}

#[test]
fn call_syntax_is_an_unsupported_placeholder() {
    assert!(matches!(parse("x = f(1)\n"), Err(ParseError::UnsupportedCall(5))));
}

#[test]
fn subscript_syntax_is_an_unsupported_placeholder() {
    assert!(matches!(
        parse("x = f[1]\n"),
        Err(ParseError::UnsupportedSubscription(5))
    ));
}

#[test]
fn parenthesised_atoms_are_unsupported_placeholders() {
    assert!(matches!(parse("x = (1)\n"), Err(ParseError::UnsupportedAtom(4))));
    assert!(matches!(parse("x = [1]\n"), Err(ParseError::UnsupportedAtom(4))));
    assert!(matches!(parse("x = {1}\n"), Err(ParseError::UnsupportedAtom(4))));
    assert!(matches!(
        parse("x = yield a\n"),
        Err(ParseError::UnsupportedAtom(4))
    ));
}

#[test]
fn a_bare_expression_is_not_a_statement() {
    assert!(matches!(parse("2 + 2\n"), Err(ParseError::ExpectedAssign)));
}

#[test]
fn missing_right_hand_side_is_rejected() {
    assert!(matches!(parse("x ="), Err(ParseError::UnexpectedToken)));
    let mut parser = Parser::new(vec![
        Lexeme::Identifier(0, vec!['x']),
        Lexeme::Operator(Operator::Assign),
    ]);
    assert!(matches!(parser.parse(), Err(ParseError::Eof)));
}

#[test]
fn attribute_references_chain_primaries() {
    let (_, rhs) = single_assignment("x = a.b\n");
    match rhs {
        Expression::Primary(Primary::AttributeRef(l, r)) => {
            assert!(matches!(*l, Primary::Atom(Atom::Identifier(4, _))));
            assert!(matches!(*r, Primary::Atom(Atom::Identifier(6, _))));
        }
        other => panic!("expected an attribute reference, got {:?}", other),
    }
}

#[test]
fn await_wraps_a_primary() {
    let (_, rhs) = single_assignment("x = await a\n");
    match rhs {
        Expression::Await(inner) => {
            assert!(matches!(
                *inner,
                Expression::Primary(Primary::Atom(Atom::Identifier(10, _)))
            ));
        }
        other => panic!("expected an await expression, got {:?}", other),
    }
}

#[test]
fn bare_test_becomes_a_truth_check() {
    let (lhs, _) = single_assignment("a = 1\n");
    match lhs {
        Expression::Comparison(c) => {
            assert!(matches!(*c, Comparison::Truthy(_)));
        }
        other => panic!("expected a truth test, got {:?}", other),
    }
}

#[test]
fn is_not_merges_into_one_keyword() {
    let (lhs, _) = single_assignment("a is not b = 1\n");
    match lhs {
        Expression::Comparison(c) => match *c {
            Comparison::Keyword(_, Keyword::IsNot, _) => {}
            other => panic!("expected a merged is-not comparison, got {:?}", other),
        },
        other => panic!("expected a comparison, got {:?}", other),
    }
}

#[test]
fn not_in_merges_into_one_keyword() {
    let (lhs, _) = single_assignment("a not in b = 1\n");
    match lhs {
        Expression::Comparison(c) => match *c {
            Comparison::Keyword(_, Keyword::NotIn, _) => {}
            other => panic!("expected a merged not-in comparison, got {:?}", other),
        },
        other => panic!("expected a comparison, got {:?}", other),
    }
}

#[test]
fn comparison_operators_apply() {
    let (lhs, _) = single_assignment("a < b = 1\n");
    match lhs {
        Expression::Comparison(c) => match *c {
            Comparison::Op(_, Operator::LessThan, _) => {}
            other => panic!("expected a comparison operator, got {:?}", other),
        },
        other => panic!("expected a comparison, got {:?}", other),
    }
}

#[test]
fn not_negates_a_test() {
    let (lhs, _) = single_assignment("not a = 1\n");
    match lhs {
        Expression::Comparison(c) => {
            assert!(matches!(*c, Comparison::Notty(_)));
        }
        other => panic!("expected a negation, got {:?}", other),
    }
}

#[test]
fn two_statements_parse_in_order() {
    let out = parse("a = 1\nb = 2\n").unwrap();
    assert_eq!(out.len(), 2);
    for ast in &out {
        assert!(matches!(ast, Ast::Statement(Statement::Assignment(_, _))));
    }
}

#[test]
fn lexer_errors_wrap_into_parse_errors() {
    assert_eq!(
        ParseError::from(LexerError::Eof),
        ParseError::LexError(LexerError::Eof)
    );
    assert!(matches!(
        parse("x = '\n"),
        Err(ParseError::LexError(LexerError::Eof))
    ));
}

#[test]
fn constructors_build_the_documented_shapes() {
    let one = Expression::Primary(Primary::Atom(Atom::Literal(Lexeme::Integer(1))));
    let two = Expression::Primary(Primary::Atom(Atom::Literal(Lexeme::Integer(2))));
    assert!(matches!(
        Expression::new_unary_op(one, Operator::UnarySub),
        Expression::Operation(_, Operator::UnarySub, None)
    ));
    let a = Expression::Primary(Primary::Atom(Atom::Identifier(0, vec!['a'])));
    assert!(matches!(
        Expression::new_binary_op(a, Operator::Add, two),
        Expression::Operation(_, Operator::Add, Some(_))
    ));
    let l = Expression::Primary(Primary::Atom(Atom::Identifier(0, vec!['a'])));
    let r = Expression::Primary(Primary::Atom(Atom::Identifier(2, vec!['b'])));
    assert!(matches!(
        Primary::new_attribute_ref(l, r),
        Primary::AttributeRef(_, _)
    ));
    let lit = Expression::Primary(Primary::Atom(Atom::Literal(Lexeme::Integer(5))));
    assert!(lit.is_number());
    let ident = Expression::Primary(Primary::Atom(Atom::Identifier(0, vec!['x'])));
    assert!(!ident.is_number());
}

#[test]
fn unclosed_group_still_hands_tokens_over() {
    // A bracket group left open at the end of input does not terminate the
    // logical line early; the tokens still reach the parser.
    let mut lexer = Lexer::new("(".chars().collect());
    lexer.lex().unwrap();
    assert_eq!(
        lexer.output(),
        vec![
            Lexeme::Delimiter(0, Delimiter::ParenOpen),
            Lexeme::Newline,
        ]
    );
}

#[test]
fn power_with_a_plain_right_operand() {
    let (_, rhs) = single_assignment("x = 2 ** 3\n");
    match rhs {
        Expression::Operation(lhs, Operator::Pow, Some(inner)) => {
            assert!(int_atom(&lhs, 2));
            assert!(int_atom(&inner, 3));
        }
        other => panic!("expected a power operation, got {:?}", other),
    }
}

#[test]
fn shift_and_bitwise_layers_apply() {
    let (_, rhs) = single_assignment("x = 1 << 2\n");
    assert!(matches!(
        rhs,
        Expression::Operation(_, Operator::Shl, Some(_))
    ));
    let (_, rhs) = single_assignment("x = 1 ^ 2\n");
    assert!(matches!(
        rhs,
        Expression::Operation(_, Operator::Xor, Some(_))
    ));
}

#[test]
fn empty_token_stream_parses_to_nothing() {
    let out = parse("").unwrap();
    assert_eq!(out.len(), 0);
}

#[test]
fn addition_chains_left_associatively() {
    let (_, rhs) = single_assignment("x = 1 + 2 + 3\n");
    match rhs {
        Expression::Operation(l, Operator::Add, Some(r)) => {
            assert!(int_atom(&r, 3));
            match *l {
                Expression::Operation(ref ll, Operator::Add, Some(ref lr)) => {
                    assert!(int_atom(ll, 1));
                    assert!(int_atom(lr, 2));
                }
                ref other => panic!("expected a nested addition, got {:?}", other),
            }
        }
        other => panic!("expected an addition, got {:?}", other),
    }
}

#[test]
fn term_chains_left_associatively() {
    let (_, rhs) = single_assignment("x = 2 * 3 * 4\n");
    match rhs {
        Expression::Operation(l, Operator::Mul, Some(r)) => {
            assert!(int_atom(&r, 4));
            assert!(matches!(*l, Expression::Operation(_, Operator::Mul, Some(_))));
        }
        other => panic!("expected a multiplication, got {:?}", other),
    }
}

#[test]
fn or_chains_left_associatively() {
    let (lhs, _) = single_assignment("a or b or c = 1\n");
    match lhs {
        Expression::Comparison(c) => match *c {
            Comparison::Keyword(inner, Keyword::Or, _) => {
                assert!(matches!(
                    inner,
                    Expression::Comparison(ref ic)
                        if matches!(**ic, Comparison::Keyword(_, Keyword::Or, _))
                ));
            }
            other => panic!("expected an or chain, got {:?}", other),
        },
        other => panic!("expected a comparison, got {:?}", other),
    }
}

#[test]
fn tilde_is_a_unary_operator() {
    let (_, rhs) = single_assignment("x = ~5\n");
    match rhs {
        Expression::Operation(ref l, Operator::UnaryNot, None) => {
            assert!(int_atom(l, 5));
        }
        other => panic!("expected a unary-not operation, got {:?}", other),
    }
}
