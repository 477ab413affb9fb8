//! The parser: consumes the lexer's token sequence through a bounded
//! lookahead cursor and builds AST statements by strictly layered recursive
//! descent, from the loosest binding (`or`) down to atoms.
//!
//! Every failure a malformed token stream can trigger is reported as a typed
//! `ParseError`; only an internal invariant violation may abort, and the
//! grammar layers prove that none can occur.

use vstd::prelude::*;
use crate::ast::{
    Ast, AstView, Atom, AtomView, Comparison, ComparisonView, Expression, ExpressionView, Primary,
    PrimaryView, Statement, StatementView,
};
use crate::lexeme::{Delimiter, Keyword, Lexeme, LexemeView, Operator};
use crate::lexer::{bump, bump_within, LexerError};

verus! {

/// The errors the parser reports: a wrapped lexer error, an unclosed
/// bracket group with its offset, an unexpected end of the token stream,
/// and the grammar violations, each carrying a source offset where the
/// offending token has one.
#[derive(Clone, Copy, Debug, PartialEq, Eq, Structural)]
pub enum ParseError {
    LexError(LexerError),
    UnclosedDelimiter(usize),
    Eof,
    ExpectedAssign,
    UnexpectedToken,
    UnsupportedAtom(usize),
    UnsupportedCall(usize),
    UnsupportedSubscription(usize),
    LiteralNotCallable,
    LiteralNotSubscriptable,
}

impl From<LexerError> for ParseError {
    fn from(from: LexerError) -> (r: Self) {
        ParseError::LexError(from)
    }
}

impl vstd::std_specs::convert::FromSpecImpl<LexerError> for ParseError {
    open spec fn obeys_from_spec() -> bool {
        true
    }

    open spec fn from_spec(t: LexerError) -> Self {
        ParseError::LexError(t)
    }
}

/// The end of the run of adjacent Str tokens starting at `i`.
pub open spec fn str_run_end(toks: Seq<Lexeme>, i: int) -> int
    decreases toks.len() - i,
{
    if i < toks.len() && toks[i] is Str {
        str_run_end(toks, i + 1)
    } else {
        i
    }
}

/// The concatenated decoded content of the Str tokens in `[i, end)`.
pub open spec fn str_run_content(toks: Seq<Lexeme>, i: int, end: int) -> Seq<char>
    decreases end - i,
{
    if i < end && i < toks.len() {
        (match toks[i] {
            Lexeme::Str(_, s) => s@,
            _ => Seq::empty(),
        }) + str_run_content(toks, i + 1, end)
    } else {
        Seq::empty()
    }
}

/// The end of the run of adjacent Bytes tokens starting at `i`.
pub open spec fn bytes_run_end(toks: Seq<Lexeme>, i: int) -> int
    decreases toks.len() - i,
{
    if i < toks.len() && toks[i] is Bytes {
        bytes_run_end(toks, i + 1)
    } else {
        i
    }
}

/// The concatenated content of the Bytes tokens in `[i, end)`.
pub open spec fn bytes_run_content(toks: Seq<Lexeme>, i: int, end: int) -> Seq<u8>
    decreases end - i,
{
    if i < end && i < toks.len() {
        (match toks[i] {
            Lexeme::Bytes(_, s) => s@,
            _ => Seq::empty(),
        }) + bytes_run_content(toks, i + 1, end)
    } else {
        Seq::empty()
    }
}

proof fn lemma_str_run_snoc(toks: Seq<Lexeme>, i: int, end: int)
    requires
        0 <= i <= end < toks.len(),
    ensures
        str_run_content(toks, i, end + 1) == str_run_content(toks, i, end) + (match toks[end] {
            Lexeme::Str(_, s) => s@,
            _ => Seq::<char>::empty(),
        }),
    decreases end - i,
{
    if i < end {
        lemma_str_run_snoc(toks, i + 1, end);
        assert(str_run_content(toks, i, end + 1) =~= str_run_content(toks, i, end) + (
        match toks[end] {
            Lexeme::Str(_, s) => s@,
            _ => Seq::<char>::empty(),
        }));
    } else {
        assert(str_run_content(toks, end + 1, end + 1) =~= Seq::<char>::empty());
        assert(str_run_content(toks, i, end) =~= Seq::<char>::empty());
        assert(str_run_content(toks, i, end + 1) =~= str_run_content(toks, i, end) + (
        match toks[end] {
            Lexeme::Str(_, s) => s@,
            _ => Seq::<char>::empty(),
        }));
    }
}

proof fn lemma_bytes_run_snoc(toks: Seq<Lexeme>, i: int, end: int)
    requires
        0 <= i <= end < toks.len(),
    ensures
        bytes_run_content(toks, i, end + 1) == bytes_run_content(toks, i, end) + (match toks[end] {
            Lexeme::Bytes(_, s) => s@,
            _ => Seq::<u8>::empty(),
        }),
    decreases end - i,
{
    if i < end {
        lemma_bytes_run_snoc(toks, i + 1, end);
        assert(bytes_run_content(toks, i, end + 1) =~= bytes_run_content(toks, i, end) + (
        match toks[end] {
            Lexeme::Bytes(_, s) => s@,
            _ => Seq::<u8>::empty(),
        }));
    } else {
        assert(bytes_run_content(toks, end + 1, end + 1) =~= Seq::<u8>::empty());
        assert(bytes_run_content(toks, i, end) =~= Seq::<u8>::empty());
        assert(bytes_run_content(toks, i, end + 1) =~= bytes_run_content(toks, i, end) + (
        match toks[end] {
            Lexeme::Bytes(_, s) => s@,
            _ => Seq::<u8>::empty(),
        }));
    }
}


/// Whether an expression view is a bare literal atom.
pub open spec fn view_literal_atom(e: ExpressionView) -> bool {
    match e {
        ExpressionView::Primary(PrimaryView::Atom(AtomView::Literal(_))) => true,
        _ => false,
    }
}

/// The grammar, one spec function per layer: each takes the token sequence
/// and a position and returns the view of the node parsed there together
/// with the position after it, or the parse error. The executable parser's
/// contracts each state that the function computes exactly its layer here.
pub open spec fn sp_atom(toks: Seq<Lexeme>, p: int) -> Result<(ExpressionView, int), ParseError> {
    if p < 0 || p >= toks.len() {
        Err(ParseError::Eof)
    } else {
        match toks[p] {
            Lexeme::Identifier(i, w) => Ok(
                (
                    ExpressionView::Primary(PrimaryView::Atom(AtomView::Identifier(i, w@))),
                    p + 1,
                ),
            ),
            Lexeme::Integer(v) => Ok(
                (
                    ExpressionView::Primary(
                        PrimaryView::Atom(AtomView::Literal(LexemeView::Integer(v))),
                    ),
                    p + 1,
                ),
            ),
            Lexeme::Float(t) => Ok(
                (
                    ExpressionView::Primary(
                        PrimaryView::Atom(AtomView::Literal(LexemeView::Float(t@))),
                    ),
                    p + 1,
                ),
            ),
            Lexeme::Str(i, _) => Ok(
                (
                    ExpressionView::Primary(
                        PrimaryView::Atom(
                            AtomView::Literal(
                                LexemeView::Str(i, str_run_content(toks, p, str_run_end(toks, p))),
                            ),
                        ),
                    ),
                    str_run_end(toks, p),
                ),
            ),
            Lexeme::Bytes(i, _) => Ok(
                (
                    ExpressionView::Primary(
                        PrimaryView::Atom(
                            AtomView::Literal(
                                LexemeView::Bytes(
                                    i,
                                    bytes_run_content(toks, p, bytes_run_end(toks, p)),
                                ),
                            ),
                        ),
                    ),
                    bytes_run_end(toks, p),
                ),
            ),
            Lexeme::Delimiter(off, d) => if d is ParenOpen || d is ListOpen || d is DictOpen {
                Err(ParseError::UnsupportedAtom(off))
            } else {
                Err(ParseError::UnexpectedToken)
            },
            Lexeme::Keyword(off, k) => if k is Yield {
                Err(ParseError::UnsupportedAtom(off))
            } else {
                Err(ParseError::UnexpectedToken)
            },
            _ => Err(ParseError::UnexpectedToken),
        }
    }
}

pub open spec fn sp_primary(toks: Seq<Lexeme>, p: int) -> Result<
    (ExpressionView, int),
    ParseError,
>
    decreases toks.len() - p, 1int,
{
    match sp_atom(toks, p) {
        Err(e) => Err(e),
        Ok((a, q0)) => {
            let q = bump(p, q0);
            if q < toks.len() {
                match toks[q] {
                    Lexeme::Delimiter(off, Delimiter::ParenOpen) => if view_literal_atom(a) {
                        Err(ParseError::LiteralNotCallable)
                    } else {
                        Err(ParseError::UnsupportedCall(off))
                    },
                    Lexeme::Delimiter(off, Delimiter::ListOpen) => if view_literal_atom(a) {
                        Err(ParseError::LiteralNotSubscriptable)
                    } else {
                        Err(ParseError::UnsupportedSubscription(off))
                    },
                    Lexeme::Operator(Operator::Access) => match sp_primary(toks, q + 1) {
                        Err(e) => Err(e),
                        Ok((r2, q2)) => match (a, r2) {
                            (
                                ExpressionView::Primary(l),
                                ExpressionView::Primary(rr),
                            ) => Ok(
                                (
                                    ExpressionView::Primary(
                                        PrimaryView::AttributeRef(Box::new(l), Box::new(rr)),
                                    ),
                                    q2,
                                ),
                            ),
                            _ => Err(ParseError::UnexpectedToken),
                        },
                    },
                    _ => Ok((a, q)),
                }
            } else {
                Ok((a, q))
            }
        },
    }
}

pub open spec fn sp_await(toks: Seq<Lexeme>, p: int) -> Result<(ExpressionView, int), ParseError>
    decreases toks.len() - p, 2int,
{
    if 0 <= p < toks.len() && (toks[p] matches Lexeme::Keyword(_, Keyword::Await)) {
        match sp_primary(toks, p + 1) {
            Err(e) => Err(e),
            Ok((pr, q)) => Ok((ExpressionView::Await(Box::new(pr)), q)),
        }
    } else {
        sp_primary(toks, p)
    }
}

pub open spec fn sp_pow(toks: Seq<Lexeme>, p: int) -> Result<(ExpressionView, int), ParseError>
    decreases toks.len() - p, 4int,
{
    match sp_await(toks, p) {
        Err(e) => Err(e),
        Ok((lhs, q0)) => {
            let q = bump(p, q0);
            if q < toks.len() && (toks[q] matches Lexeme::Operator(Operator::Pow)) {
                let unary_next = q + 1 < toks.len() && toks[q + 1].unary_spec();
                let rhs = if unary_next {
                    sp_unary(toks, q + 1)
                } else {
                    sp_primary(toks, q + 1)
                };
                match rhs {
                    Err(e) => Err(e),
                    Ok((rv, q2)) => Ok(
                        (
                            ExpressionView::Operation(
                                Box::new(lhs),
                                Operator::Pow,
                                Some(Box::new(rv)),
                            ),
                            q2,
                        ),
                    ),
                }
            } else {
                Ok((lhs, q))
            }
        },
    }
}

pub open spec fn sp_unary(toks: Seq<Lexeme>, p: int) -> Result<(ExpressionView, int), ParseError>
    decreases toks.len() - p, 5int,
{
    let uop: Option<Operator> = if 0 <= p < toks.len() {
        match toks[p] {
            Lexeme::Operator(Operator::UnaryAdd) => Some(Operator::UnaryAdd),
            Lexeme::Operator(Operator::UnaryNot) => Some(Operator::UnaryNot),
            Lexeme::Operator(Operator::UnarySub) => Some(Operator::UnarySub),
            _ => None,
        }
    } else {
        None
    };
    match uop {
        Some(op) => match sp_unary(toks, p + 1) {
            Err(e) => Err(e),
            Ok((inner, q)) => Ok(
                (ExpressionView::Operation(Box::new(inner), op, None), q),
            ),
        },
        None => sp_pow(toks, p),
    }
}

/// The operator that continues a chain of the given looseness at `p`.
pub open spec fn chain_op(toks: Seq<Lexeme>, p: int, level: int) -> Option<Operator> {
    if 0 <= p < toks.len() {
        match toks[p] {
            Lexeme::Operator(o) => if op_looseness(o) == level && !(o is UnaryAdd) && !(o
                is UnaryNot) && !(o is UnarySub) {
                Some(o)
            } else {
                None
            },
            _ => None,
        }
    } else {
        None
    }
}

pub open spec fn sp_term_chain(toks: Seq<Lexeme>, p: int, acc: ExpressionView) -> Result<
    (ExpressionView, int),
    ParseError,
>
    decreases toks.len() - p, 7int,
{
    match chain_op(toks, p, 3) {
        Some(o) => match sp_unary(toks, p + 1) {
            Err(e) => Err(e),
            Ok((rhs, q)) => sp_term_chain(
                toks,
                bump_within(p, q, toks.len() as int),
                ExpressionView::Operation(Box::new(acc), o, Some(Box::new(rhs))),
            ),
        },
        None => Ok((acc, p)),
    }
}

pub open spec fn sp_term(toks: Seq<Lexeme>, p: int) -> Result<(ExpressionView, int), ParseError>
    decreases toks.len() - p, 6int,
{
    match sp_unary(toks, p) {
        Err(e) => Err(e),
        Ok((lhs, q)) => sp_term_chain(toks, bump_within(p, q, toks.len() as int), lhs),
    }
}

pub open spec fn sp_arith_chain(toks: Seq<Lexeme>, p: int, acc: ExpressionView) -> Result<
    (ExpressionView, int),
    ParseError,
>
    decreases toks.len() - p, 9int,
{
    match chain_op(toks, p, 4) {
        Some(o) => match sp_term(toks, p + 1) {
            Err(e) => Err(e),
            Ok((rhs, q)) => sp_arith_chain(
                toks,
                bump_within(p, q, toks.len() as int),
                ExpressionView::Operation(Box::new(acc), o, Some(Box::new(rhs))),
            ),
        },
        None => Ok((acc, p)),
    }
}

pub open spec fn sp_arith(toks: Seq<Lexeme>, p: int) -> Result<(ExpressionView, int), ParseError>
    decreases toks.len() - p, 8int,
{
    match sp_term(toks, p) {
        Err(e) => Err(e),
        Ok((lhs, q)) => sp_arith_chain(toks, bump_within(p, q, toks.len() as int), lhs),
    }
}

pub open spec fn sp_shift_chain(toks: Seq<Lexeme>, p: int, acc: ExpressionView) -> Result<
    (ExpressionView, int),
    ParseError,
>
    decreases toks.len() - p, 11int,
{
    match chain_op(toks, p, 5) {
        Some(o) => match sp_arith(toks, p + 1) {
            Err(e) => Err(e),
            Ok((rhs, q)) => sp_shift_chain(
                toks,
                bump_within(p, q, toks.len() as int),
                ExpressionView::Operation(Box::new(acc), o, Some(Box::new(rhs))),
            ),
        },
        None => Ok((acc, p)),
    }
}

pub open spec fn sp_shift(toks: Seq<Lexeme>, p: int) -> Result<(ExpressionView, int), ParseError>
    decreases toks.len() - p, 10int,
{
    match sp_arith(toks, p) {
        Err(e) => Err(e),
        Ok((lhs, q)) => sp_shift_chain(toks, bump_within(p, q, toks.len() as int), lhs),
    }
}

pub open spec fn sp_and_chain(toks: Seq<Lexeme>, p: int, acc: ExpressionView) -> Result<
    (ExpressionView, int),
    ParseError,
>
    decreases toks.len() - p, 13int,
{
    match chain_op(toks, p, 6) {
        Some(o) => match sp_shift(toks, p + 1) {
            Err(e) => Err(e),
            Ok((rhs, q)) => sp_and_chain(
                toks,
                bump_within(p, q, toks.len() as int),
                ExpressionView::Operation(Box::new(acc), o, Some(Box::new(rhs))),
            ),
        },
        None => Ok((acc, p)),
    }
}

pub open spec fn sp_and(toks: Seq<Lexeme>, p: int) -> Result<(ExpressionView, int), ParseError>
    decreases toks.len() - p, 12int,
{
    match sp_shift(toks, p) {
        Err(e) => Err(e),
        Ok((lhs, q)) => sp_and_chain(toks, bump_within(p, q, toks.len() as int), lhs),
    }
}

pub open spec fn sp_xor_chain(toks: Seq<Lexeme>, p: int, acc: ExpressionView) -> Result<
    (ExpressionView, int),
    ParseError,
>
    decreases toks.len() - p, 15int,
{
    match chain_op(toks, p, 7) {
        Some(o) => match sp_and(toks, p + 1) {
            Err(e) => Err(e),
            Ok((rhs, q)) => sp_xor_chain(
                toks,
                bump_within(p, q, toks.len() as int),
                ExpressionView::Operation(Box::new(acc), o, Some(Box::new(rhs))),
            ),
        },
        None => Ok((acc, p)),
    }
}

pub open spec fn sp_xor(toks: Seq<Lexeme>, p: int) -> Result<(ExpressionView, int), ParseError>
    decreases toks.len() - p, 14int,
{
    match sp_and(toks, p) {
        Err(e) => Err(e),
        Ok((lhs, q)) => sp_xor_chain(toks, bump_within(p, q, toks.len() as int), lhs),
    }
}

pub open spec fn sp_expr_chain(toks: Seq<Lexeme>, p: int, acc: ExpressionView) -> Result<
    (ExpressionView, int),
    ParseError,
>
    decreases toks.len() - p, 17int,
{
    match chain_op(toks, p, 8) {
        Some(o) => match sp_xor(toks, p + 1) {
            Err(e) => Err(e),
            Ok((rhs, q)) => sp_expr_chain(
                toks,
                bump_within(p, q, toks.len() as int),
                ExpressionView::Operation(Box::new(acc), o, Some(Box::new(rhs))),
            ),
        },
        None => Ok((acc, p)),
    }
}

pub open spec fn sp_expr(toks: Seq<Lexeme>, p: int) -> Result<(ExpressionView, int), ParseError>
    decreases toks.len() - p, 16int,
{
    match sp_xor(toks, p) {
        Err(e) => Err(e),
        Ok((lhs, q)) => sp_expr_chain(toks, bump_within(p, q, toks.len() as int), lhs),
    }
}

pub open spec fn sp_comparison(toks: Seq<Lexeme>, p: int) -> Result<
    (ExpressionView, int),
    ParseError,
>
    decreases toks.len() - p, 18int,
{
    match sp_expr(toks, p) {
        Err(e) => Err(e),
        Ok((lhs, q0)) => {
            let q = bump(p, q0);
            let cop: Option<Operator> = if q < toks.len() {
                match toks[q] {
                    Lexeme::Operator(o) => if o.comp_op_spec() {
                        Some(o)
                    } else {
                        None
                    },
                    _ => None,
                }
            } else {
                None
            };
            match cop {
                Some(op) => match sp_expr(toks, q + 1) {
                    Err(e) => Err(e),
                    Ok((rhs, q2)) => Ok(
                        (
                            ExpressionView::Comparison(
                                Box::new(ComparisonView::Op(lhs, op, rhs)),
                            ),
                            q2,
                        ),
                    ),
                },
                None => {
                    let ckw: Option<Keyword> = if q < toks.len() {
                        match toks[q] {
                            Lexeme::Keyword(_, k) => if k.comp_keyword_spec() {
                                Some(k)
                            } else {
                                None
                            },
                            _ => None,
                        }
                    } else {
                        None
                    };
                    match ckw {
                        Some(kw0) => {
                            let merged = if kw0 == Keyword::Is && q + 1 < toks.len() && (toks[q
                                + 1] matches Lexeme::Keyword(_, Keyword::Not)) {
                                Some((Keyword::IsNot, q + 2))
                            } else if kw0 == Keyword::Not && q + 1 < toks.len() && (toks[q + 1]
                                matches Lexeme::Keyword(_, Keyword::In)) {
                                Some((Keyword::NotIn, q + 2))
                            } else {
                                Some((kw0, q + 1))
                            };
                            match merged {
                                Some((kw, q1)) => match sp_expr(toks, q1) {
                                    Err(e) => Err(e),
                                    Ok((rhs, q2)) => Ok(
                                        (
                                            ExpressionView::Comparison(
                                                Box::new(ComparisonView::Keyword(lhs, kw, rhs)),
                                            ),
                                            q2,
                                        ),
                                    ),
                                },
                                None => Err(ParseError::UnexpectedToken),
                            }
                        },
                        None => Ok(
                            (
                                ExpressionView::Comparison(Box::new(ComparisonView::Truthy(lhs))),
                                q,
                            ),
                        ),
                    }
                },
            }
        },
    }
}

pub open spec fn sp_not_test(toks: Seq<Lexeme>, p: int) -> Result<
    (ExpressionView, int),
    ParseError,
>
    decreases toks.len() - p, 19int,
{
    if 0 <= p < toks.len() && (toks[p] matches Lexeme::Keyword(_, Keyword::Not)) {
        match sp_not_test(toks, p + 1) {
            Err(e) => Err(e),
            Ok((inner, q)) => Ok(
                (ExpressionView::Comparison(Box::new(ComparisonView::Notty(inner))), q),
            ),
        }
    } else {
        sp_comparison(toks, p)
    }
}

pub open spec fn sp_and_test_chain(toks: Seq<Lexeme>, p: int, acc: ExpressionView) -> Result<
    (ExpressionView, int),
    ParseError,
>
    decreases toks.len() - p, 21int,
{
    if 0 <= p < toks.len() && (toks[p] matches Lexeme::Keyword(_, Keyword::And)) {
        match sp_not_test(toks, p + 1) {
            Err(e) => Err(e),
            Ok((rhs, q)) => sp_and_test_chain(
                toks,
                bump_within(p, q, toks.len() as int),
                ExpressionView::Comparison(
                    Box::new(ComparisonView::Keyword(acc, Keyword::And, rhs)),
                ),
            ),
        }
    } else {
        Ok((acc, p))
    }
}

pub open spec fn sp_and_test(toks: Seq<Lexeme>, p: int) -> Result<
    (ExpressionView, int),
    ParseError,
>
    decreases toks.len() - p, 20int,
{
    match sp_not_test(toks, p) {
        Err(e) => Err(e),
        Ok((lhs, q)) => sp_and_test_chain(toks, bump_within(p, q, toks.len() as int), lhs),
    }
}

pub open spec fn sp_or_test_chain(toks: Seq<Lexeme>, p: int, acc: ExpressionView) -> Result<
    (ExpressionView, int),
    ParseError,
>
    decreases toks.len() - p, 23int,
{
    if 0 <= p < toks.len() && (toks[p] matches Lexeme::Keyword(_, Keyword::Or)) {
        match sp_and_test(toks, p + 1) {
            Err(e) => Err(e),
            Ok((rhs, q)) => sp_or_test_chain(
                toks,
                bump_within(p, q, toks.len() as int),
                ExpressionView::Comparison(
                    Box::new(ComparisonView::Keyword(acc, Keyword::Or, rhs)),
                ),
            ),
        }
    } else {
        Ok((acc, p))
    }
}

pub open spec fn sp_or_test(toks: Seq<Lexeme>, p: int) -> Result<
    (ExpressionView, int),
    ParseError,
>
    decreases toks.len() - p, 22int,
{
    match sp_and_test(toks, p) {
        Err(e) => Err(e),
        Ok((lhs, q)) => sp_or_test_chain(toks, bump_within(p, q, toks.len() as int), lhs),
    }
}

pub open spec fn sp_test(toks: Seq<Lexeme>, p: int) -> Result<(ExpressionView, int), ParseError>
    decreases toks.len() - p, 24int,
{
    sp_or_test(toks, p)
}

pub open spec fn sp_stmt(toks: Seq<Lexeme>, p: int) -> Result<(StatementView, int), ParseError>
    decreases toks.len() - p, 25int,
{
    match sp_test(toks, p) {
        Err(e) => Err(e),
        Ok((lhs, q0)) => {
            let q = bump(p, q0);
            if q < toks.len() && (toks[q] matches Lexeme::Operator(Operator::Assign)) {
                match sp_expr(toks, q + 1) {
                    Err(e) => Err(e),
                    Ok((rhs, q2)) => if q2 < toks.len() {
                        if toks[q2] is Newline {
                            Ok((StatementView::Assignment(lhs, rhs), q2 + 1))
                        } else {
                            Err(ParseError::UnexpectedToken)
                        }
                    } else {
                        Ok((StatementView::Assignment(lhs, rhs), q2))
                    },
                }
            } else {
                Err(ParseError::ExpectedAssign)
            }
        },
    }
}

/// The views of a sequence of syntax trees.
pub open spec fn views_of(s: Seq<Ast>) -> Seq<AstView> {
    s.map_values(|a: Ast| a@)
}

pub open spec fn sp_stmts(toks: Seq<Lexeme>, p: int, acc: Seq<AstView>) -> Result<
    Seq<AstView>,
    ParseError,
>
    decreases toks.len() - p, 26int,
{
    if p >= toks.len() {
        Ok(acc)
    } else {
        match sp_stmt(toks, p) {
            Err(e) => Err(e),
            Ok((st, q)) => sp_stmts(toks, bump_within(p, q, toks.len() as int), acc.push(AstView::Statement(st))),
        }
    }
}

/// The operator at the top of an expression, when the expression is an
/// operator application.
pub open spec fn top_operator(e: Expression) -> Option<Operator> {
    match e {
        Expression::Operation(_, op, _) => Some(op),
        _ => None,
    }
}

/// The binding looseness of an operator: power binds tightest, then the
/// unary operators, then the multiplicative, additive, shift, bitwise-and,
/// bitwise-xor and bitwise-or families, in that order.
pub open spec fn op_looseness(op: Operator) -> int {
    match op {
        Operator::Pow => 1,
        Operator::UnaryAdd | Operator::UnarySub | Operator::UnaryNot => 2,
        Operator::Mul | Operator::Dec | Operator::Div | Operator::Rem | Operator::FloorDiv => 3,
        Operator::Add | Operator::Sub => 4,
        Operator::Shl | Operator::Shr => 5,
        Operator::And => 6,
        Operator::Xor => 7,
        Operator::Or => 8,
        _ => 9,
    }
}

/// How loosely an expression's top operator binds; an expression that is
/// not an operator application binds tightest of all.
pub open spec fn looseness(e: Expression) -> int {
    match top_operator(e) {
        Some(op) => op_looseness(op),
        None => 0,
    }
}

/// Whether the expression is an identifier atom with this offset and name.
pub open spec fn is_ident_atom(e: Expression, off: usize, name: Seq<char>) -> bool {
    match e {
        Expression::Primary(Primary::Atom(Atom::Identifier(o, w))) => o == off && w@ == name,
        _ => false,
    }
}

/// Whether the expression is a literal atom holding exactly this token.
pub open spec fn is_lit_atom(e: Expression, t: Lexeme) -> bool {
    match e {
        Expression::Primary(Primary::Atom(Atom::Literal(t2))) => t2 == t,
        _ => false,
    }
}

/// Whether the expression is a literal atom holding a Float token with this
/// literal text.
pub open spec fn is_float_atom(e: Expression, content: Seq<char>) -> bool {
    match e {
        Expression::Primary(Primary::Atom(Atom::Literal(Lexeme::Float(fv)))) => fv@ == content,
        _ => false,
    }
}

/// Whether the expression is a literal atom holding a Str token with this
/// offset and content.
pub open spec fn is_str_atom(e: Expression, off: usize, content: Seq<char>) -> bool {
    match e {
        Expression::Primary(Primary::Atom(Atom::Literal(Lexeme::Str(o, s)))) => o == off && s@
            == content,
        _ => false,
    }
}

/// Whether the expression is a literal atom holding a Bytes token with this
/// offset and content.
pub open spec fn is_bytes_atom(e: Expression, off: usize, content: Seq<u8>) -> bool {
    match e {
        Expression::Primary(Primary::Atom(Atom::Literal(Lexeme::Bytes(o, s)))) => o == off && s@
            == content,
        _ => false,
    }
}

/// Copies a character vector.
fn copy_chars(src: &Vec<char>) -> (out: Vec<char>)
    ensures
        out@ == src@,
{
    let n = src.len();
    let mut out: Vec<char> = Vec::new();
    let mut i: usize = 0;
    while i < n
        invariant
            0 <= i <= n,
            n == src@.len(),
            out@ == src@.subrange(0, i as int),
        decreases n - i,
    {
        out.push(src[i]);
        proof {
            assert(src@.subrange(0, i + 1) =~= src@.subrange(0, i as int).push(src@[i as int]));
        }
        i += 1;
    }
    proof {
        assert(src@.subrange(0, n as int) =~= src@);
    }
    out
}

/// Appends a character vector to another.
fn extend_chars(dst: &mut Vec<char>, src: &Vec<char>)
    ensures
        final(dst)@ == old(dst)@ + src@,
{
    let n = src.len();
    let mut i: usize = 0;
    while i < n
        invariant
            0 <= i <= n,
            n == src@.len(),
            dst@ == old(dst)@ + src@.subrange(0, i as int),
        decreases n - i,
    {
        dst.push(src[i]);
        proof {
            assert(old(dst)@ + src@.subrange(0, i + 1) =~= (old(dst)@ + src@.subrange(
                0,
                i as int,
            )).push(src@[i as int]));
        }
        i += 1;
    }
    proof {
        assert(old(dst)@ + src@.subrange(0, n as int) =~= old(dst)@ + src@);
    }
}

/// Copies a byte vector.
fn copy_bytes(src: &Vec<u8>) -> (out: Vec<u8>)
    ensures
        out@ == src@,
{
    let n = src.len();
    let mut out: Vec<u8> = Vec::new();
    let mut i: usize = 0;
    while i < n
        invariant
            0 <= i <= n,
            n == src@.len(),
            out@ == src@.subrange(0, i as int),
        decreases n - i,
    {
        out.push(src[i]);
        proof {
            assert(src@.subrange(0, i + 1) =~= src@.subrange(0, i as int).push(src@[i as int]));
        }
        i += 1;
    }
    proof {
        assert(src@.subrange(0, n as int) =~= src@);
    }
    out
}

/// Appends a byte vector to another.
fn extend_bytes(dst: &mut Vec<u8>, src: &Vec<u8>)
    ensures
        final(dst)@ == old(dst)@ + src@,
{
    let n = src.len();
    let mut i: usize = 0;
    while i < n
        invariant
            0 <= i <= n,
            n == src@.len(),
            dst@ == old(dst)@ + src@.subrange(0, i as int),
        decreases n - i,
    {
        dst.push(src[i]);
        proof {
            assert(old(dst)@ + src@.subrange(0, i + 1) =~= (old(dst)@ + src@.subrange(
                0,
                i as int,
            )).push(src@[i as int]));
        }
        i += 1;
    }
    proof {
        assert(old(dst)@ + src@.subrange(0, n as int) =~= old(dst)@ + src@);
    }
}

/// The parser owns the token sequence handed over by the lexer and a cursor
/// into it, together with the statements built so far.
pub struct Parser {
    tokens: Vec<Lexeme>,
    pos: usize,
    output: Vec<Ast>,
}

impl Parser {
    /// The token sequence being consumed.
    pub closed spec fn input(&self) -> Seq<Lexeme> {
        self.tokens@
    }

    /// The cursor position.
    pub closed spec fn position(&self) -> int {
        self.pos as int
    }

    /// The statements built so far.
    pub closed spec fn results(&self) -> Seq<Ast> {
        self.output@
    }

    pub closed spec fn wf(&self) -> bool {
        self.pos <= self.tokens@.len()
    }

    pub fn new(vec: Vec<Lexeme>) -> (r: Parser)
        ensures
            r.wf(),
            r.input() == vec@,
            r.position() == 0,
            r.results() == Seq::<Ast>::empty(),
    {
        let r = Parser { tokens: vec, pos: 0, output: Vec::new() };
        proof {
            assert(r.output@ =~= Seq::<Ast>::empty());
        }
        r
    }

    /// Hands the statement sequence to the caller, by value.
    pub fn output(self) -> (r: Vec<Ast>)
        ensures
            r@ == self.results(),
    {
        self.output
    }

    /// The token under the cursor, if any.
    fn peek(&self) -> (r: Option<&Lexeme>)
        requires
            self.wf(),
        ensures
            (match r {
                Some(t) => self.position() < self.input().len() && *t == self.input()[self.position()],
                None => self.position() >= self.input().len(),
            }),
    {
        if self.pos < self.tokens.len() {
            Some(&self.tokens[self.pos])
        } else {
            None
        }
    }

    /// Consumes one token.
    fn consume(&mut self)
        requires
            old(self).wf(),
            old(self).position() < old(self).input().len(),
        ensures
            final(self).wf(),
            final(self).tokens == old(self).tokens,
            final(self).output == old(self).output,
            final(self).position() == old(self).position() + 1,
    {
        let n = self.tokens.len();
        self.pos = self.pos + 1;
    }

    /// Parses one atom: an identifier, a literal (merging every contiguous
    /// run of adjacent Str tokens, or of adjacent Bytes tokens, into one
    /// literal by concatenating their decoded contents), or one of the
    /// atom forms that the grammar names but does not yet implement, which
    /// are reported as typed errors.
    fn parse_atom(&mut self) -> (r: Result<Expression, ParseError>)
        requires
            old(self).wf(),
        ensures
            final(self).wf(),
            final(self).tokens == old(self).tokens,
            final(self).output == old(self).output,
            final(self).position() >= old(self).position(),
            r is Ok ==> final(self).position() > old(self).position(),
            r matches Err(e) ==> !(e is LexError),
            r matches Ok(e) ==> e matches Expression::Primary(Primary::Atom(_)),
            old(self).position() >= old(self).input().len() ==> r == Err::<Expression, ParseError>(
                ParseError::Eof,
            ),
            old(self).position() < old(self).input().len() ==> ({
                let toks = old(self).input();
                let p = old(self).position();
                match toks[p] {
                    Lexeme::Identifier(i, w) => final(self).position() == p + 1 && (match r {
                        Ok(e) => is_ident_atom(e, i, w@),
                        Err(_) => false,
                    }),
                    Lexeme::Integer(_) => final(self).position() == p + 1 && (match r {
                        Ok(e) => is_lit_atom(e, toks[p]),
                        Err(_) => false,
                    }),
                    Lexeme::Float(fl) => final(self).position() == p + 1 && (match r {
                        Ok(e) => is_float_atom(e, fl@),
                        Err(_) => false,
                    }),
                    Lexeme::Str(i, _) => final(self).position() == str_run_end(toks, p) && (
                    match r {
                        Ok(e) => is_str_atom(e, i, str_run_content(toks, p, str_run_end(toks, p))),
                        Err(_) => false,
                    }),
                    Lexeme::Bytes(i, _) => final(self).position() == bytes_run_end(toks, p) && (
                    match r {
                        Ok(e) => is_bytes_atom(
                            e,
                            i,
                            bytes_run_content(toks, p, bytes_run_end(toks, p)),
                        ),
                        Err(_) => false,
                    }),
                    Lexeme::Delimiter(off, d) => (if d is ParenOpen || d is ListOpen || d
                        is DictOpen {
                        r == Err::<Expression, ParseError>(ParseError::UnsupportedAtom(off))
                    } else {
                        r == Err::<Expression, ParseError>(ParseError::UnexpectedToken)
                    }),
                    Lexeme::Keyword(off, k) => (if k is Yield {
                        r == Err::<Expression, ParseError>(ParseError::UnsupportedAtom(off))
                    } else {
                        r == Err::<Expression, ParseError>(ParseError::UnexpectedToken)
                    }),
                    _ => r == Err::<Expression, ParseError>(ParseError::UnexpectedToken),
                }
            }),
            (match r {
                Ok(e) => sp_atom(old(self).input(), old(self).position()) == Ok::<
                    (ExpressionView, int),
                    ParseError,
                >((e@, final(self).position())),
                Err(err) => sp_atom(old(self).input(), old(self).position()) == Err::<
                    (ExpressionView, int),
                    ParseError,
                >(err),
            }),
    {
        let n = self.tokens.len();
        if self.pos >= n {
            return Err(ParseError::Eof);
        }
        let p = self.pos;
        match &self.tokens[p] {
            Lexeme::Identifier(i, w) => {
                let off = *i;
                let name = copy_chars(w);
                self.pos = p + 1;
                proof {
                    crate::ast::lemma_view_ident_atom(off, name);
                }
                Ok(Expression::Primary(Primary::Atom(Atom::Identifier(off, name))))
            },
            Lexeme::Integer(v) => {
                let t = Lexeme::Integer(*v);
                self.pos = p + 1;
                proof {
                    crate::ast::lemma_view_literal_atom(t);
                }
                Ok(Expression::Primary(Primary::Atom(Atom::Literal(t))))
            },
            Lexeme::Float(fl) => {
                let t = Lexeme::Float(copy_chars(fl));
                self.pos = p + 1;
                proof {
                    crate::ast::lemma_view_literal_atom(t);
                }
                Ok(Expression::Primary(Primary::Atom(Atom::Literal(t))))
            },
            Lexeme::Str(i, s) => {
                let off = *i;
                let mut content = copy_chars(s);
                self.pos = p + 1;
                proof {
                    lemma_str_run_snoc(self.tokens@, p as int, p as int);
                    assert(str_run_content(self.tokens@, p as int, p as int) =~= Seq::<
                        char,
                    >::empty());
                    assert(content@ =~= str_run_content(self.tokens@, p as int, p + 1));
                }
                loop
                    invariant
                        self.wf(),
                        self.tokens == old(self).tokens,
                        self.output == old(self).output,
                        p < self.pos <= self.tokens@.len(),
                        n == self.tokens@.len(),
                        forall|j: int| p <= j < self.pos ==> self.tokens@[j] is Str,
                        str_run_end(self.tokens@, self.pos as int) == str_run_end(
                            self.tokens@,
                            p as int,
                        ),
                        content@ == str_run_content(self.tokens@, p as int, self.pos as int),
                    ensures
                        self.wf(),
                        self.tokens == old(self).tokens,
                        self.output == old(self).output,
                        p < self.pos <= self.tokens@.len(),
                        self.pos == str_run_end(self.tokens@, p as int),
                        content@ == str_run_content(self.tokens@, p as int, self.pos as int),
                    decreases self.tokens@.len() - self.pos,
                {
                    if self.pos >= n {
                        break;
                    }
                    let more = match &self.tokens[self.pos] {
                        Lexeme::Str(_, s2) => {
                            proof {
                                lemma_str_run_snoc(self.tokens@, p as int, self.pos as int);
                            }
                            extend_chars(&mut content, s2);
                            true
                        },
                        _ => false,
                    };
                    if !more {
                        break;
                    }
                    self.pos = self.pos + 1;
                }
                let t = Lexeme::Str(off, content);
                proof {
                    crate::ast::lemma_view_literal_atom(t);
                }
                Ok(Expression::Primary(Primary::Atom(Atom::Literal(t))))
            },
            Lexeme::Bytes(i, s) => {
                let off = *i;
                let mut content = copy_bytes(s);
                self.pos = p + 1;
                proof {
                    lemma_bytes_run_snoc(self.tokens@, p as int, p as int);
                    assert(bytes_run_content(self.tokens@, p as int, p as int) =~= Seq::<
                        u8,
                    >::empty());
                    assert(content@ =~= bytes_run_content(self.tokens@, p as int, p + 1));
                }
                loop
                    invariant
                        self.wf(),
                        self.tokens == old(self).tokens,
                        self.output == old(self).output,
                        p < self.pos <= self.tokens@.len(),
                        n == self.tokens@.len(),
                        forall|j: int| p <= j < self.pos ==> self.tokens@[j] is Bytes,
                        bytes_run_end(self.tokens@, self.pos as int) == bytes_run_end(
                            self.tokens@,
                            p as int,
                        ),
                        content@ == bytes_run_content(self.tokens@, p as int, self.pos as int),
                    ensures
                        self.wf(),
                        self.tokens == old(self).tokens,
                        self.output == old(self).output,
                        p < self.pos <= self.tokens@.len(),
                        self.pos == bytes_run_end(self.tokens@, p as int),
                        content@ == bytes_run_content(self.tokens@, p as int, self.pos as int),
                    decreases self.tokens@.len() - self.pos,
                {
                    if self.pos >= n {
                        break;
                    }
                    let more = match &self.tokens[self.pos] {
                        Lexeme::Bytes(_, s2) => {
                            proof {
                                lemma_bytes_run_snoc(self.tokens@, p as int, self.pos as int);
                            }
                            extend_bytes(&mut content, s2);
                            true
                        },
                        _ => false,
                    };
                    if !more {
                        break;
                    }
                    self.pos = self.pos + 1;
                }
                let t = Lexeme::Bytes(off, content);
                proof {
                    crate::ast::lemma_view_literal_atom(t);
                }
                Ok(Expression::Primary(Primary::Atom(Atom::Literal(t))))
            },
            Lexeme::Delimiter(off, d) => {
                let o = *off;
                match d {
                    Delimiter::ParenOpen | Delimiter::ListOpen | Delimiter::DictOpen => Err(
                        ParseError::UnsupportedAtom(o),
                    ),
                    _ => Err(ParseError::UnexpectedToken),
                }
            },
            Lexeme::Keyword(off, k) => {
                let o = *off;
                match k {
                    Keyword::Yield => Err(ParseError::UnsupportedAtom(o)),
                    _ => Err(ParseError::UnexpectedToken),
                }
            },
            _ => Err(ParseError::UnexpectedToken),
        }
    }

    /// Parses a primary: an atom followed by at most one postfix. A call or
    /// subscript postfix on a literal atom is rejected outright (numbers are
    /// neither callable nor subscriptable); on any other atom the argument
    /// and subscript lists are grammar placeholders, reported as typed
    /// errors. An Access operator chains into another primary and builds an
    /// attribute reference.
    fn parse_primary(&mut self) -> (r: Result<Expression, ParseError>)
        requires
            old(self).wf(),
        ensures
            final(self).wf(),
            final(self).tokens == old(self).tokens,
            final(self).output == old(self).output,
            final(self).position() >= old(self).position(),
            r is Ok ==> final(self).position() > old(self).position(),
            r matches Err(e) ==> !(e is LexError),
            r matches Ok(e) ==> looseness(e) == 0,
            r matches Ok(e) ==> e.primary_spec(),
            (match r {
                Ok(e) => sp_primary(old(self).input(), old(self).position()) == Ok::<
                    (ExpressionView, int),
                    ParseError,
                >((e@, final(self).position())),
                Err(err) => sp_primary(old(self).input(), old(self).position()) == Err::<
                    (ExpressionView, int),
                    ParseError,
                >(err),
            }),
            ({
                let toks = old(self).input();
                let p = old(self).position();
                (p + 1 < toks.len() && (toks[p] is Integer || toks[p] is Float) && toks[p + 1]
                    matches Lexeme::Delimiter(_, Delimiter::ParenOpen)) ==> r == Err::<
                    Expression,
                    ParseError,
                >(ParseError::LiteralNotCallable)
            }),
            ({
                let toks = old(self).input();
                let p = old(self).position();
                (p + 1 < toks.len() && (toks[p] is Integer || toks[p] is Float) && toks[p + 1]
                    matches Lexeme::Delimiter(_, Delimiter::ListOpen)) ==> r == Err::<
                    Expression,
                    ParseError,
                >(ParseError::LiteralNotSubscriptable)
            }),
        decreases old(self).tokens@.len() - old(self).pos, 1int,
    {
        let atom = match self.parse_atom() {
            Ok(a) => a,
            Err(e) => {
                return Err(e);
            },
        };
        match self.peek() {
            Some(t) => match t {
                Lexeme::Delimiter(off, Delimiter::ParenOpen) => {
                    let o = *off;
                    if atom.is_number() {
                        Err(ParseError::LiteralNotCallable)
                    } else {
                        Err(ParseError::UnsupportedCall(o))
                    }
                },
                Lexeme::Delimiter(off, Delimiter::ListOpen) => {
                    let o = *off;
                    if atom.is_number() {
                        Err(ParseError::LiteralNotSubscriptable)
                    } else {
                        Err(ParseError::UnsupportedSubscription(o))
                    }
                },
                Lexeme::Operator(Operator::Access) => {
                    self.consume();
                    let rhs = match self.parse_primary() {
                        Ok(x) => x,
                        Err(e) => {
                            return Err(e);
                        },
                    };
                    let pr = Primary::new_attribute_ref(atom, rhs);
                    proof {
                        crate::ast::lemma_view_primary_expr(pr);
                    }
                    Ok(Expression::Primary(pr))
                },
                _ => Ok(atom),
            },
            None => Ok(atom),
        }
    }

    /// Parses an await expression: an Await keyword applied to a primary,
    /// or a bare primary.
    fn parse_await(&mut self) -> (r: Result<Expression, ParseError>)
        requires
            old(self).wf(),
        ensures
            final(self).wf(),
            final(self).tokens == old(self).tokens,
            final(self).output == old(self).output,
            final(self).position() >= old(self).position(),
            r is Ok ==> final(self).position() > old(self).position(),
            r matches Err(e) ==> !(e is LexError),
            r matches Ok(e) ==> looseness(e) == 0,
            (match r {
                Ok(e) => sp_await(old(self).input(), old(self).position()) == Ok::<
                    (ExpressionView, int),
                    ParseError,
                >((e@, final(self).position())),
                Err(err) => sp_await(old(self).input(), old(self).position()) == Err::<
                    (ExpressionView, int),
                    ParseError,
                >(err),
            }),
        decreases old(self).tokens@.len() - old(self).pos, 2int,
    {
        let is_await = match self.peek() {
            Some(t) => matches!(t, Lexeme::Keyword(_, Keyword::Await)),
            None => false,
        };
        if is_await {
            self.consume();
            let pr = match self.parse_primary() {
                Ok(x) => x,
                Err(e) => {
                    return Err(e);
                },
            };
            proof {
                crate::ast::lemma_view_await(pr);
            }
            Ok(Expression::Await(Box::new(pr)))
        } else {
            self.parse_primary()
        }
    }

    /// Parses a power expression. The right operand of `**` is read through
    /// the unary layer exactly when the next token is itself a unary
    /// operator spelling, else through the primary layer.
    fn parse_pow(&mut self) -> (r: Result<Expression, ParseError>)
        requires
            old(self).wf(),
        ensures
            final(self).wf(),
            final(self).tokens == old(self).tokens,
            final(self).output == old(self).output,
            final(self).position() >= old(self).position(),
            r is Ok ==> final(self).position() > old(self).position(),
            r matches Err(e) ==> !(e is LexError),
            r matches Ok(e) ==> looseness(e) <= 1,
            (match r {
                Ok(e) => match e {
                    Expression::Operation(l, op, rr) => op == Operator::Pow && looseness(*l) == 0
                        && (rr matches Some(rb) && looseness(*rb) <= 2),
                    _ => true,
                },
                Err(_) => true,
            }),
            (match r {
                Ok(e) => sp_pow(old(self).input(), old(self).position()) == Ok::<
                    (ExpressionView, int),
                    ParseError,
                >((e@, final(self).position())),
                Err(err) => sp_pow(old(self).input(), old(self).position()) == Err::<
                    (ExpressionView, int),
                    ParseError,
                >(err),
            }),
        decreases old(self).tokens@.len() - old(self).pos, 3int,
    {
        let lhs = match self.parse_await() {
            Ok(x) => x,
            Err(e) => {
                return Err(e);
            },
        };
        let is_pow = match self.peek() {
            Some(t) => matches!(t, Lexeme::Operator(Operator::Pow)),
            None => false,
        };
        if is_pow {
            self.consume();
            let unary_next = match self.peek() {
                Some(t) => t.is_unary(),
                None => false,
            };
            let rhs = if unary_next {
                match self.parse_unary() {
                    Ok(x) => x,
                    Err(e) => {
                        return Err(e);
                    },
                }
            } else {
                match self.parse_primary() {
                    Ok(x) => x,
                    Err(e) => {
                        return Err(e);
                    },
                }
            };
            Ok(Expression::new_binary_op(lhs, Operator::Pow, rhs))
        } else {
            Ok(lhs)
        }
    }

    /// Parses a unary expression: a chain of unary operators applied to a
    /// power expression.
    fn parse_unary(&mut self) -> (r: Result<Expression, ParseError>)
        requires
            old(self).wf(),
        ensures
            final(self).wf(),
            final(self).tokens == old(self).tokens,
            final(self).output == old(self).output,
            final(self).position() >= old(self).position(),
            r is Ok ==> final(self).position() > old(self).position(),
            r matches Err(e) ==> !(e is LexError),
            r matches Ok(e) ==> looseness(e) <= 2,
            (match r {
                Ok(e) => match e {
                    Expression::Operation(l, op, rr) => op_looseness(op) == 2 ==> rr is None
                        && looseness(*l) <= 2,
                    _ => true,
                },
                Err(_) => true,
            }),
            (match r {
                Ok(e) => sp_unary(old(self).input(), old(self).position()) == Ok::<
                    (ExpressionView, int),
                    ParseError,
                >((e@, final(self).position())),
                Err(err) => sp_unary(old(self).input(), old(self).position()) == Err::<
                    (ExpressionView, int),
                    ParseError,
                >(err),
            }),
        decreases old(self).tokens@.len() - old(self).pos, 4int,
    {
        let uop: Option<Operator> = match self.peek() {
            Some(t) => match t {
                Lexeme::Operator(Operator::UnaryAdd) => Some(Operator::UnaryAdd),
                Lexeme::Operator(Operator::UnaryNot) => Some(Operator::UnaryNot),
                Lexeme::Operator(Operator::UnarySub) => Some(Operator::UnarySub),
                _ => None,
            },
            None => None,
        };
        match uop {
            Some(op) => {
                self.consume();
                let inner = match self.parse_unary() {
                    Ok(x) => x,
                    Err(e) => {
                        return Err(e);
                    },
                };
                Ok(Expression::new_unary_op(inner, op))
            },
            None => self.parse_pow(),
        }
    }

    /// Parses a term: a left-associative chain of multiplicative operators over unary expressions.
    fn parse_term(&mut self) -> (r: Result<Expression, ParseError>)
        requires
            old(self).wf(),
        ensures
            final(self).wf(),
            final(self).tokens == old(self).tokens,
            final(self).output == old(self).output,
            final(self).position() >= old(self).position(),
            r is Ok ==> final(self).position() > old(self).position(),
            r matches Err(e) ==> !(e is LexError),
            r matches Ok(e) ==> looseness(e) <= 3,
            (match r {
                Ok(e) => match e {
                    Expression::Operation(l, op, rr) => op_looseness(op) == 3 ==> looseness(*l)
                        <= 3 && (rr matches Some(rb) && looseness(*rb) <= 2),
                    _ => true,
                },
                Err(_) => true,
            }),
            (match r {
                Ok(e) => sp_term(old(self).input(), old(self).position()) == Ok::<
                    (ExpressionView, int),
                    ParseError,
                >((e@, final(self).position())),
                Err(err) => sp_term(old(self).input(), old(self).position()) == Err::<
                    (ExpressionView, int),
                    ParseError,
                >(err),
            }),
        decreases old(self).tokens@.len() - old(self).pos, 6int,
    {
        let mut lhs = match self.parse_unary() {
            Ok(x) => x,
            Err(e) => {
                return Err(e);
            },
        };
        loop
            invariant
                self.wf(),
                self.tokens == old(self).tokens,
                self.output == old(self).output,
                self.pos > old(self).pos,
                looseness(lhs) <= 3,
                (match lhs {
                    Expression::Operation(l, op2, rr) => op_looseness(op2) == 3 ==> looseness(
                        *l,
                    ) <= 3 && (rr matches Some(rb) && looseness(*rb) <= 2),
                    _ => true,
                }),
                sp_term(old(self).input(), old(self).position()) == sp_term_chain(
                    self.tokens@,
                    self.pos as int,
                    lhs@,
                ),
            decreases self.tokens@.len() - self.pos,
        {
            let op: Option<Operator> = match self.peek() {
                Some(t) => match t {
                Lexeme::Operator(Operator::Mul) => Some(Operator::Mul),
                Lexeme::Operator(Operator::Dec) => Some(Operator::Dec),
                Lexeme::Operator(Operator::Div) => Some(Operator::Div),
                Lexeme::Operator(Operator::Rem) => Some(Operator::Rem),
                Lexeme::Operator(Operator::FloorDiv) => Some(Operator::FloorDiv),
                    _ => None,
                },
                None => None,
            };
            match op {
                Some(o) => {
                    self.consume();
                    let rhs = match self.parse_unary() {
                        Ok(x) => x,
                        Err(e) => {
                            return Err(e);
                        },
                    };
                    lhs = Expression::new_binary_op(lhs, o, rhs);
                },
                None => {
                    return Ok(lhs);
                },
            }
        }
    }

    /// Parses an arithmetic expression: a left-associative chain of binary plus and minus over terms.
    fn parse_arith(&mut self) -> (r: Result<Expression, ParseError>)
        requires
            old(self).wf(),
        ensures
            final(self).wf(),
            final(self).tokens == old(self).tokens,
            final(self).output == old(self).output,
            final(self).position() >= old(self).position(),
            r is Ok ==> final(self).position() > old(self).position(),
            r matches Err(e) ==> !(e is LexError),
            r matches Ok(e) ==> looseness(e) <= 4,
            (match r {
                Ok(e) => match e {
                    Expression::Operation(l, op, rr) => op_looseness(op) == 4 ==> looseness(*l)
                        <= 4 && (rr matches Some(rb) && looseness(*rb) <= 3),
                    _ => true,
                },
                Err(_) => true,
            }),
            (match r {
                Ok(e) => sp_arith(old(self).input(), old(self).position()) == Ok::<
                    (ExpressionView, int),
                    ParseError,
                >((e@, final(self).position())),
                Err(err) => sp_arith(old(self).input(), old(self).position()) == Err::<
                    (ExpressionView, int),
                    ParseError,
                >(err),
            }),
        decreases old(self).tokens@.len() - old(self).pos, 7int,
    {
        let mut lhs = match self.parse_term() {
            Ok(x) => x,
            Err(e) => {
                return Err(e);
            },
        };
        loop
            invariant
                self.wf(),
                self.tokens == old(self).tokens,
                self.output == old(self).output,
                self.pos > old(self).pos,
                looseness(lhs) <= 4,
                (match lhs {
                    Expression::Operation(l, op2, rr) => op_looseness(op2) == 4 ==> looseness(
                        *l,
                    ) <= 4 && (rr matches Some(rb) && looseness(*rb) <= 3),
                    _ => true,
                }),
                sp_arith(old(self).input(), old(self).position()) == sp_arith_chain(
                    self.tokens@,
                    self.pos as int,
                    lhs@,
                ),
            decreases self.tokens@.len() - self.pos,
        {
            let op: Option<Operator> = match self.peek() {
                Some(t) => match t {
                Lexeme::Operator(Operator::Add) => Some(Operator::Add),
                Lexeme::Operator(Operator::Sub) => Some(Operator::Sub),
                    _ => None,
                },
                None => None,
            };
            match op {
                Some(o) => {
                    self.consume();
                    let rhs = match self.parse_term() {
                        Ok(x) => x,
                        Err(e) => {
                            return Err(e);
                        },
                    };
                    lhs = Expression::new_binary_op(lhs, o, rhs);
                },
                None => {
                    return Ok(lhs);
                },
            }
        }
    }

    /// Parses a shift expression: a left-associative chain of shift operators over arithmetic expressions.
    fn parse_shift(&mut self) -> (r: Result<Expression, ParseError>)
        requires
            old(self).wf(),
        ensures
            final(self).wf(),
            final(self).tokens == old(self).tokens,
            final(self).output == old(self).output,
            final(self).position() >= old(self).position(),
            r is Ok ==> final(self).position() > old(self).position(),
            r matches Err(e) ==> !(e is LexError),
            r matches Ok(e) ==> looseness(e) <= 5,
            (match r {
                Ok(e) => match e {
                    Expression::Operation(l, op, rr) => op_looseness(op) == 5 ==> looseness(*l)
                        <= 5 && (rr matches Some(rb) && looseness(*rb) <= 4),
                    _ => true,
                },
                Err(_) => true,
            }),
            (match r {
                Ok(e) => sp_shift(old(self).input(), old(self).position()) == Ok::<
                    (ExpressionView, int),
                    ParseError,
                >((e@, final(self).position())),
                Err(err) => sp_shift(old(self).input(), old(self).position()) == Err::<
                    (ExpressionView, int),
                    ParseError,
                >(err),
            }),
        decreases old(self).tokens@.len() - old(self).pos, 8int,
    {
        let mut lhs = match self.parse_arith() {
            Ok(x) => x,
            Err(e) => {
                return Err(e);
            },
        };
        loop
            invariant
                self.wf(),
                self.tokens == old(self).tokens,
                self.output == old(self).output,
                self.pos > old(self).pos,
                looseness(lhs) <= 5,
                (match lhs {
                    Expression::Operation(l, op2, rr) => op_looseness(op2) == 5 ==> looseness(
                        *l,
                    ) <= 5 && (rr matches Some(rb) && looseness(*rb) <= 4),
                    _ => true,
                }),
                sp_shift(old(self).input(), old(self).position()) == sp_shift_chain(
                    self.tokens@,
                    self.pos as int,
                    lhs@,
                ),
            decreases self.tokens@.len() - self.pos,
        {
            let op: Option<Operator> = match self.peek() {
                Some(t) => match t {
                Lexeme::Operator(Operator::Shl) => Some(Operator::Shl),
                Lexeme::Operator(Operator::Shr) => Some(Operator::Shr),
                    _ => None,
                },
                None => None,
            };
            match op {
                Some(o) => {
                    self.consume();
                    let rhs = match self.parse_arith() {
                        Ok(x) => x,
                        Err(e) => {
                            return Err(e);
                        },
                    };
                    lhs = Expression::new_binary_op(lhs, o, rhs);
                },
                None => {
                    return Ok(lhs);
                },
            }
        }
    }

    /// Parses a bitwise-and expression, left-associatively.
    fn parse_and(&mut self) -> (r: Result<Expression, ParseError>)
        requires
            old(self).wf(),
        ensures
            final(self).wf(),
            final(self).tokens == old(self).tokens,
            final(self).output == old(self).output,
            final(self).position() >= old(self).position(),
            r is Ok ==> final(self).position() > old(self).position(),
            r matches Err(e) ==> !(e is LexError),
            r matches Ok(e) ==> looseness(e) <= 6,
            (match r {
                Ok(e) => match e {
                    Expression::Operation(l, op, rr) => op_looseness(op) == 6 ==> looseness(*l)
                        <= 6 && (rr matches Some(rb) && looseness(*rb) <= 5),
                    _ => true,
                },
                Err(_) => true,
            }),
            (match r {
                Ok(e) => sp_and(old(self).input(), old(self).position()) == Ok::<
                    (ExpressionView, int),
                    ParseError,
                >((e@, final(self).position())),
                Err(err) => sp_and(old(self).input(), old(self).position()) == Err::<
                    (ExpressionView, int),
                    ParseError,
                >(err),
            }),
        decreases old(self).tokens@.len() - old(self).pos, 9int,
    {
        let mut lhs = match self.parse_shift() {
            Ok(x) => x,
            Err(e) => {
                return Err(e);
            },
        };
        loop
            invariant
                self.wf(),
                self.tokens == old(self).tokens,
                self.output == old(self).output,
                self.pos > old(self).pos,
                looseness(lhs) <= 6,
                (match lhs {
                    Expression::Operation(l, op2, rr) => op_looseness(op2) == 6 ==> looseness(
                        *l,
                    ) <= 6 && (rr matches Some(rb) && looseness(*rb) <= 5),
                    _ => true,
                }),
                sp_and(old(self).input(), old(self).position()) == sp_and_chain(
                    self.tokens@,
                    self.pos as int,
                    lhs@,
                ),
            decreases self.tokens@.len() - self.pos,
        {
            let op: Option<Operator> = match self.peek() {
                Some(t) => match t {
                Lexeme::Operator(Operator::And) => Some(Operator::And),
                    _ => None,
                },
                None => None,
            };
            match op {
                Some(o) => {
                    self.consume();
                    let rhs = match self.parse_shift() {
                        Ok(x) => x,
                        Err(e) => {
                            return Err(e);
                        },
                    };
                    lhs = Expression::new_binary_op(lhs, o, rhs);
                },
                None => {
                    return Ok(lhs);
                },
            }
        }
    }

    /// Parses a bitwise-xor expression, left-associatively.
    fn parse_xor(&mut self) -> (r: Result<Expression, ParseError>)
        requires
            old(self).wf(),
        ensures
            final(self).wf(),
            final(self).tokens == old(self).tokens,
            final(self).output == old(self).output,
            final(self).position() >= old(self).position(),
            r is Ok ==> final(self).position() > old(self).position(),
            r matches Err(e) ==> !(e is LexError),
            r matches Ok(e) ==> looseness(e) <= 7,
            (match r {
                Ok(e) => match e {
                    Expression::Operation(l, op, rr) => op_looseness(op) == 7 ==> looseness(*l)
                        <= 7 && (rr matches Some(rb) && looseness(*rb) <= 6),
                    _ => true,
                },
                Err(_) => true,
            }),
            (match r {
                Ok(e) => sp_xor(old(self).input(), old(self).position()) == Ok::<
                    (ExpressionView, int),
                    ParseError,
                >((e@, final(self).position())),
                Err(err) => sp_xor(old(self).input(), old(self).position()) == Err::<
                    (ExpressionView, int),
                    ParseError,
                >(err),
            }),
        decreases old(self).tokens@.len() - old(self).pos, 10int,
    {
        let mut lhs = match self.parse_and() {
            Ok(x) => x,
            Err(e) => {
                return Err(e);
            },
        };
        loop
            invariant
                self.wf(),
                self.tokens == old(self).tokens,
                self.output == old(self).output,
                self.pos > old(self).pos,
                looseness(lhs) <= 7,
                (match lhs {
                    Expression::Operation(l, op2, rr) => op_looseness(op2) == 7 ==> looseness(
                        *l,
                    ) <= 7 && (rr matches Some(rb) && looseness(*rb) <= 6),
                    _ => true,
                }),
                sp_xor(old(self).input(), old(self).position()) == sp_xor_chain(
                    self.tokens@,
                    self.pos as int,
                    lhs@,
                ),
            decreases self.tokens@.len() - self.pos,
        {
            let op: Option<Operator> = match self.peek() {
                Some(t) => match t {
                Lexeme::Operator(Operator::Xor) => Some(Operator::Xor),
                    _ => None,
                },
                None => None,
            };
            match op {
                Some(o) => {
                    self.consume();
                    let rhs = match self.parse_and() {
                        Ok(x) => x,
                        Err(e) => {
                            return Err(e);
                        },
                    };
                    lhs = Expression::new_binary_op(lhs, o, rhs);
                },
                None => {
                    return Ok(lhs);
                },
            }
        }
    }

    /// Parses a bitwise-or expression, the loosest-binding operator layer, left-associatively.
    fn parse_expr(&mut self) -> (r: Result<Expression, ParseError>)
        requires
            old(self).wf(),
        ensures
            final(self).wf(),
            final(self).tokens == old(self).tokens,
            final(self).output == old(self).output,
            final(self).position() >= old(self).position(),
            r is Ok ==> final(self).position() > old(self).position(),
            r matches Err(e) ==> !(e is LexError),
            r matches Ok(e) ==> looseness(e) <= 8,
            (match r {
                Ok(e) => match e {
                    Expression::Operation(l, op, rr) => op_looseness(op) == 8 ==> looseness(*l)
                        <= 8 && (rr matches Some(rb) && looseness(*rb) <= 7),
                    _ => true,
                },
                Err(_) => true,
            }),
            (match r {
                Ok(e) => sp_expr(old(self).input(), old(self).position()) == Ok::<
                    (ExpressionView, int),
                    ParseError,
                >((e@, final(self).position())),
                Err(err) => sp_expr(old(self).input(), old(self).position()) == Err::<
                    (ExpressionView, int),
                    ParseError,
                >(err),
            }),
        decreases old(self).tokens@.len() - old(self).pos, 11int,
    {
        let mut lhs = match self.parse_xor() {
            Ok(x) => x,
            Err(e) => {
                return Err(e);
            },
        };
        loop
            invariant
                self.wf(),
                self.tokens == old(self).tokens,
                self.output == old(self).output,
                self.pos > old(self).pos,
                looseness(lhs) <= 8,
                (match lhs {
                    Expression::Operation(l, op2, rr) => op_looseness(op2) == 8 ==> looseness(
                        *l,
                    ) <= 8 && (rr matches Some(rb) && looseness(*rb) <= 7),
                    _ => true,
                }),
                sp_expr(old(self).input(), old(self).position()) == sp_expr_chain(
                    self.tokens@,
                    self.pos as int,
                    lhs@,
                ),
            decreases self.tokens@.len() - self.pos,
        {
            let op: Option<Operator> = match self.peek() {
                Some(t) => match t {
                Lexeme::Operator(Operator::Or) => Some(Operator::Or),
                    _ => None,
                },
                None => None,
            };
            match op {
                Some(o) => {
                    self.consume();
                    let rhs = match self.parse_xor() {
                        Ok(x) => x,
                        Err(e) => {
                            return Err(e);
                        },
                    };
                    lhs = Expression::new_binary_op(lhs, o, rhs);
                },
                None => {
                    return Ok(lhs);
                },
            }
        }
    }

    /// Parses a comparison: an expression optionally followed by a
    /// comparison operator or a comparison keyword and a second expression.
    /// The adjacent keyword pairs `is not` and `not in` merge into the
    /// synthesised keywords `IsNot` and `NotIn`; a bare expression becomes a
    /// truth test.
    fn parse_comparison(&mut self) -> (r: Result<Expression, ParseError>)
        requires
            old(self).wf(),
        ensures
            final(self).wf(),
            final(self).tokens == old(self).tokens,
            final(self).output == old(self).output,
            final(self).position() >= old(self).position(),
            r is Ok ==> final(self).position() > old(self).position(),
            r matches Err(e) ==> !(e is LexError),
            r matches Ok(e) ==> e is Comparison,
            (match r {
                Ok(e) => sp_comparison(old(self).input(), old(self).position()) == Ok::<
                    (ExpressionView, int),
                    ParseError,
                >((e@, final(self).position())),
                Err(err) => sp_comparison(old(self).input(), old(self).position()) == Err::<
                    (ExpressionView, int),
                    ParseError,
                >(err),
            }),
        decreases old(self).tokens@.len() - old(self).pos, 11int,
    {
        let lhs = match self.parse_expr() {
            Ok(x) => x,
            Err(e) => {
                return Err(e);
            },
        };
        let cop: Option<Operator> = match self.peek() {
            Some(t) => match t {
                Lexeme::Operator(o) => if o.is_comp_op() {
                    Some(*o)
                } else {
                    None
                },
                _ => None,
            },
            None => None,
        };
        match cop {
            Some(op) => {
                self.consume();
                let rhs = match self.parse_expr() {
                    Ok(x) => x,
                    Err(e) => {
                        return Err(e);
                    },
                };
                let c = Comparison::Op(lhs, op, rhs);
                proof {
                    crate::ast::lemma_view_comparison(c);
                }
                return Ok(Expression::Comparison(Box::new(c)));
            },
            None => {},
        }
        let ckw: Option<Keyword> = match self.peek() {
            Some(t) => match t {
                Lexeme::Keyword(_, k) => if k.is_comp_keyword() {
                    Some(*k)
                } else {
                    None
                },
                _ => None,
            },
            None => None,
        };
        match ckw {
            Some(kw0) => {
                self.consume();
                let kw = if matches!(kw0, Keyword::Is) {
                    let not_next = match self.peek() {
                        Some(t) => matches!(t, Lexeme::Keyword(_, Keyword::Not)),
                        None => false,
                    };
                    if not_next {
                        self.consume();
                        Keyword::IsNot
                    } else {
                        kw0
                    }
                } else if matches!(kw0, Keyword::Not) {
                    let in_next = match self.peek() {
                        Some(t) => matches!(t, Lexeme::Keyword(_, Keyword::In)),
                        None => false,
                    };
                    if in_next {
                        self.consume();
                        Keyword::NotIn
                    } else {
                        kw0
                    }
                } else {
                    kw0
                };
                let rhs = match self.parse_expr() {
                    Ok(x) => x,
                    Err(e) => {
                        return Err(e);
                    },
                };
                let c = Comparison::Keyword(lhs, kw, rhs);
                proof {
                    crate::ast::lemma_view_comparison(c);
                }
                Ok(Expression::Comparison(Box::new(c)))
            },
            None => {
                let c = Comparison::Truthy(lhs);
                proof {
                    crate::ast::lemma_view_comparison(c);
                }
                Ok(Expression::Comparison(Box::new(c)))
            },
        }
    }

    /// Parses a logical negation: any run of `not` keywords applied to a
    /// comparison.
    fn parse_not_test(&mut self) -> (r: Result<Expression, ParseError>)
        requires
            old(self).wf(),
        ensures
            final(self).wf(),
            final(self).tokens == old(self).tokens,
            final(self).output == old(self).output,
            final(self).position() >= old(self).position(),
            r is Ok ==> final(self).position() > old(self).position(),
            r matches Err(e) ==> !(e is LexError),
            r matches Ok(e) ==> e is Comparison,
            (match r {
                Ok(e) => sp_not_test(old(self).input(), old(self).position()) == Ok::<
                    (ExpressionView, int),
                    ParseError,
                >((e@, final(self).position())),
                Err(err) => sp_not_test(old(self).input(), old(self).position()) == Err::<
                    (ExpressionView, int),
                    ParseError,
                >(err),
            }),
        decreases old(self).tokens@.len() - old(self).pos, 12int,
    {
        let not_next = match self.peek() {
            Some(t) => matches!(t, Lexeme::Keyword(_, Keyword::Not)),
            None => false,
        };
        if not_next {
            self.consume();
            let inner = match self.parse_not_test() {
                Ok(x) => x,
                Err(e) => {
                    return Err(e);
                },
            };
            let c = Comparison::Notty(inner);
            proof {
                crate::ast::lemma_view_comparison(c);
            }
            Ok(Expression::Comparison(Box::new(c)))
        } else {
            self.parse_comparison()
        }
    }

    /// Parses an `and` test: a left-associative chain of `and` keywords over negation tests.
    fn parse_and_test(&mut self) -> (r: Result<Expression, ParseError>)
        requires
            old(self).wf(),
        ensures
            final(self).wf(),
            final(self).tokens == old(self).tokens,
            final(self).output == old(self).output,
            final(self).position() >= old(self).position(),
            r is Ok ==> final(self).position() > old(self).position(),
            r matches Err(e) ==> !(e is LexError),
            r matches Ok(e) ==> e is Comparison,
            (match r {
                Ok(e) => sp_and_test(old(self).input(), old(self).position()) == Ok::<
                    (ExpressionView, int),
                    ParseError,
                >((e@, final(self).position())),
                Err(err) => sp_and_test(old(self).input(), old(self).position()) == Err::<
                    (ExpressionView, int),
                    ParseError,
                >(err),
            }),
        decreases old(self).tokens@.len() - old(self).pos, 13int,
    {
        let mut lhs = match self.parse_not_test() {
            Ok(x) => x,
            Err(e) => {
                return Err(e);
            },
        };
        loop
            invariant
                self.wf(),
                self.tokens == old(self).tokens,
                self.output == old(self).output,
                self.pos > old(self).pos,
                lhs is Comparison,
                sp_and_test(old(self).input(), old(self).position()) == sp_and_test_chain(
                    self.tokens@,
                    self.pos as int,
                    lhs@,
                ),
            decreases self.tokens@.len() - self.pos,
        {
            let found = match self.peek() {
                Some(t) => matches!(t, Lexeme::Keyword(_, Keyword::And)),
                None => false,
            };
            if found {
                self.consume();
                let rhs = match self.parse_not_test() {
                    Ok(x) => x,
                    Err(e) => {
                        return Err(e);
                    },
                };
                let c = Comparison::Keyword(lhs, Keyword::And, rhs);
                proof {
                    crate::ast::lemma_view_comparison(c);
                }
                lhs = Expression::Comparison(Box::new(c));
            } else {
                return Ok(lhs);
            }
        }
    }

    /// Parses an `or` test: a left-associative chain of `or` keywords over `and` tests.
    fn parse_or_test(&mut self) -> (r: Result<Expression, ParseError>)
        requires
            old(self).wf(),
        ensures
            final(self).wf(),
            final(self).tokens == old(self).tokens,
            final(self).output == old(self).output,
            final(self).position() >= old(self).position(),
            r is Ok ==> final(self).position() > old(self).position(),
            r matches Err(e) ==> !(e is LexError),
            r matches Ok(e) ==> e is Comparison,
            (match r {
                Ok(e) => sp_or_test(old(self).input(), old(self).position()) == Ok::<
                    (ExpressionView, int),
                    ParseError,
                >((e@, final(self).position())),
                Err(err) => sp_or_test(old(self).input(), old(self).position()) == Err::<
                    (ExpressionView, int),
                    ParseError,
                >(err),
            }),
        decreases old(self).tokens@.len() - old(self).pos, 14int,
    {
        let mut lhs = match self.parse_and_test() {
            Ok(x) => x,
            Err(e) => {
                return Err(e);
            },
        };
        loop
            invariant
                self.wf(),
                self.tokens == old(self).tokens,
                self.output == old(self).output,
                self.pos > old(self).pos,
                lhs is Comparison,
                sp_or_test(old(self).input(), old(self).position()) == sp_or_test_chain(
                    self.tokens@,
                    self.pos as int,
                    lhs@,
                ),
            decreases self.tokens@.len() - self.pos,
        {
            let found = match self.peek() {
                Some(t) => matches!(t, Lexeme::Keyword(_, Keyword::Or)),
                None => false,
            };
            if found {
                self.consume();
                let rhs = match self.parse_and_test() {
                    Ok(x) => x,
                    Err(e) => {
                        return Err(e);
                    },
                };
                let c = Comparison::Keyword(lhs, Keyword::Or, rhs);
                proof {
                    crate::ast::lemma_view_comparison(c);
                }
                lhs = Expression::Comparison(Box::new(c));
            } else {
                return Ok(lhs);
            }
        }
    }

    /// Parses a test, the loosest binding expression form.
    fn parse_test(&mut self) -> (r: Result<Expression, ParseError>)
        requires
            old(self).wf(),
        ensures
            final(self).wf(),
            final(self).tokens == old(self).tokens,
            final(self).output == old(self).output,
            final(self).position() >= old(self).position(),
            r is Ok ==> final(self).position() > old(self).position(),
            r matches Err(e) ==> !(e is LexError),
            r matches Ok(e) ==> e is Comparison,
            (match r {
                Ok(e) => sp_test(old(self).input(), old(self).position()) == Ok::<
                    (ExpressionView, int),
                    ParseError,
                >((e@, final(self).position())),
                Err(err) => sp_test(old(self).input(), old(self).position()) == Err::<
                    (ExpressionView, int),
                    ParseError,
                >(err),
            }),
        decreases old(self).tokens@.len() - old(self).pos, 15int,
    {
        self.parse_or_test()
    }

    /// Parses one statement: the only implemented form is an assignment,
    /// a test, an Assign operator, an expression and the closing Newline
    /// (which may be absent at the very end of the stream).
    fn parse_stmt(&mut self) -> (r: Result<Statement, ParseError>)
        requires
            old(self).wf(),
        ensures
            final(self).wf(),
            final(self).tokens == old(self).tokens,
            final(self).output == old(self).output,
            final(self).position() >= old(self).position(),
            r is Ok ==> final(self).position() > old(self).position(),
            r matches Err(e) ==> !(e is LexError),
            (match r {
                Ok(st) => match st {
                    Statement::Assignment(l, _) => l is Comparison,
                },
                Err(_) => true,
            }),
            r matches Ok(st) ==> st matches Statement::Assignment(_, _),
            (match r {
                Ok(st) => sp_stmt(old(self).input(), old(self).position()) == Ok::<
                    (StatementView, int),
                    ParseError,
                >((st@, final(self).position())),
                Err(err) => sp_stmt(old(self).input(), old(self).position()) == Err::<
                    (StatementView, int),
                    ParseError,
                >(err),
            }),
        decreases old(self).tokens@.len() - old(self).pos, 16int,
    {
        let lhs = match self.parse_test() {
            Ok(x) => x,
            Err(e) => {
                return Err(e);
            },
        };
        let assign_next = match self.peek() {
            Some(t) => matches!(t, Lexeme::Operator(Operator::Assign)),
            None => false,
        };
        if !assign_next {
            return Err(ParseError::ExpectedAssign);
        }
        self.consume();
        let rhs = match self.parse_expr() {
            Ok(x) => x,
            Err(e) => {
                return Err(e);
            },
        };
        match self.peek() {
            Some(t) => {
                if matches!(t, Lexeme::Newline) {
                    self.consume();
                } else {
                    return Err(ParseError::UnexpectedToken);
                }
            },
            None => {},
        }
        Ok(Statement::Assignment(lhs, rhs))
    }

    /// Parses the whole token stream into a sequence of top-level
    /// statements, appended in order to the output: exactly the spec-level
    /// parse `sp_stmts` of the tokens. On success every token is consumed;
    /// on the first failure the typed error is handed back and the
    /// statements built so far remain.
    pub fn parse(&mut self) -> (r: Result<(), ParseError>)
        requires
            old(self).wf(),
        ensures
            final(self).wf(),
            final(self).input() == old(self).input(),
            final(self).results().len() >= old(self).results().len(),
            final(self).results().subrange(0, old(self).results().len() as int)
                == old(self).results(),
            forall|j: int|
                old(self).results().len() <= j < final(self).results().len()
                    ==> final(self).results()[j] is Statement,
            r is Ok ==> final(self).position() == final(self).input().len(),
            old(self).position() >= old(self).input().len() ==> r is Ok,
            r matches Err(e) ==> !(e is LexError),
            (match r {
                Ok(_) => sp_stmts(
                    old(self).input(),
                    old(self).position(),
                    views_of(old(self).results()),
                ) == Ok::<Seq<AstView>, ParseError>(views_of(final(self).results())),
                Err(err) => sp_stmts(
                    old(self).input(),
                    old(self).position(),
                    views_of(old(self).results()),
                ) == Err::<Seq<AstView>, ParseError>(err),
            }),
    {
        loop
            invariant
                self.wf(),
                self.tokens@ == old(self).tokens@,
                self.pos >= old(self).pos,
                self.output@.len() >= old(self).output@.len(),
                self.output@.subrange(0, old(self).output@.len() as int) == old(self).output@,
                forall|j: int|
                    old(self).output@.len() <= j < self.output@.len() ==> self.output@[j]
                        is Statement,
                sp_stmts(old(self).input(), old(self).position(), views_of(old(self).output@))
                    == sp_stmts(self.tokens@, self.pos as int, views_of(self.output@)),
            decreases self.tokens@.len() - self.pos,
        {
            if self.pos >= self.tokens.len() {
                return Ok(());
            }
            let stmt = match self.parse_stmt() {
                Ok(s) => s,
                Err(e) => {
                    return Err(e);
                },
            };
            let ghost o = self.output@;
            let ghost stv = stmt@;
            self.output.push(Ast::Statement(stmt));
            proof {
                assert(self.output@.subrange(0, old(self).output@.len() as int) =~= o.subrange(
                    0,
                    old(self).output@.len() as int,
                ));
                assert(views_of(self.output@) =~= views_of(o).push(AstView::Statement(stv)));
            }
        }
    }
}

} // verus!
