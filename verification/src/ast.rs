//! The abstract syntax tree: expressions, comparisons, atoms, primaries and
//! statements, with their shape-validating constructors.
//!
//! `Operation` unifies unary and binary operators: a missing right operand
//! denotes a unary application. Call and subscript argument lists are named
//! placeholders of the grammar and are not yet representable, so the Call
//! and Subscription variants carry only their primary and no constructor
//! builds them.

use vstd::prelude::*;
use crate::lexeme::{Keyword, Lexeme, LexemeView, Operator};

verus! {

#[derive(Debug)]
pub enum Ast {
    Statement(Statement),
    Expression(Expression),
}

#[derive(Debug)]
pub enum Expression {
    Await(Box<Expression>),
    Comparison(Box<Comparison>),
    Operation(Box<Expression>, Operator, Option<Box<Expression>>),
    Primary(Primary),
}

impl Expression {
    /// A unary operator application: the right operand is absent.
    pub fn new_unary_op(lhs: Expression, op: Operator) -> (r: Self)
        ensures
            r == Expression::Operation(Box::new(lhs), op, None::<Box<Expression>>),
            r@ == ExpressionView::Operation(Box::new(lhs@), op, None),
    {
        proof {
            lemma_view_unary(lhs, op);
        }
        Expression::Operation(Box::new(lhs), op, None)
    }

    /// A binary operator application: both operands are present.
    pub fn new_binary_op(lhs: Expression, op: Operator, rhs: Expression) -> (r: Self)
        ensures
            r == Expression::Operation(Box::new(lhs), op, Some(Box::new(rhs))),
            r@ == ExpressionView::Operation(Box::new(lhs@), op, Some(Box::new(rhs@))),
    {
        proof {
            lemma_view_binary(lhs, op, rhs);
        }
        Expression::Operation(Box::new(lhs), op, Some(Box::new(rhs)))
    }

    /// Whether this expression is a bare literal atom (a number, string or
    /// bytes literal), which may take no call or subscript postfix.
    pub open spec fn literal_atom_spec(&self) -> bool {
        match *self {
            Expression::Primary(Primary::Atom(Atom::Literal(_))) => true,
            _ => false,
        }
    }

    pub fn is_number(&self) -> (r: bool)
        ensures
            r == self.literal_atom_spec(),
    {
        match *self {
            Expression::Primary(Primary::Atom(Atom::Literal(_))) => true,
            _ => false,
        }
    }

    /// Whether this expression is a primary, and so may stand on either side
    /// of an attribute reference.
    pub open spec fn primary_spec(&self) -> bool {
        match *self {
            Expression::Primary(_) => true,
            _ => false,
        }
    }
}

#[derive(Debug)]
pub enum Comparison {
    Op(Expression, Operator, Expression),
    Keyword(Expression, Keyword, Expression),
    Truthy(Expression),
    Notty(Expression),
}

#[derive(Debug)]
pub enum Atom {
    Identifier(usize, Vec<char>),
    Literal(Lexeme),
    Yield(Box<Expression>),
}

#[derive(Debug)]
pub enum Primary {
    Atom(Atom),
    AttributeRef(Box<Primary>, Box<Primary>),
    Subscription(Box<Primary>),
    Call(Box<Primary>),
}

impl Primary {
    /// An attribute reference. Both operands must already be primaries: the
    /// grammar only reaches this constructor with primaries in hand, so a
    /// violation would be an internal invariant failure, not a user-facing
    /// error.
    pub fn new_attribute_ref(lhs: Expression, rhs: Expression) -> (r: Self)
        requires
            lhs.primary_spec(),
            rhs.primary_spec(),
        ensures
            (match (lhs, rhs) {
                (Expression::Primary(l), Expression::Primary(h)) => r == Primary::AttributeRef(
                    Box::new(l),
                    Box::new(h),
                ) && lhs@ == ExpressionView::Primary(l@) && rhs@ == ExpressionView::Primary(h@)
                    && r@ == PrimaryView::AttributeRef(Box::new(l@), Box::new(h@)),
                _ => false,
            }),
    {
        match (lhs, rhs) {
            (Expression::Primary(l), Expression::Primary(h)) => Primary::AttributeRef(
                Box::new(l),
                Box::new(h),
            ),
            _ => {
                proof {
                    assert(false);
                }
                Primary::Atom(Atom::Identifier(0, Vec::new()))
            },
        }
    }
}

#[derive(Debug)]
pub enum Statement {
    Assignment(Expression, Expression),
}

/// The mathematical views of the syntax tree: the same shapes with token
/// views in place of tokens and sequences in place of vectors.
pub enum AstView {
    Statement(StatementView),
    Expression(ExpressionView),
}

pub enum ExpressionView {
    Await(Box<ExpressionView>),
    Comparison(Box<ComparisonView>),
    Operation(Box<ExpressionView>, Operator, Option<Box<ExpressionView>>),
    Primary(PrimaryView),
}

pub enum ComparisonView {
    Op(ExpressionView, Operator, ExpressionView),
    Keyword(ExpressionView, Keyword, ExpressionView),
    Truthy(ExpressionView),
    Notty(ExpressionView),
}

pub enum AtomView {
    Identifier(usize, Seq<char>),
    Literal(LexemeView),
    Yield(Box<ExpressionView>),
}

pub enum PrimaryView {
    Atom(AtomView),
    AttributeRef(Box<PrimaryView>, Box<PrimaryView>),
    Subscription(Box<PrimaryView>),
    Call(Box<PrimaryView>),
}

pub enum StatementView {
    Assignment(ExpressionView, ExpressionView),
}

impl View for Expression {
    type V = ExpressionView;

    open spec fn view(&self) -> ExpressionView
        decreases self,
    {
        match self {
            Expression::Await(b) => ExpressionView::Await(Box::new((**b)@)),
            Expression::Comparison(c) => ExpressionView::Comparison(Box::new((**c)@)),
            Expression::Operation(l, op, rr) => ExpressionView::Operation(
                Box::new((**l)@),
                *op,
                match rr {
                    Some(rb) => Some(Box::new((**rb)@)),
                    None => None,
                },
            ),
            Expression::Primary(p) => ExpressionView::Primary(p@),
        }
    }
}

impl View for Comparison {
    type V = ComparisonView;

    open spec fn view(&self) -> ComparisonView
        decreases self,
    {
        match self {
            Comparison::Op(l, op, r) => ComparisonView::Op(l@, *op, r@),
            Comparison::Keyword(l, k, r) => ComparisonView::Keyword(l@, *k, r@),
            Comparison::Truthy(e) => ComparisonView::Truthy(e@),
            Comparison::Notty(e) => ComparisonView::Notty(e@),
        }
    }
}

impl View for Atom {
    type V = AtomView;

    open spec fn view(&self) -> AtomView
        decreases self,
    {
        match self {
            Atom::Identifier(i, w) => AtomView::Identifier(*i, w@),
            Atom::Literal(t) => AtomView::Literal(t@),
            Atom::Yield(b) => AtomView::Yield(Box::new((**b)@)),
        }
    }
}

impl View for Primary {
    type V = PrimaryView;

    open spec fn view(&self) -> PrimaryView
        decreases self,
    {
        match self {
            Primary::Atom(a) => PrimaryView::Atom(a@),
            Primary::AttributeRef(l, r) => PrimaryView::AttributeRef(
                Box::new((**l)@),
                Box::new((**r)@),
            ),
            Primary::Subscription(p) => PrimaryView::Subscription(Box::new((**p)@)),
            Primary::Call(p) => PrimaryView::Call(Box::new((**p)@)),
        }
    }
}

impl View for Statement {
    type V = StatementView;

    open spec fn view(&self) -> StatementView {
        match self {
            Statement::Assignment(l, r) => StatementView::Assignment(l@, r@),
        }
    }
}

impl View for Ast {
    type V = AstView;

    open spec fn view(&self) -> AstView {
        match self {
            Ast::Statement(st) => AstView::Statement(st@),
            Ast::Expression(e) => AstView::Expression(e@),
        }
    }
}

/// The views of the expression shapes the parser builds, spelt out once so
/// contracts about parsed trees unfold mechanically.
pub proof fn lemma_view_ident_atom(off: usize, name: Vec<char>)
    ensures
        (Expression::Primary(Primary::Atom(Atom::Identifier(off, name))))@
            == ExpressionView::Primary(PrimaryView::Atom(AtomView::Identifier(off, name@))),
{
    assert(Atom::Identifier(off, name)@ == AtomView::Identifier(off, name@));
    assert(Primary::Atom(Atom::Identifier(off, name))@ == PrimaryView::Atom(
        AtomView::Identifier(off, name@),
    ));
}

pub proof fn lemma_view_literal_atom(t: Lexeme)
    ensures
        (Expression::Primary(Primary::Atom(Atom::Literal(t))))@ == ExpressionView::Primary(
            PrimaryView::Atom(AtomView::Literal(t@)),
        ),
{
    assert(Atom::Literal(t)@ == AtomView::Literal(t@));
    assert(Primary::Atom(Atom::Literal(t))@ == PrimaryView::Atom(AtomView::Literal(t@)));
}

pub proof fn lemma_view_comparison(c: Comparison)
    ensures
        (Expression::Comparison(Box::new(c)))@ == ExpressionView::Comparison(Box::new(c@)),
{
}

pub proof fn lemma_view_await(e: Expression)
    ensures
        (Expression::Await(Box::new(e)))@ == ExpressionView::Await(Box::new(e@)),
{
}

pub proof fn lemma_view_unary(l: Expression, op: Operator)
    ensures
        (Expression::Operation(Box::new(l), op, None::<Box<Expression>>))@
            == ExpressionView::Operation(Box::new(l@), op, None),
{
}

pub proof fn lemma_view_binary(l: Expression, op: Operator, r: Expression)
    ensures
        (Expression::Operation(Box::new(l), op, Some(Box::new(r))))@
            == ExpressionView::Operation(Box::new(l@), op, Some(Box::new(r@))),
{
}

pub proof fn lemma_view_attribute(l: Primary, r: Primary)
    ensures
        (Expression::Primary(Primary::AttributeRef(Box::new(l), Box::new(r))))@
            == ExpressionView::Primary(
            PrimaryView::AttributeRef(Box::new(l@), Box::new(r@)),
        ),
{
    assert(Primary::AttributeRef(Box::new(l), Box::new(r))@ == PrimaryView::AttributeRef(
        Box::new(l@),
        Box::new(r@),
    ));
}

pub proof fn lemma_view_primary_expr(pr: Primary)
    ensures
        (Expression::Primary(pr))@ == ExpressionView::Primary(pr@),
{
}

} // verus!
