//! Tokens and the abstract syntax tree, together with their mathematical
//! views: `TokenV` for tokens and `ExprV` for expressions, over `Seq<char>`
//! names and unbounded integers.

use vstd::prelude::*;

verus! {

broadcast use vstd::std_specs::vec::group_vec_axioms, vstd::seq::group_seq_axioms;

/// A lexical token. Identifiers are maximal runs of letters and `+ - * /`;
/// numbers are maximal runs of decimal digits. `EndOfFile` is appended once
/// as a sentinel.
#[derive(Debug, PartialEq)]
pub enum Token {
    Identifier(String),
    Number(i32),
    LParen,
    RParen,
    EndOfFile,
}

/// The mathematical view of a `Token`.
pub enum TokenV {
    Identifier(Seq<char>),
    Number(int),
    LParen,
    RParen,
    EndOfFile,
}

impl View for Token {
    type V = TokenV;

    open spec fn view(&self) -> TokenV {
        match self {
            Token::Identifier(s) => TokenV::Identifier(s@),
            Token::Number(n) => TokenV::Number(*n as int),
            Token::LParen => TokenV::LParen,
            Token::RParen => TokenV::RParen,
            Token::EndOfFile => TokenV::EndOfFile,
        }
    }
}

/// The views of a sequence of tokens.
pub open spec fn token_views(ts: Seq<Token>) -> Seq<TokenV> {
    ts.map_values(|t: Token| t@)
}

/// Arithmetic expressions: a literal, binary `+`, binary `-`, or the
/// effectful zero-ary `read`.
#[derive(Debug, PartialEq)]
pub enum LInt {
    Number(i32),
    Add(Box<Expression>, Box<Expression>),
    Subtract(Box<Expression>, Box<Expression>),
    Read(),
}

/// One `let` binding: a name and the expression bound to it.
#[derive(Debug, PartialEq)]
pub struct Binding {
    pub name: String,
    pub value: Expression,
}

/// Binding forms: a `let` with an ordered binding list and a body, or a
/// variable reference.
#[derive(Debug, PartialEq)]
pub enum LVar {
    Let(Vec<Binding>, Box<Expression>),
    Var(String),
}

/// A whole expression: either arithmetic or a binding form.
#[derive(Debug, PartialEq)]
pub enum Expression {
    LInt(LInt),
    LVar(LVar),
}

/// The mathematical view of an expression: one unified tree over
/// `Seq<char>` names and unbounded integers.
pub enum ExprV {
    Num(int),
    Add(Box<ExprV>, Box<ExprV>),
    Sub(Box<ExprV>, Box<ExprV>),
    Read,
    Let(Seq<BindingV>, Box<ExprV>),
    Var(Seq<char>),
}

/// The mathematical view of one binding.
pub struct BindingV {
    pub name: Seq<char>,
    pub value: ExprV,
}

/// The view of an expression.
pub open spec fn expr_view(e: Expression) -> ExprV
    decreases e,
{
    match e {
        Expression::LInt(li) => match li {
            LInt::Number(n) => ExprV::Num(n as int),
            LInt::Add(a, b) => ExprV::Add(Box::new(expr_view(*a)), Box::new(expr_view(*b))),
            LInt::Subtract(a, b) => ExprV::Sub(Box::new(expr_view(*a)), Box::new(expr_view(*b))),
            LInt::Read() => ExprV::Read,
        },
        Expression::LVar(lv) => match lv {
            LVar::Let(bs, body) => ExprV::Let(binding_views(bs@), Box::new(expr_view(*body))),
            LVar::Var(s) => ExprV::Var(s@),
        },
    }
}

/// The views of a sequence of bindings.
pub open spec fn binding_views(bs: Seq<Binding>) -> Seq<BindingV>
    decreases bs,
{
    if bs.len() == 0 {
        Seq::empty()
    } else {
        seq![BindingV { name: bs[0].name@, value: expr_view(bs[0].value) }]
            + binding_views(bs.subrange(1, bs.len() as int))
    }
}

impl View for Expression {
    type V = ExprV;

    open spec fn view(&self) -> ExprV {
        expr_view(*self)
    }
}

impl View for LInt {
    type V = ExprV;

    open spec fn view(&self) -> ExprV {
        expr_view(Expression::LInt(*self))
    }
}

impl View for LVar {
    type V = ExprV;

    open spec fn view(&self) -> ExprV {
        expr_view(Expression::LVar(*self))
    }
}

impl View for Binding {
    type V = BindingV;

    open spec fn view(&self) -> BindingV {
        BindingV { name: self.name@, value: expr_view(self.value) }
    }
}

/// The views of a binding sequence are its elements' views, in order.
pub proof fn lemma_binding_views_props(bs: Seq<Binding>)
    ensures
        binding_views(bs).len() == bs.len(),
        forall|i: int| 0 <= i < bs.len() ==> #[trigger] binding_views(bs)[i] == bs[i]@,
    decreases bs.len(),
{
    if bs.len() > 0 {
        let t = bs.subrange(1, bs.len() as int);
        lemma_binding_views_props(t);
        assert(forall|i: int| 1 <= i < bs.len() ==> t[i - 1] == bs[i]);
        assert(forall|i: int|
            1 <= i < bs.len() ==> #[trigger] binding_views(bs)[i] == binding_views(t)[i - 1]);
    }
}

/// The views of a sequence of expressions.
pub open spec fn expr_views(es: Seq<Expression>) -> Seq<ExprV> {
    es.map_values(|e: Expression| expr_view(e))
}

} // verus!
