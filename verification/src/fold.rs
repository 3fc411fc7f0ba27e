//! The partial evaluator: a pure tree rewrite that folds constant
//! sub-expressions. Sums and differences of two literals become one
//! literal when the result fits an `i32`; `read`, unrecognized material,
//! `let` forms and variables are returned unchanged; it never performs
//! input or output and never fails.

use vstd::prelude::*;

use crate::ast::Binding;
use crate::ast::Expression;
use crate::ast::ExprV;
use crate::ast::LInt;
use crate::ast::LVar;
use crate::ast::binding_views;
use crate::ast::lemma_binding_views_props;
use crate::eval::Outcome;
use crate::eval::spec_eval;

verus! {

broadcast use vstd::std_specs::vec::group_vec_axioms, vstd::seq::group_seq_axioms;

/// Does `x` fit in an `i32`?
pub open spec fn fits_i32(x: int) -> bool {
    i32::MIN as int <= x <= i32::MAX as int
}

/// The mathematical partial evaluator: folds `+` and `-` of two literals
/// into one literal when everything stays in range, and otherwise
/// rebuilds the node from its folded children. Effectful and binding
/// forms pass through unchanged.
pub open spec fn spec_fold(e: ExprV) -> ExprV
    decreases e,
{
    match e {
        ExprV::Num(n) => ExprV::Num(n),
        ExprV::Add(a, b) => {
            let fa = spec_fold(*a);
            let fb = spec_fold(*b);
            if fa matches ExprV::Num(x) && fb matches ExprV::Num(y) && fits_i32(x) && fits_i32(y)
                && fits_i32(x + y) {
                ExprV::Num(fa->Num_0 + fb->Num_0)
            } else {
                ExprV::Add(Box::new(fa), Box::new(fb))
            }
        },
        ExprV::Sub(a, b) => {
            let fa = spec_fold(*a);
            let fb = spec_fold(*b);
            if fa matches ExprV::Num(x) && fb matches ExprV::Num(y) && fits_i32(x) && fits_i32(y)
                && fits_i32(x - y) {
                ExprV::Num(fa->Num_0 - fb->Num_0)
            } else {
                ExprV::Sub(Box::new(fa), Box::new(fb))
            }
        },
        ExprV::Read => ExprV::Read,
        ExprV::Let(bs, body) => ExprV::Let(bs, body),
        ExprV::Var(s) => ExprV::Var(s),
    }
}

/// The literal an expression is, if it is one.
fn as_literal(e: &Expression) -> (r: Option<i32>)
    ensures
        match r {
            Some(v) => e@ == ExprV::Num(v as int),
            None => !(e@ matches ExprV::Num(_)),
        },
{
    match e {
        Expression::LInt(LInt::Number(n)) => Some(*n),
        _ => None,
    }
}

/// A structurally equal copy of an expression.
#[verifier::loop_isolation(false)]
fn copy_expr(e: &Expression) -> (r: Expression)
    ensures
        r@ == e@,
    decreases *e,
{
    match e {
        Expression::LInt(li) => match li {
            LInt::Number(n) => Expression::LInt(LInt::Number(*n)),
            LInt::Add(a, b) => Expression::LInt(
                LInt::Add(Box::new(copy_expr(a)), Box::new(copy_expr(b))),
            ),
            LInt::Subtract(a, b) => Expression::LInt(
                LInt::Subtract(Box::new(copy_expr(a)), Box::new(copy_expr(b))),
            ),
            LInt::Read() => Expression::LInt(LInt::Read()),
        },
        Expression::LVar(lv) => match lv {
            LVar::Var(s) => Expression::LVar(LVar::Var(s.clone())),
            LVar::Let(bs, body) => {
                let mut out: Vec<Binding> = Vec::new();
                let count = bs.len();
                let mut i: usize = 0;
                while i < count
                    invariant
                        i <= count,
                        count == bs@.len(),
                        out@.len() == i,
                        forall|j: int| 0 <= j < i ==> #[trigger] out@[j]@ == bs@[j]@,
                    decreases count - i,
                {
                    let value = copy_expr(&bs[i].value);
                    let name = bs[i].name.clone();
                    out.push(Binding { name, value });
                    i = i + 1;
                }
                proof {
                    lemma_binding_views_props(out@);
                    lemma_binding_views_props(bs@);
                    assert(binding_views(out@) =~= binding_views(bs@));
                }
                Expression::LVar(LVar::Let(out, Box::new(copy_expr(body))))
            },
        },
    }
}

/// Partially evaluates an expression: exactly `spec_fold` of its view.
/// It never fails; at worst it returns the expression unchanged.
pub fn partially_evaluate(e: &Expression) -> (r: Expression)
    ensures
        r@ == spec_fold(e@),
    decreases *e,
{
    match e {
        Expression::LInt(li) => match li {
            LInt::Number(n) => Expression::LInt(LInt::Number(*n)),
            LInt::Add(a, b) => {
                let fa = partially_evaluate(a);
                let fb = partially_evaluate(b);
                match (as_literal(&fa), as_literal(&fb)) {
                    (Some(x), Some(y)) => {
                        let sum = x as i64 + y as i64;
                        if -0x8000_0000i64 <= sum && sum <= 0x7fff_ffffi64 {
                            Expression::LInt(LInt::Number(sum as i32))
                        } else {
                            Expression::LInt(LInt::Add(Box::new(fa), Box::new(fb)))
                        }
                    },
                    _ => Expression::LInt(LInt::Add(Box::new(fa), Box::new(fb))),
                }
            },
            LInt::Subtract(a, b) => {
                let fa = partially_evaluate(a);
                let fb = partially_evaluate(b);
                match (as_literal(&fa), as_literal(&fb)) {
                    (Some(x), Some(y)) => {
                        let diff = x as i64 - y as i64;
                        if -0x8000_0000i64 <= diff && diff <= 0x7fff_ffffi64 {
                            Expression::LInt(LInt::Number(diff as i32))
                        } else {
                            Expression::LInt(LInt::Subtract(Box::new(fa), Box::new(fb)))
                        }
                    },
                    _ => Expression::LInt(LInt::Subtract(Box::new(fa), Box::new(fb))),
                }
            },
            LInt::Read() => Expression::LInt(LInt::Read()),
        },
        Expression::LVar(_) => copy_expr(e),
    }
}

/// Folding is idempotent: partially evaluating a second time changes
/// nothing.
pub proof fn lemma_fold_idempotent(e: ExprV)
    ensures
        spec_fold(spec_fold(e)) == spec_fold(e),
    decreases e,
{
    match e {
        ExprV::Add(a, b) => {
            lemma_fold_idempotent(*a);
            lemma_fold_idempotent(*b);
        },
        ExprV::Sub(a, b) => {
            lemma_fold_idempotent(*a);
            lemma_fold_idempotent(*b);
        },
        _ => {},
    }
}

/// Folding preserves evaluation entirely: the folded expression has the
/// same outcome as the expression it came from, in every environment and
/// on every input — the same value or error, the same final environment,
/// the same number of lines consumed, and overflow exactly when the
/// unfolded expression overflows.
pub proof fn lemma_fold_preserves_eval(e: ExprV, env: Map<Seq<char>, i32>, inp: Seq<Seq<char>>)
    ensures
        spec_eval(spec_fold(e), env, inp) == spec_eval(e, env, inp),
    decreases e,
{
    match e {
        ExprV::Add(a, b) => {
            lemma_fold_preserves_eval(*a, env, inp);
            assert(inp.skip(0) =~= inp);
            match spec_eval(*a, env, inp) {
                Outcome::Value { v: v1, env: env1, used: u1 } => {
                    lemma_fold_preserves_eval(*b, env1, inp.skip(u1 as int));
                },
                _ => {},
            }
        },
        ExprV::Sub(a, b) => {
            lemma_fold_preserves_eval(*a, env, inp);
            assert(inp.skip(0) =~= inp);
            match spec_eval(*a, env, inp) {
                Outcome::Value { v: v1, env: env1, used: u1 } => {
                    lemma_fold_preserves_eval(*b, env1, inp.skip(u1 as int));
                },
                _ => {},
            }
        },
        _ => {},
    }
}

} // verus!
