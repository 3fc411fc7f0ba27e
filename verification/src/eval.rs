//! The evaluator: an expression, a mutable environment, and an injectable
//! source of input lines reduce to an `i32` or a fatal error.
//!
//! `spec_eval` is the mathematical evaluator. It threads the environment
//! through the whole evaluation — a binding introduced by a `let` stays
//! visible for the rest of the evaluation, with no scope-exit removal —
//! and counts the input lines the `read` primitive consumes. Arithmetic
//! that would leave the `i32` range is the `Overflow` outcome, which the
//! executable evaluator rules out by precondition.

use vstd::prelude::*;

use crate::ast::BindingV;
use crate::ast::Expression;
use crate::ast::ExprV;
use crate::ast::LInt;
use crate::ast::LVar;
use crate::ast::binding_views;
use crate::input::spec_line_int;

verus! {

broadcast use vstd::std_specs::vec::group_vec_axioms, vstd::seq::group_seq_axioms;

/// The evaluation-level errors: a variable lookup miss, or a `read` whose
/// line does not parse as an integer (or whose input is exhausted).
#[derive(Debug, PartialEq)]
pub enum EvalError {
    UnboundVariable,
    InvalidNumericInput,
}

/// The environment: a mapping from names to values, mutated in place and
/// threaded by reference through one whole evaluation.
pub struct Env {
    entries: Vec<(String, i32)>,
}

/// The mapping an entry list stands for: later entries overwrite earlier
/// ones.
pub open spec fn map_of(entries: Seq<(String, i32)>) -> Map<Seq<char>, i32>
    decreases entries.len(),
{
    if entries.len() == 0 {
        Map::empty()
    } else {
        map_of(entries.drop_last()).insert(entries.last().0@, entries.last().1)
    }
}

impl View for Env {
    type V = Map<Seq<char>, i32>;

    closed spec fn view(&self) -> Map<Seq<char>, i32> {
        map_of(self.entries@)
    }
}

impl Env {
    /// A fresh, empty environment.
    pub fn new() -> (e: Env)
        ensures
            e@ == Map::<Seq<char>, i32>::empty(),
    {
        let e = Env { entries: Vec::new() };
        proof {
            assert(e.entries@.len() == 0);
        }
        e
    }

    /// Binds `name` to `value`, overwriting any earlier binding.
    pub fn insert(&mut self, name: String, value: i32)
        ensures
            final(self)@ == old(self)@.insert(name@, value),
    {
        let ghost prev = self.entries@;
        self.entries.push((name, value));
        proof {
            assert(self.entries@.drop_last() =~= prev);
        }
    }

    /// Looks `name` up: the latest value bound to it, if any.
    #[verifier::loop_isolation(false)]
    pub fn get(&self, name: &String) -> (r: Option<i32>)
        ensures
            match r {
                Some(v) => self@.dom().contains(name@) && self@[name@] == v,
                None => !self@.dom().contains(name@),
            },
    {
        let ghost es = self.entries@;
        let mut i = self.entries.len();
        proof {
            assert(es.take(i as int) =~= es);
        }
        while i > 0
            invariant
                i <= es.len(),
                map_of(es).dom().contains(name@) == map_of(es.take(i as int)).dom().contains(
                    name@,
                ),
                map_of(es.take(i as int)).dom().contains(name@) ==> map_of(es)[name@] == map_of(
                    es.take(i as int),
                )[name@],
            decreases i,
        {
            i = i - 1;
            proof {
                assert(es.take(i + 1).drop_last() =~= es.take(i as int));
                assert(es.take(i + 1).last() == es[i as int]);
            }
            let hit = self.entries[i].0 == *name;
            if hit {
                return Some(self.entries[i].1);
            }
        }
        proof {
            assert(es.take(0) =~= Seq::<(String, i32)>::empty());
        }
        None
    }
}

/// The views of a sequence of input lines.
pub open spec fn lines_view(ls: Seq<String>) -> Seq<Seq<char>> {
    ls.map_values(|l: String| l@)
}

/// One evaluation outcome: a value, a fatal error, or arithmetic outside
/// the `i32` range. Each carries the environment as mutated so far and
/// the number of input lines consumed.
pub enum Outcome {
    Value { v: i32, env: Map<Seq<char>, i32>, used: nat },
    Unbound { env: Map<Seq<char>, i32>, used: nat },
    BadRead { env: Map<Seq<char>, i32>, used: nat },
    Overflow,
}

/// The same outcome with `extra` more input lines counted as consumed.
pub open spec fn shift(o: Outcome, extra: nat) -> Outcome {
    match o {
        Outcome::Value { v, env, used } => Outcome::Value { v, env, used: (used + extra) as nat },
        Outcome::Unbound { env, used } => Outcome::Unbound { env, used: (used + extra) as nat },
        Outcome::BadRead { env, used } => Outcome::BadRead { env, used: (used + extra) as nat },
        Outcome::Overflow => Outcome::Overflow,
    }
}

/// The mathematical evaluator. Arguments evaluate left to right; the
/// minuend before any subtrahend; a `let` writes each binding into the
/// environment as soon as its value is known.
pub open spec fn spec_eval(e: ExprV, env: Map<Seq<char>, i32>, inp: Seq<Seq<char>>) -> Outcome
    decreases e,
{
    match e {
        ExprV::Num(n) => if i32::MIN as int <= n <= i32::MAX as int {
            Outcome::Value { v: n as i32, env, used: 0 }
        } else {
            Outcome::Overflow
        },
        ExprV::Add(a, b) => match spec_eval(*a, env, inp) {
            Outcome::Value { v: v1, env: env1, used: u1 } => match spec_eval(
                *b,
                env1,
                inp.skip(u1 as int),
            ) {
                Outcome::Value { v: v2, env: env2, used: u2 } => if i32::MIN as int <= v1 + v2
                    <= i32::MAX as int {
                    Outcome::Value { v: (v1 + v2) as i32, env: env2, used: (u1 + u2) as nat }
                } else {
                    Outcome::Overflow
                },
                o => shift(o, u1),
            },
            o => o,
        },
        ExprV::Sub(a, b) => match spec_eval(*a, env, inp) {
            Outcome::Value { v: v1, env: env1, used: u1 } => match spec_eval(
                *b,
                env1,
                inp.skip(u1 as int),
            ) {
                Outcome::Value { v: v2, env: env2, used: u2 } => if i32::MIN as int <= v1 - v2
                    <= i32::MAX as int {
                    Outcome::Value { v: (v1 - v2) as i32, env: env2, used: (u1 + u2) as nat }
                } else {
                    Outcome::Overflow
                },
                o => shift(o, u1),
            },
            o => o,
        },
        ExprV::Read => if inp.len() == 0 {
            Outcome::BadRead { env, used: 0 }
        } else {
            match spec_line_int(inp[0]) {
                Some(x) => Outcome::Value { v: x as i32, env, used: 1 },
                None => Outcome::BadRead { env, used: 1 },
            }
        },
        ExprV::Var(s) => if env.dom().contains(s) {
            Outcome::Value { v: env[s], env, used: 0 }
        } else {
            Outcome::Unbound { env, used: 0 }
        },
        ExprV::Let(bs, body) => match spec_eval_binds(bs, env, inp) {
            Outcome::Value { v: _, env: env1, used: u1 } => shift(
                spec_eval(*body, env1, inp.skip(u1 as int)),
                u1,
            ),
            o => o,
        },
    }
}

/// Evaluates a binding list in order, writing each value into the
/// environment at once; the value of the outcome is unused.
pub open spec fn spec_eval_binds(
    bs: Seq<BindingV>,
    env: Map<Seq<char>, i32>,
    inp: Seq<Seq<char>>,
) -> Outcome
    decreases bs,
{
    if bs.len() == 0 {
        Outcome::Value { v: 0, env, used: 0 }
    } else {
        match spec_eval(bs[0].value, env, inp) {
            Outcome::Value { v, env: env1, used: u1 } => shift(
                spec_eval_binds(
                    bs.subrange(1, bs.len() as int),
                    env1.insert(bs[0].name, v),
                    inp.skip(u1 as int),
                ),
                u1,
            ),
            o => o,
        }
    }
}

/// Does evaluating `e` stay inside the `i32` range throughout?
pub open spec fn eval_fits(e: ExprV, env: Map<Seq<char>, i32>, inp: Seq<Seq<char>>) -> bool {
    !(spec_eval(e, env, inp) matches Outcome::Overflow)
}

/// What the executable evaluator owes for outcome `o`: the result, the
/// final environment, and the cursor movement.
pub open spec fn eval_post(
    o: Outcome,
    r: Result<i32, EvalError>,
    env2: Map<Seq<char>, i32>,
    cur0: nat,
    cur2: nat,
) -> bool {
    match o {
        Outcome::Value { v, env, used } => r == Ok::<i32, EvalError>(v) && env2 == env && cur2
            == cur0 + used,
        Outcome::Unbound { env, used } => r == Err::<i32, EvalError>(EvalError::UnboundVariable)
            && env2 == env && cur2 == cur0 + used,
        Outcome::BadRead { env, used } => r == Err::<i32, EvalError>(
            EvalError::InvalidNumericInput,
        ) && env2 == env && cur2 == cur0 + used,
        Outcome::Overflow => false,
    }
}

/// The shared capability of everything evaluable: reduce to an `i32`
/// against an environment and a source of input lines.
pub trait Eval {
    /// The mathematical expression this node stands for.
    spec fn model(&self) -> ExprV;

    /// Evaluates this node, threading the environment, taking `read`
    /// lines from `lines` starting at `cur`.
    fn eval(&self, env: &mut Env, lines: &Vec<String>, cur: &mut usize) -> (r: Result<
        i32,
        EvalError,
    >)
        requires
            *old(cur) <= lines@.len(),
            eval_fits(self.model(), old(env)@, lines_view(lines@).skip(*old(cur) as int)),
        ensures
            eval_post(
                spec_eval(self.model(), old(env)@, lines_view(lines@).skip(*old(cur) as int)),
                r,
                final(env)@,
                *old(cur) as nat,
                *final(cur) as nat,
            ),
            *final(cur) <= lines@.len(),
    ;
}

impl Eval for Expression {
    open spec fn model(&self) -> ExprV {
        self@
    }

    fn eval(&self, env: &mut Env, lines: &Vec<String>, cur: &mut usize) -> (r: Result<
        i32,
        EvalError,
    >) {
        eval_expr(self, env, lines, cur)
    }
}

impl Eval for LInt {
    open spec fn model(&self) -> ExprV {
        self@
    }

    fn eval(&self, env: &mut Env, lines: &Vec<String>, cur: &mut usize) -> (r: Result<
        i32,
        EvalError,
    >) {
        eval_lint(self, env, lines, cur)
    }
}

impl Eval for LVar {
    open spec fn model(&self) -> ExprV {
        self@
    }

    fn eval(&self, env: &mut Env, lines: &Vec<String>, cur: &mut usize) -> (r: Result<
        i32,
        EvalError,
    >) {
        eval_lvar(self, env, lines, cur)
    }
}

impl Expression {
    /// Evaluates this expression with a fresh, empty environment, taking
    /// `read` lines from `lines` in order.
    pub fn evaluate(&self, lines: &Vec<String>) -> (r: Result<i32, EvalError>)
        requires
            eval_fits(self@, Map::empty(), lines_view(lines@)),
        ensures
            match spec_eval(self@, Map::empty(), lines_view(lines@)) {
                Outcome::Value { v, .. } => r == Ok::<i32, EvalError>(v),
                Outcome::Unbound { .. } => r == Err::<i32, EvalError>(EvalError::UnboundVariable),
                Outcome::BadRead { .. } => r == Err::<i32, EvalError>(
                    EvalError::InvalidNumericInput,
                ),
                Outcome::Overflow => false,
            },
    {
        let mut env = Env::new();
        let mut cur: usize = 0;
        proof {
            assert(lines_view(lines@).skip(0) =~= lines_view(lines@));
        }
        eval_expr(self, &mut env, lines, &mut cur)
    }
}

/// Evaluates one expression node.
fn eval_expr(e: &Expression, env: &mut Env, lines: &Vec<String>, cur: &mut usize) -> (r: Result<
    i32,
    EvalError,
>)
    requires
        *old(cur) <= lines@.len(),
        eval_fits(e@, old(env)@, lines_view(lines@).skip(*old(cur) as int)),
    ensures
        eval_post(
            spec_eval(e@, old(env)@, lines_view(lines@).skip(*old(cur) as int)),
            r,
            final(env)@,
            *old(cur) as nat,
            *final(cur) as nat,
        ),
        *final(cur) <= lines@.len(),
    decreases *e, 1int,
{
    match e {
        Expression::LInt(li) => eval_lint(li, env, lines, cur),
        Expression::LVar(lv) => eval_lvar(lv, env, lines, cur),
    }
}

/// Evaluates an arithmetic node: a literal, a sum, a difference, or a
/// `read` from the next input line.
fn eval_lint(li: &LInt, env: &mut Env, lines: &Vec<String>, cur: &mut usize) -> (r: Result<
    i32,
    EvalError,
>)
    requires
        *old(cur) <= lines@.len(),
        eval_fits(li@, old(env)@, lines_view(lines@).skip(*old(cur) as int)),
    ensures
        eval_post(
            spec_eval(li@, old(env)@, lines_view(lines@).skip(*old(cur) as int)),
            r,
            final(env)@,
            *old(cur) as nat,
            *final(cur) as nat,
        ),
        *final(cur) <= lines@.len(),
    decreases *li, 0int,
{
    let ghost inp = lines_view(lines@).skip(*cur as int);
    let ghost env0 = env@;
    let ghost cur0 = *cur;
    match li {
        LInt::Number(n) => Ok(*n),
        LInt::Add(a, b) => {
            let v1 = match eval_expr(a, env, lines, cur) {
                Ok(v) => v,
                Err(er) => {
                    return Err(er);
                },
            };
            proof {
                assert(lines_view(lines@).skip(*cur as int) =~= inp.skip((*cur - cur0) as int));
            }
            let v2 = match eval_expr(b, env, lines, cur) {
                Ok(v) => v,
                Err(er) => {
                    return Err(er);
                },
            };
            Ok(v1 + v2)
        },
        LInt::Subtract(a, b) => {
            let v1 = match eval_expr(a, env, lines, cur) {
                Ok(v) => v,
                Err(er) => {
                    return Err(er);
                },
            };
            proof {
                assert(lines_view(lines@).skip(*cur as int) =~= inp.skip((*cur - cur0) as int));
            }
            let v2 = match eval_expr(b, env, lines, cur) {
                Ok(v) => v,
                Err(er) => {
                    return Err(er);
                },
            };
            Ok(v1 - v2)
        },
        LInt::Read() => {
            if *cur >= lines.len() {
                proof {
                    assert(inp.len() == 0);
                }
                return Err(EvalError::InvalidNumericInput);
            }
            proof {
                assert(inp[0] == lines@[*cur as int]@);
            }
            let line = &lines[*cur];
            let parsed = crate::input::read_int_line(line.as_str());
            *cur = *cur + 1;
            match parsed {
                Some(v) => Ok(v),
                None => Err(EvalError::InvalidNumericInput),
            }
        },
    }
}

/// Evaluates a binding form: a `let` writes each binding into the shared
/// environment in order and then evaluates its body; a variable looks its
/// name up.
#[verifier::loop_isolation(false)]
fn eval_lvar(lv: &LVar, env: &mut Env, lines: &Vec<String>, cur: &mut usize) -> (r: Result<
    i32,
    EvalError,
>)
    requires
        *old(cur) <= lines@.len(),
        eval_fits(lv@, old(env)@, lines_view(lines@).skip(*old(cur) as int)),
    ensures
        eval_post(
            spec_eval(lv@, old(env)@, lines_view(lines@).skip(*old(cur) as int)),
            r,
            final(env)@,
            *old(cur) as nat,
            *final(cur) as nat,
        ),
        *final(cur) <= lines@.len(),
    decreases *lv, 0int,
{
    let ghost inp = lines_view(lines@).skip(*cur as int);
    let ghost env0 = env@;
    let ghost cur0 = *cur;
    match lv {
        LVar::Var(name) => match env.get(name) {
            Some(v) => Ok(v),
            None => Err(EvalError::UnboundVariable),
        },
        LVar::Let(bindings, body) => {
            let ghost bv = binding_views(bindings@);
            proof {
                crate::ast::lemma_binding_views_props(bindings@);
                assert(lv@ matches ExprV::Let(b2, _) && b2 == bv);
                assert(bv.subrange(0, bv.len() as int) =~= bv);
                assert(inp.skip(0) =~= inp);
                assert(shift(spec_eval_binds(bv, env0, inp), 0) == spec_eval_binds(
                    bv,
                    env0,
                    inp,
                ));
            }
            let count = bindings.len();
            let mut i: usize = 0;
            while i < count
                invariant
                    i <= count,
                    spec_eval_binds(bv, env0, inp) == shift(
                        spec_eval_binds(
                            bv.subrange(i as int, bv.len() as int),
                            env@,
                            inp.skip((*cur - cur0) as int),
                        ),
                        (*cur - cur0) as nat,
                    ),
                    cur0 <= *cur <= lines@.len(),
                decreases count - i,
            {
                let ghost envi = env@;
                let ghost curi = *cur;
                let ghost tail = bv.subrange(i as int, bv.len() as int);
                let ghost inpi = inp.skip((curi - cur0) as int);
                proof {
                    assert(tail[0] == bv[i as int]);
                    assert(bv[i as int] == bindings@[i as int]@);
                    assert(lines_view(lines@).skip(*cur as int) =~= inpi);
                    // If this binding's evaluation overflowed, the whole
                    // `let` would be the Overflow outcome, which the
                    // precondition rules out.
                    if !eval_fits(bindings@[i as int].value@, envi, inpi) {
                        assert(spec_eval(tail[0].value, envi, inpi) == Outcome::Overflow);
                        assert(spec_eval_binds(tail, envi, inpi) == Outcome::Overflow);
                        assert(spec_eval_binds(bv, env0, inp) == Outcome::Overflow);
                        assert(spec_eval(lv@, env0, inp) == Outcome::Overflow);
                        assert(false);
                    }
                }
                let value = match eval_expr(&bindings[i].value, env, lines, cur) {
                    Ok(v) => v,
                    Err(er) => {
                        proof {
                            let o = spec_eval(tail[0].value, envi, inpi);
                            assert(spec_eval_binds(tail, envi, inpi) == o);
                            assert(spec_eval_binds(bv, env0, inp) == shift(
                                o,
                                (curi - cur0) as nat,
                            ));
                            assert(spec_eval(lv@, env0, inp) == shift(o, (curi - cur0) as nat));
                        }
                        return Err(er);
                    },
                };
                let ghost u1 = (*cur - curi) as nat;
                let ghost envc = env@;
                let name = bindings[i].name.clone();
                env.insert(name, value);
                proof {
                    assert(name@ == bv[i as int].name);
                    assert(env@ == envc.insert(bv[i as int].name, value));
                    assert(tail.subrange(1, tail.len() as int) =~= bv.subrange(
                        i + 1,
                        bv.len() as int,
                    ));
                    assert(inpi.skip(u1 as int) =~= inp.skip((*cur - cur0) as int));
                    assert(spec_eval(tail[0].value, envi, inpi) == Outcome::Value {
                        v: value,
                        env: envc,
                        used: u1,
                    });
                    assert(spec_eval_binds(tail, envi, inpi) == shift(
                        spec_eval_binds(
                            bv.subrange(i + 1, bv.len() as int),
                            env@,
                            inp.skip((*cur - cur0) as int),
                        ),
                        u1,
                    ));
                }
                i = i + 1;
            }
            proof {
                assert(bv.subrange(count as int, bv.len() as int).len() == 0);
                let fin = inp.skip((*cur - cur0) as int);
                assert(spec_eval_binds(bv.subrange(count as int, bv.len() as int), env@, fin)
                    == Outcome::Value { v: 0, env: env@, used: 0 });
                assert(spec_eval_binds(bv, env0, inp) == Outcome::Value {
                    v: 0,
                    env: env@,
                    used: (*cur - cur0) as nat,
                });
                assert(lines_view(lines@).skip(*cur as int) =~= fin);
                // If the body's evaluation overflowed, so would the
                // whole `let`.
                if !eval_fits(body@, env@, fin) {
                    assert(spec_eval(lv@, env0, inp) == Outcome::Overflow);
                    assert(false);
                }
            }
            eval_expr(body, env, lines, cur)
        },
    }
}

} // verus!
