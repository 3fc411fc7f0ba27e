//! The visualizer: an abstract syntax tree back to canonical,
//! fully-parenthesized source text. Numbers print as decimal digits,
//! calls as `(op a b)` with single spaces, `let` forms as
//! `(let ((n1 v1)(n2 v2)) body)`, variables as their bare names.

use vstd::prelude::*;
use vstd::string::StringExecFns;

use crate::ast::BindingV;
use crate::ast::Expression;
use crate::ast::ExprV;
use crate::ast::LInt;
use crate::ast::LVar;
use crate::ast::binding_views;
use crate::ast::lemma_binding_views_props;
use crate::numeral::digit_char;
use crate::numeral::int_text;
use crate::numeral::nat_text;

verus! {

broadcast use vstd::std_specs::vec::group_vec_axioms, vstd::seq::group_seq_axioms;

/// The canonical text of one binding: `(name value)`.
pub open spec fn spec_visual_binding(b: BindingV) -> Seq<char>
    decreases b,
{
    seq!['('] + b.name + seq![' '] + spec_visual(b.value) + seq![')']
}

/// The canonical text of a binding list: the bindings, abutted.
pub open spec fn spec_visual_binds(bs: Seq<BindingV>) -> Seq<char>
    decreases bs,
{
    if bs.len() == 0 {
        Seq::empty()
    } else {
        spec_visual_binding(bs[0]) + spec_visual_binds(bs.subrange(1, bs.len() as int))
    }
}

/// The canonical text of an expression.
pub open spec fn spec_visual(e: ExprV) -> Seq<char>
    decreases e,
{
    match e {
        ExprV::Num(n) => int_text(n),
        ExprV::Add(a, b) => seq!['(', '+', ' '] + spec_visual(*a) + seq![' '] + spec_visual(*b)
            + seq![')'],
        ExprV::Sub(a, b) => seq!['(', '-', ' '] + spec_visual(*a) + seq![' '] + spec_visual(*b)
            + seq![')'],
        ExprV::Read => seq!['(', 'r', 'e', 'a', 'd', ')'],
        ExprV::Let(bs, body) => seq!['(', 'l', 'e', 't', ' ', '('] + spec_visual_binds(bs) + seq![
            ')',
            ' ',
        ] + spec_visual(*body) + seq![')'],
        ExprV::Var(s) => s,
    }
}

/// One more binding extends the binding text at its end.
proof fn lemma_visual_binds_take(bs: Seq<BindingV>, i: int)
    requires
        0 <= i < bs.len(),
    ensures
        spec_visual_binds(bs.take(i + 1)) =~= spec_visual_binds(bs.take(i))
            + spec_visual_binding(bs[i]),
    decreases i,
{
    if i == 0 {
        assert(bs.take(1)[0] == bs[0]);
        assert(bs.take(1).subrange(1, 1) =~= Seq::<BindingV>::empty());
        assert(bs.take(0) =~= Seq::<BindingV>::empty());
    } else {
        let t = bs.subrange(1, bs.len() as int);
        assert(bs.take(i + 1)[0] == bs[0]);
        assert(bs.take(i)[0] == bs[0]);
        assert(bs.take(i + 1).subrange(1, i + 1) =~= t.take(i));
        assert(bs.take(i).subrange(1, i) =~= t.take(i - 1));
        assert(t[i - 1] == bs[i]);
        lemma_visual_binds_take(t, i - 1);
    }
}

/// The digit character of a value below ten.
fn digit_text(d: u32) -> (r: &'static str)
    requires
        d < 10,
    ensures
        r@ =~= seq![digit_char(d as int)],
{
    proof {
        reveal_strlit("0");
        reveal_strlit("1");
        reveal_strlit("2");
        reveal_strlit("3");
        reveal_strlit("4");
        reveal_strlit("5");
        reveal_strlit("6");
        reveal_strlit("7");
        reveal_strlit("8");
        reveal_strlit("9");
    }
    if d == 0 { "0" }
    else if d == 1 { "1" }
    else if d == 2 { "2" }
    else if d == 3 { "3" }
    else if d == 4 { "4" }
    else if d == 5 { "5" }
    else if d == 6 { "6" }
    else if d == 7 { "7" }
    else if d == 8 { "8" }
    else { "9" }
}

/// The decimal text of a nonnegative value.
#[verifier::loop_isolation(false)]
fn nat_string(mag: u32) -> (r: String)
    ensures
        r@ =~= nat_text(mag as int),
{
    let mut s = String::from_str(digit_text(mag % 10));
    let mut m = mag / 10;
    proof {
        if m == 0 {
            assert(mag < 10);
            assert(nat_text(mag as int) == seq![digit_char(mag as int)]);
            assert(mag % 10 == mag as int);
        }
    }
    while m > 0
        invariant
            m == 0 ==> s@ =~= nat_text(mag as int),
            m > 0 ==> nat_text(mag as int) =~= nat_text(m as int) + s@,
        decreases m,
    {
        let d = m % 10;
        s = String::from_str(digit_text(d)).concat(s.as_str());
        m = m / 10;
    }
    s
}

/// The decimal text of an `i32`, with a leading `-` when negative.
fn int_string(n: i32) -> (r: String)
    ensures
        r@ =~= int_text(n as int),
{
    if n >= 0 {
        nat_string(n as u32)
    } else {
        let mag = (-(n as i64)) as u32;
        proof {
            reveal_strlit("-");
        }
        let t = nat_string(mag);
        String::from_str("-").concat(t.as_str())
    }
}

/// Visualizes an expression: exactly its canonical text.
#[verifier::loop_isolation(false)]
pub fn visualize(e: &Expression) -> (r: String)
    ensures
        r@ == spec_visual(e@),
    decreases *e,
{
    proof {
        reveal_strlit("(+ ");
        reveal_strlit("(- ");
        reveal_strlit(" ");
        reveal_strlit(")");
        reveal_strlit("(");
        reveal_strlit("(read)");
        reveal_strlit("(let (");
        reveal_strlit(") ");
    }
    match e {
        Expression::LInt(li) => match li {
            LInt::Number(n) => int_string(*n),
            LInt::Add(a, b) => {
                let mut s = String::from_str("(+ ");
                let ta = visualize(a);
                s.append(ta.as_str());
                s.append(" ");
                let tb = visualize(b);
                s.append(tb.as_str());
                s.append(")");
                proof {
                    assert(s@ =~= spec_visual(e@));
                }
                s
            },
            LInt::Subtract(a, b) => {
                let mut s = String::from_str("(- ");
                let ta = visualize(a);
                s.append(ta.as_str());
                s.append(" ");
                let tb = visualize(b);
                s.append(tb.as_str());
                s.append(")");
                proof {
                    assert(s@ =~= spec_visual(e@));
                }
                s
            },
            LInt::Read() => {
                let s = String::from_str("(read)");
                proof {
                    assert(s@ =~= spec_visual(e@));
                }
                s
            },
        },
        Expression::LVar(lv) => match lv {
            LVar::Var(name) => name.clone(),
            LVar::Let(bs, body) => {
                let ghost bv = binding_views(bs@);
                proof {
                    lemma_binding_views_props(bs@);
                    assert(bv.take(0) =~= Seq::<BindingV>::empty());
                }
                let mut s = String::from_str("(let (");
                let count = bs.len();
                let mut i: usize = 0;
                while i < count
                    invariant
                        i <= count,
                        s@ =~= seq!['(', 'l', 'e', 't', ' ', '('] + spec_visual_binds(
                            bv.take(i as int),
                        ),
                    decreases count - i,
                {
                    s.append("(");
                    s.append(bs[i].name.as_str());
                    s.append(" ");
                    let tv = visualize(&bs[i].value);
                    s.append(tv.as_str());
                    s.append(")");
                    proof {
                        lemma_visual_binds_take(bv, i as int);
                        assert(s@ =~= seq!['(', 'l', 'e', 't', ' ', '('] + spec_visual_binds(
                            bv.take(i + 1),
                        ));
                    }
                    i = i + 1;
                }
                proof {
                    assert(bv.take(count as int) =~= bv);
                }
                s.append(") ");
                let tb = visualize(body);
                s.append(tb.as_str());
                s.append(")");
                proof {
                    assert(s@ =~= spec_visual(e@));
                }
                s
            },
        },
    }
}

} // verus!
