//! The parser: tokens to an abstract syntax tree, by single-cursor
//! recursive descent with one token of lookahead. `spec_parse_expr` is the
//! mathematical parser: it gives the parsed tree and the number of tokens
//! consumed, or `None` on any structural defect. The executable parser
//! returns `Ok` exactly when the mathematical parser accepts, and then
//! returns exactly its tree.
//!
//! Grammar:
//! ```text
//! expr    := NUMBER | IDENT | '(' 'let' '(' binding* ')' expr ')' | '(' HEAD expr* ')'
//! binding := '(' IDENT expr ')'
//! ```
//! where `HEAD` is `+` or `-` (exactly two arguments) or `read` (exactly
//! zero arguments).

use vstd::prelude::*;
use vstd::string::StringExecFns;

use crate::ast::Binding;
use crate::ast::BindingV;
use crate::ast::Expression;
use crate::ast::ExprV;
use crate::ast::LInt;
use crate::ast::LVar;
use crate::ast::Token;
use crate::ast::TokenV;
use crate::ast::binding_views;
use crate::ast::expr_views;
use crate::ast::token_views;

verus! {

broadcast use vstd::std_specs::vec::group_vec_axioms, vstd::seq::group_seq_axioms;

/// The parse-level error: any structural grammar violation aborts the
/// whole parse with this kind.
#[derive(Debug, PartialEq)]
pub enum ParseError {
    MalformedInput,
}

/// The characters of the keyword `let`.
pub open spec fn let_text() -> Seq<char> {
    seq!['l', 'e', 't']
}

/// The characters of the operator `+`.
pub open spec fn plus_text() -> Seq<char> {
    seq!['+']
}

/// The characters of the operator `-`.
pub open spec fn minus_text() -> Seq<char> {
    seq!['-']
}

/// The characters of the operator `read`.
pub open spec fn read_text() -> Seq<char> {
    seq!['r', 'e', 'a', 'd']
}

/// The mathematical parser for one expression: the tree and the number of
/// tokens consumed, or `None` when the tokens do not begin with a valid
/// expression.
pub open spec fn spec_parse_expr(ts: Seq<TokenV>) -> Option<(ExprV, nat)>
    decreases ts.len(), 1int,
{
    if ts.len() == 0 {
        None
    } else {
        match ts[0] {
            TokenV::Number(n) => Some((ExprV::Num(n), 1nat)),
            TokenV::Identifier(s) => Some((ExprV::Var(s), 1nat)),
            TokenV::LParen => {
                if ts.len() < 2 {
                    None
                } else {
                    match ts[1] {
                        TokenV::Identifier(h) => {
                            if h == let_text() {
                                spec_parse_let(ts)
                            } else {
                                match spec_parse_args(ts.skip(2)) {
                                    Some((args, na)) => {
                                        if h == plus_text() && args.len() == 2 {
                                            Some((
                                                ExprV::Add(Box::new(args[0]), Box::new(args[1])),
                                                (2 + na) as nat,
                                            ))
                                        } else if h == minus_text() && args.len() == 2 {
                                            Some((
                                                ExprV::Sub(Box::new(args[0]), Box::new(args[1])),
                                                (2 + na) as nat,
                                            ))
                                        } else if h == read_text() && args.len() == 0 {
                                            Some((ExprV::Read, (2 + na) as nat))
                                        } else {
                                            None
                                        }
                                    },
                                    None => None,
                                }
                            }
                        },
                        _ => None,
                    }
                }
            },
            _ => None,
        }
    }
}

/// The mathematical parser for a `let` form, starting at its opening
/// parenthesis.
pub open spec fn spec_parse_let(ts: Seq<TokenV>) -> Option<(ExprV, nat)>
    decreases ts.len(), 0int,
{
    if ts.len() >= 3 && (ts[2] matches TokenV::LParen) {
        match spec_parse_bindings(ts.skip(3)) {
            Some((bs, nb)) => {
                if 3 + nb >= ts.len() {
                    None
                } else {
                    match spec_parse_expr(ts.skip(3 + nb as int)) {
                        Some((body, mb)) => {
                            let end = 3 + nb + mb;
                            if end < ts.len() && (ts[end as int] matches TokenV::RParen) {
                                Some((ExprV::Let(bs, Box::new(body)), (end + 1) as nat))
                            } else {
                                None
                            }
                        },
                        None => None,
                    }
                }
            },
            None => None,
        }
    } else {
        None
    }
}

/// The mathematical parser for an argument list: expressions up to and
/// including the closing parenthesis.
pub open spec fn spec_parse_args(ts: Seq<TokenV>) -> Option<(Seq<ExprV>, nat)>
    decreases ts.len(), 2int,
{
    if ts.len() == 0 {
        None
    } else if (ts[0] matches TokenV::RParen) {
        Some((Seq::empty(), 1nat))
    } else {
        match spec_parse_expr(ts) {
            Some((v, n)) => {
                if n == 0 || n > ts.len() {
                    None
                } else {
                    match spec_parse_args(ts.skip(n as int)) {
                        Some((rest, nr)) => Some((seq![v] + rest, (n + nr) as nat)),
                        None => None,
                    }
                }
            },
            None => None,
        }
    }
}

/// The mathematical parser for a binding list: `(name value)` groups up to
/// and including the closing parenthesis.
pub open spec fn spec_parse_bindings(ts: Seq<TokenV>) -> Option<(Seq<BindingV>, nat)>
    decreases ts.len(), 2int,
{
    if ts.len() == 0 {
        None
    } else if (ts[0] matches TokenV::RParen) {
        Some((Seq::empty(), 1nat))
    } else if (ts[0] matches TokenV::LParen) {
        if ts.len() < 2 {
            None
        } else {
            match ts[1] {
                TokenV::Identifier(name) => {
                    match spec_parse_expr(ts.skip(2)) {
                        Some((v, m)) => {
                            let end = 2 + m;
                            if end < ts.len() && (ts[end as int] matches TokenV::RParen) {
                                match spec_parse_bindings(ts.skip(end as int + 1)) {
                                    Some((rest, nr)) => Some((
                                        seq![BindingV { name: name, value: v }] + rest,
                                        (end + 1 + nr) as nat,
                                    )),
                                    None => None,
                                }
                            } else {
                                None
                            }
                        },
                        None => None,
                    }
                },
                _ => None,
            }
        }
    } else {
        None
    }
}

/// Appending a binding to a vector appends its view to the views.
pub proof fn lemma_binding_views_push(bs: Seq<Binding>, b: Binding)
    ensures
        binding_views(bs.push(b)) =~= binding_views(bs) + seq![b@],
    decreases bs.len(),
{
    if bs.len() == 0 {
        assert(bs.push(b)[0] == b);
        assert(bs.push(b).subrange(1, 1) =~= Seq::<Binding>::empty());
        assert(binding_views(bs.push(b).subrange(1, 1)) =~= Seq::<BindingV>::empty());
        assert(binding_views(bs) =~= Seq::<BindingV>::empty());
    } else {
        assert(bs.push(b)[0] == bs[0]);
        assert(bs.push(b).subrange(1, bs.len() as int + 1) =~= bs.subrange(
            1,
            bs.len() as int,
        ).push(b));
        lemma_binding_views_push(bs.subrange(1, bs.len() as int), b);
    }
}

/// Appending an expression to a vector appends its view to the views.
pub proof fn lemma_expr_views_push(es: Seq<Expression>, e: Expression)
    ensures
        expr_views(es.push(e)) =~= expr_views(es) + seq![e@],
{
}

/// Takes tokens and returns the expression they spell, or `MalformedInput`
/// when no expression starts at the first token. Tokens after the first
/// expression are ignored.
pub fn parse(tokens: &[Token]) -> (r: Result<Expression, ParseError>)
    ensures
        match spec_parse_expr(token_views(tokens@)) {
            Some(p) => r matches Ok(e) && e@ == p.0,
            None => r == Err::<Expression, ParseError>(ParseError::MalformedInput),
        },
{
    proof {
        assert(token_views(tokens@).skip(0) =~= token_views(tokens@));
    }
    match parse_expression(tokens, 0) {
        Ok((e, _)) => Ok(e),
        Err(err) => Err(err),
    }
}

/// Parses one number token into a literal node.
pub fn parse_number(tokens: &[Token], pos: usize) -> (r: Result<(Expression, usize), ParseError>)
    requires
        pos < tokens@.len(),
    ensures
        match tokens@[pos as int] {
            Token::Number(n) => r matches Ok(p) && p.0@ == ExprV::Num(n as int) && p.1 == pos + 1,
            _ => r == Err::<(Expression, usize), ParseError>(ParseError::MalformedInput),
        },
{
    match &tokens[pos] {
        Token::Number(n) => Ok((Expression::LInt(LInt::Number(*n)), pos + 1)),
        _ => Err(ParseError::MalformedInput),
    }
}

/// Parses one identifier token into a variable node.
pub fn parse_identifier(tokens: &[Token], pos: usize) -> (r: Result<
    (Expression, usize),
    ParseError,
>)
    requires
        pos < tokens@.len(),
    ensures
        match tokens@[pos as int] {
            Token::Identifier(s) => r matches Ok(p) && p.0@ == ExprV::Var(s@) && p.1 == pos + 1,
            _ => r == Err::<(Expression, usize), ParseError>(ParseError::MalformedInput),
        },
{
    match &tokens[pos] {
        Token::Identifier(id) => Ok((Expression::LVar(LVar::Var(id.clone())), pos + 1)),
        _ => Err(ParseError::MalformedInput),
    }
}

/// Parses one expression starting at `pos`: returns the node and the
/// cursor after it exactly when the mathematical parser accepts there.
pub fn parse_expression(tokens: &[Token], pos: usize) -> (r: Result<
    (Expression, usize),
    ParseError,
>)
    requires
        pos <= tokens@.len(),
    ensures
        match spec_parse_expr(token_views(tokens@).skip(pos as int)) {
            Some(p) => r matches Ok(q) && q.0@ == p.0 && q.1 == pos + p.1 && pos < q.1
                <= tokens@.len(),
            None => r == Err::<(Expression, usize), ParseError>(ParseError::MalformedInput),
        },
    decreases tokens@.len() - pos, 2int,
{
    let n = tokens.len();
    let ghost tv = token_views(tokens@).skip(pos as int);
    if pos >= n {
        return Err(ParseError::MalformedInput);
    }
    proof {
        assert(tv[0] == tokens@[pos as int]@);
    }
    match &tokens[pos] {
        Token::Number(_) => parse_number(tokens, pos),
        Token::Identifier(_) => parse_identifier(tokens, pos),
        Token::LParen => {
            if n - pos == 1 {
                return Err(ParseError::MalformedInput);
            }
            proof {
                assert(tv[1] == tokens@[pos + 1]@);
            }
            match &tokens[pos + 1] {
                Token::Identifier(head) => {
                    let is_let = *head == String::from_str("let");
                    proof {
                        reveal_strlit("let");
                        assert(("let")@ =~= let_text());
                    }
                    if is_let {
                        parse_let(tokens, pos)
                    } else {
                        parse_call(tokens, pos)
                    }
                },
                _ => Err(ParseError::MalformedInput),
            }
        },
        _ => Err(ParseError::MalformedInput),
    }
}

/// Parses the binding list of a `let`, starting just after its opening
/// parenthesis, up to and including the closing parenthesis.
fn parse_bindings_list(tokens: &[Token], start: usize) -> (r: Result<
    (Vec<Binding>, usize),
    ParseError,
>)
    requires
        start <= tokens@.len(),
    ensures
        match spec_parse_bindings(token_views(tokens@).skip(start as int)) {
            Some(p) => r matches Ok(rp) && binding_views(rp.0@) == p.0 && rp.1 == start + p.1
                && start < rp.1 <= tokens@.len(),
            None => r == Err::<(Vec<Binding>, usize), ParseError>(ParseError::MalformedInput),
        },
    decreases tokens@.len() - start, 3int,
{
    let n = tokens.len();
    let ghost full = token_views(tokens@);
    let ghost bts = full.skip(start as int);
    let mut bindings: Vec<Binding> = Vec::new();
    let mut q: usize = start;
    proof {
        assert(binding_views(bindings@) =~= Seq::<BindingV>::empty());
        assert(full.skip(q as int) =~= bts);
        assert(binding_views(bindings@) + Seq::<BindingV>::empty() =~= binding_views(bindings@));
    }
    loop
        invariant
            n == tokens@.len(),
            start <= q <= tokens@.len(),
            full == token_views(tokens@),
            bts == full.skip(start as int),
            match spec_parse_bindings(full.skip(q as int)) {
                Some(p) => spec_parse_bindings(bts) == Some(
                    (binding_views(bindings@) + p.0, ((q - start) + p.1) as nat),
                ),
                None => spec_parse_bindings(bts) is None,
            },
        ensures
            start <= q < tokens@.len(),
            tokens@[q as int] matches Token::RParen,
            spec_parse_bindings(bts) == Some((binding_views(bindings@), (q + 1 - start) as nat)),
        decreases tokens@.len() - q,
    {
        let ghost rem = full.skip(q as int);
        if q >= n {
            proof {
                assert(rem.len() == 0);
            }
            return Err(ParseError::MalformedInput);
        }
        proof {
            assert(rem[0] == tokens@[q as int]@);
        }
        let is_rp = match &tokens[q] {
            Token::RParen => true,
            _ => false,
        };
        if is_rp {
            proof {
                assert(spec_parse_bindings(rem) == Some((Seq::<BindingV>::empty(), 1nat)));
                assert(binding_views(bindings@) + Seq::<BindingV>::empty() =~= binding_views(
                    bindings@,
                ));
            }
            break;
        }
        let is_lp = match &tokens[q] {
            Token::LParen => true,
            _ => false,
        };
        if !is_lp {
            proof {
                assert(spec_parse_bindings(rem) is None);
            }
            return Err(ParseError::MalformedInput);
        }
        if n - q == 1 {
            proof {
                assert(spec_parse_bindings(rem) is None);
            }
            return Err(ParseError::MalformedInput);
        }
        proof {
            assert(rem[1] == tokens@[q + 1]@);
        }
        let name = match &tokens[q + 1] {
            Token::Identifier(id) => id.clone(),
            _ => {
                proof {
                    assert(spec_parse_bindings(rem) is None);
                }
                return Err(ParseError::MalformedInput);
            },
        };
        proof {
            assert(rem.skip(2) =~= full.skip(q + 2));
        }
        let parsed = match parse_expression(tokens, q + 2) {
            Ok(p) => p,
            Err(_) => {
                proof {
                    assert(spec_parse_bindings(rem) is None);
                }
                return Err(ParseError::MalformedInput);
            },
        };
        let (vexpr, vp) = parsed;
        if vp >= n {
            proof {
                assert(spec_parse_bindings(rem) is None);
            }
            return Err(ParseError::MalformedInput);
        }
        proof {
            assert(rem[(2 + (vp - (q + 2))) as int] == tokens@[vp as int]@);
        }
        let closed = match &tokens[vp] {
            Token::RParen => true,
            _ => false,
        };
        if !closed {
            proof {
                assert(spec_parse_bindings(rem) is None);
            }
            return Err(ParseError::MalformedInput);
        }
        let b = Binding { name, value: vexpr };
        let ghost prev = bindings@;
        let ghost bv = b@;
        bindings.push(b);
        proof {
            let m = (vp - (q + 2)) as nat;
            let end = 2 + m;
            assert(bindings@ == prev.push(bindings@.last()));
            assert(bv == bindings@.last()@);
            assert(rem.skip(end as int + 1) =~= full.skip(vp + 1));
            lemma_binding_views_push(prev, bindings@.last());
            assert(binding_views(bindings@) =~= binding_views(prev) + seq![bv]);
            match spec_parse_bindings(full.skip(vp + 1)) {
                Some(p) => {
                    assert(spec_parse_bindings(rem) == Some(
                        (seq![bv] + p.0, (end + 1 + p.1) as nat),
                    ));
                    assert(spec_parse_bindings(bts) == Some(
                        (
                            binding_views(prev) + (seq![bv] + p.0),
                            ((q - start) + (end + 1 + p.1)) as nat,
                        ),
                    ));
                    assert(binding_views(bindings@) + p.0 =~= binding_views(prev) + (seq![bv]
                        + p.0));
                    assert(spec_parse_bindings(bts) == Some(
                        (binding_views(bindings@) + p.0, (((vp + 1) - start) + p.1) as nat),
                    ));
                },
                None => {
                    assert(spec_parse_bindings(rem) is None);
                },
            }
        }
        q = vp + 1;
    }
    Ok((bindings, q + 1))
}

/// Parses an argument list, starting just after the call head, up to and
/// including the closing parenthesis.
fn parse_args_list(tokens: &[Token], start: usize) -> (r: Result<
    (Vec<Expression>, usize),
    ParseError,
>)
    requires
        start <= tokens@.len(),
    ensures
        match spec_parse_args(token_views(tokens@).skip(start as int)) {
            Some(p) => r matches Ok(rp) && expr_views(rp.0@) == p.0 && rp.1 == start + p.1 && start
                < rp.1 <= tokens@.len(),
            None => r == Err::<(Vec<Expression>, usize), ParseError>(ParseError::MalformedInput),
        },
    decreases tokens@.len() - start, 3int,
{
    let n = tokens.len();
    let ghost full = token_views(tokens@);
    let ghost ats = full.skip(start as int);
    let mut args: Vec<Expression> = Vec::new();
    let mut q: usize = start;
    proof {
        assert(expr_views(args@) =~= Seq::<ExprV>::empty());
        assert(full.skip(q as int) =~= ats);
        assert(expr_views(args@) + Seq::<ExprV>::empty() =~= expr_views(args@));
    }
    loop
        invariant
            n == tokens@.len(),
            start <= q <= tokens@.len(),
            full == token_views(tokens@),
            ats == full.skip(start as int),
            match spec_parse_args(full.skip(q as int)) {
                Some(p) => spec_parse_args(ats) == Some(
                    (expr_views(args@) + p.0, ((q - start) + p.1) as nat),
                ),
                None => spec_parse_args(ats) is None,
            },
        ensures
            start <= q < tokens@.len(),
            tokens@[q as int] matches Token::RParen,
            spec_parse_args(ats) == Some((expr_views(args@), (q + 1 - start) as nat)),
        decreases tokens@.len() - q,
    {
        let ghost rem = full.skip(q as int);
        if q >= n {
            proof {
                assert(rem.len() == 0);
            }
            return Err(ParseError::MalformedInput);
        }
        proof {
            assert(rem[0] == tokens@[q as int]@);
        }
        let is_rp = match &tokens[q] {
            Token::RParen => true,
            _ => false,
        };
        if is_rp {
            proof {
                assert(spec_parse_args(rem) == Some((Seq::<ExprV>::empty(), 1nat)));
                assert(expr_views(args@) + Seq::<ExprV>::empty() =~= expr_views(args@));
            }
            break;
        }
        let parsed = match parse_expression(tokens, q) {
            Ok(p) => p,
            Err(_) => {
                proof {
                    assert(spec_parse_args(rem) is None);
                }
                return Err(ParseError::MalformedInput);
            },
        };
        let (aexpr, ap) = parsed;
        args.push(aexpr);
        proof {
            let n = (ap - q) as nat;
            assert(rem.skip(n as int) =~= full.skip(ap as int));
            lemma_expr_views_push(args@.drop_last(), args@.last());
            assert(args@.drop_last().push(args@.last()) =~= args@);
            match spec_parse_args(full.skip(ap as int)) {
                Some(p) => {
                    assert(spec_parse_args(rem) == Some(
                        (seq![args@.last()@] + p.0, (n + p.1) as nat),
                    ));
                    assert(expr_views(args@) + p.0 =~= expr_views(args@.drop_last()) + (seq![
                        args@.last()@,
                    ] + p.0));
                },
                None => {
                    assert(spec_parse_args(rem) is None);
                },
            }
        }
        q = ap;
    }
    Ok((args, q + 1))
}

/// Parses a `let` form whose opening parenthesis stands at `pos`.
fn parse_let(tokens: &[Token], pos: usize) -> (r: Result<(Expression, usize), ParseError>)
    requires
        pos + 1 < tokens@.len(),
        tokens@[pos as int] matches Token::LParen,
        tokens@[pos + 1] matches Token::Identifier(h) && h@ == let_text(),
    ensures
        match spec_parse_expr(token_views(tokens@).skip(pos as int)) {
            Some(p) => r matches Ok(q) && q.0@ == p.0 && q.1 == pos + p.1 && pos < q.1
                <= tokens@.len(),
            None => r == Err::<(Expression, usize), ParseError>(ParseError::MalformedInput),
        },
    decreases tokens@.len() - pos, 1int,
{
    let n = tokens.len();
    let ghost full = token_views(tokens@);
    let ghost tv = full.skip(pos as int);
    proof {
        assert(tv[0] == tokens@[pos as int]@);
        assert(tv[1] == tokens@[pos + 1]@);
        assert(spec_parse_expr(tv) == spec_parse_let(tv));
    }
    if n - pos == 2 {
        return Err(ParseError::MalformedInput);
    }
    proof {
        assert(tv[2] == tokens@[pos + 2]@);
    }
    let opened = match &tokens[pos + 2] {
        Token::LParen => true,
        _ => false,
    };
    if !opened {
        return Err(ParseError::MalformedInput);
    }
    proof {
        assert(tv.skip(3) =~= full.skip(pos + 3));
    }
    let listed = match parse_bindings_list(tokens, pos + 3) {
        Ok(p) => p,
        Err(_) => {
            return Err(ParseError::MalformedInput);
        },
    };
    let (bindings, after_b) = listed;
    let ghost nb = (after_b - (pos + 3)) as nat;
    proof {
        assert(tv.skip(3 + nb as int) =~= full.skip(after_b as int));
    }
    if after_b >= n {
        proof {
            assert(3 + nb >= tv.len());
        }
        return Err(ParseError::MalformedInput);
    }
    let parsed_body = match parse_expression(tokens, after_b) {
        Ok(p) => p,
        Err(_) => {
            return Err(ParseError::MalformedInput);
        },
    };
    let (bexpr, bp) = parsed_body;
    if bp >= n {
        return Err(ParseError::MalformedInput);
    }
    proof {
        assert(tv[(bp - pos) as int] == tokens@[bp as int]@);
    }
    let closed = match &tokens[bp] {
        Token::RParen => true,
        _ => false,
    };
    if !closed {
        return Err(ParseError::MalformedInput);
    }
    let e = Expression::LVar(LVar::Let(bindings, Box::new(bexpr)));
    Ok((e, bp + 1))
}

/// Parses a call form — `+`, `-` or `read` with its arguments — whose
/// opening parenthesis stands at `pos`.
fn parse_call(tokens: &[Token], pos: usize) -> (r: Result<(Expression, usize), ParseError>)
    requires
        pos + 1 < tokens@.len(),
        tokens@[pos as int] matches Token::LParen,
        tokens@[pos + 1] matches Token::Identifier(h) && h@ != let_text(),
    ensures
        match spec_parse_expr(token_views(tokens@).skip(pos as int)) {
            Some(p) => r matches Ok(q) && q.0@ == p.0 && q.1 == pos + p.1 && pos < q.1
                <= tokens@.len(),
            None => r == Err::<(Expression, usize), ParseError>(ParseError::MalformedInput),
        },
    decreases tokens@.len() - pos, 1int,
{
    let n = tokens.len();
    let ghost full = token_views(tokens@);
    let ghost tv = full.skip(pos as int);
    proof {
        assert(tv[0] == tokens@[pos as int]@);
        assert(tv[1] == tokens@[pos + 1]@);
        assert(tv.skip(2) =~= full.skip(pos + 2));
    }
    let listed = match parse_args_list(tokens, pos + 2) {
        Ok(p) => p,
        Err(_) => {
            return Err(ParseError::MalformedInput);
        },
    };
    let (mut args, after) = listed;
    let ghost argsv = expr_views(args@);
    let ghost na = (after - (pos + 2)) as nat;
    // Dispatch on the call head with the collected arguments.
    let head = match &tokens[pos + 1] {
        Token::Identifier(id) => id.clone(),
        _ => {
            return Err(ParseError::MalformedInput);
        },
    };
    let is_plus = head == String::from_str("+");
    let is_minus = head == String::from_str("-");
    let is_read = head == String::from_str("read");
    proof {
        reveal_strlit("+");
        reveal_strlit("-");
        reveal_strlit("read");
        assert(("+")@ =~= plus_text());
        assert(("-")@ =~= minus_text());
        assert(("read")@ =~= read_text());
    }
    if (is_plus || is_minus) && args.len() == 2 {
        let ghost orig = args@;
        let b = match args.pop() {
            Some(e) => e,
            None => {
                return Err(ParseError::MalformedInput);
            },
        };
        let a = match args.pop() {
            Some(e) => e,
            None => {
                return Err(ParseError::MalformedInput);
            },
        };
        proof {
            assert(orig =~= args@.push(a).push(b));
            assert(orig[0] == a);
            assert(orig[1] == b);
            assert(argsv[0] == a@);
            assert(argsv[1] == b@);
        }
        let e = if is_plus {
            Expression::LInt(LInt::Add(Box::new(a), Box::new(b)))
        } else {
            Expression::LInt(LInt::Subtract(Box::new(a), Box::new(b)))
        };
        Ok((e, after))
    } else if is_read && args.len() == 0 {
        let e = Expression::LInt(LInt::Read());
        Ok((e, after))
    } else {
        Err(ParseError::MalformedInput)
    }
}

} // verus!
