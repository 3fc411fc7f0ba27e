//! The round-trip laws: printing an expression and reading it back gives
//! the expression again. `tokens_of` is the canonical token sequence of
//! an expression — the tokens its canonical text scans to — and the
//! parser inverts it exactly.

use vstd::prelude::*;

use crate::ast::BindingV;
use crate::ast::ExprV;
use crate::ast::TokenV;
use crate::lexer::digit_run;
use crate::lexer::ident_run;
use crate::lexer::is_ident_char;
use crate::lexer::lemma_digit_run_eq;
use crate::lexer::lemma_digit_run_le_len;
use crate::lexer::lemma_ident_run_eq;
use crate::lexer::lemma_ident_run_le_len;
use crate::lexer::lemma_run_chars_digit;
use crate::lexer::lemma_run_chars_ident;
use crate::lexer::spec_scan;
use crate::lexer::spec_tokenize;
use crate::numeral::is_digit;
use crate::numeral::int_text;
use crate::numeral::lemma_nat_text_value;
use crate::numeral::nat_text;
use crate::parser::let_text;
use crate::visual::spec_visual;
use crate::visual::spec_visual_binding;
use crate::visual::spec_visual_binds;
use crate::parser::minus_text;
use crate::parser::plus_text;
use crate::parser::read_text;
use crate::parser::spec_parse_args;
use crate::parser::spec_parse_bindings;
use crate::parser::spec_parse_expr;
use crate::parser::spec_parse_let;

verus! {

broadcast use vstd::seq::group_seq_axioms;

/// The canonical token sequence of an expression: what its canonical
/// text scans to, without the end sentinel.
pub open spec fn tokens_of(e: ExprV) -> Seq<TokenV>
    decreases e,
{
    match e {
        ExprV::Num(n) => seq![TokenV::Number(n)],
        ExprV::Add(a, b) => seq![TokenV::LParen, TokenV::Identifier(plus_text())] + tokens_of(*a)
            + tokens_of(*b) + seq![TokenV::RParen],
        ExprV::Sub(a, b) => seq![TokenV::LParen, TokenV::Identifier(minus_text())] + tokens_of(*a)
            + tokens_of(*b) + seq![TokenV::RParen],
        ExprV::Read => seq![
            TokenV::LParen,
            TokenV::Identifier(read_text()),
            TokenV::RParen,
        ],
        ExprV::Let(bs, body) => seq![
            TokenV::LParen,
            TokenV::Identifier(let_text()),
            TokenV::LParen,
        ] + tokens_of_binds(bs) + seq![TokenV::RParen] + tokens_of(*body) + seq![TokenV::RParen],
        ExprV::Var(s) => seq![TokenV::Identifier(s)],
    }
}

/// The canonical token sequence of a binding list.
pub open spec fn tokens_of_binds(bs: Seq<BindingV>) -> Seq<TokenV>
    decreases bs,
{
    if bs.len() == 0 {
        Seq::empty()
    } else {
        seq![TokenV::LParen, TokenV::Identifier(bs[0].name)] + tokens_of(bs[0].value) + seq![
            TokenV::RParen,
        ] + tokens_of_binds(bs.subrange(1, bs.len() as int))
    }
}

/// Every expression's token sequence is nonempty and starts with a
/// number, an identifier, or an opening parenthesis.
proof fn lemma_tokens_of_first(e: ExprV)
    ensures
        tokens_of(e).len() >= 1,
        !(tokens_of(e)[0] matches TokenV::RParen),
        !(tokens_of(e)[0] matches TokenV::EndOfFile),
{
    match e {
        ExprV::Num(_) => {},
        ExprV::Add(_, _) => {},
        ExprV::Sub(_, _) => {},
        ExprV::Read => {},
        ExprV::Let(_, _) => {},
        ExprV::Var(_) => {},
    }
}

/// The parser inverts the printer at the token level: an expression's
/// canonical tokens, followed by anything, parse back to exactly that
/// expression, consuming exactly those tokens.
#[verifier::spinoff_prover]
pub proof fn lemma_parse_tokens_of(e: ExprV, rest: Seq<TokenV>)
    ensures
        spec_parse_expr(tokens_of(e) + rest) == Some((e, tokens_of(e).len() as nat)),
    decreases e, 1int,
{
    let ts = tokens_of(e) + rest;
    match e {
        ExprV::Num(n) => {
            assert(ts[0] == TokenV::Number(n));
        },
        ExprV::Var(s) => {
            assert(ts[0] == TokenV::Identifier(s));
        },
        ExprV::Read => {
            assert(ts[0] == TokenV::LParen);
            assert(ts[1] == TokenV::Identifier(read_text()));
            assert(read_text() != let_text());
            assert(ts.skip(2) =~= seq![TokenV::RParen] + rest);
            assert(spec_parse_args(ts.skip(2)) == Some((Seq::<ExprV>::empty(), 1nat)));
        },
        ExprV::Add(_, _) => {
            lemma_parse_tokens_of_add(e, rest);
        },
        ExprV::Sub(_, _) => {
            lemma_parse_tokens_of_sub(e, rest);
        },
        ExprV::Let(_, _) => {
            lemma_parse_tokens_of_let(e, rest);
        },
    }
}

/// The sum case of `lemma_parse_tokens_of`.
#[verifier::rlimit(100)]
#[verifier::spinoff_prover]
proof fn lemma_parse_tokens_of_add(e: ExprV, rest: Seq<TokenV>)
    requires
        e matches ExprV::Add(_, _),
    ensures
        spec_parse_expr(tokens_of(e) + rest) == Some((e, tokens_of(e).len() as nat)),
    decreases e, 0int,
{
    let ts = tokens_of(e) + rest;
    match e {
        ExprV::Add(a, b) => {
            assert(ts[0] == TokenV::LParen);
            assert(ts[1] == TokenV::Identifier(plus_text()));
            assert(plus_text() != let_text());

            lemma_tokens_of_first(*a);
            lemma_tokens_of_first(*b);
            lemma_parse_tokens_of(*a, tokens_of(*b) + seq![TokenV::RParen] + rest);
            lemma_parse_tokens_of(*b, seq![TokenV::RParen] + rest);
            let na = tokens_of(*a).len() as nat;
            let nb = tokens_of(*b).len() as nat;
            let ats = ts.skip(2);
            assert(ats =~= tokens_of(*a) + (tokens_of(*b) + seq![TokenV::RParen] + rest));
            assert(spec_parse_expr(ats) == Some((*a, na)));
            assert(ats[0] == tokens_of(*a)[0]);
            assert(ats.skip(na as int) =~= tokens_of(*b) + (seq![TokenV::RParen] + rest));
            let bts = ats.skip(na as int);
            assert(spec_parse_expr(bts) == Some((*b, nb)));
            assert(bts[0] == tokens_of(*b)[0]);
            assert(bts.skip(nb as int) =~= seq![TokenV::RParen] + rest);
            assert(spec_parse_args(bts.skip(nb as int)) == Some((Seq::<ExprV>::empty(), 1nat)));
            assert(spec_parse_args(bts) == Some((seq![*b], (nb + 1) as nat)));
            assert(spec_parse_args(ats) == Some((seq![*a] + seq![*b], (na + nb + 1) as nat)));
            assert(seq![*a] + seq![*b] =~= seq![*a, *b]);
            let args = seq![*a, *b];
            assert(args[0] == *a && args[1] == *b);
            assert(ExprV::Add(Box::new(args[0]), Box::new(args[1])) == e);
            assert(2 + (na + nb + 1) == tokens_of(e).len());
        },
        _ => {},
    }
}

/// The difference case of `lemma_parse_tokens_of`.
#[verifier::rlimit(100)]
#[verifier::spinoff_prover]
proof fn lemma_parse_tokens_of_sub(e: ExprV, rest: Seq<TokenV>)
    requires
        e matches ExprV::Sub(_, _),
    ensures
        spec_parse_expr(tokens_of(e) + rest) == Some((e, tokens_of(e).len() as nat)),
    decreases e, 0int,
{
    let ts = tokens_of(e) + rest;
    match e {
        ExprV::Sub(a, b) => {
            assert(ts[0] == TokenV::LParen);
            assert(ts[1] == TokenV::Identifier(minus_text()));
            assert(minus_text() != let_text());
            assert(minus_text()[0] != plus_text()[0]);
            assert(minus_text() != plus_text());

            lemma_tokens_of_first(*a);
            lemma_tokens_of_first(*b);
            lemma_parse_tokens_of(*a, tokens_of(*b) + seq![TokenV::RParen] + rest);
            lemma_parse_tokens_of(*b, seq![TokenV::RParen] + rest);
            let na = tokens_of(*a).len() as nat;
            let nb = tokens_of(*b).len() as nat;
            let ats = ts.skip(2);
            assert(ats =~= tokens_of(*a) + (tokens_of(*b) + seq![TokenV::RParen] + rest));
            assert(spec_parse_expr(ats) == Some((*a, na)));
            assert(ats[0] == tokens_of(*a)[0]);
            assert(ats.skip(na as int) =~= tokens_of(*b) + (seq![TokenV::RParen] + rest));
            let bts = ats.skip(na as int);
            assert(spec_parse_expr(bts) == Some((*b, nb)));
            assert(bts[0] == tokens_of(*b)[0]);
            assert(bts.skip(nb as int) =~= seq![TokenV::RParen] + rest);
            assert(spec_parse_args(bts.skip(nb as int)) == Some((Seq::<ExprV>::empty(), 1nat)));
            assert(spec_parse_args(bts) == Some((seq![*b], (nb + 1) as nat)));
            assert(spec_parse_args(ats) == Some((seq![*a] + seq![*b], (na + nb + 1) as nat)));
            assert(seq![*a] + seq![*b] =~= seq![*a, *b]);
            let args = seq![*a, *b];
            assert(args[0] == *a && args[1] == *b);
            assert(ExprV::Sub(Box::new(args[0]), Box::new(args[1])) == e);
            assert(2 + (na + nb + 1) == tokens_of(e).len());
        },
        _ => {},
    }
}

/// The `let` case of `lemma_parse_tokens_of`.
#[verifier::rlimit(100)]
#[verifier::spinoff_prover]
proof fn lemma_parse_tokens_of_let(e: ExprV, rest: Seq<TokenV>)
    requires
        e matches ExprV::Let(_, _),
    ensures
        spec_parse_expr(tokens_of(e) + rest) == Some((e, tokens_of(e).len() as nat)),
    decreases e, 0int,
{
    let ts = tokens_of(e) + rest;
    match e {
        ExprV::Let(bs, body) => {
            let bt = tokens_of_binds(bs);
            let botk = tokens_of(*body);
            assert(ts[0] == TokenV::LParen);
            assert(ts[1] == TokenV::Identifier(let_text()));
            assert(ts[2] == TokenV::LParen);
            assert(ts.len() >= 3);
            assert(ts.skip(3) =~= bt + seq![TokenV::RParen] + (botk + seq![TokenV::RParen]
                + rest));
            lemma_parse_binds_tokens(bs, botk + seq![TokenV::RParen] + rest);
            let nb = (bt.len() + 1) as nat;
            assert(spec_parse_bindings(ts.skip(3)) == Some((bs, nb)));
            assert(3 + nb < ts.len());
            assert(ts.skip(3 + nb as int) =~= botk + (seq![TokenV::RParen] + rest));
            lemma_parse_tokens_of(*body, seq![TokenV::RParen] + rest);
            assert(spec_parse_expr(ts.skip(3 + nb as int)) == Some((*body, botk.len() as nat)));
            let end = 3 + nb + botk.len();
            assert(ts[end as int] == TokenV::RParen);
            assert(end < ts.len());
            assert(spec_parse_let(ts) == Some((ExprV::Let(bs, body), (end + 1) as nat)));
            assert(end + 1 == tokens_of(e).len());
        },
        _ => {},
    }
}

/// A binding list's tokens, a closing parenthesis, then anything parse
/// back to exactly those bindings.
proof fn lemma_parse_binds_tokens(bs: Seq<BindingV>, rest: Seq<TokenV>)
    ensures
        spec_parse_bindings(tokens_of_binds(bs) + seq![TokenV::RParen] + rest) == Some(
            (bs, (tokens_of_binds(bs).len() + 1) as nat),
        ),
    decreases bs,
{
    let ts = tokens_of_binds(bs) + seq![TokenV::RParen] + rest;
    if bs.len() == 0 {
        assert(ts[0] == TokenV::RParen);
        assert(bs =~= Seq::<BindingV>::empty());
    } else {
        let b0 = bs[0];
        let tail = bs.subrange(1, bs.len() as int);
        let vt = tokens_of(b0.value);
        let tt = tokens_of_binds(tail);
        assert(ts =~= seq![TokenV::LParen, TokenV::Identifier(b0.name)] + vt + seq![
            TokenV::RParen,
        ] + tt + seq![TokenV::RParen] + rest);
        assert(ts[0] == TokenV::LParen);
        assert(ts[1] == TokenV::Identifier(b0.name));
        assert(ts.skip(2) =~= vt + (seq![TokenV::RParen] + tt + seq![TokenV::RParen] + rest));
        lemma_parse_tokens_of(b0.value, seq![TokenV::RParen] + tt + seq![TokenV::RParen] + rest);
        assert(spec_parse_expr(ts.skip(2)) == Some((b0.value, vt.len() as nat)));
        let end = (2 + vt.len()) as nat;
        assert(ts[end as int] == TokenV::RParen);
        assert(end < ts.len());
        assert(ts.skip(end as int + 1) =~= tt + seq![TokenV::RParen] + rest);
        lemma_parse_binds_tokens(tail, rest);
        assert(spec_parse_bindings(ts.skip(end as int + 1)) == Some((tail, (tt.len() + 1) as nat)));
        assert(seq![BindingV { name: b0.name, value: b0.value }] + tail =~= bs);
        assert(BindingV { name: b0.name, value: b0.value } == b0);
        assert(end + 1 + (tt.len() + 1) == tokens_of_binds(bs).len() + 1);
    }
}

/// The token-level round trip: an expression's canonical tokens with the
/// end sentinel parse back to exactly that expression.
pub proof fn lemma_parse_inverts_tokens(e: ExprV)
    ensures
        spec_parse_expr(tokens_of(e).push(TokenV::EndOfFile)) == Some(
            (e, tokens_of(e).len() as nat),
        ),
{
    lemma_parse_tokens_of(e, seq![TokenV::EndOfFile]);
    assert(tokens_of(e).push(TokenV::EndOfFile) =~= tokens_of(e) + seq![TokenV::EndOfFile]);
}

/// Can two adjacent characters fuse into one longer token run?
pub open spec fn joinable(a: char, b: char) -> bool {
    (is_digit(a) && is_digit(b)) || (is_ident_char(a) && is_ident_char(b))
}

/// Is the seam between two texts safe: no run can continue across it?
pub open spec fn seam_ok(s1: Seq<char>, s2: Seq<char>) -> bool {
    s1.len() == 0 || s2.len() == 0 || !joinable(s1.last(), s2[0])
}

/// A digit run stops at a safe seam: appending text cannot lengthen it.
proof fn lemma_digit_run_append(s: Seq<char>, t: Seq<char>)
    requires
        digit_run(s) == s.len() ==> t.len() == 0 || !is_digit(t[0]),
    ensures
        digit_run(s + t) == digit_run(s),
    decreases s.len(),
{
    if s.len() == 0 {
        assert(s + t =~= t);
    } else if is_digit(s[0]) {
        let s1 = s.subrange(1, s.len() as int);
        assert((s + t)[0] == s[0]);
        assert((s + t).subrange(1, (s + t).len() as int) =~= s1 + t);
        lemma_digit_run_append(s1, t);
    } else {
        assert((s + t)[0] == s[0]);
    }
}

/// An identifier run stops at a safe seam.
proof fn lemma_ident_run_append(s: Seq<char>, t: Seq<char>)
    requires
        ident_run(s) == s.len() ==> t.len() == 0 || !is_ident_char(t[0]),
    ensures
        ident_run(s + t) == ident_run(s),
    decreases s.len(),
{
    if s.len() == 0 {
        assert(s + t =~= t);
    } else if is_ident_char(s[0]) {
        let s1 = s.subrange(1, s.len() as int);
        assert((s + t)[0] == s[0]);
        assert((s + t).subrange(1, (s + t).len() as int) =~= s1 + t);
        lemma_ident_run_append(s1, t);
    } else {
        assert((s + t)[0] == s[0]);
    }
}

/// Scanning distributes over a safe seam.
pub proof fn lemma_scan_append(s1: Seq<char>, s2: Seq<char>)
    requires
        seam_ok(s1, s2),
    ensures
        spec_scan(s1 + s2) =~= spec_scan(s1) + spec_scan(s2),
    decreases s1.len(),
{
    if s1.len() == 0 {
        assert(s1 + s2 =~= s2);
    } else {
        let w = s1 + s2;
        assert(w[0] == s1[0]);
        let t1 = s1.subrange(1, s1.len() as int);
        assert(w.subrange(1, w.len() as int) =~= t1 + s2);
        if is_digit(s1[0]) {
            lemma_run_chars_digit(t1);
            if digit_run(t1) == t1.len() {
                // The whole head of `s1` is one digit run, so the seam
                // guard says `s2` cannot continue it.
                if t1.len() > 0 {
                    assert(s1.last() == t1[t1.len() - 1]);
                }
                assert(is_digit(s1.last()));
            }
            lemma_digit_run_append(t1, s2);
            let r = 1 + digit_run(t1);
            lemma_digit_run_le_len(t1);
            assert(w.take(r as int) =~= s1.take(r as int));
            assert(w.skip(r as int) =~= s1.skip(r as int) + s2);
            if s1.skip(r as int).len() > 0 {
                assert(s1.skip(r as int).last() == s1.last());
            }
            lemma_scan_append(s1.skip(r as int), s2);
        } else if is_ident_char(s1[0]) {
            lemma_run_chars_ident(t1);
            if ident_run(t1) == t1.len() {
                if t1.len() > 0 {
                    assert(s1.last() == t1[t1.len() - 1]);
                }
                assert(is_ident_char(s1.last()));
            }
            lemma_ident_run_append(t1, s2);
            let r = 1 + ident_run(t1);
            lemma_ident_run_le_len(t1);
            assert(w.take(r as int) =~= s1.take(r as int));
            assert(w.skip(r as int) =~= s1.skip(r as int) + s2);
            if s1.skip(r as int).len() > 0 {
                assert(s1.skip(r as int).last() == s1.last());
            }
            lemma_scan_append(s1.skip(r as int), s2);
        } else {
            assert(w.skip(1) =~= s1.subrange(1, s1.len() as int) + s2);
            if t1.len() > 0 {
                assert(t1.last() == s1.last());
            }
            lemma_scan_append(t1, s2);
            assert(s1.skip(1) == t1);
        }
    }
}

/// A nonempty run of identifier characters scans to one identifier.
pub proof fn lemma_scan_ident_text(s: Seq<char>)
    requires
        s.len() >= 1,
        forall|i: int| 0 <= i < s.len() ==> is_ident_char(#[trigger] s[i]),
    ensures
        spec_scan(s) =~= seq![TokenV::Identifier(s)],
{
    lemma_ident_run_eq(s, s.len() as int);
    let t = s.subrange(1, s.len() as int);
    assert(ident_run(s) == 1 + ident_run(t));
    assert(s.take(s.len() as int) =~= s);
    assert(s.skip(s.len() as int) =~= Seq::<char>::empty());
    assert(spec_scan(Seq::<char>::empty()) =~= Seq::<TokenV>::empty());
    assert(!is_digit(s[0]));
}

/// The canonical text of a nonnegative integer scans to one number.
pub proof fn lemma_scan_number_text(n: int)
    requires
        n >= 0,
    ensures
        spec_scan(nat_text(n)) =~= seq![TokenV::Number(n)],
{
    lemma_nat_text_value(n);
    let s = nat_text(n);
    lemma_digit_run_eq(s, s.len() as int);
    let t = s.subrange(1, s.len() as int);
    assert(digit_run(s) == 1 + digit_run(t));
    assert(s.take(s.len() as int) =~= s);
    assert(s.skip(s.len() as int) =~= Seq::<char>::empty());
    assert(spec_scan(Seq::<char>::empty()) =~= Seq::<TokenV>::empty());
    assert(is_digit(s[0]));
}

/// One opening parenthesis scans to one token.
proof fn lemma_scan_lparen()
    ensures
        spec_scan(seq!['(']) =~= seq![TokenV::LParen],
{
    let s = seq!['('];
    assert(!is_digit(s[0]) && !is_ident_char(s[0]));
    assert(s.skip(1) =~= Seq::<char>::empty());
    assert(spec_scan(Seq::<char>::empty()) =~= Seq::<TokenV>::empty());
}

/// One closing parenthesis scans to one token.
proof fn lemma_scan_rparen()
    ensures
        spec_scan(seq![')']) =~= seq![TokenV::RParen],
{
    let s = seq![')'];
    assert(!is_digit(s[0]) && !is_ident_char(s[0]));
    assert(s.skip(1) =~= Seq::<char>::empty());
    assert(spec_scan(Seq::<char>::empty()) =~= Seq::<TokenV>::empty());
}

/// One space scans to nothing.
proof fn lemma_scan_space()
    ensures
        spec_scan(seq![' ']) =~= Seq::<TokenV>::empty(),
{
    let s = seq![' '];
    assert(!is_digit(s[0]) && !is_ident_char(s[0]));
    assert(s.skip(1) =~= Seq::<char>::empty());
    assert(spec_scan(Seq::<char>::empty()) =~= Seq::<TokenV>::empty());
    assert(s[0] != '(' && s[0] != ')');
}

/// A syntactically valid variable or binding name: a nonempty run of
/// identifier characters.
pub open spec fn valid_ident(s: Seq<char>) -> bool {
    s.len() >= 1 && (forall|i: int| 0 <= i < s.len() ==> is_ident_char(#[trigger] s[i]))
}

/// Is an expression printable so that scanning reads it back: literals
/// nonnegative, every name a valid identifier?
pub open spec fn wf(e: ExprV) -> bool
    decreases e,
{
    match e {
        ExprV::Num(n) => 0 <= n,
        ExprV::Add(a, b) => wf(*a) && wf(*b),
        ExprV::Sub(a, b) => wf(*a) && wf(*b),
        ExprV::Read => true,
        ExprV::Let(bs, body) => wf_binds(bs) && wf(*body),
        ExprV::Var(s) => valid_ident(s),
    }
}

/// Well-formedness of a binding list.
pub open spec fn wf_binds(bs: Seq<BindingV>) -> bool
    decreases bs,
{
    if bs.len() == 0 {
        true
    } else {
        valid_ident(bs[0].name) && wf(bs[0].value) && wf_binds(bs.subrange(1, bs.len() as int))
    }
}

/// The lexer inverts the printer: the canonical text of a well-formed
/// expression scans to exactly its canonical tokens.
pub proof fn lemma_scan_visual(e: ExprV)
    requires
        wf(e),
    ensures
        spec_scan(spec_visual(e)) =~= tokens_of(e),
    decreases e, 1int,
{
    match e {
        ExprV::Num(n) => {
            lemma_scan_number_text(n);
        },
        ExprV::Var(s) => {
            lemma_scan_ident_text(s);
        },
        ExprV::Read => {
            lemma_scan_read();
        },
        ExprV::Add(_, _) => {
            lemma_scan_visual_op(e);
        },
        ExprV::Sub(_, _) => {
            lemma_scan_visual_op(e);
        },
        ExprV::Let(_, _) => {
            lemma_scan_visual_let(e);
        },
    }
}

/// `(read)` scans to its three tokens.
proof fn lemma_scan_read()
    ensures
        spec_scan(seq!['(', 'r', 'e', 'a', 'd', ')']) =~= seq![
            TokenV::LParen,
            TokenV::Identifier(read_text()),
            TokenV::RParen,
        ],
{
    let name = read_text();
    assert(is_ident_char(name[0]));
    assert(is_ident_char(name[1]));
    assert(is_ident_char(name[2]));
    assert(is_ident_char(name[3]));
    lemma_scan_ident_text(name);
    lemma_scan_lparen();
    lemma_scan_rparen();
    assert(seq!['(', 'r', 'e', 'a', 'd', ')'] =~= seq!['('] + name + seq![')']);
    assert(seam_ok(seq!['('] + name, seq![')']));
    lemma_scan_append(seq!['('] + name, seq![')']);
    assert(seam_ok(seq!['('], name));
    lemma_scan_append(seq!['('], name);
}

/// The sum and difference cases of `lemma_scan_visual`.
#[verifier::rlimit(100)]
#[verifier::spinoff_prover]
proof fn lemma_scan_visual_op(e: ExprV)
    requires
        wf(e),
        e matches ExprV::Add(_, _) || e matches ExprV::Sub(_, _),
    ensures
        spec_scan(spec_visual(e)) =~= tokens_of(e),
    decreases e, 0int,
{
    let (a, b, op) = match e {
        ExprV::Add(a, b) => (*a, *b, '+'),
        ExprV::Sub(a, b) => (*a, *b, '-'),
        _ => (e, e, ' '),
    };
    lemma_scan_visual(a);
    lemma_scan_visual(b);
    lemma_scan_lparen();
    lemma_scan_rparen();
    lemma_scan_space();
    assert(is_ident_char(op));
    lemma_scan_ident_text(seq![op]);
    let head = seq!['(', op, ' '];
    assert(head =~= (seq!['('] + seq![op]) + seq![' ']);
    assert(seam_ok(seq!['('], seq![op]));
    lemma_scan_append(seq!['('], seq![op]);
    assert(seam_ok(seq!['('] + seq![op], seq![' ']));
    lemma_scan_append(seq!['('] + seq![op], seq![' ']);
    assert(spec_scan(head) =~= seq![TokenV::LParen, TokenV::Identifier(seq![op])]);
    let va = spec_visual(a);
    let vb = spec_visual(b);
    assert(spec_visual(e) =~= (((head + va) + seq![' ']) + vb) + seq![')']);
    assert(seam_ok(head, va));
    lemma_scan_append(head, va);
    assert((head + va).len() > 0);
    assert(seam_ok(head + va, seq![' ']));
    lemma_scan_append(head + va, seq![' ']);
    assert(((head + va) + seq![' ']).last() == ' ');
    assert(seam_ok((head + va) + seq![' '], vb));
    lemma_scan_append((head + va) + seq![' '], vb);
    assert(seam_ok(((head + va) + seq![' ']) + vb, seq![')']));
    lemma_scan_append(((head + va) + seq![' ']) + vb, seq![')']);
}

/// The `let` case of `lemma_scan_visual`.
#[verifier::rlimit(100)]
#[verifier::spinoff_prover]
proof fn lemma_scan_visual_let(e: ExprV)
    requires
        wf(e),
        e matches ExprV::Let(_, _),
    ensures
        spec_scan(spec_visual(e)) =~= tokens_of(e),
    decreases e, 0int,
{
    match e {
        ExprV::Let(bs, body) => {
            lemma_scan_visual(*body);
            lemma_scan_visual_binds(bs);
            lemma_scan_lparen();
            lemma_scan_rparen();
            lemma_scan_space();
            lemma_scan_ident_text(let_text());
            assert(is_ident_char(let_text()[0]));
            assert(is_ident_char(let_text()[1]));
            assert(is_ident_char(let_text()[2]));
            let head = seq!['(', 'l', 'e', 't', ' ', '('];
            assert(head =~= (((seq!['('] + let_text()) + seq![' ']) + seq!['(']));
            assert(seam_ok(seq!['('], let_text()));
            lemma_scan_append(seq!['('], let_text());
            assert(seam_ok(seq!['('] + let_text(), seq![' ']));
            lemma_scan_append(seq!['('] + let_text(), seq![' ']);
            assert(seam_ok((seq!['('] + let_text()) + seq![' '], seq!['(']));
            lemma_scan_append((seq!['('] + let_text()) + seq![' '], seq!['(']);
            assert(spec_scan(head) =~= seq![
                TokenV::LParen,
                TokenV::Identifier(let_text()),
                TokenV::LParen,
            ]);
            let bt = spec_visual_binds(bs);
            let vb = spec_visual(*body);
            let mid = seq![')', ' '];
            assert(mid =~= seq![')'] + seq![' ']);
            lemma_scan_append(seq![')'], seq![' ']);
            assert(spec_scan(mid) =~= seq![TokenV::RParen]);
            assert(spec_visual(e) =~= (((head + bt) + mid) + vb) + seq![')']);
            assert(seam_ok(head, bt));
            lemma_scan_append(head, bt);
            assert((head + bt).last() == if bt.len() == 0 { '(' } else { bt.last() });
            if bt.len() > 0 {
                lemma_visual_binds_last(bs);
            }
            assert(seam_ok(head + bt, mid));
            lemma_scan_append(head + bt, mid);
            assert(((head + bt) + mid).last() == ' ');
            assert(seam_ok((head + bt) + mid, vb));
            lemma_scan_append((head + bt) + mid, vb);
            assert(seam_ok(((head + bt) + mid) + vb, seq![')']));
            lemma_scan_append(((head + bt) + mid) + vb, seq![')']);
        },
        _ => {},
    }
}

/// A nonempty binding list's text ends with a closing parenthesis.
proof fn lemma_visual_binds_last(bs: Seq<BindingV>)
    requires
        bs.len() > 0,
    ensures
        spec_visual_binds(bs).len() > 0,
        spec_visual_binds(bs).last() == ')',
    decreases bs,
{
    let tail = bs.subrange(1, bs.len() as int);
    if tail.len() == 0 {
        assert(spec_visual_binds(tail) =~= Seq::<char>::empty());
        assert(spec_visual_binds(bs) =~= spec_visual_binding(bs[0]));
        assert(spec_visual_binding(bs[0]).last() == ')');
    } else {
        lemma_visual_binds_last(tail);
        assert(spec_visual_binds(bs).last() == spec_visual_binds(tail).last());
    }
}

/// The lexer inverts the printer on a binding list.
#[verifier::rlimit(100)]
#[verifier::spinoff_prover]
proof fn lemma_scan_visual_binds(bs: Seq<BindingV>)
    requires
        wf_binds(bs),
    ensures
        spec_scan(spec_visual_binds(bs)) =~= tokens_of_binds(bs),
    decreases bs, 2int,
{
    if bs.len() == 0 {
    } else {
        let b0 = bs[0];
        let tail = bs.subrange(1, bs.len() as int);
        lemma_scan_visual(b0.value);
        lemma_scan_visual_binds(tail);
        lemma_scan_lparen();
        lemma_scan_rparen();
        lemma_scan_space();
        lemma_scan_ident_text(b0.name);
        let vv = spec_visual(b0.value);
        let piece = spec_visual_binding(b0);
        assert(piece =~= (((seq!['('] + b0.name) + seq![' ']) + vv) + seq![')']);
        assert(seam_ok(seq!['('], b0.name));
        lemma_scan_append(seq!['('], b0.name);
        assert(seam_ok(seq!['('] + b0.name, seq![' ']));
        lemma_scan_append(seq!['('] + b0.name, seq![' ']);
        assert(((seq!['('] + b0.name) + seq![' ']).last() == ' ');
        assert(seam_ok((seq!['('] + b0.name) + seq![' '], vv));
        lemma_scan_append((seq!['('] + b0.name) + seq![' '], vv);
        assert(seam_ok(((seq!['('] + b0.name) + seq![' ']) + vv, seq![')']));
        lemma_scan_append(((seq!['('] + b0.name) + seq![' ']) + vv, seq![')']);
        assert(spec_scan(piece) =~= seq![TokenV::LParen, TokenV::Identifier(b0.name)] + spec_scan(
            vv,
        ) + seq![TokenV::RParen]);
        assert(spec_visual_binds(bs) =~= piece + spec_visual_binds(tail));
        assert(piece.last() == ')');
        assert(seam_ok(piece, spec_visual_binds(tail)));
        lemma_scan_append(piece, spec_visual_binds(tail));
    }
}

/// The full round trip: the canonical text of a well-formed expression
/// tokenizes and parses back to exactly that expression, consuming every
/// token before the end sentinel.
pub proof fn lemma_print_parse_roundtrip(e: ExprV)
    requires
        wf(e),
    ensures
        spec_parse_expr(spec_tokenize(spec_visual(e))) == Some((e, tokens_of(e).len() as nat)),
{
    lemma_scan_visual(e);
    assert(spec_tokenize(spec_visual(e)) =~= tokens_of(e) + seq![TokenV::EndOfFile]);
    lemma_parse_tokens_of(e, seq![TokenV::EndOfFile]);
}

/// Are these tokens ones the scanner can produce: identifiers valid,
/// numbers nonnegative?
pub open spec fn tokens_valid(ts: Seq<TokenV>) -> bool {
    forall|i: int|
        0 <= i < ts.len() ==> match #[trigger] ts[i] {
            TokenV::Identifier(s) => valid_ident(s),
            TokenV::Number(n) => n >= 0,
            _ => true,
        }
}

/// The scanner only produces valid tokens.
pub proof fn lemma_scan_valid(s: Seq<char>)
    ensures
        tokens_valid(spec_scan(s)),
    decreases s.len(),
{
    if s.len() == 0 {
    } else if is_digit(s[0]) {
        let r = 1 + digit_run(s.subrange(1, s.len() as int));
        lemma_digit_run_le_len(s.subrange(1, s.len() as int));
        lemma_run_chars_digit(s.subrange(1, s.len() as int));
        assert(forall|i: int| 0 <= i < r ==> is_digit(#[trigger] s.take(r as int)[i])) by {
            assert(forall|i: int|
                1 <= i < r ==> s[i] == s.subrange(1, s.len() as int)[i - 1]);
        }
        crate::numeral::lemma_digits_value_nonneg(s.take(r as int));
        lemma_scan_valid(s.skip(r as int));
    } else if is_ident_char(s[0]) {
        let r = 1 + ident_run(s.subrange(1, s.len() as int));
        lemma_ident_run_le_len(s.subrange(1, s.len() as int));
        lemma_run_chars_ident(s.subrange(1, s.len() as int));
        assert(forall|i: int| 0 <= i < r ==> is_ident_char(#[trigger] s.take(r as int)[i])) by {
            assert(forall|i: int|
                1 <= i < r ==> s[i] == s.subrange(1, s.len() as int)[i - 1]);
        }
        lemma_scan_valid(s.skip(r as int));
    } else {
        lemma_scan_valid(s.skip(1));
    }
}

/// Parsing valid tokens gives a well-formed expression.
pub proof fn lemma_parse_wf(ts: Seq<TokenV>)
    requires
        tokens_valid(ts),
    ensures
        spec_parse_expr(ts) matches Some(p) ==> wf(p.0),
    decreases ts.len(), 1int,
{
    if ts.len() == 0 {
    } else {
        match ts[0] {
            TokenV::LParen => {
                if ts.len() >= 2 {
                    match ts[1] {
                        TokenV::Identifier(h) => {
                            if h == let_text() {
                                if ts.len() >= 3 && (ts[2] matches TokenV::LParen) {
                                    assert(tokens_valid(ts.skip(3)));
                                    lemma_binds_wf(ts.skip(3));
                                    match spec_parse_bindings(ts.skip(3)) {
                                        Some((bs, nb)) => {
                                            if 3 + nb < ts.len() {
                                                assert(tokens_valid(ts.skip(3 + nb as int)));
                                                lemma_parse_wf(ts.skip(3 + nb as int));
                                            }
                                        },
                                        None => {},
                                    }
                                }
                            } else {
                                assert(tokens_valid(ts.skip(2)));
                                lemma_args_wf(ts.skip(2));
                            }
                        },
                        _ => {},
                    }
                }
            },
            _ => {},
        }
    }
}

/// Parsing valid tokens gives well-formed arguments.
proof fn lemma_args_wf(ts: Seq<TokenV>)
    requires
        tokens_valid(ts),
    ensures
        spec_parse_args(ts) matches Some(p) ==> forall|i: int|
            0 <= i < p.0.len() ==> wf(#[trigger] p.0[i]),
    decreases ts.len(), 2int,
{
    if ts.len() == 0 {
    } else if (ts[0] matches TokenV::RParen) {
    } else {
        lemma_parse_wf(ts);
        match spec_parse_expr(ts) {
            Some((v, n)) => {
                if 0 < n <= ts.len() {
                    assert(tokens_valid(ts.skip(n as int)));
                    lemma_args_wf(ts.skip(n as int));
                    match spec_parse_args(ts.skip(n as int)) {
                        Some((rest, _)) => {
                            let whole = seq![v] + rest;
                            assert(forall|i: int|
                                1 <= i < whole.len() ==> #[trigger] whole[i] == rest[i - 1]);
                        },
                        None => {},
                    }
                }
            },
            None => {},
        }
    }
}

/// Parsing valid tokens gives a well-formed binding list.
proof fn lemma_binds_wf(ts: Seq<TokenV>)
    requires
        tokens_valid(ts),
    ensures
        spec_parse_bindings(ts) matches Some(p) ==> wf_binds(p.0),
    decreases ts.len(), 2int,
{
    if ts.len() == 0 {
    } else if (ts[0] matches TokenV::RParen) {
    } else if (ts[0] matches TokenV::LParen) {
        if ts.len() >= 2 {
            match ts[1] {
                TokenV::Identifier(name) => {
                    assert(valid_ident(name));
                    assert(tokens_valid(ts.skip(2)));
                    lemma_parse_wf(ts.skip(2));
                    match spec_parse_expr(ts.skip(2)) {
                        Some((v, m)) => {
                            let end = 2 + m;
                            if end < ts.len() && (ts[end as int] matches TokenV::RParen) {
                                assert(tokens_valid(ts.skip(end as int + 1)));
                                lemma_binds_wf(ts.skip(end as int + 1));
                                match spec_parse_bindings(ts.skip(end as int + 1)) {
                                    Some((rest, _)) => {
                                        let whole = seq![
                                            BindingV { name: name, value: v },
                                        ] + rest;
                                        assert(whole[0] == BindingV { name: name, value: v });
                                        assert(whole.subrange(1, whole.len() as int) =~= rest);
                                    },
                                    None => {},
                                }
                            }
                        },
                        None => {},
                    }
                },
                _ => {},
            }
        }
    }
}

/// Whatever the source text, a successful parse of its tokens is a
/// well-formed expression — so the round trip applies to it.
pub proof fn lemma_parse_output_wf(text: Seq<char>)
    ensures
        spec_parse_expr(spec_tokenize(text)) matches Some(p) ==> wf(p.0),
{
    lemma_scan_valid(text);
    assert(tokens_valid(spec_tokenize(text))) by {
        assert(forall|i: int|
            0 <= i < spec_scan(text).len() ==> spec_tokenize(text)[i] == spec_scan(text)[i]);
        assert(spec_tokenize(text)[spec_scan(text).len() as int] == TokenV::EndOfFile);
    }
    lemma_parse_wf(spec_tokenize(text));
}

/// Reading, printing and re-reading is stable: whatever source text the
/// pipeline starts from, once an expression has been parsed, printing it
/// and running the text back through the lexer and parser gives the very
/// same expression.
pub proof fn lemma_reprint_stable(text: Seq<char>)
    ensures
        spec_parse_expr(spec_tokenize(text)) matches Some(p) ==> spec_parse_expr(
            spec_tokenize(spec_visual(p.0)),
        ) == Some((p.0, tokens_of(p.0).len() as nat)),
{
    lemma_parse_output_wf(text);
    match spec_parse_expr(spec_tokenize(text)) {
        Some(p) => {
            lemma_print_parse_roundtrip(p.0);
        },
        None => {},
    }
}

} // verus!
