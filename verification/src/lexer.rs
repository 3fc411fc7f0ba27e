//! The lexer: source text to tokens. `spec_scan` is the mathematical
//! scanner — greedy digit runs become numbers, greedy runs of letters and
//! `+ - * /` become identifiers, parentheses are single tokens, and every
//! other character is silently skipped. `tokenize` produces exactly that
//! token sequence, with one `EndOfFile` sentinel appended.

use vstd::prelude::*;

use crate::ast::Token;
use crate::ast::TokenV;
use crate::ast::token_views;
use crate::numeral::all_digits;
use crate::numeral::digits_value;
use crate::numeral::is_digit;
use crate::numeral::lemma_digits_value_nonneg;
use crate::numeral::lemma_digits_value_prefix;

verus! {

broadcast use vstd::std_specs::vec::group_vec_axioms, vstd::seq::group_seq_axioms;

/// Is `c` a character that may appear in an identifier: a letter or one of
/// `+ - * /`?
pub open spec fn is_ident_char(c: char) -> bool {
    ||| ('a' as int <= c as int && c as int <= 'z' as int)
    ||| ('A' as int <= c as int && c as int <= 'Z' as int)
    ||| c == '+'
    ||| c == '-'
    ||| c == '*'
    ||| c == '/'
}

/// The length of the maximal prefix of `s` made of digits.
pub open spec fn digit_run(s: Seq<char>) -> nat
    decreases s.len(),
{
    if s.len() > 0 && is_digit(s[0]) {
        1 + digit_run(s.subrange(1, s.len() as int))
    } else {
        0
    }
}

/// The length of the maximal prefix of `s` made of identifier characters.
pub open spec fn ident_run(s: Seq<char>) -> nat
    decreases s.len(),
{
    if s.len() > 0 && is_ident_char(s[0]) {
        1 + ident_run(s.subrange(1, s.len() as int))
    } else {
        0
    }
}

/// The token sequence of `s`, without the `EndOfFile` sentinel.
pub open spec fn spec_scan(s: Seq<char>) -> Seq<TokenV>
    decreases s.len(),
    via spec_scan_decreases
{
    if s.len() == 0 {
        Seq::empty()
    } else if is_digit(s[0]) {
        let r = 1 + digit_run(s.subrange(1, s.len() as int));
        seq![TokenV::Number(digits_value(s.take(r as int)))] + spec_scan(s.skip(r as int))
    } else if is_ident_char(s[0]) {
        let r = 1 + ident_run(s.subrange(1, s.len() as int));
        seq![TokenV::Identifier(s.take(r as int))] + spec_scan(s.skip(r as int))
    } else if s[0] == '(' {
        seq![TokenV::LParen] + spec_scan(s.skip(1))
    } else if s[0] == ')' {
        seq![TokenV::RParen] + spec_scan(s.skip(1))
    } else {
        spec_scan(s.skip(1))
    }
}

#[via_fn]
proof fn spec_scan_decreases(s: Seq<char>) {
    if s.len() > 0 {
        if is_digit(s[0]) {
            lemma_digit_run_le_len(s.subrange(1, s.len() as int));
        } else if is_ident_char(s[0]) {
            lemma_ident_run_le_len(s.subrange(1, s.len() as int));
        }
    }
}

/// The full token sequence of `s`: the scan with `EndOfFile` appended.
pub open spec fn spec_tokenize(s: Seq<char>) -> Seq<TokenV> {
    spec_scan(s).push(TokenV::EndOfFile)
}

/// Every number literal in `s` fits in an `i32`. This is the machine limit
/// under which the lexer can represent its tokens.
pub open spec fn scan_fits(s: Seq<char>) -> bool {
    forall|i: int|
        0 <= i < spec_scan(s).len() ==> ((#[trigger] spec_scan(s)[i]) matches TokenV::Number(v)
            ==> v <= i32::MAX as int)
}

/// A digit run is no longer than the text.
pub proof fn lemma_digit_run_le_len(s: Seq<char>)
    ensures
        digit_run(s) <= s.len(),
    decreases s.len(),
{
    if s.len() > 0 && is_digit(s[0]) {
        lemma_digit_run_le_len(s.subrange(1, s.len() as int));
    }
}

/// An identifier run is no longer than the text.
pub proof fn lemma_ident_run_le_len(s: Seq<char>)
    ensures
        ident_run(s) <= s.len(),
    decreases s.len(),
{
    if s.len() > 0 && is_ident_char(s[0]) {
        lemma_ident_run_le_len(s.subrange(1, s.len() as int));
    }
}

/// The digit run of `s` is exactly `k` when the first `k` characters are
/// digits and the text ends or a non-digit follows.
pub proof fn lemma_digit_run_eq(s: Seq<char>, k: int)
    requires
        0 <= k <= s.len(),
        forall|i: int| 0 <= i < k ==> is_digit(#[trigger] s[i]),
        k == s.len() || !is_digit(s[k]),
    ensures
        digit_run(s) == k,
    decreases k,
{
    if k == 0 {
    } else {
        let t = s.subrange(1, s.len() as int);
        assert(forall|i: int| 0 <= i < k - 1 ==> is_digit(#[trigger] t[i]));
        assert(k - 1 == t.len() || !is_digit(t[k - 1]));
        lemma_digit_run_eq(t, k - 1);
    }
}

/// The identifier run of `s` is exactly `k` when the first `k` characters
/// are identifier characters and the text ends or another kind follows.
pub proof fn lemma_ident_run_eq(s: Seq<char>, k: int)
    requires
        0 <= k <= s.len(),
        forall|i: int| 0 <= i < k ==> is_ident_char(#[trigger] s[i]),
        k == s.len() || !is_ident_char(s[k]),
    ensures
        ident_run(s) == k,
    decreases k,
{
    if k == 0 {
    } else {
        let t = s.subrange(1, s.len() as int);
        assert(forall|i: int| 0 <= i < k - 1 ==> is_ident_char(#[trigger] t[i]));
        assert(k - 1 == t.len() || !is_ident_char(t[k - 1]));
        lemma_ident_run_eq(t, k - 1);
    }
}

/// Appending a token to a vector appends its view to the views.
proof fn lemma_token_views_push(ts: Seq<Token>, t: Token)
    ensures
        token_views(ts.push(t)) =~= token_views(ts).push(t@),
{
}

/// Is `c` a decimal digit? Executable form of `is_digit`.
fn digit_char_test(c: char) -> (b: bool)
    ensures
        b == is_digit(c),
{
    let u = c as u32;
    48 <= u && u <= 57
}

/// Is `c` an identifier character? Executable form of `is_ident_char`.
fn ident_char_test(c: char) -> (b: bool)
    ensures
        b == is_ident_char(c),
{
    let u = c as u32;
    (97 <= u && u <= 122) || (65 <= u && u <= 90) || u == 43 || u == 45 || u == 42 || u == 47
}

/// Takes a string and returns its tokens: exactly `spec_tokenize` of the
/// text. Requires that every number literal in the text fits in an `i32`.
pub fn tokenize(input: &str) -> (tokens: Vec<Token>)
    requires
        scan_fits(input@),
    ensures
        token_views(tokens@) == spec_tokenize(input@),
{
    let ghost s = input@;
    let n = input.unicode_len();
    let mut tokens: Vec<Token> = Vec::new();
    let mut i: usize = 0;
    proof {
        assert(s.skip(0) =~= s);
        assert(token_views(tokens@) =~= Seq::<TokenV>::empty());
    }
    while i < n
        invariant
            n == s.len(),
            s == input@,
            scan_fits(s),
            i <= n,
            token_views(tokens@) + spec_scan(s.skip(i as int)) == spec_scan(s),
        decreases n - i,
    {
        let c = input.get_char(i);
        let ghost tail = s.skip(i as int);
        proof {
            assert(tail[0] == s[i as int]);
        }
        if digit_char_test(c) {
            let ghost run = 1 + digit_run(s.subrange(i + 1, n as int));
            proof {
                assert(tail.subrange(1, tail.len() as int) =~= s.subrange(i + 1, n as int));
                lemma_digit_run_le_len(s.subrange(i + 1, n as int));
                assert(tail.take(run as int) =~= s.subrange(i as int, i + run));
                assert(tail.skip(run as int) =~= s.skip(i + run));
                assert(spec_scan(tail) == seq![
                    TokenV::Number(digits_value(s.subrange(i as int, i + run)))
                ] + spec_scan(s.skip(i + run)));
            }
            let ghost vfull = digits_value(s.subrange(i as int, i + run));
            proof {
                // The full run's value is a number token of the scan, so the
                // machine-limit precondition bounds it.
                assert(spec_scan(s)[tokens@.len() as int] == TokenV::Number(vfull));
                assert(vfull <= i32::MAX as int);
                // The run is maximal: its characters are digits and it ends
                // at the end of text or before a non-digit.
                lemma_digit_run_props(s, i as int, run as int);
            }
            let mut j: usize = i;
            let mut val: i32 = 0;
            proof {
                assert(s.subrange(i as int, i as int) =~= Seq::<char>::empty());
            }
            loop
                invariant
                    n == s.len(),
                    s == input@,
                    i <= j <= n,
                    i < n,
                    is_digit(s[i as int]),
                    i + run <= n,
                    forall|k: int| i <= k < i + run ==> is_digit(#[trigger] s[k]),
                    i + run == n || !is_digit(s[i + run]),
                    j <= i + run,
                    forall|k: int| i <= k < j ==> is_digit(#[trigger] s[k]),
                    val == digits_value(s.subrange(i as int, j as int)),
                    vfull == digits_value(s.subrange(i as int, i + run)),
                    vfull <= i32::MAX as int,
                    0 <= val,
                ensures
                    j == i + run,
                    val == vfull,
                decreases n - j,
            {
                if j == n {
                    proof {
                        assert(j == i + run);
                    }
                    break;
                }
                let cj = input.get_char(j);
                if !digit_char_test(cj) {
                    proof {
                        assert(j == i + run);
                    }
                    break;
                }
                proof {
                    // j lies strictly inside the maximal run.
                    assert(j < i + run);
                    let pref = s.subrange(i as int, j + 1);
                    let full = s.subrange(i as int, i + run);
                    assert(all_digits(full));
                    assert(full.take(j + 1 - i) =~= pref);
                    lemma_digits_value_prefix(full, j + 1 - i);
                    assert(pref.drop_last() =~= s.subrange(i as int, j as int));
                    assert(pref.last() == s[j as int]);
                    lemma_digits_value_nonneg(pref.drop_last());
                    assert(digits_value(pref) == val * 10 + (cj as int - '0' as int));
                    assert(digits_value(pref) <= i32::MAX as int);
                }
                let d = (cj as u32 - 48) as i32;
                val = val * 10 + d;
                j = j + 1;
            }
            tokens.push(Token::Number(val));
            i = j;
            proof {
                lemma_token_views_push(tokens@.drop_last(), Token::Number(val));
                assert(tokens@.drop_last().push(Token::Number(val)) =~= tokens@);
                assert(token_views(tokens@) + spec_scan(s.skip(i as int)) =~= spec_scan(s));
            }
        } else if ident_char_test(c) {
            let ghost run = 1 + ident_run(s.subrange(i + 1, n as int));
            proof {
                assert(tail.subrange(1, tail.len() as int) =~= s.subrange(i + 1, n as int));
                lemma_ident_run_le_len(s.subrange(i + 1, n as int));
                assert(tail.take(run as int) =~= s.subrange(i as int, i + run));
                assert(tail.skip(run as int) =~= s.skip(i + run));
                assert(spec_scan(tail) == seq![
                    TokenV::Identifier(s.subrange(i as int, i + run))
                ] + spec_scan(s.skip(i + run)));
                lemma_ident_run_props(s, i as int, run as int);
            }
            let mut j: usize = i + 1;
            loop
                invariant
                    n == s.len(),
                    s == input@,
                    i < j <= n,
                    i + run <= n,
                    forall|k: int| i <= k < i + run ==> is_ident_char(#[trigger] s[k]),
                    i + run == n || !is_ident_char(s[i + run]),
                    j <= i + run,
                    forall|k: int| i <= k < j ==> is_ident_char(#[trigger] s[k]),
                ensures
                    j == i + run,
                decreases n - j,
            {
                if j == n {
                    proof {
                        assert(j == i + run);
                    }
                    break;
                }
                if !ident_char_test(input.get_char(j)) {
                    proof {
                        assert(j == i + run);
                    }
                    break;
                }
                proof {
                    assert(j < i + run);
                }
                j = j + 1;
            }
            let text = input.substring_char(i, j);
            tokens.push(Token::Identifier(text.to_owned()));
            i = j;
            proof {
                lemma_token_views_push(tokens@.drop_last(), tokens@.last());
                assert(tokens@.drop_last().push(tokens@.last()) =~= tokens@);
                assert(token_views(tokens@) + spec_scan(s.skip(i as int)) =~= spec_scan(s));
            }
        } else if c == '(' {
            proof {
                assert(tail.skip(1) =~= s.skip(i + 1));
                assert(spec_scan(tail) == seq![TokenV::LParen] + spec_scan(s.skip(i + 1)));
            }
            tokens.push(Token::LParen);
            i = i + 1;
            proof {
                lemma_token_views_push(tokens@.drop_last(), Token::LParen);
                assert(tokens@.drop_last().push(Token::LParen) =~= tokens@);
                assert(token_views(tokens@) + spec_scan(s.skip(i as int)) =~= spec_scan(s));
            }
        } else if c == ')' {
            proof {
                assert(tail.skip(1) =~= s.skip(i + 1));
                assert(spec_scan(tail) == seq![TokenV::RParen] + spec_scan(s.skip(i + 1)));
            }
            tokens.push(Token::RParen);
            i = i + 1;
            proof {
                lemma_token_views_push(tokens@.drop_last(), Token::RParen);
                assert(tokens@.drop_last().push(Token::RParen) =~= tokens@);
                assert(token_views(tokens@) + spec_scan(s.skip(i as int)) =~= spec_scan(s));
            }
        } else {
            proof {
                assert(tail.skip(1) =~= s.skip(i + 1));
                assert(spec_scan(tail) == spec_scan(s.skip(i + 1)));
            }
            i = i + 1;
        }
    }
    proof {
        assert(s.skip(n as int) =~= Seq::<char>::empty());
        assert(spec_scan(Seq::<char>::empty()) =~= Seq::<TokenV>::empty());
        assert(token_views(tokens@) =~= spec_scan(s));
    }
    tokens.push(Token::EndOfFile);
    proof {
        lemma_token_views_push(tokens@.drop_last(), Token::EndOfFile);
        assert(tokens@.drop_last().push(Token::EndOfFile) =~= tokens@);
    }
    tokens
}

/// The first `run` characters at `at` are digits and the run is maximal.
proof fn lemma_digit_run_props(s: Seq<char>, at: int, run: int)
    requires
        0 <= at < s.len(),
        is_digit(s[at]),
        run == 1 + digit_run(s.subrange(at + 1, s.len() as int)),
        at + run <= s.len(),
    ensures
        forall|k: int| at <= k < at + run ==> is_digit(#[trigger] s[k]),
        at + run == s.len() || !is_digit(s[at + run]),
{
    let t = s.subrange(at + 1, s.len() as int);
    lemma_run_chars_digit(t);
    assert(forall|k: int| at < k < at + run ==> s[k] == t[k - at - 1]);
    if at + run < s.len() {
        assert(s[at + run] == t[run - 1]);
    }
}

/// Characters inside a digit run are digits, and the run is maximal.
pub proof fn lemma_run_chars_digit(t: Seq<char>)
    ensures
        forall|k: int| 0 <= k < digit_run(t) ==> is_digit(#[trigger] t[k]),
        digit_run(t) == t.len() || !is_digit(t[digit_run(t) as int]),
        digit_run(t) <= t.len(),
    decreases t.len(),
{
    if t.len() > 0 && is_digit(t[0]) {
        let u = t.subrange(1, t.len() as int);
        lemma_run_chars_digit(u);
        assert(forall|k: int| 1 <= k < digit_run(t) ==> t[k] == u[k - 1]);
        if digit_run(t) < t.len() {
            assert(t[digit_run(t) as int] == u[digit_run(t) - 1]);
        }
    }
}

/// The first `run` characters at `at` are identifier characters and the
/// run is maximal.
proof fn lemma_ident_run_props(s: Seq<char>, at: int, run: int)
    requires
        0 <= at < s.len(),
        is_ident_char(s[at]),
        run == 1 + ident_run(s.subrange(at + 1, s.len() as int)),
        at + run <= s.len(),
    ensures
        forall|k: int| at <= k < at + run ==> is_ident_char(#[trigger] s[k]),
        at + run == s.len() || !is_ident_char(s[at + run]),
{
    let t = s.subrange(at + 1, s.len() as int);
    lemma_run_chars_ident(t);
    assert(forall|k: int| at < k < at + run ==> s[k] == t[k - at - 1]);
    if at + run < s.len() {
        assert(s[at + run] == t[run - 1]);
    }
}

/// Characters inside an identifier run are identifier characters, and the
/// run is maximal.
pub proof fn lemma_run_chars_ident(t: Seq<char>)
    ensures
        forall|k: int| 0 <= k < ident_run(t) ==> is_ident_char(#[trigger] t[k]),
        ident_run(t) == t.len() || !is_ident_char(t[ident_run(t) as int]),
        ident_run(t) <= t.len(),
    decreases t.len(),
{
    if t.len() > 0 && is_ident_char(t[0]) {
        let u = t.subrange(1, t.len() as int);
        lemma_run_chars_ident(u);
        assert(forall|k: int| 1 <= k < ident_run(t) ==> t[k] == u[k - 1]);
        if ident_run(t) < t.len() {
            assert(t[ident_run(t) as int] == u[ident_run(t) - 1]);
        }
    }
}

} // verus!
