//! The `read` protocol: one line of input is trimmed of surrounding
//! whitespace and parsed as a base-10 integer with an optional sign; a
//! line that does not spell an integer fitting an `i32` is invalid.

use vstd::prelude::*;

use crate::numeral::all_digits;
use crate::numeral::digits_value;
use crate::numeral::is_digit;
use crate::numeral::lemma_digits_value_nonneg;
use crate::numeral::lemma_digits_value_prefix;

verus! {

broadcast use vstd::seq::group_seq_axioms;

/// Is `c` whitespace for the purpose of trimming a line?
pub open spec fn is_space(c: char) -> bool {
    c == ' ' || c == '\t' || c == '\n' || c == '\r'
}

/// `s` with leading and trailing whitespace removed.
pub open spec fn spec_trim(s: Seq<char>) -> Seq<char>
    decreases s.len(),
{
    if s.len() == 0 {
        s
    } else if is_space(s[0]) {
        spec_trim(s.subrange(1, s.len() as int))
    } else if is_space(s.last()) {
        spec_trim(s.drop_last())
    } else {
        s
    }
}

/// The integer spelled by `t`: an optional `+` or `-` sign, then one or
/// more digits, and a value that fits an `i32`; otherwise nothing.
pub open spec fn int_of_text(t: Seq<char>) -> Option<int> {
    if t.len() == 0 {
        None
    } else if t[0] == '+' || t[0] == '-' {
        let d = t.subrange(1, t.len() as int);
        if d.len() > 0 && all_digits(d) {
            let v = if t[0] == '-' {
                -digits_value(d)
            } else {
                digits_value(d)
            };
            if i32::MIN as int <= v <= i32::MAX as int {
                Some(v)
            } else {
                None
            }
        } else {
            None
        }
    } else if all_digits(t) {
        if digits_value(t) <= i32::MAX as int {
            Some(digits_value(t))
        } else {
            None
        }
    } else {
        None
    }
}

/// The integer a line of input stands for, after trimming.
pub open spec fn spec_line_int(line: Seq<char>) -> Option<int> {
    int_of_text(spec_trim(line))
}

/// The trimmed text is the subrange between the first and last non-space
/// characters.
proof fn lemma_trim_subrange(s: Seq<char>, lo: int, hi: int)
    requires
        0 <= lo <= hi <= s.len(),
        forall|k: int| 0 <= k < lo ==> is_space(#[trigger] s[k]),
        forall|k: int| hi <= k < s.len() ==> is_space(#[trigger] s[k]),
        lo < hi ==> !is_space(s[lo]) && !is_space(s[hi - 1]),
        lo == hi ==> lo == s.len() || hi == 0 || (lo == s.len() && hi == 0),
    ensures
        spec_trim(s) =~= s.subrange(lo, hi),
    decreases s.len(),
{
    if s.len() == 0 {
    } else if is_space(s[0]) {
        let t = s.subrange(1, s.len() as int);
        if lo == hi {
            // The whole string is whitespace on one side; trimming gives
            // the empty text either way.
            assert(forall|k: int| 0 <= k < t.len() ==> is_space(#[trigger] t[k]));
            lemma_trim_all_space(t);
            assert(s.subrange(lo, hi) =~= Seq::<char>::empty());
        } else {
            assert(lo >= 1);
            assert(forall|k: int| 0 <= k < lo - 1 ==> is_space(#[trigger] t[k]));
            assert(forall|k: int| hi - 1 <= k < t.len() ==> is_space(#[trigger] t[k]));
            lemma_trim_subrange(t, lo - 1, hi - 1);
            assert(t.subrange(lo - 1, hi - 1) =~= s.subrange(lo, hi));
        }
    } else if is_space(s.last()) {
        let t = s.drop_last();
        if lo == hi {
            assert(forall|k: int| 0 <= k < t.len() ==> is_space(#[trigger] t[k]));
            lemma_trim_all_space(t);
            assert(s.subrange(lo, hi) =~= Seq::<char>::empty());
        } else {
            assert(hi <= s.len() - 1);
            assert(forall|k: int| hi <= k < t.len() ==> is_space(#[trigger] t[k]));
            lemma_trim_subrange(t, lo, hi);
            assert(t.subrange(lo, hi) =~= s.subrange(lo, hi));
        }
    } else {
        // No space at either end: the bounds must be the full text.
        assert(lo == 0);
        assert(hi == s.len());
        assert(s.subrange(0, s.len() as int) =~= s);
    }
}

/// Trimming an all-whitespace text gives the empty text.
proof fn lemma_trim_all_space(s: Seq<char>)
    requires
        forall|k: int| 0 <= k < s.len() ==> is_space(#[trigger] s[k]),
    ensures
        spec_trim(s) =~= Seq::<char>::empty(),
    decreases s.len(),
{
    if s.len() > 0 {
        let t = s.subrange(1, s.len() as int);
        assert(forall|k: int| 0 <= k < t.len() ==> is_space(#[trigger] t[k]));
        lemma_trim_all_space(t);
    }
}

/// Is `c` whitespace? Executable form of `is_space`.
fn space_test(c: char) -> (b: bool)
    ensures
        b == is_space(c),
{
    c == ' ' || c == '\t' || c == '\n' || c == '\r'
}

/// Is `c` a digit? Executable form of `is_digit`.
fn digit_test(c: char) -> (b: bool)
    ensures
        b == is_digit(c),
{
    let u = c as u32;
    48 <= u && u <= 57
}

/// Parses one line as the `read` primitive does: trim surrounding
/// whitespace, then read an optional sign and decimal digits. Returns the
/// value exactly when `spec_line_int` gives one.
#[verifier::loop_isolation(false)]
pub fn read_int_line(line: &str) -> (r: Option<i32>)
    ensures
        match spec_line_int(line@) {
            Some(n) => r == Some(n as i32),
            None => r is None,
        },
{
    let ghost s = line@;
    let n = line.unicode_len();
    let mut lo: usize = 0;
    while lo < n && space_test(line.get_char(lo))
        invariant
            n == s.len(),
            s == line@,
            lo <= n,
            forall|k: int| 0 <= k < lo ==> is_space(#[trigger] s[k]),
        decreases n - lo,
    {
        lo = lo + 1;
    }
    let mut hi: usize = n;
    while hi > lo && space_test(line.get_char(hi - 1))
        invariant
            n == s.len(),
            s == line@,
            lo <= hi <= n,
            forall|k: int| 0 <= k < lo ==> is_space(#[trigger] s[k]),
            forall|k: int| hi <= k < n ==> is_space(#[trigger] s[k]),
            lo < n ==> !is_space(s[lo as int]),
        decreases hi,
    {
        hi = hi - 1;
    }
    let ghost t = spec_trim(s);
    proof {
        if lo == hi {
            assert(lo == n || hi == 0);
        }
        lemma_trim_subrange(s, lo as int, hi as int);
        assert(t =~= s.subrange(lo as int, hi as int));
    }
    if lo == hi {
        return None;
    }
    let c0 = line.get_char(lo);
    let negative = c0 == '-';
    let signed = negative || c0 == '+';
    let start = if signed {
        lo + 1
    } else {
        lo
    };
    let ghost d = if signed {
        t.subrange(1, t.len() as int)
    } else {
        t
    };
    proof {
        assert(t[0] == s[lo as int]);
        assert(d =~= s.subrange(start as int, hi as int));
    }
    if start == hi {
        // A sign with no digits.
        return None;
    }
    let mut k = start;
    let mut acc: i64 = 0;
    while k < hi
        invariant
            lo <= start <= k <= hi <= n,
            forall|j: int| start <= j < k ==> is_digit(#[trigger] s[j]),
            0 <= acc <= 0x8000_0000i64,
            acc == digits_value(s.subrange(start as int, k as int)),
        decreases hi - k,
    {
        let c = line.get_char(k);
        if !digit_test(c) {
            proof {
                assert(d[(k - start) as int] == s[k as int]);
                assert(!all_digits(d));
            }
            return None;
        }
        proof {
            let pref = s.subrange(start as int, k + 1);
            assert(pref.drop_last() =~= s.subrange(start as int, k as int));
            assert(pref.last() == s[k as int]);
            lemma_digits_value_nonneg(pref.drop_last());
        }
        let dv = (c as u32 - 48) as i64;
        acc = acc * 10 + dv;
        k = k + 1;
        if acc > 0x8000_0000i64 {
            // Too many digits: the value cannot fit an `i32`, whatever
            // the sign, since further digits only grow the magnitude.
            proof {
                let pref = s.subrange(start as int, k as int);
                assert(forall|j: int| 0 <= j < pref.len() ==> is_digit(#[trigger] pref[j]));
                if all_digits(d) {
                    assert(pref =~= d.take((k - start) as int));
                    lemma_digits_value_prefix(d, (k - start) as int);
                }
            }
            return None;
        }
    }
    proof {
        assert(s.subrange(start as int, k as int) =~= d);
        assert(forall|j: int| 0 <= j < d.len() ==> #[trigger] d[j] == s[j + start]);
        assert(all_digits(d));
        lemma_digits_value_nonneg(d);
    }
    if negative {
        Some((-acc) as i32)
    } else {
        if acc > 0x7fff_ffffi64 {
            return None;
        }
        Some(acc as i32)
    }
}

} // verus!
