//! Best-effort coercion of environment-variable text into typed values:
//! boolean first, then 64-bit integer, then floating-point syntax, then
//! plain string — mirroring how the underlying text would parse.

use vstd::prelude::*;
use crate::text::{spec_lower, lower_str, str_eq};
use crate::value::{Cfg, ConfigValue};

verus! {

// ---- digits ----

pub open spec fn is_digit(c: char) -> bool {
    '0' <= c && c <= '9'
}

pub open spec fn digit_val(c: char) -> int {
    c as int - 48
}

pub open spec fn all_digits(s: Seq<char>) -> bool {
    forall|i: int| 0 <= i < s.len() ==> is_digit(#[trigger] s[i])
}

/// Numeric value of a digit string, most significant digit first.
pub open spec fn digits_val(s: Seq<char>) -> int
    decreases s.len(),
{
    if s.len() == 0 {
        0
    } else {
        digits_val(s.drop_last()) * 10 + digit_val(s.last())
    }
}

proof fn lemma_digits_val_nonneg(s: Seq<char>)
    requires
        all_digits(s),
    ensures
        digits_val(s) >= 0,
    decreases s.len(),
{
    if s.len() > 0 {
        assert(all_digits(s.drop_last())) by {
            assert(forall|i: int| 0 <= i < s.len() - 1 ==> s.drop_last()[i] == s[i]);
        }
        lemma_digits_val_nonneg(s.drop_last());
    }
}

/// A digit string is worth at least any of its prefixes.
proof fn lemma_digits_val_prefix(s: Seq<char>, m: int)
    requires
        all_digits(s),
        0 <= m <= s.len(),
    ensures
        digits_val(s.take(m)) <= digits_val(s),
    decreases s.len(),
{
    if m == s.len() {
        assert(s.take(m) =~= s);
    } else {
        assert(all_digits(s.drop_last())) by {
            assert(forall|i: int| 0 <= i < s.len() - 1 ==> s.drop_last()[i] == s[i]);
        }
        lemma_digits_val_nonneg(s.drop_last());
        lemma_digits_val_prefix(s.drop_last(), m);
        assert(s.take(m) =~= s.drop_last().take(m));
        assert(digit_val(s.last()) >= 0);
        assert(digits_val(s.drop_last()) * 10 >= digits_val(s.drop_last()));
    }
}

// ---- 64-bit integer text (sign, then decimal digits, value in range) ----

pub open spec fn int_negative(s: Seq<char>) -> bool {
    s.len() > 0 && s[0] == '-'
}

pub open spec fn int_body(s: Seq<char>) -> Seq<char> {
    if s.len() > 0 && (s[0] == '+' || s[0] == '-') {
        s.drop_first()
    } else {
        s
    }
}

pub open spec fn is_i64_text(s: Seq<char>) -> bool {
    let b = int_body(s);
    b.len() > 0 && all_digits(b) && (if int_negative(s) {
        digits_val(b) <= 9223372036854775808
    } else {
        digits_val(b) < 9223372036854775808
    })
}

pub open spec fn i64_text_val(s: Seq<char>) -> int {
    if int_negative(s) {
        -digits_val(int_body(s))
    } else {
        digits_val(int_body(s))
    }
}

/// Parses decimal integer text exactly as a 64-bit integer would parse:
/// `Some` on well-formed text whose value is in range, `None` otherwise.
#[verifier::loop_isolation(false)]
pub fn parse_i64(s: &str) -> (r: Option<i64>)
    ensures
        r is Some <==> is_i64_text(s@),
        r is Some ==> r->0 as int == i64_text_val(s@),
{
    let n = s.unicode_len();
    if n == 0 {
        return None;
    }
    let c0 = s.get_char(0);
    let neg = c0 == '-';
    let has_sign = c0 == '-' || c0 == '+';
    let start: usize = if has_sign {
        1
    } else {
        0
    };
    let ghost body = int_body(s@);
    proof {
        assert(body =~= s@.subrange(start as int, n as int));
    }
    if start == n {
        return None;
    }
    let mut acc: u64 = 0;
    let mut i: usize = start;
    while i < n
        invariant
            start <= i <= n,
            forall|j: int| start <= j < i ==> is_digit(#[trigger] s@[j]),
            acc == digits_val(s@.subrange(start as int, i as int)),
            acc <= 9223372036854775808,
        decreases n - i,
    {
        let c = s.get_char(i);
        if !('0' <= c && c <= '9') {
            proof {
                assert(body[i - start] == s@[i as int]);
                assert(!all_digits(body));
            }
            return None;
        }
        let d: u64 = (c as u32 - 48) as u64;
        let ghost pre = s@.subrange(start as int, i as int);
        let ghost pre1 = s@.subrange(start as int, i + 1);
        proof {
            assert(pre1.drop_last() =~= pre);
            assert(pre1.last() == s@[i as int]);
            assert(digits_val(pre1) == acc * 10 + d);
        }
        if acc > 922337203685477580 || (acc == 922337203685477580 && d > 8) {
            // the value is already past the 64-bit range, whatever follows
            proof {
                assert(digits_val(pre1) > 9223372036854775808) by {
                    if acc >= 922337203685477581 {
                        assert(acc * 10 >= 9223372036854775810);
                    }
                }
                if is_i64_text(s@) {
                    assert(all_digits(body));
                    assert(body.take(i + 1 - start) =~= pre1);
                    lemma_digits_val_prefix(body, i + 1 - start);
                }
            }
            return None;
        }
        acc = acc * 10 + d;
        i += 1;
        proof {
            assert(s@.subrange(start as int, i as int) =~= pre1);
        }
    }
    proof {
        assert(s@.subrange(start as int, n as int) =~= body);
        assert(all_digits(body));
        assert(acc == digits_val(body));
    }
    if neg {
        if acc == 9223372036854775808 {
            proof {
                assert(i64::MIN as int == -9223372036854775808);
            }
            Some(i64::MIN)
        } else {
            let v = acc as i64;
            proof {
                assert(v as int == acc as int) by (bit_vector)
                    requires
                        acc < 9223372036854775808,
                        v == acc as i64,
                ;
            }
            Some(-v)
        }
    } else {
        if acc == 9223372036854775808 {
            return None;
        }
        let v = acc as i64;
        proof {
            assert(v as int == acc as int) by (bit_vector)
                requires
                    acc < 9223372036854775808,
                    v == acc as i64,
            ;
        }
        Some(v)
    }
}

// ---- floating-point syntax ----

/// First position at or after `i` that does not hold a digit.
pub open spec fn digit_run_end(s: Seq<char>, i: int) -> int
    decreases s.len() - i,
{
    if 0 <= i < s.len() && is_digit(s[i]) {
        digit_run_end(s, i + 1)
    } else {
        i
    }
}

proof fn lemma_digit_run(s: Seq<char>, i: int)
    requires
        0 <= i <= s.len(),
    ensures
        i <= digit_run_end(s, i) <= s.len(),
    decreases s.len() - i,
{
    if i < s.len() && is_digit(s[i]) {
        lemma_digit_run(s, i + 1);
    }
}

/// A well-formed exponent part starting at `i`, or nothing at all.
pub open spec fn exp_ok(s: Seq<char>, i: int) -> bool {
    if i == s.len() {
        true
    } else if 0 <= i < s.len() && (s[i] == 'e' || s[i] == 'E') {
        let j = if i + 1 < s.len() && (s[i + 1] == '+' || s[i + 1] == '-') {
            i + 2
        } else {
            i + 1
        };
        digit_run_end(s, j) > j && digit_run_end(s, j) == s.len()
    } else {
        false
    }
}

/// The word spellings the float parser accepts besides digits, matched
/// without regard to case.
pub open spec fn is_special_float_word(s: Seq<char>) -> bool {
    ||| spec_lower(s) == "inf"@
    ||| spec_lower(s) == "infinity"@
    ||| spec_lower(s) == "nan"@
}

/// The floating-point grammar: an optional sign, then either one of the
/// special words, or a mantissa with at least one digit and at most one
/// point followed by an optional exponent.
pub open spec fn is_float_text(s: Seq<char>) -> bool {
    let b: int = if s.len() > 0 && (s[0] == '+' || s[0] == '-') {
        1
    } else {
        0
    };
    if is_special_float_word(s.skip(b)) {
        true
    } else {
        let d1 = digit_run_end(s, b);
        if 0 <= d1 < s.len() && s[d1] == '.' {
            let d2 = digit_run_end(s, d1 + 1);
            (d1 > b || d2 > d1 + 1) && exp_ok(s, d2)
        } else {
            d1 > b && exp_ok(s, d1)
        }
    }
}

/// Position right after the run of digits starting at `i`.
#[verifier::loop_isolation(false)]
fn digit_run_end_exec(s: &str, i: usize) -> (r: usize)
    requires
        i <= s@.len(),
    ensures
        r == digit_run_end(s@, i as int),
        i <= r <= s@.len(),
{
    let n = s.unicode_len();
    let mut j: usize = i;
    while j < n
        invariant
            i <= j <= n,
            digit_run_end(s@, i as int) == digit_run_end(s@, j as int),
        decreases n - j,
    {
        let c = s.get_char(j);
        if !('0' <= c && c <= '9') {
            proof {
                lemma_digit_run(s@, i as int);
            }
            return j;
        }
        j += 1;
    }
    proof {
        lemma_digit_run(s@, i as int);
    }
    j
}

/// Whether the text is well-formed floating-point.
pub fn is_float(s: &str) -> (r: bool)
    ensures
        r == is_float_text(s@),
{
    let n = s.unicode_len();
    let b: usize = if n > 0 && {
        let c = s.get_char(0);
        c == '+' || c == '-'
    } {
        1
    } else {
        0
    };
    let rest = s.substring_char(b, n);
    let low = lower_str(rest);
    proof {
        assert(rest@ =~= s@.skip(b as int));
    }
    if str_eq(low.as_str(), "inf") || str_eq(low.as_str(), "infinity") || str_eq(
        low.as_str(),
        "nan",
    ) {
        return true;
    }
    let d1 = digit_run_end_exec(s, b);
    if d1 < n && s.get_char(d1) == '.' {
        let d2 = digit_run_end_exec(s, d1 + 1);
        (d1 > b || d2 > d1 + 1) && exp_ok_exec(s, d2)
    } else {
        d1 > b && exp_ok_exec(s, d1)
    }
}

#[verifier::loop_isolation(false)]
fn exp_ok_exec(s: &str, i: usize) -> (r: bool)
    requires
        i <= s@.len(),
    ensures
        r == exp_ok(s@, i as int),
{
    let n = s.unicode_len();
    if i == n {
        return true;
    }
    let c = s.get_char(i);
    if c == 'e' || c == 'E' {
        let j: usize = if i + 1 < n && {
            let c1 = s.get_char(i + 1);
            c1 == '+' || c1 == '-'
        } {
            i + 2
        } else {
            i + 1
        };
        if j > n {
            proof {
                lemma_digit_run(s@, i + 1);
            }
            return false;
        }
        let d3 = digit_run_end_exec(s, j);
        d3 > j && d3 == n
    } else {
        false
    }
}

// ---- the coercion ladder ----

/// What a piece of environment-variable text stands for: a boolean when its
/// lowercasing reads `true` or `false`, else a 64-bit integer when it parses
/// as one, else a number kept as text when it has floating-point syntax,
/// else the string itself.
pub open spec fn spec_coerce(s: Seq<char>) -> Cfg {
    if spec_lower(s) == "true"@ {
        Cfg::Bool(true)
    } else if spec_lower(s) == "false"@ {
        Cfg::Bool(false)
    } else if is_i64_text(s) {
        Cfg::Int(i64_text_val(s) as i64)
    } else if is_float_text(s) {
        Cfg::Num(s)
    } else {
        Cfg::Str(s)
    }
}

pub fn coerce_value(v: String) -> (r: ConfigValue)
    ensures
        r@ == spec_coerce(v@),
{
    let low = lower_str(v.as_str());
    if str_eq(low.as_str(), "true") {
        return ConfigValue::Bool(true);
    }
    if str_eq(low.as_str(), "false") {
        return ConfigValue::Bool(false);
    }
    match parse_i64(v.as_str()) {
        Some(i) => {
            proof {
                assert(i == i64_text_val(v@) as i64);
            }
            ConfigValue::Int(i)
        },
        None => {
            if is_float(v.as_str()) {
                ConfigValue::Num(v)
            } else {
                ConfigValue::Str(v)
            }
        },
    }
}

} // verus!
