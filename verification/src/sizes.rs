//! Human-readable size conversion: a decimal count with a binary-unit suffix
//! (`k`, `m`, `g`, `t`, case-insensitive, powers of 1024) becomes a byte
//! count; anything else passes through unchanged.

use vstd::prelude::*;
use crate::text::trimmed;
use crate::text::trim_str;

verus! {

/// Whether `c` is an ASCII decimal digit.
pub open spec fn is_digit(c: char) -> bool {
    48 <= (c as u32) && (c as u32) <= 57
}

/// The numeric value of a digit character.
pub open spec fn digit_val(c: char) -> int {
    (c as u32) - 48
}

/// Whether every character of `s` is an ASCII decimal digit.
pub open spec fn all_digits(s: Seq<char>) -> bool {
    forall|i: int| 0 <= i < s.len() ==> is_digit(s[i])
}

/// The value of a digit sequence read as a decimal number.
pub open spec fn digits_value(s: Seq<char>) -> int
    decreases s.len(),
{
    if s.len() == 0 {
        0
    } else {
        digits_value(s.drop_last()) * 10 + digit_val(s.last())
    }
}

/// A decimal digit sequence has a non-negative value.
pub proof fn lemma_digits_value_nonneg(s: Seq<char>)
    requires
        all_digits(s),
    ensures
        digits_value(s) >= 0,
    decreases s.len(),
{
    if s.len() > 0 {
        lemma_digits_value_nonneg(s.drop_last());
    }
}

/// The digit character for a value in 0..10.
pub open spec fn digit_char(d: int) -> char {
    if d == 0 {
        '0'
    } else if d == 1 {
        '1'
    } else if d == 2 {
        '2'
    } else if d == 3 {
        '3'
    } else if d == 4 {
        '4'
    } else if d == 5 {
        '5'
    } else if d == 6 {
        '6'
    } else if d == 7 {
        '7'
    } else if d == 8 {
        '8'
    } else {
        '9'
    }
}

/// The decimal rendering of a non-negative number, without sign or leading
/// zeros (a lone zero renders as `0`).
pub open spec fn dec_digits(n: int) -> Seq<char>
    decreases n,
{
    if n < 10 {
        seq![digit_char(n)]
    } else {
        dec_digits(n / 10).push(digit_char(n % 10))
    }
}

/// The digit character for `d`, as a one-character string.
fn digit_str(d: u64) -> (r: &'static str)
    requires
        d < 10,
    ensures
        r@ == seq![digit_char(d as int)],
{
    if d == 0 {
        let r = "0";
        proof {
            reveal_strlit("0");
            assert(r@ =~= seq![digit_char(d as int)]);
        }
        r
    } else if d == 1 {
        let r = "1";
        proof {
            reveal_strlit("1");
            assert(r@ =~= seq![digit_char(d as int)]);
        }
        r
    } else if d == 2 {
        let r = "2";
        proof {
            reveal_strlit("2");
            assert(r@ =~= seq![digit_char(d as int)]);
        }
        r
    } else if d == 3 {
        let r = "3";
        proof {
            reveal_strlit("3");
            assert(r@ =~= seq![digit_char(d as int)]);
        }
        r
    } else if d == 4 {
        let r = "4";
        proof {
            reveal_strlit("4");
            assert(r@ =~= seq![digit_char(d as int)]);
        }
        r
    } else if d == 5 {
        let r = "5";
        proof {
            reveal_strlit("5");
            assert(r@ =~= seq![digit_char(d as int)]);
        }
        r
    } else if d == 6 {
        let r = "6";
        proof {
            reveal_strlit("6");
            assert(r@ =~= seq![digit_char(d as int)]);
        }
        r
    } else if d == 7 {
        let r = "7";
        proof {
            reveal_strlit("7");
            assert(r@ =~= seq![digit_char(d as int)]);
        }
        r
    } else if d == 8 {
        let r = "8";
        proof {
            reveal_strlit("8");
            assert(r@ =~= seq![digit_char(d as int)]);
        }
        r
    } else {
        let r = "9";
        proof {
            reveal_strlit("9");
            assert(r@ =~= seq![digit_char(d as int)]);
        }
        r
    }
}

/// Renders `n` in decimal.
pub fn u64_to_dec(n: u64) -> (r: String)
    ensures
        r@ == dec_digits(n as int),
    decreases n,
{
    if n < 10 {
        digit_str(n).to_owned()
    } else {
        let mut r = u64_to_dec(n / 10);
        r.append(digit_str(n % 10));
        proof {
            assert(r@ =~= dec_digits(n as int));
        }
        r
    }
}

/// Length of the maximal run of ASCII digits at the start of `s`.
pub open spec fn digit_prefix_len(s: Seq<char>) -> int
    decreases s.len(),
{
    if s.len() > 0 && is_digit(s[0]) {
        1 + digit_prefix_len(s.subrange(1, s.len() as int))
    } else {
        0
    }
}

proof fn lemma_digit_prefix_at(s: Seq<char>, i: int)
    requires
        0 <= i <= s.len(),
        forall|j: int| 0 <= j < i ==> is_digit(s[j]),
        i < s.len() ==> !is_digit(s[i]),
    ensures
        digit_prefix_len(s) == i,
    decreases s.len(),
{
    if s.len() == 0 {
    } else if i == 0 {
    } else {
        let t = s.subrange(1, s.len() as int);
        lemma_digit_prefix_at(t, i - 1);
    }
}

/// Whether the character of `s` at index `i` is an ASCII decimal digit.
fn digit_char_at(s: &str, i: usize) -> (r: bool)
    requires
        i < s@.len(),
    ensures
        r == is_digit(s@[i as int]),
{
    let c = s.get_char(i);
    (c as u32) >= 48 && (c as u32) <= 57
}

/// Whether `s`, after trimming, is a non-empty run of ASCII decimal digits —
/// a value already given in bytes, with no unit suffix.
pub fn is_plain_number(s: &str) -> (r: bool)
    ensures
        r == (trimmed(s@).len() > 0 && all_digits(trimmed(s@))),
{
    let t = trim_str(s);
    let n = t.unicode_len();
    if n == 0 {
        return false;
    }
    let mut i: usize = 0;
    while i < n
        invariant
            n == t@.len(),
            t@ == trimmed(s@),
            0 <= i <= n,
            forall|j: int| 0 <= j < i ==> is_digit(t@[j]),
        decreases n - i,
    {
        let c = t.get_char(i);
        if !((c as u32) >= 48 && (c as u32) <= 57) {
            return false;
        }
        i = i + 1;
    }
    true
}

/// The multiplication factor of a unit suffix character, or 0 for an
/// unrecognized one. The units are binary: powers of 1024.
pub open spec fn suffix_factor(c: char) -> int {
    if c == 'k' || c == 'K' {
        1024
    } else if c == 'm' || c == 'M' {
        1048576
    } else if c == 'g' || c == 'G' {
        1073741824
    } else if c == 't' || c == 'T' {
        1099511627776
    } else {
        0
    }
}

/// What `human_to_bytes` returns: the trimmed input itself when it is empty,
/// already a plain number, or cannot be interpreted (no digits, a value or
/// product past `u64::MAX`, or an unrecognized suffix); otherwise the decimal
/// rendering of the number times its unit factor.
pub open spec fn h2b(s: Seq<char>) -> Seq<char> {
    let t = trimmed(s);
    let d = digit_prefix_len(t);
    let num = digits_value(t.subrange(0, d));
    if t.len() == 0 {
        t
    } else if all_digits(t) {
        t
    } else if d == 0 {
        t
    } else if num > u64::MAX {
        t
    } else if t.len() - d != 1 {
        t
    } else if suffix_factor(t[t.len() - 1]) == 0 {
        t
    } else if num * suffix_factor(t[t.len() - 1]) > u64::MAX {
        t
    } else {
        dec_digits(num * suffix_factor(t[t.len() - 1]))
    }
}

/// Converts a human-readable size token (`100m`, `1g`, `20t`) into its byte
/// count; a plain number or an uninterpretable token is returned as it came,
/// trimmed.
pub fn human_to_bytes(s: &str) -> (r: String)
    ensures
        r@ == h2b(s@),
{
    let t = trim_str(s);
    let n = t.unicode_len();
    if n == 0 {
        return t.to_owned();
    }
    if is_plain_number(t) {
        proof {
            crate::text::lemma_trimmed_idempotent(s@);
        }
        return t.to_owned();
    }
    proof {
        crate::text::lemma_trimmed_idempotent(s@);
    }
    let mut i: usize = 0;
    let mut val: u64 = 0;
    let mut overflow: bool = false;
    while i < n && digit_char_at(t, i)
        invariant
            n == t@.len(),
            t@ == trimmed(s@),
            0 <= i <= n,
            forall|j: int| 0 <= j < i ==> is_digit(t@[j]),
            !overflow ==> val as int == digits_value(t@.subrange(0, i as int)),
            overflow ==> digits_value(t@.subrange(0, i as int)) > u64::MAX,
        decreases n - i,
    {
        let c = t.get_char(i);
        let ghost pre = t@.subrange(0, i as int);
        let ghost post = t@.subrange(0, i + 1);
        proof {
            assert(post.drop_last() =~= pre);
            lemma_digits_value_nonneg(pre);
        }
        let d: u64 = (c as u32 - 48) as u64;
        if overflow {
            proof {
                assert(digits_value(post) == digits_value(pre) * 10 + digit_val(c));
                assert(digits_value(pre) * 10 > u64::MAX) by (nonlinear_arith)
                    requires
                        digits_value(pre) > u64::MAX,
                ;
            }
        } else {
            match val.checked_mul(10) {
                Some(v10) => {
                    match v10.checked_add(d) {
                        Some(v) => {
                            val = v;
                        },
                        None => {
                            overflow = true;
                        },
                    }
                },
                None => {
                    overflow = true;
                },
            }
            proof {
                assert(digits_value(post) == digits_value(pre) * 10 + digit_val(c));
            }
        }
        i = i + 1;
    }
    proof {
        lemma_digit_prefix_at(t@, i as int);
    }
    if i == 0 {
        return t.to_owned();
    }
    if overflow {
        return t.to_owned();
    }
    if n - i != 1 {
        return t.to_owned();
    }
    let c = t.get_char(n - 1);
    let factor: u64 = if c == 'k' || c == 'K' {
        1024
    } else if c == 'm' || c == 'M' {
        1048576
    } else if c == 'g' || c == 'G' {
        1073741824
    } else if c == 't' || c == 'T' {
        1099511627776
    } else {
        return t.to_owned();
    };
    match val.checked_mul(factor) {
        Some(p) => u64_to_dec(p),
        None => t.to_owned(),
    }
}

} // verus!
