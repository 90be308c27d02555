//! Amounts as people type and read them: decimal text with at most two
//! digits after the point, standing for an integer number of minor units.
use vstd::prelude::*;

use crate::codec::{
    lemma_digit, lemma_lead_digits, lemma_nat_text, chars_of, digit_char, digit_char_of, digit_val, is_digit, nat_text, parse_i64, parse_i64_at,
    push_nat, string_of,
};

verus! {

/// The minor units that the text after the whole part adds: nothing, or a
/// point and one or two digits.
pub open spec fn fraction_of(rest: Seq<char>) -> Option<int> {
    if rest.len() == 0 {
        Some(0)
    } else if rest[0] == '.' && rest.len() == 2 && is_digit(rest[1]) {
        Some(digit_val(rest[1]) * 10)
    } else if rest[0] == '.' && rest.len() == 3 && is_digit(rest[1]) && is_digit(rest[2]) {
        Some(digit_val(rest[1]) * 10 + digit_val(rest[2]))
    } else {
        None
    }
}

/// The amount, in minor units, that `s` stands for: an optional `-`, the
/// whole units, then optionally a point and one or two digits; none where
/// the text has another shape or the amount does not fit in an `i64`.
pub open spec fn amount_of(s: Seq<char>) -> Option<i64> {
    let neg = s.len() > 0 && s[0] == '-';
    match parse_i64(s) {
        None => None,
        Some((whole, rest)) => match fraction_of(rest) {
            None => None,
            Some(f) => {
                let v = if neg {
                    whole * 100 - f
                } else {
                    whole * 100 + f
                };
                if i64::MIN <= v <= i64::MAX {
                    Some(v as i64)
                } else {
                    None
                }
            },
        },
    }
}

/// `cents` written with two digits after the point, and a `-` when negative.
pub open spec fn amount_text(cents: i64) -> Seq<char> {
    let m: nat = if cents < 0 {
        (-cents) as nat
    } else {
        cents as nat
    };
    let sign: Seq<char> = if cents < 0 {
        seq!['-']
    } else {
        seq![]
    };
    sign + nat_text(m / 100) + seq!['.', digit_char(((m % 100) / 10) as int), digit_char(
        (m % 10) as int,
    )]
}

/// Reads an amount typed as decimal text ("12", "12.5", "-0.05") into minor
/// units.
pub fn parse_amount(text: &str) -> (r: Option<i64>)
    ensures
        r == amount_of(text@),
{
    let s = chars_of(text);
    assert(s@.skip(0) =~= s@);
    let neg = s.len() > 0 && s[0] == '-';
    let (whole, p) = match parse_i64_at(&s, 0) {
        Some(x) => x,
        None => {
            return None;
        },
    };
    let ghost rest = s@.skip(p as int);
    let n = s.len();
    let f: i128 = if p == n {
        0
    } else if s[p] == '.' && n - p == 2 && '0' <= s[p + 1] && s[p + 1] <= '9' {
        assert(rest[1] == s@[p + 1]);
        (s[p + 1] as u32 - 48) as i128 * 10
    } else if s[p] == '.' && n - p == 3 && '0' <= s[p + 1] && s[p + 1] <= '9' && '0' <= s[p + 2]
        && s[p + 2] <= '9' {
        assert(rest[1] == s@[p + 1]);
        assert(rest[2] == s@[p + 2]);
        (s[p + 1] as u32 - 48) as i128 * 10 + (s[p + 2] as u32 - 48) as i128
    } else {
        assert(p < n ==> rest[0] == s@[p as int]);
        assert(rest.len() == 2 ==> rest[1] == s@[p + 1]);
        assert(rest.len() == 3 ==> rest[1] == s@[p + 1] && rest[2] == s@[p + 2]);
        return None;
    };
    let v: i128 = if neg {
        whole as i128 * 100 - f
    } else {
        whole as i128 * 100 + f
    };
    if v < i64::MIN as i128 || v > i64::MAX as i128 {
        return None;
    }
    Some(v as i64)
}

/// Writes `cents` as decimal text with two digits after the point ("70.00",
/// "-0.05").
pub fn format_amount(cents: i64) -> (r: String)
    ensures
        r@ == amount_text(cents),
{
    let mut out: Vec<char> = Vec::new();
    if cents < 0 {
        out.push('-');
    }
    let m: u64 = if cents < 0 {
        if cents == i64::MIN {
            9223372036854775808
        } else {
            (-cents) as u64
        }
    } else {
        cents as u64
    };
    push_nat(&mut out, m / 100);
    out.push('.');
    out.push(digit_char_of((m % 100) / 10));
    out.push(digit_char_of(m % 10));
    assert(out@ =~= amount_text(cents));
    string_of(&out)
}

/// Reading back a formatted amount gives the same amount, for every `i64`.
pub proof fn lemma_amount_round_trip(cents: i64)
    ensures
        amount_of(amount_text(cents)) == Some(cents),
{
    let m: nat = if cents < 0 {
        (-cents) as nat
    } else {
        cents as nat
    };
    let q: nat = m / 100;
    let r: nat = m % 100;
    let d1: nat = r / 10;
    let d2: nat = m % 10;
    assert(r == d1 * 10 + d2 && m == q * 100 + r) by (nonlinear_arith)
        requires
            q == m / 100,
            r == m % 100,
            d1 == r / 10,
            d2 == m % 10,
    ;
    lemma_digit(d1 as int);
    lemma_digit(d2 as int);
    lemma_nat_text(q);
    let digits = nat_text(q);
    let tail = seq!['.', digit_char(d1 as int), digit_char(d2 as int)];
    let body = digits + tail;
    let s = amount_text(cents);
    lemma_lead_digits(body, digits.len() as int);
    assert(body.take(digits.len() as int) =~= digits);
    assert(body.skip(digits.len() as int) =~= tail);
    if cents < 0 {
        assert(s =~= seq!['-'] + body);
        assert(s.drop_first() =~= body);
    } else {
        assert(s =~= body);
        assert(is_digit(digits[0]));
    }
    assert(fraction_of(tail) == Some(r as int));
}

} // verus!
