//! Lexical primitives: booleans and numbers.

use vstd::prelude::*;
use crate::lexical::{
    char_at, has_char, has_pair, is_hex_digit, lemma_run_end, lemma_run_end_subrange, pair_at, run_end,
    scan, CharClass,
};
use crate::text::{chars_of, string_of};
use crate::model::NumberView;
use crate::types::{Number, ParseError};

verus! {

/// `true` or `false` at `i`: the value and the position behind it.
pub open spec fn boolean_at(s: Seq<char>, i: int) -> Option<(bool, int)> {
    if 0 <= i && i + 4 <= s.len() && s.subrange(i, i + 4) == seq!['t', 'r', 'u', 'e'] {
        Some((true, i + 4))
    } else if 0 <= i && i + 5 <= s.len() && s.subrange(i, i + 5) == seq!['f', 'a', 'l', 's', 'e'] {
        Some((false, i + 5))
    } else {
        None
    }
}

/// Recognizes the literal `true` or `false`.
pub fn boolean(s: &Vec<char>, i: usize) -> (r: Option<(bool, usize)>)
    requires
        i <= s.len(),
    ensures
        match boolean_at(s@, i as int) {
            Some((b, e)) => r == Some((b, e as usize)) && e <= s.len(),
            None => r is None,
        },
{
    let n = s.len() - i;
    if n >= 4 && s[i] == 't' && s[i + 1] == 'r' && s[i + 2] == 'u' && s[i + 3] == 'e' {
        assert(s@.subrange(i as int, i + 4) =~= seq!['t', 'r', 'u', 'e']);
        Some((true, i + 4))
    } else {
        assert(i + 4 <= s.len() ==> s@.subrange(i as int, i + 4) != seq!['t', 'r', 'u', 'e']) by {
            if i + 4 <= s.len() {
                let t = s@.subrange(i as int, i + 4);
                assert(t[0] == s[i as int] && t[1] == s[i + 1] && t[2] == s[i + 2] && t[3] == s[i + 3]);
            }
        }
        if n >= 5 && s[i] == 'f' && s[i + 1] == 'a' && s[i + 2] == 'l' && s[i + 3] == 's' && s[i + 4]
            == 'e' {
            assert(s@.subrange(i as int, i + 5) =~= seq!['f', 'a', 'l', 's', 'e']);
            Some((false, i + 5))
        } else {
            assert(i + 5 <= s.len() ==> s@.subrange(i as int, i + 5) != seq!['f', 'a', 'l', 's', 'e'])
                by {
                if i + 5 <= s.len() {
                    let t = s@.subrange(i as int, i + 5);
                    assert(t[0] == s[i as int] && t[1] == s[i + 1] && t[2] == s[i + 2] && t[3] == s[i
                        + 3] && t[4] == s[i + 4]);
                }
            }
            None
        }
    }
}

/// The value of one hexadecimal digit.
pub open spec fn hex_digit_value(c: char) -> nat {
    if '0' <= c <= '9' {
        (c as u32 - 48) as nat
    } else if 'a' <= c <= 'f' {
        (c as u32 - 87) as nat
    } else {
        (c as u32 - 55) as nat
    }
}

/// The number that a sequence of hexadecimal digits writes.
pub open spec fn hex_value(digits: Seq<char>) -> nat
    decreases digits.len(),
{
    if digits.len() == 0 {
        0
    } else {
        hex_value(digits.drop_last()) * 16 + hex_digit_value(digits.last())
    }
}

/// Every prefix of a digit sequence writes a number that is not larger.
pub proof fn lemma_hex_value_prefix(digits: Seq<char>, n: int)
    requires
        0 <= n <= digits.len(),
    ensures
        hex_value(digits.take(n)) <= hex_value(digits),
    decreases digits.len() - n,
{
    if n == digits.len() {
        assert(digits.take(n) =~= digits);
    } else {
        lemma_hex_value_prefix(digits, n + 1);
        assert(digits.take(n + 1).drop_last() =~= digits.take(n));
    }
}

/// Evaluates the hexadecimal digits `s[from..to]`; `None` when the number
/// does not fit 32 bits.
fn hex_digits(s: &Vec<char>, from: usize, to: usize) -> (r: Option<u32>)
    requires
        from <= to <= s.len(),
        forall|j: int| from <= j < to ==> is_hex_digit(#[trigger] s[j]),
    ensures
        match r {
            Some(v) => v == hex_value(s@.subrange(from as int, to as int)),
            None => hex_value(s@.subrange(from as int, to as int)) > u32::MAX,
        },
{
    let ghost all = s@.subrange(from as int, to as int);
    let mut acc: u64 = 0;
    let mut j: usize = from;
    while j < to
        invariant
            from <= j <= to <= s.len(),
            all == s@.subrange(from as int, to as int),
            forall|k: int| from <= k < to ==> is_hex_digit(#[trigger] s[k]),
            acc == hex_value(all.take(j - from)),
            acc <= u32::MAX,
        decreases to - j,
    {
        let n: u32 = s[j] as u32;
        assert(is_hex_digit(s[j as int]));
        let d: u64 = if n <= 57 {
            (n - 48) as u64
        } else if n >= 97 {
            (n - 87) as u64
        } else {
            (n - 55) as u64
        };
        proof {
            assert(all.take(j + 1 - from).drop_last() =~= all.take(j - from));
            assert(all.take(j + 1 - from).last() == s[j as int]);
            assert(d == hex_digit_value(s[j as int]));
        }
        acc = acc * 16 + d;
        j += 1;
        if acc > 0xffff_ffff {
            proof {
                lemma_hex_value_prefix(all, j - from);
            }
            return None;
        }
    }
    assert(all.take(to - from) =~= all);
    Some(acc as u32)
}

/// A hexadecimal literal at `i`: `0x`, then one or more hexadecimal digits
/// that write a number of at most 32 bits.
pub open spec fn hex_at(s: Seq<char>, i: int) -> Option<(u32, int)> {
    let e = run_end(s, i + 2, CharClass::HexDigit);
    if pair_at(s, i, '0', 'x') && e > i + 2 && hex_value(s.subrange(i + 2, e)) <= u32::MAX {
        Some((hex_value(s.subrange(i + 2, e)) as u32, e))
    } else {
        None
    }
}

/// Recognizes a hexadecimal literal.
pub fn hex(s: &Vec<char>, i: usize) -> (r: Option<(u32, usize)>)
    requires
        i <= s.len(),
    ensures
        match hex_at(s@, i as int) {
            Some((v, e)) => r == Some((v, e as usize)) && i < e <= s.len(),
            None => r is None,
        },
{
    if !has_pair(s, i, '0', 'x') {
        return None;
    }
    let e = scan(s, i + 2, CharClass::HexDigit);
    if e == i + 2 {
        return None;
    }
    proof {
        lemma_run_end(s@, i + 2, CharClass::HexDigit);
    }
    match hex_digits(s, i + 2, e) {
        Some(v) => Some((v, e)),
        None => None,
    }
}

/// An optional sign at `i`: the position behind it.
pub open spec fn sign_end(s: Seq<char>, i: int) -> int {
    if char_at(s, i, '+') || char_at(s, i, '-') {
        i + 1
    } else {
        i
    }
}

/// An unsigned decimal at `i`: digits with an optional fraction, or a
/// fraction alone. Gives the position behind it.
pub open spec fn unsigned_decimal_at(s: Seq<char>, i: int) -> Option<int> {
    let d = run_end(s, i, CharClass::Digit);
    if d > i {
        if char_at(s, d, '.') {
            Some(run_end(s, d + 1, CharClass::Digit))
        } else {
            Some(d)
        }
    } else if char_at(s, i, '.') && run_end(s, i + 1, CharClass::Digit) > i + 1 {
        Some(run_end(s, i + 1, CharClass::Digit))
    } else {
        None
    }
}

/// A decimal literal at `i`: an optional sign and an unsigned decimal, then
/// optionally `e` or `E`, an optional sign and an unsigned decimal. Where
/// the part behind the exponent letter is no unsigned decimal, the literal
/// ends before the letter. An exponent with a fraction has no value, so a
/// literal with one is refused. Gives the position behind the literal.
pub open spec fn decimal_at(s: Seq<char>, i: int) -> Option<int> {
    match unsigned_decimal_at(s, sign_end(s, i)) {
        None => None,
        Some(m) => {
            if char_at(s, m, 'e') || char_at(s, m, 'E') {
                let x = sign_end(s, m + 1);
                match unsigned_decimal_at(s, x) {
                    None => Some(m),
                    Some(e) => if run_end(s, x, CharClass::Digit) == e {
                        Some(e)
                    } else {
                        None
                    },
                }
            } else {
                Some(m)
            }
        },
    }
}

fn sign(s: &Vec<char>, i: usize) -> (e: usize)
    requires
        i <= s.len(),
    ensures
        e == sign_end(s@, i as int),
        i <= e <= s.len(),
{
    if has_char(s, i, '+') || has_char(s, i, '-') {
        i + 1
    } else {
        i
    }
}

fn unsigned_decimal(s: &Vec<char>, i: usize) -> (r: Option<usize>)
    requires
        i <= s.len(),
    ensures
        match unsigned_decimal_at(s@, i as int) {
            Some(e) => r == Some(e as usize) && i < e <= s.len(),
            None => r is None,
        },
{
    let d = scan(s, i, CharClass::Digit);
    if d > i {
        if has_char(s, d, '.') {
            Some(scan(s, d + 1, CharClass::Digit))
        } else {
            Some(d)
        }
    } else if has_char(s, i, '.') {
        let e = scan(s, i + 1, CharClass::Digit);
        if e > i + 1 {
            Some(e)
        } else {
            None
        }
    } else {
        None
    }
}

/// Recognizes a decimal literal and gives the position behind it.
pub fn decimal(s: &Vec<char>, i: usize) -> (r: Option<usize>)
    requires
        i <= s.len(),
    ensures
        match decimal_at(s@, i as int) {
            Some(e) => r == Some(e as usize) && i < e <= s.len(),
            None => r is None,
        },
{
    let start = sign(s, i);
    match unsigned_decimal(s, start) {
        None => None,
        Some(m) => {
            if has_char(s, m, 'e') || has_char(s, m, 'E') {
                let x = sign(s, m + 1);
                match unsigned_decimal(s, x) {
                    None => Some(m),
                    Some(e) => if scan(s, x, CharClass::Digit) == e {
                        Some(e)
                    } else {
                        None
                    },
                }
            } else {
                Some(m)
            }
        },
    }
}

/// Whether `t` as a whole is a decimal literal.
pub open spec fn is_decimal_literal(t: Seq<char>) -> bool {
    decimal_at(t, 0) == Some(t.len() as int)
}

proof fn lemma_unsigned_piece(s: Seq<char>, a: int, b: int, p: int, m: int)
    requires
        0 <= a <= p <= b <= s.len(),
        unsigned_decimal_at(s, p) == Some(m),
        m <= b,
    ensures
        p < m,
        unsigned_decimal_at(s.subrange(a, b), p - a) == Some(m - a),
{
    let t = s.subrange(a, b);
    let d = run_end(s, p, CharClass::Digit);
    lemma_run_end(s, p, CharClass::Digit);
    lemma_run_end_subrange(s, a, b, p - a, CharClass::Digit);
    if d > p {
        if char_at(s, d, '.') {
            lemma_run_end(s, d + 1, CharClass::Digit);
            lemma_run_end_subrange(s, a, b, d + 1 - a, CharClass::Digit);
            assert(t[d - a] == s[d]);
        } else {
            if d < b {
                assert(t[d - a] == s[d]);
            }
        }
    } else {
        lemma_run_end(s, p + 1, CharClass::Digit);
        lemma_run_end_subrange(s, a, b, p + 1 - a, CharClass::Digit);
        assert(t[p - a] == s[p]);
    }
}

/// The text of a decimal literal is, by itself, a decimal literal.
pub proof fn lemma_decimal_literal(s: Seq<char>, i: int, e: int)
    requires
        0 <= i <= s.len(),
        decimal_at(s, i) == Some(e),
    ensures
        i < e <= s.len(),
        is_decimal_literal(s.subrange(i, e)),
{
    let t = s.subrange(i, e);
    let p = sign_end(s, i);
    let m = unsigned_decimal_at(s, p)->0;
    lemma_run_end(s, p, CharClass::Digit);
    if char_at(s, run_end(s, p, CharClass::Digit), '.') {
        lemma_run_end(s, run_end(s, p, CharClass::Digit) + 1, CharClass::Digit);
    }
    if char_at(s, p, '.') {
        lemma_run_end(s, p + 1, CharClass::Digit);
    }
    assert(p < m <= s.len());
    if (char_at(s, m, 'e') || char_at(s, m, 'E')) && unsigned_decimal_at(s, sign_end(s, m + 1)) is Some {
        let x = sign_end(s, m + 1);
        lemma_run_end(s, x, CharClass::Digit);
        assert(x < e <= s.len());
        lemma_unsigned_piece(s, i, e, p, m);
        lemma_unsigned_piece(s, i, e, x, e);
        lemma_run_end_subrange(s, i, e, x - i, CharClass::Digit);
        assert(t[0] == s[i]);
        assert(t[m - i] == s[m]);
        assert(t[m + 1 - i] == s[m + 1]);
        assert(sign_end(t, 0) == p - i);
        assert(sign_end(t, m + 1 - i) == x - i);
    } else {
        assert(e == m);
        lemma_unsigned_piece(s, i, e, p, m);
        assert(t[0] == s[i]);
        assert(sign_end(t, 0) == p - i);
    }
}

/// A number at `i`: a hexadecimal literal, else a decimal literal.
pub open spec fn number_at(s: Seq<char>, i: int) -> Option<(NumberView, int)> {
    match hex_at(s, i) {
        Some((v, e)) => Some((NumberView::Hex(v), e)),
        None => match decimal_at(s, i) {
            Some(e) => Some((NumberView::Decimal(s.subrange(i, e)), e)),
            None => None,
        },
    }
}

/// Recognizes a number.
pub fn number(s: &Vec<char>, i: usize) -> (r: Option<(Number, usize)>)
    requires
        i <= s.len(),
    ensures
        match number_at(s@, i as int) {
            Some((v, e)) => r matches Some((n, j)) && n@ == v && j == e && i < e <= s.len() && v.wf(),
            None => r is None,
        },
{
    match hex(s, i) {
        Some((v, e)) => Some((Number::from_hex(v), e)),
        None => match decimal(s, i) {
            Some(e) => {
                proof {
                    lemma_decimal_literal(s@, i as int, e as int);
                }
                Some((Number::literal(string_of(s, i, e)), e))
            },
            None => None,
        },
    }
}

/// Whether `digits` holds hexadecimal digits only.
pub open spec fn all_hex_digits(digits: Seq<char>) -> bool {
    forall|j: int| 0 <= j < digits.len() ==> is_hex_digit(#[trigger] digits[j])
}

/// What `text` writes in radix 16: an optional `+`, then one or more
/// hexadecimal digits that write a number of at most 32 bits.
pub open spec fn radix16(text: Seq<char>) -> Option<u32> {
    let digits = if char_at(text, 0, '+') {
        text.subrange(1, text.len() as int)
    } else {
        text
    };
    if digits.len() > 0 && all_hex_digits(digits) && hex_value(digits) <= u32::MAX {
        Some(hex_value(digits) as u32)
    } else {
        None
    }
}

/// Reads `i` as a hexadecimal number of 32 bits.
pub fn to_i(i: &str) -> (r: Result<u32, ParseError>)
    ensures
        match radix16(i@) {
            Some(v) => r == Ok::<u32, ParseError>(v),
            None => r == Err::<u32, ParseError>(ParseError::Malformed),
        },
{
    let s = chars_of(i);
    let from: usize = if has_char(&s, 0, '+') { 1 } else { 0 };
    let e = scan(&s, from, CharClass::HexDigit);
    proof {
        lemma_run_end(s@, from as int, CharClass::HexDigit);
        let digits = s@.subrange(from as int, s.len() as int);
        if from == 0 {
            assert(digits =~= s@);
        }
        if e < s.len() {
            assert(!is_hex_digit(digits[e - from]));
        } else {
            assert forall|j: int| 0 <= j < digits.len() implies is_hex_digit(#[trigger] digits[j]) by {
                assert(digits[j] == s[from + j]);
            }
        }
    }
    if e < s.len() || e == from {
        return Err(ParseError::Malformed);
    }
    match hex_digits(&s, from, e) {
        Some(v) => Ok(v),
        None => Err(ParseError::Malformed),
    }
}

} // verus!
