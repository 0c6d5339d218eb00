//! Decimal numbers as text: which strings denote a 64-bit integer, and which
//! are decimal floating-point literals.

use crate::text::find_char;
use crate::text::first_index;
use crate::text::lemma_first_index;
use vstd::prelude::*;

verus! {

/// One of the ten decimal digits.
pub open spec fn is_digit(c: char) -> bool {
    '0' <= c && c <= '9'
}

/// The number that a decimal digit stands for.
pub open spec fn digit_value(c: char) -> int {
    c as u32 - '0' as u32
}

/// Every character is a decimal digit.
pub open spec fn all_digits(s: Seq<char>) -> bool {
    forall|i: int| 0 <= i < s.len() ==> is_digit(#[trigger] s[i])
}

/// The number that a run of decimal digits denotes, the first digit weighing
/// most.
pub open spec fn digits_value(s: Seq<char>) -> int
    decreases s.len(),
{
    if s.len() == 0 {
        0
    } else {
        10 * digits_value(s.drop_last()) + digit_value(s.last())
    }
}

/// Whether `s` begins with a plus or a minus sign.
pub open spec fn has_sign(s: Seq<char>) -> bool {
    s.len() > 0 && (s[0] == '+' || s[0] == '-')
}

/// `s` without its sign, if it has one.
pub open spec fn unsigned_part(s: Seq<char>) -> Seq<char> {
    if has_sign(s) {
        s.subrange(1, s.len() as int)
    } else {
        s
    }
}

/// The number that a sign and a run of digits denote.
pub open spec fn signed_value(s: Seq<char>) -> int {
    if s.len() > 0 && s[0] == '-' {
        -digits_value(unsigned_part(s))
    } else {
        digits_value(unsigned_part(s))
    }
}

/// The integer that `s` denotes in base ten: an optional sign, then one or
/// more digits and nothing else, the number within the signed 64-bit range.
/// Any other string denotes none.
pub open spec fn integer_of(s: Seq<char>) -> Option<i64> {
    let digits = unsigned_part(s);
    if digits.len() > 0 && all_digits(digits) && i64::MIN <= signed_value(s) <= i64::MAX {
        Some(signed_value(s) as i64)
    } else {
        None
    }
}

/// The letter that opens the exponent of a floating-point literal.
pub open spec fn is_exponent_mark(c: char) -> bool {
    c == 'e' || c == 'E'
}

/// The position of the first exponent mark in `s`.
pub open spec fn first_exponent(s: Seq<char>) -> Option<int> {
    s.map_values(|c: char| is_exponent_mark(c)).index_of_first(true)
}

/// Digits with at most one point among them, and at least one digit.
pub open spec fn is_mantissa(m: Seq<char>) -> bool {
    match first_index(m, '.') {
        None => m.len() > 0 && all_digits(m),
        Some(d) => m.len() > 1 && all_digits(m.subrange(0, d)) && all_digits(
            m.subrange(d + 1, m.len() as int),
        ),
    }
}

/// An optional sign, then one or more digits.
pub open spec fn is_exponent(x: Seq<char>) -> bool {
    unsigned_part(x).len() > 0 && all_digits(unsigned_part(x))
}

/// Whether `s` is a decimal floating-point literal: an optional sign, a
/// mantissa of digits with an optional point, and an optional exponent made of
/// `e` or `E`, an optional sign and digits. These are the strings that hold a
/// point and that Rust's parser for 64-bit floats accepts; the words it
/// accepts besides (`inf`, `infinity`, `nan`) hold no point.
pub open spec fn decimal_literal(s: Seq<char>) -> bool {
    let body = unsigned_part(s);
    match first_exponent(body) {
        None => is_mantissa(body),
        Some(e) => is_mantissa(body.subrange(0, e)) && is_exponent(
            body.subrange(e + 1, body.len() as int),
        ),
    }
}

/// What `first_exponent` gives is the first position that holds an exponent
/// mark, and it gives `None` only where there is no such position.
pub proof fn lemma_first_exponent(s: Seq<char>)
    ensures
        match first_exponent(s) {
            Some(i) => 0 <= i < s.len() && is_exponent_mark(s[i]) && forall|j: int|
                0 <= j < i ==> !is_exponent_mark(#[trigger] s[j]),
            None => forall|j: int| 0 <= j < s.len() ==> !is_exponent_mark(#[trigger] s[j]),
        },
{
    let marks = s.map_values(|c: char| is_exponent_mark(c));
    marks.index_of_first_ensures(true);
    match first_exponent(s) {
        Some(i) => {
            assert forall|j: int| 0 <= j < i implies !is_exponent_mark(#[trigger] s[j]) by {
                assert(marks[j] == is_exponent_mark(s[j]));
            }
        },
        None => {
            assert forall|j: int| 0 <= j < s.len() implies !is_exponent_mark(#[trigger] s[j]) by {
                assert(marks.contains(marks[j]));
            }
        },
    }
}

/// A run of digits denotes a number that is not negative.
pub proof fn lemma_digits_value_bounds(s: Seq<char>)
    requires
        all_digits(s),
    ensures
        0 <= digits_value(s),
    decreases s.len(),
{
    if s.len() > 0 {
        lemma_digits_value_bounds(s.drop_last());
    }
}

/// The first digits of a run denote no more than the whole run.
pub proof fn lemma_digits_value_grows(s: Seq<char>, k: int)
    requires
        all_digits(s),
        0 <= k <= s.len(),
    ensures
        0 <= digits_value(s.take(k)) <= digits_value(s),
    decreases s.len() - k,
{
    lemma_digits_value_bounds(s.take(k));
    if k < s.len() {
        lemma_digits_value_grows(s, k + 1);
        assert(s.take(k + 1).drop_last() =~= s.take(k));
    } else {
        assert(s.take(k) =~= s);
    }
}

/// The decimal digit that stands for `d`, a number below ten.
pub open spec fn digit_char(d: int) -> char {
    if d == 0 {
        '0'
    } else if d == 1 {
        '1'
    } else if d == 2 {
        '2'
    } else if d == 3 {
        '3'
    } else if d == 4 {
        '4'
    } else if d == 5 {
        '5'
    } else if d == 6 {
        '6'
    } else if d == 7 {
        '7'
    } else if d == 8 {
        '8'
    } else {
        '9'
    }
}

/// The digits of a natural number in base ten, without leading zeros.
pub open spec fn digits_of(n: nat) -> Seq<char>
    decreases n,
{
    if n < 10 {
        seq![digit_char(n as int)]
    } else {
        digits_of(n / 10).push(digit_char((n % 10) as int))
    }
}

/// The usual decimal text of an integer: a minus sign where it is negative,
/// then the digits of its magnitude.
pub open spec fn decimal_text(i: int) -> Seq<char> {
    if i < 0 {
        seq!['-'] + digits_of((-i) as nat)
    } else {
        digits_of(i as nat)
    }
}

/// The digits of a number are digits, at least one, and denote the number.
pub proof fn lemma_digits_of(n: nat)
    ensures
        digits_of(n).len() > 0,
        all_digits(digits_of(n)),
        digits_value(digits_of(n)) == n,
    decreases n,
{
    if n < 10 {
        let s = seq![digit_char(n as int)];
        assert(digits_value(s.drop_last()) == 0);
    } else {
        lemma_digits_of(n / 10);
        let s = digits_of(n / 10);
        let c = digit_char((n % 10) as int);
        assert(s.push(c).drop_last() =~= s);
    }
}

/// The decimal text of a 64-bit integer denotes that integer.
pub proof fn lemma_decimal_text(i: i64)
    ensures
        integer_of(decimal_text(i as int)) == Some(i),
{
    let s = decimal_text(i as int);
    if i < 0 {
        let digits = digits_of((-i) as nat);
        lemma_digits_of((-i) as nat);
        assert(unsigned_part(s) =~= digits);
    } else {
        lemma_digits_of(i as nat);
    }
}

/// A character that a decimal floating-point literal can hold: a digit, a
/// sign, the point or an exponent mark.
pub open spec fn is_literal_char(c: char) -> bool {
    is_digit(c) || c == '+' || c == '-' || c == '.' || is_exponent_mark(c)
}

/// A mantissa holds digits and points only.
proof fn lemma_mantissa_chars(m: Seq<char>, j: int)
    requires
        is_mantissa(m),
        0 <= j < m.len(),
    ensures
        is_digit(m[j]) || m[j] == '.',
{
    lemma_first_index(m, '.');
    match first_index(m, '.') {
        None => {},
        Some(d) => {
            if j < d {
                assert(m.subrange(0, d)[j] == m[j]);
            } else if j > d {
                assert(m.subrange(d + 1, m.len() as int)[j - d - 1] == m[j]);
            }
        },
    }
}

/// A decimal floating-point literal holds no character but digits, signs,
/// the point and exponent marks.
pub proof fn lemma_literal_chars(s: Seq<char>)
    requires
        decimal_literal(s),
    ensures
        forall|j: int| 0 <= j < s.len() ==> is_literal_char(#[trigger] s[j]),
{
    let body = unsigned_part(s);
    lemma_first_exponent(body);
    assert forall|j: int| 0 <= j < s.len() implies is_literal_char(#[trigger] s[j]) by {
        if has_sign(s) && j == 0 {
        } else {
            let b = if has_sign(s) {
                j - 1
            } else {
                j
            };
            match first_exponent(body) {
                None => {
                    lemma_mantissa_chars(body, b);
                },
                Some(e) => {
                    if b < e {
                        lemma_mantissa_chars(body.subrange(0, e), b);
                    } else if b > e {
                        let x = body.subrange(e + 1, body.len() as int);
                        let i = b - e - 1;
                        if has_sign(x) {
                            if i > 0 {
                                assert(unsigned_part(x)[i - 1] == x[i]);
                            }
                        } else {
                            assert(unsigned_part(x)[i] == x[i]);
                        }
                    }
                },
            }
        }
    }
}

/// Whether every character of `s` is a decimal digit.
pub fn digits_only(s: &[char]) -> (r: bool)
    ensures
        r == all_digits(s@),
{
    let n: usize = s.len();
    let mut i: usize = 0;
    while i < n
        invariant
            i <= n,
            n == s@.len(),
            forall|j: int| 0 <= j < i ==> is_digit(#[trigger] s@[j]),
        decreases n - i,
    {
        let c = s[i];
        if !('0' <= c && c <= '9') {
            return false;
        }
        i += 1;
    }
    true
}

/// Reads a base-ten integer: an optional sign, then digits. `None` where the
/// string is not of that form or the number does not fit in 64 bits.
pub fn parse_integer(s: &[char]) -> (r: Option<i64>)
    ensures
        r == integer_of(s@),
{
    let n: usize = s.len();
    if n == 0 {
        return None;
    }
    let negative = s[0] == '-';
    let start: usize = if s[0] == '+' || s[0] == '-' {
        1
    } else {
        0
    };
    if start == n {
        return None;
    }
    let ghost digits = unsigned_part(s@);
    let limit: u128 = 9223372036854775808u128;
    let mut acc: u128 = 0;
    let mut i: usize = start;
    while i < n
        invariant
            start <= i <= n,
            n == s@.len(),
            digits == s@.subrange(start as int, n as int),
            digits == unsigned_part(s@),
            all_digits(digits.take(i - start)),
            acc == digits_value(digits.take(i - start)),
            acc <= limit,
            limit == 9223372036854775808u128,
        decreases n - i,
    {
        let c = s[i];
        let ghost k = i - start;
        assert(digits[k] == c);
        if !('0' <= c && c <= '9') {
            return None;
        }
        let d: u128 = (c as u32 - '0' as u32) as u128;
        let next: u128 = acc * 10 + d;
        proof {
            assert(digits.take(k + 1).drop_last() =~= digits.take(k));
        }
        if next > limit {
            proof {
                if all_digits(digits) {
                    lemma_digits_value_grows(digits, k + 1);
                }
            }
            return None;
        }
        acc = next;
        i += 1;
    }
    assert(digits.take(n - start) =~= digits);
    if negative {
        if acc == limit {
            Some(i64::MIN)
        } else {
            Some(-(acc as i64))
        }
    } else {
        if acc == limit {
            None
        } else {
            Some(acc as i64)
        }
    }
}

/// The position of the first exponent mark among `s`.
pub fn find_exponent(s: &[char]) -> (r: Option<usize>)
    ensures
        match r {
            Some(i) => first_exponent(s@) == Some(i as int),
            None => first_exponent(s@) is None,
        },
{
    let n: usize = s.len();
    let mut i: usize = 0;
    while i < n
        invariant
            i <= n,
            n == s@.len(),
            forall|j: int| 0 <= j < i ==> !is_exponent_mark(#[trigger] s@[j]),
        decreases n - i,
    {
        if s[i] == 'e' || s[i] == 'E' {
            proof {
                lemma_first_exponent(s@);
            }
            return Some(i);
        }
        i += 1;
    }
    proof {
        lemma_first_exponent(s@);
    }
    None
}

/// Whether `m` is made of digits with at most one point, and has a digit.
pub fn mantissa_check(m: &[char]) -> (r: bool)
    ensures
        r == is_mantissa(m@),
{
    let n: usize = m.len();
    match find_char(m, '.') {
        None => n > 0 && digits_only(m),
        Some(d) => n > 1 && digits_only(&m[0..d]) && digits_only(&m[d + 1..n]),
    }
}

/// Whether `x` is an optional sign followed by one or more digits.
pub fn exponent_check(x: &[char]) -> (r: bool)
    ensures
        r == is_exponent(x@),
{
    let n: usize = x.len();
    let start: usize = if n > 0 && (x[0] == '+' || x[0] == '-') {
        1
    } else {
        0
    };
    assert(unsigned_part(x@) =~= x@.subrange(start as int, n as int));
    start < n && digits_only(&x[start..n])
}

/// Whether `s` is a decimal floating-point literal.
pub fn is_decimal_literal(s: &[char]) -> (r: bool)
    ensures
        r == decimal_literal(s@),
{
    let n: usize = s.len();
    let start: usize = if n > 0 && (s[0] == '+' || s[0] == '-') {
        1
    } else {
        0
    };
    let body = &s[start..n];
    assert(unsigned_part(s@) =~= body@);
    proof {
        lemma_first_exponent(body@);
    }
    match find_exponent(body) {
        None => mantissa_check(body),
        Some(e) => mantissa_check(&body[0..e]) && exponent_check(&body[e + 1..body.len()]),
    }
}

} // verus!
