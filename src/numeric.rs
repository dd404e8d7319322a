//! Integer literals, decimal output and the arithmetic of the primitives.
use vstd::prelude::*;

verus! {

use vstd::math::abs;

pub open spec fn is_digit(c: char) -> bool {
    '0' <= c && c <= '9'
}

pub open spec fn digit_value(c: char) -> int {
    c as int - '0' as int
}

pub open spec fn all_digits(s: Seq<char>) -> bool {
    forall|i: int| 0 <= i < s.len() ==> is_digit(#[trigger] s[i])
}

/// The number that the decimal digits `s` spell.
pub open spec fn digits_value(s: Seq<char>) -> int
    decreases s.len(),
{
    if s.len() == 0 {
        0
    } else {
        digits_value(s.drop_last()) * 10 + digit_value(s.last())
    }
}

/// The integer that a word spells: an optional sign, then one or more
/// decimal digits, with a value that fits in 32 signed bits.
pub open spec fn parse_int(w: Seq<char>) -> Option<i32> {
    let neg = w.len() > 0 && w[0] == '-';
    let signed = w.len() > 0 && (w[0] == '-' || w[0] == '+');
    let body = if signed { w.skip(1) } else { w };
    let v = if neg { -digits_value(body) } else { digits_value(body) };
    if body.len() > 0 && all_digits(body) && i32::MIN <= v <= i32::MAX {
        Some(v as i32)
    } else {
        None
    }
}

proof fn lemma_digits_value_nonneg(s: Seq<char>)
    requires
        all_digits(s),
    ensures
        digits_value(s) >= 0,
    decreases s.len(),
{
    if s.len() > 0 {
        let t = s.drop_last();
        assert(all_digits(t)) by {
            assert forall|i: int| 0 <= i < t.len() implies is_digit(#[trigger] t[i]) by {
                assert(t[i] == s[i]);
            }
        }
        lemma_digits_value_nonneg(t);
        assert(is_digit(s[s.len() - 1]));
    }
}

/// A bound above every magnitude that fits in 32 signed bits.
pub const MAGNITUDE_CAP: i64 = 2147483649;

/// Reads a word as an integer literal.
pub fn parse_int_of(w: &Vec<char>) -> (r: Option<i32>)
    ensures
        r == parse_int(w@),
{
    let n = w.len();
    if n == 0 {
        return None;
    }
    let neg = w[0] == '-';
    let start: usize = if w[0] == '-' || w[0] == '+' { 1 } else { 0 };
    let ghost body = if start == 1 { w@.skip(1) } else { w@ };
    assert(body =~= w@.subrange(start as int, n as int));
    if start >= n {
        return None;
    }
    let mut acc: i64 = 0;
    let mut i: usize = start;
    while i < n
        invariant
            start <= i <= n == w@.len(),
            n > 0,
            neg == (w@[0] == '-'),
            (start == 1) == (w@[0] == '-' || w@[0] == '+'),
            start <= 1,
            body == (if start == 1 { w@.skip(1) } else { w@ }),
            body == w@.subrange(start as int, n as int),
            all_digits(w@.subrange(start as int, i as int)),
            0 <= acc <= MAGNITUDE_CAP,
            acc == (if digits_value(w@.subrange(start as int, i as int)) < MAGNITUDE_CAP {
                digits_value(w@.subrange(start as int, i as int))
            } else {
                MAGNITUDE_CAP as int
            }),
        decreases n - i,
    {
        let c = w[i];
        let ghost pre = w@.subrange(start as int, i as int);
        let ghost next = w@.subrange(start as int, i as int + 1);
        assert(next.drop_last() =~= pre);
        if c < '0' || c > '9' {
            assert(!all_digits(body)) by {
                assert(body[i - start] == c);
                assert(!is_digit(body[i - start]));
            }
            return None;
        }
        proof {
            lemma_digits_value_nonneg(pre);
        }
        let d = (c as u32 - '0' as u32) as i64;
        let v = acc * 10 + d;
        acc = if v > MAGNITUDE_CAP { MAGNITUDE_CAP } else { v };
        assert(all_digits(next)) by {
            assert forall|j: int| 0 <= j < next.len() implies is_digit(#[trigger] next[j]) by {
                if j < pre.len() {
                    assert(next[j] == pre[j]);
                }
            }
        }
        assert(digits_value(next) == digits_value(pre) * 10 + digit_value(c));
        proof {
            if digits_value(pre) >= MAGNITUDE_CAP {
                assert(digits_value(pre) * 10 >= MAGNITUDE_CAP) by (nonlinear_arith)
                    requires digits_value(pre) >= MAGNITUDE_CAP;
            }
        }
        i += 1;
    }
    assert(w@.subrange(start as int, n as int) == body);
    if neg {
        if acc > 2147483648 {
            None
        } else {
            Some((-acc) as i32)
        }
    } else {
        if acc > 2147483647 {
            None
        } else {
            Some(acc as i32)
        }
    }
}

pub open spec fn digit_char(d: nat) -> char {
    ((d + 48) as u8) as char
}

/// The decimal digits of `n`, most significant first.
pub open spec fn digits_of(n: nat) -> Seq<char>
    decreases n,
{
    if n < 10 {
        seq![digit_char(n)]
    } else {
        digits_of(n / 10).push(digit_char(n % 10))
    }
}

/// How `.` prints `n`: a minus sign for a negative value, then the digits.
pub open spec fn decimal(n: int) -> Seq<char> {
    if n < 0 {
        seq!['-'] + digits_of((-n) as nat)
    } else {
        digits_of(n as nat)
    }
}

fn push_digits(out: &mut Vec<char>, n: u32)
    ensures
        final(out)@ == old(out)@ + digits_of(n as nat),
    decreases n,
{
    if n >= 10 {
        push_digits(out, n / 10);
    }
    let d = (n % 10) as u8;
    out.push((d + 48) as char);
    assert(final(out)@ =~= old(out)@ + digits_of(n as nat));
}

/// Appends the decimal form of `n` to `out`.
pub fn push_decimal(out: &mut Vec<char>, n: i32)
    ensures
        final(out)@ == old(out)@ + decimal(n as int),
{
    if n < 0 {
        out.push('-');
        let m = (-(n as i64)) as u32;
        push_digits(out, m);
        assert(final(out)@ =~= old(out)@ + decimal(n as int));
    } else {
        push_digits(out, n as u32);
    }
}

/// Division truncated toward zero, on unbounded integers.
pub open spec fn trunc_div(b: int, a: int) -> int {
    let q = (abs(b) / abs(a)) as int;
    if (b < 0) == (a < 0) { q } else { -q }
}

/// The remainder of [`trunc_div`]: it takes the sign of `b`.
pub open spec fn trunc_rem(b: int, a: int) -> int {
    let r = (abs(b) % abs(a)) as int;
    if b < 0 { -r } else { r }
}

/// `b / a` on 32-bit integers: the one quotient out of range,
/// `i32::MIN / -1`, wraps to `i32::MIN`.
pub open spec fn div_i32(b: i32, a: i32) -> i32 {
    if b == i32::MIN && a == -1 { i32::MIN } else { trunc_div(b as int, a as int) as i32 }
}

/// `b mod a` on 32-bit integers.
pub open spec fn rem_i32(b: i32, a: i32) -> i32 {
    trunc_rem(b as int, a as int) as i32
}

/// Truncating division; `a` must not be zero.
pub fn divide(b: i32, a: i32) -> (r: i32)
    requires
        a != 0,
    ensures
        r == div_i32(b, a),
{
    let ub: i64 = if b < 0 { -(b as i64) } else { b as i64 };
    let ua: i64 = if a < 0 { -(a as i64) } else { a as i64 };
    let q = ub / ua;
    assert(q <= ub) by (nonlinear_arith)
        requires ua >= 1, ub >= 0, q == ub / ua;
    assert(q >= 0) by (nonlinear_arith)
        requires ua >= 1, ub >= 0, q == ub / ua;
    if b == i32::MIN && a == -1 {
        i32::MIN
    } else {
        if (b < 0) == (a < 0) {
            assert(q <= i32::MAX) by (nonlinear_arith)
                requires ua >= 1, ub <= 2147483648, q == ub / ua, ua >= 2 || ub <= 2147483647;
            q as i32
        } else {
            (-q) as i32
        }
    }
}

/// Truncating remainder; `a` must not be zero.
pub fn remainder(b: i32, a: i32) -> (r: i32)
    requires
        a != 0,
    ensures
        r == rem_i32(b, a),
{
    let ub: i64 = if b < 0 { -(b as i64) } else { b as i64 };
    let ua: i64 = if a < 0 { -(a as i64) } else { a as i64 };
    let m = ub % ua;
    assert(0 <= m < ua) by (nonlinear_arith)
        requires ua >= 1, ub >= 0, m == ub % ua;
    if b < 0 { (-m) as i32 } else { m as i32 }
}

} // verus!
