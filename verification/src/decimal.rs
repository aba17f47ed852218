//! The hours field of a line: a decimal number, with a decimal point or
//! without and with an exponent of ten behind it or none, read as a whole
//! count of hundredths.

use vstd::prelude::*;
use vstd::slice::slice_subrange;
use crate::text::{
    all_digits, as_nat, decimal_value, digit_value, find_byte, first_index, is_digits,
    lemma_decimal_value_grows, pow10, DASH, DOT, PLUS, ZERO,
};

verus! {

/// Exponents are read up to this size; a larger one decides the result as
/// this one does.
pub const EXPONENT_LIMIT: i128 = 0x10_0000_0000_0000_0000_0000_0000;

/// `e` or `E`, which stands before an exponent.
pub open spec fn is_exponent_mark(b: u8) -> bool {
    b == 0x65 || b == 0x45
}

/// The position of the first `e` or `E` at or after `from`, or the length
/// of `s` where there is none.
pub open spec fn exponent_at(s: Seq<u8>, from: int) -> int
    decreases s.len() - from,
{
    if from < 0 || from >= s.len() {
        s.len() as int
    } else if is_exponent_mark(s[from]) {
        from
    } else {
        exponent_at(s, from + 1)
    }
}

/// The exponent that a text names: a sign or none, then one digit or more.
pub open spec fn exponent_field(s: Seq<u8>) -> Option<int> {
    let signed = s.len() > 0 && (s[0] == PLUS || s[0] == DASH);
    let digits = if signed {
        s.skip(1)
    } else {
        s
    };
    if digits.len() > 0 && all_digits(digits) {
        if signed && s[0] == DASH {
            Some(-(decimal_value(digits) as int))
        } else {
            Some(decimal_value(digits) as int)
        }
    } else {
        None
    }
}

/// The number that digits write with the decimal point behind the first
/// `point` of them, as a whole number: with zeros added where the point
/// lies beyond the digits, and else rounded, a half and more going up.
pub open spec fn shifted_value(digits: Seq<u8>, point: int) -> nat {
    if point >= digits.len() {
        decimal_value(digits) * pow10((point - digits.len()) as nat)
    } else if point >= 0 {
        decimal_value(digits.take(point)) + if digit_value(digits[point]) >= 5 {
            1nat
        } else {
            0nat
        }
    } else {
        0
    }
}

/// A count as far as 64 bits hold it.
pub open spec fn fitting(count: nat) -> Option<nat> {
    if count <= u64::MAX {
        Some(count)
    } else {
        None
    }
}

/// The hours that a field names, in hundredths, rounded to the nearest.
/// The field is a number that is not negative: a `+` or none; digits with
/// a decimal point before, among or behind them, or without one; and an
/// exponent or none, that is `e` or `E`, a sign or none, and digits.
/// `None` for any other text, and for a count of hundredths that does not
/// fit in 64 bits.
pub open spec fn hours_field(s: Seq<u8>) -> Option<nat> {
    let body = if s.len() > 0 && s[0] == PLUS {
        s.skip(1)
    } else {
        s
    };
    let mark = exponent_at(body, 0);
    let mantissa = body.take(mark);
    let dot = first_index(mantissa, DOT, 0);
    let whole = mantissa.take(dot);
    let fraction = if dot < mantissa.len() {
        mantissa.skip(dot + 1)
    } else {
        Seq::<u8>::empty()
    };
    let exponent = if mark < body.len() {
        exponent_field(body.skip(mark + 1))
    } else {
        Some(0int)
    };
    if all_digits(whole) && all_digits(fraction) && whole.len() + fraction.len() > 0
        && exponent is Some {
        fitting(shifted_value(whole + fraction, whole.len() + exponent.unwrap() + 2))
    } else {
        None
    }
}

/// An exponent within the limits in which exponents are read.
pub open spec fn cut(exponent: int) -> int {
    if exponent > EXPONENT_LIMIT {
        EXPONENT_LIMIT as int
    } else if exponent < -EXPONENT_LIMIT {
        -EXPONENT_LIMIT
    } else {
        exponent
    }
}

/// What `exponent_at` finds lies at or behind `from` and holds a mark
/// unless it is the end.
pub proof fn lemma_exponent_at(s: Seq<u8>, from: int)
    requires
        0 <= from <= s.len(),
    ensures
        from <= exponent_at(s, from) <= s.len(),
        exponent_at(s, from) < s.len() ==> is_exponent_mark(s[exponent_at(s, from)]),
    decreases s.len() - from,
{
    if from < s.len() && !is_exponent_mark(s[from]) {
        lemma_exponent_at(s, from + 1);
    }
}

/// A text without `e` and `E` has its exponent mark at its end.
pub proof fn lemma_no_exponent(s: Seq<u8>, from: int)
    requires
        0 <= from <= s.len(),
        forall|i: int| from <= i < s.len() ==> !is_exponent_mark(#[trigger] s[i]),
    ensures
        exponent_at(s, from) == s.len(),
    decreases s.len() - from,
{
    if from < s.len() {
        lemma_no_exponent(s, from + 1);
    }
}

/// A power of ten is at least one, and no smaller than a lower one.
pub proof fn lemma_pow10_grows(k: nat, m: nat)
    requires
        k <= m,
    ensures
        1 <= pow10(k) <= pow10(m),
    decreases m,
{
    if k < m {
        lemma_pow10_grows(k, (m - 1) as nat);
    } else if k > 0 {
        lemma_pow10_grows((k - 1) as nat, (k - 1) as nat);
    }
}

proof fn lemma_pow10_twenty()
    ensures
        pow10(20) > u64::MAX,
{
    assert(pow10(5) == 100_000) by {
        reveal_with_fuel(pow10, 6);
    }
    assert(pow10(10) == 100_000 * pow10(5)) by {
        reveal_with_fuel(pow10, 6);
    }
    assert(pow10(15) == 100_000 * pow10(10)) by {
        reveal_with_fuel(pow10, 6);
    }
    assert(pow10(20) == 100_000 * pow10(15)) by {
        reveal_with_fuel(pow10, 6);
    }
}

proof fn lemma_product_grows(a: nat, x: nat, y: nat)
    requires
        x <= y,
    ensures
        a * x <= a * y,
{
    assert(a * x <= a * y) by (nonlinear_arith)
        requires
            x <= y,
    ;
}

/// A shifted value is no smaller than what the digits before the point
/// write, as far as they are read.
proof fn lemma_shifted_at_least(digits: Seq<u8>, point: int, read: int)
    requires
        0 <= read <= digits.len(),
        read <= point,
    ensures
        shifted_value(digits, point) >= decimal_value(digits.take(read)),
{
    if point >= digits.len() {
        lemma_decimal_value_grows(digits, read);
        lemma_pow10_grows(0, (point - digits.len()) as nat);
        lemma_product_grows(decimal_value(digits), 1, pow10((point - digits.len()) as nat));
    } else {
        lemma_decimal_value_grows(digits.take(point), read);
        assert(digits.take(point).take(read) =~= digits.take(read));
    }
}

/// With the point beyond the digits, a shifted value is no smaller than
/// the digits' number with fewer zeros added.
proof fn lemma_shifted_multiple(digits: Seq<u8>, point: int, zeros: nat)
    requires
        point >= digits.len() + zeros,
    ensures
        shifted_value(digits, point) >= decimal_value(digits) * pow10(zeros),
{
    lemma_pow10_grows(zeros, (point - digits.len()) as nat);
    lemma_product_grows(decimal_value(digits), pow10(zeros), pow10((point - digits.len()) as nat));
}

/// An exponent beyond the limit decides the result as the limit does: the
/// value is zero, or it is beyond 64 bits, with either.
proof fn lemma_cut_exponent(digits: Seq<u8>, lead: int, exponent: int)
    requires
        0 <= lead <= digits.len() <= u64::MAX,
    ensures
        fitting(shifted_value(digits, lead + exponent + 2)) == fitting(
            shifted_value(digits, lead + cut(exponent) + 2),
        ),
{
    let point = lead + exponent + 2;
    let near = lead + cut(exponent) + 2;
    if exponent > EXPONENT_LIMIT {
        lemma_pow10_twenty();
        lemma_shifted_multiple(digits, point, 20);
        lemma_shifted_multiple(digits, near, 20);
        if decimal_value(digits) > 0 {
            lemma_product_grows(pow10(20), 1, decimal_value(digits));
            assert(decimal_value(digits) * pow10(20) == pow10(20) * decimal_value(digits))
                by (nonlinear_arith);
        } else {
            assert(shifted_value(digits, point) == 0) by (nonlinear_arith)
                requires
                    shifted_value(digits, point) == decimal_value(digits) * pow10(
                        (point - digits.len()) as nat,
                    ),
                    decimal_value(digits) == 0,
            ;
            assert(shifted_value(digits, near) == 0) by (nonlinear_arith)
                requires
                    shifted_value(digits, near) == decimal_value(digits) * pow10(
                        (near - digits.len()) as nat,
                    ),
                    decimal_value(digits) == 0,
            ;
        }
    }
}

/// Looks for the first `e` or `E`.
pub fn find_exponent(s: &[u8]) -> (at: usize)
    ensures
        at == exponent_at(s@, 0),
        at <= s@.len(),
{
    proof {
        lemma_exponent_at(s@, 0);
    }
    let mut i: usize = 0;
    while i < s.len() && s[i] != 0x65 && s[i] != 0x45
        invariant
            i <= s@.len(),
            exponent_at(s@, 0) == exponent_at(s@, i as int),
        decreases s@.len() - i,
    {
        i += 1;
    }
    i
}

/// Reads an exponent, cut to the limit.
pub fn parse_exponent(s: &[u8]) -> (value: Option<i128>)
    ensures
        match exponent_field(s@) {
            Some(e) => value == Some(cut(e) as i128),
            None => value is None,
        },
{
    let n: usize = s.len();
    let signed = n > 0 && (s[0] == PLUS || s[0] == DASH);
    let digits = if signed {
        assert(s@.skip(1) =~= s@.subrange(1, n as int));
        slice_subrange(s, 1, n)
    } else {
        s
    };
    let m: usize = digits.len();
    if m == 0 || !is_digits(digits) {
        return None;
    }
    let mut size: i128 = 0;
    let mut i: usize = 0;
    while i < m
        invariant
            i <= m == digits@.len(),
            all_digits(digits@),
            0 <= size <= EXPONENT_LIMIT,
            size == cut(decimal_value(digits@.take(i as int)) as int),
        decreases m - i,
    {
        proof {
            assert(digits@.take(i + 1).drop_last() =~= digits@.take(i as int));
        }
        let next: i128 = size * 10 + (digits[i] - ZERO) as i128;
        size = if next > EXPONENT_LIMIT {
            EXPONENT_LIMIT
        } else {
            next
        };
        i += 1;
    }
    assert(digits@.take(m as int) =~= digits@);
    if signed && s[0] == DASH {
        Some(-size)
    } else {
        Some(size)
    }
}

/// The number that the digits of `whole` and `fraction`, in a row, write
/// with the decimal point behind the first `point` of them; `None` where
/// it does not fit in 64 bits.
fn shift_digits(whole: &[u8], fraction: &[u8], point: i128) -> (value: Option<u64>)
    requires
        all_digits(whole@),
        all_digits(fraction@),
        whole@.len() + fraction@.len() <= usize::MAX,
        -2 * EXPONENT_LIMIT <= point <= 2 * EXPONENT_LIMIT,
    ensures
        as_nat(value) == fitting(shifted_value(whole@ + fraction@, point as int)),
{
    let ghost digits = whole@ + fraction@;
    let lead: usize = whole.len();
    let total: usize = lead + fraction.len();
    if point < 0 {
        return Some(0);
    }
    let kept: usize = if point >= total as i128 {
        total
    } else {
        point as usize
    };
    let mut acc: u64 = 0;
    let mut j: usize = 0;
    while j < kept
        invariant
            digits == whole@ + fraction@,
            all_digits(whole@),
            all_digits(fraction@),
            lead == whole@.len(),
            total == digits.len(),
            j <= kept <= total,
            kept <= point,
            acc == decimal_value(digits.take(j as int)),
        decreases kept - j,
    {
        let b = if j < lead {
            whole[j]
        } else {
            fraction[j - lead]
        };
        let digit: u64 = (b - ZERO) as u64;
        proof {
            assert(digits[j as int] == b);
            assert(digits.take(j + 1).drop_last() =~= digits.take(j as int));
            assert(decimal_value(digits.take(j + 1)) == acc * 10 + digit);
        }
        if acc > (u64::MAX - digit) / 10 {
            proof {
                lemma_shifted_at_least(digits, point as int, j + 1);
            }
            return None;
        }
        acc = acc * 10 + digit;
        j += 1;
    }
    if point < total as i128 {
        let b = if kept < lead {
            whole[kept]
        } else {
            fraction[kept - lead]
        };
        assert(digits[kept as int] == b);
        if b >= 0x35 {
            if acc == u64::MAX {
                return None;
            }
            acc += 1;
        }
        Some(acc)
    } else {
        assert(digits.take(total as int) =~= digits);
        let zeros: i128 = point - total as i128;
        if acc == 0 {
            assert(shifted_value(digits, point as int) == 0) by (nonlinear_arith)
                requires
                    shifted_value(digits, point as int) == decimal_value(digits) * pow10(
                        (point - digits.len()) as nat,
                    ),
                    decimal_value(digits) == 0,
            ;
            return Some(0);
        }
        let mut k: i128 = 0;
        assert(acc == decimal_value(digits) * pow10(0)) by (nonlinear_arith)
            requires
                acc == decimal_value(digits),
                pow10(0) == 1,
        ;
        while k < zeros
            invariant
                digits == whole@ + fraction@,
                0 <= k <= zeros,
                zeros == point - digits.len(),
                acc >= 1,
                acc == decimal_value(digits) * pow10(k as nat),
            decreases zeros - k,
        {
            proof {
                assert(pow10((k + 1) as nat) == 10 * pow10(k as nat));
                assert(decimal_value(digits) * pow10((k + 1) as nat) == acc * 10)
                    by (nonlinear_arith)
                    requires
                        acc == decimal_value(digits) * pow10(k as nat),
                        pow10((k + 1) as nat) == 10 * pow10(k as nat),
                ;
            }
            if acc > u64::MAX / 10 {
                proof {
                    lemma_shifted_multiple(digits, point as int, (k + 1) as nat);
                }
                return None;
            }
            acc = acc * 10;
            k += 1;
        }
        Some(acc)
    }
}

/// Reads the hours field of a line.
pub fn parse_hours(field: &[u8]) -> (hours: Option<u64>)
    ensures
        as_nat(hours) == hours_field(field@),
{
    let n: usize = field.len();
    let body = if n > 0 && field[0] == PLUS {
        assert(field@.skip(1) =~= field@.subrange(1, n as int));
        slice_subrange(field, 1, n)
    } else {
        field
    };
    let mark: usize = find_exponent(body);
    let mantissa = slice_subrange(body, 0, mark);
    assert(mantissa@ =~= body@.take(mark as int));
    let dot: usize = find_byte(mantissa, DOT, 0);
    let whole = slice_subrange(mantissa, 0, dot);
    assert(whole@ =~= mantissa@.take(dot as int));
    let fraction = if dot < mantissa.len() {
        assert(mantissa@.skip(dot + 1) =~= mantissa@.subrange(dot + 1, mantissa@.len() as int));
        slice_subrange(mantissa, dot + 1, mantissa.len())
    } else {
        assert(mantissa@.subrange(0, 0) =~= Seq::<u8>::empty());
        slice_subrange(mantissa, 0, 0)
    };
    if !is_digits(whole) || !is_digits(fraction) || (whole.len() == 0 && fraction.len() == 0) {
        return None;
    }
    let exponent: i128 = if mark < body.len() {
        assert(body@.skip(mark + 1) =~= body@.subrange(mark + 1, body@.len() as int));
        match parse_exponent(slice_subrange(body, mark + 1, body.len())) {
            Some(e) => e,
            None => {
                return None;
            },
        }
    } else {
        0
    };
    proof {
        let stated = if mark < body@.len() {
            exponent_field(body@.skip(mark + 1))
        } else {
            Some(0int)
        };
        lemma_cut_exponent(whole@ + fraction@, whole@.len() as int, stated.unwrap());
    }
    shift_digits(whole, fraction, whole.len() as i128 + exponent + 2)
}

} // verus!
