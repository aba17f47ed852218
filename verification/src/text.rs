//! Byte-level vocabulary shared by the parsers: decimal digits, searching for
//! a separator, and cutting a `&str` at ASCII positions.
//!
//! Every text in this crate is read through its UTF-8 bytes, written
//! `encode_utf8(s@)` in contracts.

use vstd::prelude::*;
use vstd::utf8::*;
use vstd::slice::slice_subrange;

verus! {

/// `,` closes a field of a line.
pub const COMMA: u8 = 0x2c;

/// `-` parts the fields of a date, and alone on a line it closes a batch.
pub const DASH: u8 = 0x2d;

/// `+` may stand before a number.
pub const PLUS: u8 = 0x2b;

/// `.` stands between the hours and their hundredths.
pub const DOT: u8 = 0x2e;

/// `:` stands between the hour and the minute.
pub const COLON: u8 = 0x3a;

/// The byte that ends a line.
pub const NEWLINE: u8 = 0x0a;

/// The byte that may stand before the end of a line.
pub const CARRIAGE_RETURN: u8 = 0x0d;

/// The digit `0`.
pub const ZERO: u8 = 0x30;

/// An ASCII decimal digit.
pub open spec fn is_digit(b: u8) -> bool {
    0x30 <= b <= 0x39
}

/// What a digit counts for; zero for any other byte.
pub open spec fn digit_value(b: u8) -> nat {
    if is_digit(b) {
        (b - 0x30) as nat
    } else {
        0
    }
}

/// The ASCII digit for a number below ten.
pub open spec fn digit_byte(d: nat) -> u8
    recommends
        d < 10,
{
    (0x30 + d) as u8
}

/// A run of digits and nothing else; the empty run is one.
pub open spec fn all_digits(s: Seq<u8>) -> bool {
    forall|i: int| 0 <= i < s.len() ==> is_digit(#[trigger] s[i])
}

/// The number that a run of digits writes in base ten; the empty run is zero.
pub open spec fn decimal_value(s: Seq<u8>) -> nat
    decreases s.len(),
{
    if s.len() == 0 {
        0
    } else {
        decimal_value(s.drop_last()) * 10 + digit_value(s.last())
    }
}

/// `n` in base ten with at least `width` digits, zeros in front where it has fewer.
pub open spec fn padded_decimal(n: nat, width: nat) -> Seq<u8>
    decreases n + width,
{
    if n < 10 && width <= 1 {
        seq![digit_byte(n)]
    } else {
        let front_width = if width > 0 {
            (width - 1) as nat
        } else {
            0
        };
        padded_decimal(n / 10, front_width).push(digit_byte(n % 10))
    }
}

/// The position of the first `b` at or after `from`, or the length of `s` where there is none.
pub open spec fn first_index(s: Seq<u8>, b: u8, from: int) -> int
    decreases s.len() - from,
{
    if from < 0 || from >= s.len() {
        s.len() as int
    } else if s[from] == b {
        from
    } else {
        first_index(s, b, from + 1)
    }
}

/// The position of the last `b` in `s`, or -1 where there is none.
pub open spec fn last_index(s: Seq<u8>, b: u8) -> int
    decreases s.len(),
{
    if s.len() == 0 {
        -1
    } else if s.last() == b {
        s.len() - 1
    } else {
        last_index(s.drop_last(), b)
    }
}

/// What `first_index` finds lies at or behind `from`, holds `b` unless it
/// is the end, and has no `b` between `from` and itself.
pub proof fn lemma_first_index(s: Seq<u8>, b: u8, from: int)
    requires
        0 <= from <= s.len(),
    ensures
        from <= first_index(s, b, from) <= s.len(),
        forall|i: int| from <= i < first_index(s, b, from) ==> #[trigger] s[i] != b,
        first_index(s, b, from) < s.len() ==> s[first_index(s, b, from)] == b,
    decreases s.len() - from,
{
    if from < s.len() && s[from] != b {
        lemma_first_index(s, b, from + 1);
    }
}

/// A position with these three properties is the one that `first_index` finds.
pub proof fn lemma_first_index_is(s: Seq<u8>, b: u8, from: int, at: int)
    requires
        0 <= from <= at <= s.len(),
        forall|i: int| from <= i < at ==> #[trigger] s[i] != b,
        at < s.len() ==> s[at] == b,
    ensures
        first_index(s, b, from) == at,
    decreases at - from,
{
    if from < at {
        lemma_first_index_is(s, b, from + 1, at);
    }
}

/// A position that holds `b`, with no `b` behind it, is the last one; and
/// where no position holds `b`, there is none.
pub proof fn lemma_last_index_is(s: Seq<u8>, b: u8, at: int)
    requires
        -1 <= at < s.len(),
        at >= 0 ==> s[at] == b,
        forall|i: int| at < i < s.len() ==> #[trigger] s[i] != b,
    ensures
        last_index(s, b) == at,
    decreases s.len(),
{
    if s.len() > 0 && at < s.len() - 1 {
        lemma_last_index_is(s.drop_last(), b, at);
    }
}

/// What `padded_decimal` writes is a run of digits, at least one and at
/// least `width`, and counts for `n`.
pub proof fn lemma_padded_decimal(n: nat, width: nat)
    ensures
        all_digits(padded_decimal(n, width)),
        decimal_value(padded_decimal(n, width)) == n,
        padded_decimal(n, width).len() >= 1,
        padded_decimal(n, width).len() >= width,
    decreases n + width,
{
    if n < 10 && width <= 1 {
        lemma_decimal_value_push(Seq::<u8>::empty(), digit_byte(n));
        assert(Seq::<u8>::empty().push(digit_byte(n)) =~= seq![digit_byte(n)]);
    } else {
        let front = padded_decimal(n / 10, if width > 0 { (width - 1) as nat } else { 0 });
        lemma_padded_decimal(n / 10, if width > 0 { (width - 1) as nat } else { 0 });
        lemma_decimal_value_push(front, digit_byte(n % 10));
    }
}

/// Ten to the power of `k`.
pub open spec fn pow10(k: nat) -> nat
    decreases k,
{
    if k == 0 {
        1
    } else {
        10 * pow10((k - 1) as nat)
    }
}

/// A number that `width` digits can write is written with just as many.
pub proof fn lemma_padded_width(n: nat, width: nat)
    requires
        width >= 1,
        n < pow10(width),
    ensures
        padded_decimal(n, width).len() == width,
    decreases width,
{
    reveal_with_fuel(pow10, 3);
    if !(n < 10 && width <= 1) {
        lemma_padded_width(n / 10, (width - 1) as nat);
    }
}

/// One more digit at the end: ten times the number, and the digit.
pub proof fn lemma_decimal_value_push(s: Seq<u8>, b: u8)
    ensures
        decimal_value(s.push(b)) == decimal_value(s) * 10 + digit_value(b),
{
    assert(s.push(b).drop_last() =~= s);
}

/// A longer run of digits never writes a smaller number than its own beginning.
pub proof fn lemma_decimal_value_grows(s: Seq<u8>, n: int)
    requires
        0 <= n <= s.len(),
    ensures
        decimal_value(s.take(n)) <= decimal_value(s),
    decreases s.len() - n,
{
    if n < s.len() {
        lemma_decimal_value_grows(s.drop_last(), n);
        assert(s.drop_last().take(n) =~= s.take(n));
    } else {
        assert(s.take(n) =~= s);
    }
}

/// An executable count seen as the number it holds.
pub open spec fn as_nat(v: Option<u64>) -> Option<nat> {
    match v {
        Some(n) => Some(n as nat),
        None => None,
    }
}

/// What a run of digits counts for: one digit or more, and no number above `max`.
pub open spec fn digits_field(s: Seq<u8>, max: nat) -> Option<nat> {
    if s.len() > 0 && all_digits(s) && decimal_value(s) <= max {
        Some(decimal_value(s))
    } else {
        None
    }
}

/// What an unsigned field counts for: an optional `+`, then a run of digits.
pub open spec fn unsigned_field(s: Seq<u8>, max: nat) -> Option<nat> {
    if s.len() > 0 && s[0] == PLUS {
        digits_field(s.skip(1), max)
    } else {
        digits_field(s, max)
    }
}

/// Reads a run of digits as a number up to `max`.
pub fn parse_digits(s: &[u8], max: u64) -> (value: Option<u64>)
    ensures
        as_nat(value) == digits_field(s@, max as nat),
        value matches Some(v) ==> v <= max,
{
    let n: usize = s.len();
    if n == 0 {
        return None;
    }
    let mut i: usize = 0;
    let mut acc: u64 = 0;
    while i < n
        invariant
            i <= n == s@.len(),
            all_digits(s@.take(i as int)),
            acc == decimal_value(s@.take(i as int)),
            acc <= max,
        decreases n - i,
    {
        let b = s[i];
        if b < 0x30 || b > 0x39 {
            assert(!is_digit(s@[i as int]));
            return None;
        }
        let digit: u64 = (b - ZERO) as u64;
        proof {
            assert(s@.take(i + 1).drop_last() =~= s@.take(i as int));
            assert(decimal_value(s@.take(i + 1)) == acc * 10 + digit);
        }
        if acc > max / 10 || (acc == max / 10 && digit > max % 10) {
            proof {
                lemma_decimal_value_grows(s@, i + 1);
            }
            return None;
        }
        acc = acc * 10 + digit;
        i += 1;
    }
    assert(s@.take(i as int) =~= s@);
    Some(acc)
}

/// Whether a text holds digits only.
pub fn is_digits(s: &[u8]) -> (yes: bool)
    ensures
        yes == all_digits(s@),
{
    let n: usize = s.len();
    let mut i: usize = 0;
    while i < n
        invariant
            i <= n == s@.len(),
            forall|j: int| 0 <= j < i ==> is_digit(#[trigger] s@[j]),
        decreases n - i,
    {
        if s[i] < 0x30 || s[i] > 0x39 {
            assert(!is_digit(s@[i as int]));
            return false;
        }
        i += 1;
    }
    true
}

/// Reads an unsigned field as a number up to `max`.
pub fn parse_unsigned(s: &[u8], max: u64) -> (value: Option<u64>)
    ensures
        as_nat(value) == unsigned_field(s@, max as nat),
        value matches Some(v) ==> v <= max,
{
    if s.len() > 0 && s[0] == PLUS {
        assert(s@.skip(1) =~= s@.subrange(1, s@.len() as int));
        parse_digits(slice_subrange(s, 1, s.len()), max)
    } else {
        parse_digits(s, max)
    }
}

/// Searching from `from` finds what searching the rest from its start finds.
pub proof fn lemma_first_index_skip(s: Seq<u8>, b: u8, from: int)
    requires
        0 <= from <= s.len(),
    ensures
        first_index(s.skip(from), b, 0) + from == first_index(s, b, from),
{
    lemma_first_index(s, b, from);
    lemma_first_index_is(s.skip(from), b, 0, first_index(s, b, from) - from);
}

/// The bytes of two texts in a row are the bytes of the one behind those of the other.
pub proof fn lemma_encode_add(a: Seq<char>, b: Seq<char>)
    ensures
        encode_utf8(a + b) == encode_utf8(a) + encode_utf8(b),
    decreases a.len(),
{
    if a.len() == 0 {
        assert(a + b =~= b);
        assert(encode_utf8(a) + encode_utf8(b) =~= encode_utf8(b));
    } else {
        assert((a + b).drop_first() =~= a.drop_first() + b);
        lemma_encode_add(a.drop_first(), b);
        assert(encode_utf8(a + b) =~= encode_utf8(a) + encode_utf8(b));
    }
}

/// Whether `a` comes before `b` in the order of a dictionary, byte by
/// byte, where the two are read from `from` on: at the first place where
/// they differ `a` holds the smaller byte, or `a` ends there and `b` goes on.
pub open spec fn bytes_before(a: Seq<u8>, b: Seq<u8>, from: int) -> bool
    decreases b.len() - from,
{
    if from < 0 || from >= b.len() {
        false
    } else if from >= a.len() {
        true
    } else if a[from] != b[from] {
        a[from] < b[from]
    } else {
        bytes_before(a, b, from + 1)
    }
}

/// No text comes before itself.
pub proof fn lemma_bytes_before_irreflexive(a: Seq<u8>, from: int)
    ensures
        !bytes_before(a, a, from),
    decreases a.len() - from,
{
    if 0 <= from < a.len() {
        lemma_bytes_before_irreflexive(a, from + 1);
    }
}

/// Of two texts at most one comes before the other.
pub proof fn lemma_bytes_before_asymmetric(a: Seq<u8>, b: Seq<u8>, from: int)
    ensures
        bytes_before(a, b, from) ==> !bytes_before(b, a, from),
    decreases b.len() - from,
{
    if 0 <= from < a.len() && from < b.len() && a[from] == b[from] {
        lemma_bytes_before_asymmetric(a, b, from + 1);
    }
}

/// What comes before a text comes before all that the text comes before.
pub proof fn lemma_bytes_before_transitive(a: Seq<u8>, b: Seq<u8>, c: Seq<u8>, from: int)
    ensures
        bytes_before(a, b, from) && bytes_before(b, c, from) ==> bytes_before(a, c, from),
    decreases c.len() - from,
{
    if 0 <= from < a.len() && from < b.len() && from < c.len() && a[from] == b[from] && b[from]
        == c[from] {
        lemma_bytes_before_transitive(a, b, c, from + 1);
    }
}

/// Two texts of which neither comes before the other are one text.
pub proof fn lemma_bytes_before_total(a: Seq<u8>, b: Seq<u8>, from: int)
    requires
        0 <= from <= a.len(),
        from <= b.len(),
        a.take(from) == b.take(from),
        !bytes_before(a, b, from),
        !bytes_before(b, a, from),
    ensures
        a == b,
    decreases a.len() - from,
{
    if from < a.len() && from < b.len() {
        assert(a.take(from + 1) =~= a.take(from).push(a[from]));
        assert(b.take(from + 1) =~= b.take(from).push(b[from]));
        lemma_bytes_before_total(a, b, from + 1);
    } else {
        assert(a =~= a.take(from));
        assert(b =~= b.take(from));
    }
}

/// Whether `a` comes before `b` in the order of a dictionary.
pub fn comes_before(a: &[u8], b: &[u8]) -> (yes: bool)
    ensures
        yes == bytes_before(a@, b@, 0),
{
    let mut i: usize = 0;
    while i < a.len() && i < b.len() && a[i] == b[i]
        invariant
            i <= a@.len(),
            i <= b@.len(),
            bytes_before(a@, b@, 0) == bytes_before(a@, b@, i as int),
        decreases a@.len() - i,
    {
        i += 1;
    }
    if i >= b.len() {
        false
    } else if i >= a.len() {
        true
    } else {
        a[i] < b[i]
    }
}

/// Looks for `b` from `from` on: the first position that holds it, or the
/// length of `s` where none does.
pub fn find_byte(s: &[u8], b: u8, from: usize) -> (at: usize)
    ensures
        at == first_index(s@, b, from as int),
        at <= s@.len(),
        from <= s@.len() ==> from <= at,
        at < s@.len() ==> s@[at as int] == b,
        forall|i: int| from <= i < at ==> #[trigger] s@[i] != b,
{
    if from >= s.len() {
        return s.len();
    }
    proof {
        lemma_first_index(s@, b, from as int);
    }
    let mut i: usize = from;
    while i < s.len() && s[i] != b
        invariant
            from <= i <= s@.len(),
            first_index(s@, b, from as int) == first_index(s@, b, i as int),
        decreases s@.len() - i,
    {
        i += 1;
    }
    i
}

/// An ASCII character alone is the one byte of its own number.
pub proof fn lemma_encode_ascii(c: char)
    requires
        c <= '\u{7f}',
    ensures
        encode_utf8(seq![c]) == seq![c as u8],
{
    is_ascii_chars_encode_utf8(seq![c]);
    assert(encode_utf8(seq![c]) =~= seq![c as u8]);
}

/// The text of one digit.
pub(crate) fn digit_str(d: u8) -> (text: &'static str)
    requires
        d < 10,
    ensures
        encode_utf8(text@) == seq![digit_byte(d as nat)],
{
    proof {
        reveal_strlit("0");
        reveal_strlit("1");
        reveal_strlit("2");
        reveal_strlit("3");
        reveal_strlit("4");
        reveal_strlit("5");
        reveal_strlit("6");
        reveal_strlit("7");
        reveal_strlit("8");
        reveal_strlit("9");
    }
    let text: &'static str = match d {
        0 => "0",
        1 => "1",
        2 => "2",
        3 => "3",
        4 => "4",
        5 => "5",
        6 => "6",
        7 => "7",
        8 => "8",
        _ => "9",
    };
    proof {
        let c = text@[0];
        assert(text@ =~= seq![c]);
        lemma_encode_ascii(c);
    }
    text
}

/// The text of one of the marks that the logs are written with.
pub(crate) fn mark_str(mark: u8) -> (text: &'static str)
    requires
        mark == COMMA || mark == DOT || mark == DASH || mark == NEWLINE,
    ensures
        encode_utf8(text@) == seq![mark],
{
    proof {
        reveal_strlit(",");
        reveal_strlit(".");
        reveal_strlit("-");
        reveal_strlit("\n");
    }
    let text: &'static str = if mark == COMMA {
        ","
    } else if mark == DOT {
        "."
    } else if mark == DASH {
        "-"
    } else {
        "\n"
    };
    proof {
        let c = text@[0];
        assert(text@ =~= seq![c]);
        lemma_encode_ascii(c);
    }
    text
}

/// Adds a text at the end of another.
pub(crate) fn push_text(out: &mut String, text: &str)
    ensures
        encode_utf8(final(out)@) == encode_utf8(old(out)@) + encode_utf8(text@),
{
    proof {
        lemma_encode_add(out@, text@);
    }
    out.append(text);
}

/// Adds `n` in base ten, with at least `width` digits.
pub(crate) fn push_padded(out: &mut String, n: u128, width: u64)
    ensures
        encode_utf8(final(out)@) == encode_utf8(old(out)@) + padded_decimal(n as nat, width as nat),
    decreases n + width,
{
    if n >= 10 || width > 1 {
        push_padded(out, n / 10, if width > 0 { width - 1 } else { 0 });
    }
    push_text(out, digit_str((n % 10) as u8));
    proof {
        let digit = seq![digit_byte((n % 10) as nat)];
        if n >= 10 || width > 1 {
            let front = padded_decimal(
                (n / 10) as nat,
                if width > 0 { (width - 1) as nat } else { 0 },
            );
            assert((encode_utf8(old(out)@) + front) + digit =~= encode_utf8(old(out)@)
                + front.push(digit_byte((n % 10) as nat)));
        }
    }
}

/// In valid UTF-8 a position that holds an ASCII byte starts a character, and
/// so does the position behind it.
pub proof fn lemma_ascii_boundaries(bytes: Seq<u8>, at: int)
    requires
        valid_utf8(bytes),
        0 <= at < bytes.len(),
        bytes[at] < 0x80,
    ensures
        is_char_boundary(bytes, at),
        is_char_boundary(bytes, at + 1),
{
    is_char_boundary_iff_not_is_continuation_byte(bytes, at);
    valid_utf8_split(bytes, at);
    let tail = bytes.subrange(at, bytes.len() as int);
    assert(tail[0] == bytes[at]);
    assert(valid_first_scalar(tail));
    assert(length_of_first_scalar(tail) == 1);
    let rest = pop_first_scalar(tail);
    assert(valid_utf8(rest));
    if at + 1 < bytes.len() {
        assert(rest[0] == bytes[at + 1]);
        assert(valid_first_scalar(rest));
        is_char_boundary_iff_not_is_continuation_byte(bytes, at + 1);
    } else {
        is_char_boundary_start_end_of_seq(bytes);
    }
}

/// The part of `s` between two character boundaries, given as byte positions.
pub(crate) fn sub_str<'a>(s: &'a str, from: usize, to: usize) -> (part: &'a str)
    requires
        from <= to <= encode_utf8(s@).len(),
        is_char_boundary(encode_utf8(s@), from as int),
        is_char_boundary(encode_utf8(s@), to as int),
    ensures
        encode_utf8(part@) == encode_utf8(s@).subrange(from as int, to as int),
{
    broadcast use encode_utf8_valid_utf8;
    let ghost bytes = encode_utf8(s@);
    let (head, _) = s.split_at(to);
    proof {
        valid_utf8_split(bytes, to as int);
        if from < to {
            is_char_boundary_iff_not_is_continuation_byte(bytes, from as int);
            is_char_boundary_iff_not_is_continuation_byte(encode_utf8(head@), from as int);
        } else {
            is_char_boundary_start_end_of_seq(encode_utf8(head@));
        }
    }
    let (_, part) = head.split_at(from);
    assert(encode_utf8(part@) =~= bytes.subrange(from as int, to as int));
    part
}

} // verus!
