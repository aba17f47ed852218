//! Clock times of the twelve-hour kind ("1:30pm") and the span between two
//! of them, counted in hundredths of an hour.

use vstd::prelude::*;
use vstd::utf8::*;
use crate::text::{
    as_nat, decimal_value, is_digit, last_index, lemma_last_index_is, lemma_padded_decimal,
    padded_decimal, COLON, ZERO,
};

verus! {

/// Hundredths of an hour in a day.
pub const DAY: u64 = 2400;

/// A byte that the scanner reads past: a digit or a colon.
pub open spec fn is_clock_byte(b: u8) -> bool {
    is_digit(b) || b == COLON
}

/// Where the scanner stops when it starts at `from`: at the first byte that
/// is neither a digit nor a colon, or at the end.
pub open spec fn scan_end(s: Seq<u8>, from: int) -> int
    decreases s.len() - from,
{
    if from < 0 || from >= s.len() || !is_clock_byte(s[from]) {
        from
    } else {
        scan_end(s, from + 1)
    }
}

/// The hour and the minute that a text names. Without a colon all that was
/// read is the hour. With one, the minute is what follows the last colon and
/// the hour is the run of digits just before it.
pub open spec fn clock_parts(s: Seq<u8>) -> (nat, nat) {
    let read = s.take(scan_end(s, 0));
    let colon = last_index(read, COLON);
    if colon < 0 {
        (decimal_value(read), 0)
    } else {
        let before = read.take(colon);
        (
            decimal_value(before.skip(last_index(before, COLON) + 1)),
            decimal_value(read.skip(colon + 1)),
        )
    }
}

/// The text ends in "pm", in either case of either letter.
pub open spec fn ends_with_pm(s: Seq<u8>) -> bool {
    &&& s.len() >= 2
    &&& (s[s.len() - 2] == 0x70 || s[s.len() - 2] == 0x50)
    &&& (s[s.len() - 1] == 0x6d || s[s.len() - 1] == 0x4d)
}

/// Minutes as hundredths of an hour, rounded to the nearest.
pub open spec fn minute_hundredths(minute: nat) -> nat {
    (minute * 100 + 30) / 60
}

/// The hour on a twenty-four hour dial: "pm" moves every hour but twelve to
/// the afternoon. Twelve stays twelve with either suffix.
pub open spec fn dial_hour(hour: nat, pm: bool) -> nat {
    if pm && hour != 12 {
        hour + 12
    } else {
        hour
    }
}

/// The time of day that a text names, in hundredths of an hour, where its
/// hour lies in 1..=12 and its minute in 0..=59.
pub open spec fn clock_value(s: Seq<u8>) -> Option<nat> {
    let (hour, minute) = clock_parts(s);
    if 1 <= hour <= 12 && minute <= 59 {
        Some(dial_hour(hour, ends_with_pm(s)) * 100 + minute_hundredths(minute))
    } else {
        None
    }
}

/// From `start` to `end` on the dial, going on into the next day where `end`
/// is the earlier of the two.
pub open spec fn span(start: nat, end: nat) -> nat {
    if end >= start {
        (end - start) as nat
    } else {
        (end + 2400 - start) as nat
    }
}

/// The span between the times that two texts name; `None` where either of
/// them names none.
pub open spec fn clock_difference(start: Seq<u8>, end: Seq<u8>) -> Option<nat> {
    match (clock_value(start), clock_value(end)) {
        (Some(a), Some(b)) => Some(span(a, b)),
        _ => None,
    }
}

spec fn capped(v: nat) -> nat {
    if v < 100 {
        v
    } else {
        100
    }
}

/// "am" or "pm", in either case of either letter.
pub open spec fn is_meridiem(suffix: Seq<u8>) -> bool {
    &&& suffix.len() == 2
    &&& (suffix[0] == 0x61 || suffix[0] == 0x41 || suffix[0] == 0x70 || suffix[0] == 0x50)
    &&& (suffix[1] == 0x6d || suffix[1] == 0x4d)
}

/// Whether a suffix names the afternoon.
pub open spec fn is_pm(suffix: Seq<u8>) -> bool {
    suffix[0] == 0x70 || suffix[0] == 0x50
}

/// An hour from 1 to 12 and a minute from 0 to 59, written with any number
/// of zeros in front, a colon between them and "am" or "pm" behind, always
/// name a time: the hour on the dial, and the minute as hundredths.
pub proof fn lemma_hour_and_minute(
    hour: nat,
    minute: nat,
    hour_width: nat,
    minute_width: nat,
    suffix: Seq<u8>,
)
    requires
        1 <= hour <= 12,
        minute <= 59,
        is_meridiem(suffix),
    ensures
        clock_value(
            padded_decimal(hour, hour_width).push(COLON) + padded_decimal(minute, minute_width)
                + suffix,
        ) == Some(dial_hour(hour, is_pm(suffix)) * 100 + minute_hundredths(minute)),
{
    let h = padded_decimal(hour, hour_width);
    let m = padded_decimal(minute, minute_width);
    let text = h.push(COLON) + m + suffix;
    lemma_padded_decimal(hour, hour_width);
    lemma_padded_decimal(minute, minute_width);
    let colon = h.len() as int;
    let end = colon + 1 + m.len();
    assert forall|k: int| 0 <= k < end implies is_clock_byte(#[trigger] text[k]) by {
        if k < colon {
            assert(text[k] == h[k]);
        } else if k > colon {
            assert(text[k] == m[k - colon - 1]);
        }
    }
    assert(text[end] == suffix[0]);
    lemma_scan_end(text, 0, end);
    let read = text.take(end);
    assert forall|i: int| colon < i < read.len() implies #[trigger] read[i] != COLON by {
        assert(read[i] == m[i - colon - 1]);
    }
    lemma_last_index_is(read, COLON, colon);
    let before = read.take(colon);
    assert(before =~= h);
    lemma_last_index_is(before, COLON, -1);
    assert(before.skip(0) =~= h);
    assert(read.skip(colon + 1) =~= m);
    assert(text[text.len() - 2] == suffix[0]);
    assert(text[text.len() - 1] == suffix[1]);
}

/// An hour from 1 to 12 with "am" or "pm" behind it names the full hour.
pub proof fn lemma_hour_alone(hour: nat, hour_width: nat, suffix: Seq<u8>)
    requires
        1 <= hour <= 12,
        is_meridiem(suffix),
    ensures
        clock_value(padded_decimal(hour, hour_width) + suffix) == Some(
            dial_hour(hour, is_pm(suffix)) * 100,
        ),
{
    let h = padded_decimal(hour, hour_width);
    let text = h + suffix;
    lemma_padded_decimal(hour, hour_width);
    let end = h.len() as int;
    assert forall|k: int| 0 <= k < end implies is_clock_byte(#[trigger] text[k]) by {
        assert(text[k] == h[k]);
    }
    assert(text[end] == suffix[0]);
    lemma_scan_end(text, 0, end);
    let read = text.take(end);
    assert(read =~= h);
    lemma_last_index_is(read, COLON, -1);
    assert(text[text.len() - 2] == suffix[0]);
    assert(text[text.len() - 1] == suffix[1]);
}

/// A span is shorter than a day, and from a time to itself it is zero.
pub proof fn lemma_span(start: nat, end: nat)
    requires
        start < 2400,
        end < 2400,
    ensures
        span(start, end) < 2400,
        span(start, start) == 0,
{
}

proof fn lemma_scan_end(s: Seq<u8>, from: int, end: int)
    requires
        0 <= from <= end <= s.len(),
        forall|k: int| from <= k < end ==> is_clock_byte(#[trigger] s[k]),
        end < s.len() ==> !is_clock_byte(s[end]),
    ensures
        scan_end(s, from) == end,
    decreases end - from,
{
    if from < end {
        lemma_scan_end(s, from + 1, end);
    }
}

fn is_clock(b: u8) -> (yes: bool)
    ensures
        yes == is_clock_byte(b),
{
    (0x30 <= b && b <= 0x39) || b == COLON
}

/// Reads a clock time. The result is in hundredths of an hour and lies
/// between 100 and 2398; `None` where the hour or the minute is out of range.
pub fn parse_time(time: &str) -> (value: Option<u64>)
    ensures
        as_nat(value) == clock_value(encode_utf8(time@)),
        value matches Some(v) ==> 100 <= v < 2400,
{
    let bytes = time.as_bytes();
    let n: usize = bytes.len();
    let mut i: usize = 0;
    let mut acc: u64 = 0;
    let mut hour: u64 = 0;
    let mut seen_colon = false;
    let ghost mut seg: int = 0;
    let ghost mut prev: int = 0;
    while i < n && is_clock(bytes[i])
        invariant
            n == bytes@.len(),
            0 <= seg <= i <= n,
            forall|k: int| 0 <= k < i ==> is_clock_byte(#[trigger] bytes@[k]),
            last_index(bytes@.take(i as int), COLON) == seg - 1,
            seen_colon <==> seg > 0,
            seen_colon ==> 0 <= prev < seg && last_index(bytes@.take(seg - 1), COLON) == prev - 1
                && hour == capped(decimal_value(bytes@.subrange(prev, seg - 1))),
            acc == capped(decimal_value(bytes@.subrange(seg, i as int))),
        decreases n - i,
    {
        let b = bytes[i];
        proof {
            assert(bytes@.take(i + 1).drop_last() =~= bytes@.take(i as int));
            assert(bytes@.subrange(seg, i + 1).drop_last() =~= bytes@.subrange(seg, i as int));
        }
        if b == COLON {
            hour = acc;
            acc = 0;
            seen_colon = true;
            proof {
                prev = seg;
                seg = i + 1;
            }
        } else {
            let next: u64 = acc * 10 + (b - ZERO) as u64;
            acc = if next < 100 { next } else { 100 };
        }
        i += 1;
    }
    proof {
        let s = bytes@;
        lemma_scan_end(s, 0, i as int);
        let read = s.take(i as int);
        assert(read.skip(seg) =~= s.subrange(seg, i as int));
        if seen_colon {
            let before = read.take(seg - 1);
            assert(before =~= s.take(seg - 1));
            assert(before.skip(prev) =~= s.subrange(prev, seg - 1));
        } else {
            assert(s.subrange(0, i as int) =~= read);
        }
    }
    let minute: u64 = if seen_colon { acc } else { 0 };
    if !seen_colon {
        hour = acc;
    }
    if hour < 1 || hour > 12 || minute > 59 {
        return None;
    }
    let pm = n >= 2 && (bytes[n - 2] == 0x70 || bytes[n - 2] == 0x50) && (bytes[n - 1] == 0x6d
        || bytes[n - 1] == 0x4d);
    if pm && hour != 12 {
        hour += 12;
    }
    Some(hour * 100 + (minute * 100 + 30) / 60)
}

/// The hours from `start` to `end`, in hundredths; `None` where either text
/// names no time. Below 2400, and zero where the two name the same time.
pub fn parse_difference(start: &str, end: &str) -> (hours: Option<u64>)
    ensures
        as_nat(hours) == clock_difference(encode_utf8(start@), encode_utf8(end@)),
        hours matches Some(h) ==> h < 2400,
{
    match (parse_time(start), parse_time(end)) {
        (Some(a), Some(b)) => {
            if b >= a {
                Some(b - a)
            } else {
                Some(b + DAY - a)
            }
        },
        _ => None,
    }
}

} // verus!
