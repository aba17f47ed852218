//! What holds between writing a log and reading it: entries whose fields
//! hold no comma and no newline come back as they were written, a line that
//! holds no entry takes none of the others with it, and an archived batch
//! reads back as its entries and the mark that closes it.

use vstd::prelude::*;
use crate::entry::{separator_view, EntryView};
use crate::decimal::{hours_field, is_exponent_mark, lemma_no_exponent};
use crate::store::{
    archive_batch, archive_entries, entry_line, hours_text, lines_of, log_entries,
    log_text, parse_line, record_of, without_cr, lemma_log_text_push,
};
use crate::text::{
    decimal_value, digit_byte, first_index, is_digit, lemma_decimal_value_push, lemma_first_index,
    lemma_first_index_is, lemma_padded_decimal, padded_decimal, pow10, COMMA, DASH, DOT, NEWLINE,
};

verus! {

/// A field that can stand in a line: it holds no comma and no newline.
pub open spec fn is_plain(field: Seq<u8>) -> bool {
    forall|i: int| 0 <= i < field.len() ==> #[trigger] field[i] != COMMA && field[i] != NEWLINE
}

/// An entry that a line can hold: its four texts are plain and its hours
/// fit in 64 bits.
pub open spec fn is_plain_entry(e: EntryView) -> bool {
    &&& is_plain(e.date)
    &&& is_plain(e.description)
    &&& is_plain(e.start)
    &&& is_plain(e.end)
    &&& e.hours <= u64::MAX
}

/// Entries that lines can hold, all of them.
pub open spec fn all_plain(entries: Seq<EntryView>) -> bool {
    forall|i: int| 0 <= i < entries.len() ==> is_plain_entry(#[trigger] entries[i])
}

/// A text that is empty or ends in a newline: what follows it starts a line.
pub open spec fn ends_lines(text: Seq<u8>) -> bool {
    text.len() == 0 || text.last() == NEWLINE
}

/// A text that stays within one line.
pub open spec fn has_no_newline(line: Seq<u8>) -> bool {
    forall|i: int| 0 <= i < line.len() ==> #[trigger] line[i] != NEWLINE
}

/// The text of a count of hours holds digits and at most one point, and
/// ends in a digit.
proof fn lemma_hours_text_shape(hours: nat)
    ensures
        hours_text(hours).len() >= 1,
        forall|i: int|
            0 <= i < hours_text(hours).len() ==> is_digit(#[trigger] hours_text(hours)[i])
                || hours_text(hours)[i] == DOT,
        is_digit(hours_text(hours).last()),
{
    lemma_padded_decimal(hours / 100, 1);
}

/// The hours that were written are the hours that are read.
pub proof fn lemma_hours_round_trip(hours: nat)
    requires
        hours <= u64::MAX,
    ensures
        hours_field(hours_text(hours)) == Some(hours),
{
    let text = hours_text(hours);
    let whole = padded_decimal(hours / 100, 1);
    let cents = hours % 100;
    let tenths = digit_byte(cents / 10);
    let last = digit_byte(cents % 10);
    lemma_padded_decimal(hours / 100, 1);
    lemma_hours_text_shape(hours);
    let point = whole.len() as int;
    assert(text[0] == whole[0]);
    assert forall|i: int| 0 <= i < text.len() implies !is_exponent_mark(#[trigger] text[i]) by {
        assert(is_digit(text[i]) || text[i] == DOT);
    }
    lemma_no_exponent(text, 0);
    let mantissa = text.take(text.len() as int);
    assert(mantissa =~= text);
    assert forall|i: int| 0 <= i < point implies #[trigger] text[i] != DOT by {
        assert(text[i] == whole[i]);
    }
    lemma_first_index_is(text, DOT, 0, point);
    assert(text.take(point) =~= whole);
    let count = decimal_value(whole);
    assert(pow10(0) == 1 && pow10(1) == 10 && pow10(2) == 100) by {
        reveal_with_fuel(pow10, 3);
    }
    if cents == 0 {
        assert(whole + Seq::<u8>::empty() =~= whole);
        assert(count * pow10(2) == count * 100) by (nonlinear_arith)
            requires
                pow10(2) == 100,
        ;
    } else if cents % 10 == 0 {
        let fraction = seq![tenths];
        assert(text.skip(point + 1) =~= fraction);
        assert(whole + fraction =~= whole.push(tenths));
        lemma_decimal_value_push(whole, tenths);
        let read = decimal_value(whole + fraction);
        assert(read * pow10(1) == read * 10) by (nonlinear_arith)
            requires
                pow10(1) == 10,
        ;
    } else {
        let fraction = seq![tenths, last];
        assert(text.skip(point + 1) =~= fraction);
        assert(whole + fraction =~= whole.push(tenths).push(last));
        lemma_decimal_value_push(whole, tenths);
        lemma_decimal_value_push(whole.push(tenths), last);
        let read = decimal_value(whole + fraction);
        assert(read * pow10(0) == read) by (nonlinear_arith)
            requires
                pow10(0) == 1,
        ;
    }
}

/// The line of a plain entry holds no newline, does not end in a carriage
/// return, and is no line that closes a batch.
proof fn lemma_line_shape(e: EntryView)
    requires
        is_plain_entry(e),
    ensures
        has_no_newline(entry_line(e)),
        entry_line(e).len() >= 5,
        without_cr(entry_line(e)) == entry_line(e),
{
    lemma_hours_text_shape(e.hours);
    let line = entry_line(e);
    let hours = hours_text(e.hours);
    let a = e.date.len() as int;
    let b = a + 1 + e.description.len();
    let c = b + 1 + e.start.len();
    let d = c + 1 + e.end.len();
    assert forall|i: int| 0 <= i < line.len() implies #[trigger] line[i] != NEWLINE by {
        if i < a {
            assert(line[i] == e.date[i]);
        } else if a < i < b {
            assert(line[i] == e.description[i - a - 1]);
        } else if b < i < c {
            assert(line[i] == e.start[i - b - 1]);
        } else if c < i < d {
            assert(line[i] == e.end[i - c - 1]);
        } else if i > d {
            assert(line[i] == hours[i - d - 1]);
        }
    }
    assert(line.last() == hours.last());
}

/// A plain entry comes back from its line as it went in.
pub proof fn lemma_line_round_trip(e: EntryView)
    requires
        is_plain_entry(e),
    ensures
        parse_line(entry_line(e)) == Some(e),
{
    let line = entry_line(e);
    let hours = hours_text(e.hours);
    let a = e.date.len() as int;
    let b = a + 1 + e.description.len();
    let c = b + 1 + e.start.len();
    let d = c + 1 + e.end.len();
    assert forall|i: int| 0 <= i < a implies #[trigger] line[i] != COMMA by {
        assert(line[i] == e.date[i]);
    }
    assert forall|i: int| a + 1 <= i < b implies #[trigger] line[i] != COMMA by {
        assert(line[i] == e.description[i - a - 1]);
    }
    assert forall|i: int| b + 1 <= i < c implies #[trigger] line[i] != COMMA by {
        assert(line[i] == e.start[i - b - 1]);
    }
    assert forall|i: int| c + 1 <= i < d implies #[trigger] line[i] != COMMA by {
        assert(line[i] == e.end[i - c - 1]);
    }
    lemma_hours_text_shape(e.hours);
    lemma_first_index_is(line, COMMA, 0, a);
    lemma_first_index_is(line, COMMA, a + 1, b);
    lemma_first_index_is(line, COMMA, b + 1, c);
    lemma_first_index_is(line, COMMA, c + 1, d);
    assert(line.subrange(0, a) =~= e.date);
    assert(line.subrange(a + 1, b) =~= e.description);
    assert(line.subrange(b + 1, c) =~= e.start);
    assert(line.subrange(c + 1, d) =~= e.end);
    assert(line.skip(d + 1) =~= hours);
    lemma_hours_round_trip(e.hours);
}

/// A line and its newline are one line of text.
pub proof fn lemma_single_line(line: Seq<u8>)
    requires
        has_no_newline(line),
    ensures
        lines_of(line.push(NEWLINE)) == seq![without_cr(line)],
{
    let text = line.push(NEWLINE);
    let end = line.len() as int;
    assert forall|i: int| 0 <= i < end implies #[trigger] text[i] != NEWLINE by {
        assert(text[i] == line[i]);
    }
    lemma_first_index_is(text, NEWLINE, 0, end);
    assert(text.take(end) =~= line);
    assert(text.skip(end + 1) =~= Seq::<u8>::empty());
    assert(lines_of(text.skip(end + 1)) =~= Seq::<Seq<u8>>::empty());
    assert(seq![without_cr(line)] + Seq::<Seq<u8>>::empty() =~= seq![without_cr(line)]);
}

/// Behind a text that ends its last line, the lines of what follows are the
/// lines that follow.
pub proof fn lemma_lines_of_add(a: Seq<u8>, b: Seq<u8>)
    requires
        ends_lines(a),
    ensures
        lines_of(a + b) == lines_of(a) + lines_of(b),
    decreases a.len(),
{
    if a.len() == 0 {
        assert(a + b =~= b);
        assert(lines_of(a) + lines_of(b) =~= lines_of(b));
    } else {
        let end = first_index(a, NEWLINE, 0);
        lemma_first_index(a, NEWLINE, 0);
        assert(end < a.len()) by {
            if end >= a.len() {
                assert(a[a.len() - 1] != NEWLINE);
            }
        }
        assert forall|i: int| 0 <= i < end implies #[trigger] (a + b)[i] != NEWLINE by {
            assert((a + b)[i] == a[i]);
        }
        assert((a + b)[end] == a[end]);
        lemma_first_index_is(a + b, NEWLINE, 0, end);
        let rest = a.skip(end + 1);
        assert((a + b).take(end) =~= a.take(end));
        assert((a + b).skip(end + 1) =~= rest + b);
        if rest.len() > 0 {
            assert(rest.last() == a.last());
        }
        lemma_lines_of_add(rest, b);
        let first = seq![without_cr(a.take(end))];
        assert(first + (lines_of(rest) + lines_of(b)) =~= (first + lines_of(rest)) + lines_of(b));
    }
}

/// What two lists of lines hold in a row is what the one holds, then what
/// the other holds.
pub proof fn lemma_records_add(a: Seq<Seq<u8>>, b: Seq<Seq<u8>>, archive: bool)
    ensures
        (a + b).filter_map(record_of(archive)) == a.filter_map(record_of(archive)) + b.filter_map(
            record_of(archive),
        ),
    decreases b.len(),
{
    let f = record_of(archive);
    if b.len() == 0 {
        assert(a + b =~= a);
        assert(a.filter_map(f) + b.filter_map(f) =~= a.filter_map(f));
    } else {
        assert((a + b).drop_last() =~= a + b.drop_last());
        lemma_records_add(a, b.drop_last(), archive);
        match f(b.last()) {
            Some(e) => {
                assert((a.filter_map(f) + b.drop_last().filter_map(f)) + seq![e] =~= a.filter_map(f)
                    + (b.drop_last().filter_map(f) + seq![e]));
            },
            None => {},
        }
    }
}

/// A log holds its entries in the order of its lines: what a text holds
/// behind another that ends its last line is what each holds, in a row.
pub proof fn lemma_log_add(a: Seq<u8>, b: Seq<u8>, archive: bool)
    requires
        ends_lines(a),
    ensures
        lines_of(a + b).filter_map(record_of(archive)) == lines_of(a).filter_map(
            record_of(archive),
        ) + lines_of(b).filter_map(record_of(archive)),
{
    lemma_lines_of_add(a, b);
    lemma_records_add(lines_of(a), lines_of(b), archive);
}

/// The text of a log ends its last line.
pub proof fn lemma_log_text_ends(entries: Seq<EntryView>)
    ensures
        ends_lines(log_text(entries)),
{
    if entries.len() > 0 {
        assert(entries =~= entries.drop_last().push(entries.last()));
        lemma_log_text_push(entries.drop_last(), entries.last());
    }
}

/// The line of a plain entry, with its newline, reads as that entry.
proof fn lemma_line_read(e: EntryView, archive: bool)
    requires
        is_plain_entry(e),
    ensures
        lines_of(entry_line(e).push(NEWLINE)).filter_map(record_of(archive)) == seq![e],
{
    let line = entry_line(e);
    lemma_line_shape(e);
    lemma_line_round_trip(e);
    lemma_single_line(line);
    Seq::lemma_filter_map_singleton(line, record_of(archive));
}

proof fn lemma_all_plain_rest(entries: Seq<EntryView>)
    requires
        all_plain(entries),
        entries.len() > 0,
    ensures
        is_plain_entry(entries[0]),
        all_plain(entries.drop_first()),
{
    let rest = entries.drop_first();
    assert forall|i: int| 0 <= i < rest.len() implies is_plain_entry(#[trigger] rest[i]) by {
        assert(rest[i] == entries[i + 1]);
    }
}

/// The lines of a log of plain entries give the entries back, whether it is
/// read as the active log or as a part of the archive.
pub proof fn lemma_log_text_read(entries: Seq<EntryView>, archive: bool)
    requires
        all_plain(entries),
    ensures
        lines_of(log_text(entries)).filter_map(record_of(archive)) == entries,
    decreases entries.len(),
{
    if entries.len() == 0 {
        assert(lines_of(log_text(entries)).filter_map(record_of(archive)) =~= entries);
    } else {
        let e = entries[0];
        let rest = entries.drop_first();
        lemma_all_plain_rest(entries);
        lemma_line_read(e, archive);
        lemma_log_add(entry_line(e).push(NEWLINE), log_text(rest), archive);
        lemma_log_text_read(rest, archive);
        assert(seq![e] + rest =~= entries);
    }
}

/// Writing plain entries to an empty active log and loading it gives the
/// entries back, in the order in which they were written.
pub proof fn lemma_log_round_trip(entries: Seq<EntryView>)
    requires
        all_plain(entries),
    ensures
        log_entries(log_text(entries)) == entries,
{
    lemma_log_text_read(entries, false);
}

/// An archived batch of plain entries reads back as the entries, in their
/// order, and behind them the mark that closes the batch.
pub proof fn lemma_archive_round_trip(entries: Seq<EntryView>)
    requires
        all_plain(entries),
    ensures
        archive_entries(archive_batch(entries)) == entries.push(separator_view()),
{
    let f = record_of(true);
    let close = seq![DASH];
    lemma_log_text_ends(entries);
    lemma_log_add(log_text(entries), close.push(NEWLINE), true);
    lemma_log_text_read(entries, true);
    lemma_single_line(close);
    Seq::lemma_filter_map_singleton(close, f);
    assert(close.push(NEWLINE) =~= seq![DASH, NEWLINE]);
    assert(entries + seq![separator_view()] =~= entries.push(separator_view()));
}

/// A line that holds no entry is passed over, and the lines around it are
/// read as if it were not there.
pub proof fn lemma_line_without_entry(before: Seq<u8>, line: Seq<u8>, after: Seq<u8>)
    requires
        ends_lines(before),
        has_no_newline(line),
        parse_line(without_cr(line)) is None,
    ensures
        log_entries(before + line.push(NEWLINE) + after) == log_entries(before) + log_entries(
            after,
        ),
{
    let f = record_of(false);
    let middle = line.push(NEWLINE);
    assert(before + middle + after =~= before + (middle + after));
    lemma_log_add(before, middle + after, false);
    lemma_log_add(middle, after, false);
    lemma_single_line(line);
    Seq::lemma_filter_map_singleton(without_cr(line), f);
    assert(Seq::<EntryView>::empty() + log_entries(after) =~= log_entries(after));
}

} // verus!
