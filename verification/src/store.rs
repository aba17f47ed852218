//! The two text logs: the active log, one line for each entry, and the
//! archive, which holds the same lines in batches, each closed by a line
//! that holds a single dash.
//!
//! A line is `date,description,start,end,hours`. Nothing is escaped: a comma
//! inside one of the first four fields moves the fields behind it, and such
//! a line reads back as another entry or as none. The hours are written as
//! whole hours with up to two decimals, and read as any decimal number that
//! is not negative.

use vstd::prelude::*;
use vstd::utf8::*;
use vstd::slice::slice_subrange;
use crate::decimal::{hours_field, parse_hours};
use crate::entry::{separator_view, sum_hours, views, Entry, EntryView};
use crate::order::{
    batches_newest_first, is_batch_sorted_form, is_sorted_form, marks_stay, sort_batches,
    sort_entries,
};
use crate::text::{
    digit_byte, digit_str, find_byte, first_index, lemma_ascii_boundaries,
    lemma_first_index_skip, mark_str, padded_decimal, push_padded, push_text, sub_str,
    CARRIAGE_RETURN, COMMA, DASH, DOT, NEWLINE,
};

verus! {

/// The entry that a line holds: four fields, each closed by a comma, and
/// the hours in what is left. `None` where the line has fewer than four
/// commas or the rest names no hours.
pub open spec fn parse_line(line: Seq<u8>) -> Option<EntryView> {
    let a = first_index(line, COMMA, 0);
    let b = first_index(line, COMMA, a + 1);
    let c = first_index(line, COMMA, b + 1);
    let d = first_index(line, COMMA, c + 1);
    if d < line.len() {
        match hours_field(line.skip(d + 1)) {
            Some(hours) => Some(
                EntryView {
                    date: line.subrange(0, a),
                    description: line.subrange(a + 1, b),
                    start: line.subrange(b + 1, c),
                    end: line.subrange(c + 1, d),
                    hours,
                },
            ),
            None => None,
        }
    } else {
        None
    }
}

/// A line without the carriage return at its end, if it has one.
pub open spec fn without_cr(line: Seq<u8>) -> Seq<u8> {
    if line.len() > 0 && line.last() == CARRIAGE_RETURN {
        line.drop_last()
    } else {
        line
    }
}

/// The lines of a text. A line ends at a newline, and a carriage return
/// just before the newline goes with it. What follows the last newline is a
/// line too, unless it is empty.
pub open spec fn lines_of(text: Seq<u8>) -> Seq<Seq<u8>>
    decreases text.len(),
{
    let end = first_index(text, NEWLINE, 0);
    if text.len() == 0 {
        seq![]
    } else if 0 <= end < text.len() {
        seq![without_cr(text.take(end))] + lines_of(text.skip(end + 1))
    } else {
        seq![text]
    }
}

/// Whether a line closes a batch of the archive: it holds one dash.
pub open spec fn is_separator_line(line: Seq<u8>) -> bool {
    line.len() == 1 && line[0] == DASH
}

/// What a line stands for. In the archive a closing line stands for the
/// entry that marks the end of a batch.
pub open spec fn record_of(archive: bool) -> spec_fn(Seq<u8>) -> Option<EntryView> {
    |line: Seq<u8>|
        if archive && is_separator_line(line) {
            Some(separator_view())
        } else {
            parse_line(line)
        }
}

/// The entries that the active log holds, line by line. Lines that hold no
/// entry are passed over.
pub open spec fn log_entries(text: Seq<u8>) -> Seq<EntryView> {
    lines_of(text).filter_map(record_of(false))
}

/// The entries and batch ends that the archive holds, line by line, in the
/// order of the lines.
pub open spec fn archive_entries(text: Seq<u8>) -> Seq<EntryView> {
    lines_of(text).filter_map(record_of(true))
}

/// A total of hours with more added. It stops at the largest count that
/// 128 bits hold.
pub open spec fn added_hours(total: nat, more: nat) -> nat {
    if total + more <= u128::MAX {
        total + more
    } else {
        u128::MAX as nat
    }
}

/// A count of hundredths as a field names it: the whole hours, and behind
/// a decimal point the hundredths, without a zero at the end. Whole hours
/// have no decimal point.
pub open spec fn hours_text(hours: nat) -> Seq<u8> {
    let whole = padded_decimal(hours / 100, 1);
    let cents = hours % 100;
    if cents == 0 {
        whole
    } else if cents % 10 == 0 {
        whole.push(DOT).push(digit_byte(cents / 10))
    } else {
        whole.push(DOT).push(digit_byte(cents / 10)).push(digit_byte(cents % 10))
    }
}

/// The line of an entry, without the newline that closes it.
pub open spec fn entry_line(e: EntryView) -> Seq<u8> {
    e.date.push(COMMA) + e.description.push(COMMA) + e.start.push(COMMA) + e.end.push(COMMA)
        + hours_text(e.hours)
}

/// The text of a log that holds these entries, each on a line of its own.
pub open spec fn log_text(entries: Seq<EntryView>) -> Seq<u8>
    decreases entries.len(),
{
    if entries.len() == 0 {
        seq![]
    } else {
        entry_line(entries[0]).push(NEWLINE) + log_text(entries.drop_first())
    }
}

/// What archiving these entries adds to the archive: their lines, and the
/// line of one dash that closes the batch.
pub open spec fn archive_batch(entries: Seq<EntryView>) -> Seq<u8> {
    log_text(entries) + seq![DASH, NEWLINE]
}

/// Reads one line of a log.
pub fn entry_from_line(line: &str) -> (entry: Option<Entry>)
    ensures
        match entry {
            Some(e) => parse_line(encode_utf8(line@)) == Some(e@),
            None => parse_line(encode_utf8(line@)) is None,
        },
{
    broadcast use encode_utf8_valid_utf8;

    let bytes = line.as_bytes();
    let n: usize = bytes.len();
    let a: usize = find_byte(bytes, COMMA, 0);
    if a >= n {
        return None;
    }
    let b: usize = find_byte(bytes, COMMA, a + 1);
    if b >= n {
        return None;
    }
    let c: usize = find_byte(bytes, COMMA, b + 1);
    if c >= n {
        return None;
    }
    let d: usize = find_byte(bytes, COMMA, c + 1);
    if d >= n {
        return None;
    }
    assert(bytes@.subrange(d + 1, n as int) =~= bytes@.skip(d + 1));
    let hours: u64 = match parse_hours(slice_subrange(bytes, d + 1, n)) {
        Some(h) => h,
        None => {
            return None;
        },
    };
    proof {
        lemma_ascii_boundaries(bytes@, a as int);
        lemma_ascii_boundaries(bytes@, b as int);
        lemma_ascii_boundaries(bytes@, c as int);
        lemma_ascii_boundaries(bytes@, d as int);
        is_char_boundary_start_end_of_seq(bytes@);
    }
    Some(
        Entry::new(
            String::from_str(sub_str(line, 0, a)),
            String::from_str(sub_str(line, a + 1, b)),
            String::from_str(sub_str(line, b + 1, c)),
            String::from_str(sub_str(line, c + 1, d)),
            hours,
        ),
    )
}

/// Reads one line of a log; `None` where the line holds no entry.
pub fn get_entry(line: String) -> (entry: Option<Entry>)
    ensures
        match entry {
            Some(e) => parse_line(encode_utf8(line@)) == Some(e@),
            None => parse_line(encode_utf8(line@)) is None,
        },
{
    entry_from_line(line.as_str())
}

/// The line that starts at `pos`, and the position behind it.
fn next_line<'a>(text: &'a str, pos: usize) -> (cut: (&'a str, usize))
    requires
        pos < encode_utf8(text@).len(),
        is_char_boundary(encode_utf8(text@), pos as int),
    ensures
        lines_of(encode_utf8(text@).skip(pos as int)) == seq![encode_utf8(cut.0@)] + lines_of(
            encode_utf8(text@).skip(cut.1 as int),
        ),
        pos < cut.1 <= encode_utf8(text@).len(),
        is_char_boundary(encode_utf8(text@), cut.1 as int),
{
    broadcast use encode_utf8_valid_utf8;

    let bytes = text.as_bytes();
    let n: usize = bytes.len();
    let end: usize = find_byte(bytes, NEWLINE, pos);
    let ghost rest = bytes@.skip(pos as int);
    proof {
        lemma_first_index_skip(bytes@, NEWLINE, pos as int);
        is_char_boundary_start_end_of_seq(bytes@);
    }
    if end == n {
        assert(bytes@.subrange(pos as int, n as int) =~= rest);
        assert(bytes@.skip(n as int) =~= Seq::<u8>::empty());
        assert(seq![rest] + Seq::<Seq<u8>>::empty() =~= seq![rest]);
        (sub_str(text, pos, n), n)
    } else {
        proof {
            lemma_ascii_boundaries(bytes@, end as int);
            assert(rest.take(end - pos) =~= bytes@.subrange(pos as int, end as int));
            assert(rest.skip(end - pos + 1) =~= bytes@.skip(end + 1));
        }
        let stop: usize = if end > pos && bytes[end - 1] == CARRIAGE_RETURN {
            proof {
                lemma_ascii_boundaries(bytes@, end - 1);
                assert(bytes@.subrange(pos as int, end as int).drop_last() =~= bytes@.subrange(
                    pos as int,
                    end - 1,
                ));
            }
            end - 1
        } else {
            end
        };
        (sub_str(text, pos, stop), end + 1)
    }
}

/// Reads a log line by line and adds what it holds to `entrys` and the
/// hours of that to `total_hours`.
fn load(log: &str, archive: bool, entrys: &mut Vec<Entry>, total_hours: &mut u128)
    ensures
        views(final(entrys)@) == views(old(entrys)@) + lines_of(encode_utf8(log@)).filter_map(
            record_of(archive),
        ),
        *final(total_hours) == added_hours(
            *old(total_hours) as nat,
            sum_hours(lines_of(encode_utf8(log@)).filter_map(record_of(archive))),
        ),
{
    broadcast use encode_utf8_valid_utf8;

    let ghost bytes = encode_utf8(log@);
    let ghost before = views(entrys@);
    let ghost total_before = *total_hours as nat;
    let ghost mut done: Seq<Seq<u8>> = Seq::empty();
    let n: usize = log.as_bytes().len();
    let mut pos: usize = 0;
    proof {
        is_char_boundary_start_end_of_seq(bytes);
        assert(bytes.skip(0) =~= bytes);
        assert(done + lines_of(bytes) =~= lines_of(bytes));
        assert(before + done.filter_map(record_of(archive)) =~= before);
    }
    while pos < n
        invariant
            bytes == encode_utf8(log@),
            n == bytes.len(),
            pos <= n,
            is_char_boundary(bytes, pos as int),
            lines_of(bytes) == done + lines_of(bytes.skip(pos as int)),
            views(entrys@) == before + done.filter_map(record_of(archive)),
            *total_hours == added_hours(
                total_before,
                sum_hours(done.filter_map(record_of(archive))),
            ),
        decreases n - pos,
    {
        let (line, next) = next_line(log, pos);
        let ghost text = encode_utf8(line@);
        let ghost loaded = done.filter_map(record_of(archive));
        proof {
            assert(done + (seq![text] + lines_of(bytes.skip(next as int))) =~= done.push(text)
                + lines_of(bytes.skip(next as int)));
            assert(done.push(text).drop_last() =~= done);
        }
        let line_bytes = line.as_bytes();
        let entry = if archive && line_bytes.len() == 1 && line_bytes[0] == DASH {
            Some(Entry::separator())
        } else {
            entry_from_line(line)
        };
        match entry {
            Some(e) => {
                proof {
                    assert(done.push(text).filter_map(record_of(archive)) =~= loaded.push(e@));
                    assert(loaded.push(e@).drop_last() =~= loaded);
                    assert(views(entrys@.push(e)) =~= views(entrys@).push(e@));
                    assert(before + loaded.push(e@) =~= (before + loaded).push(e@));
                }
                let hours: u128 = e.hours as u128;
                *total_hours = if hours > u128::MAX - *total_hours {
                    u128::MAX
                } else {
                    *total_hours + hours
                };
                entrys.push(e);
            },
            None => {},
        }
        proof {
            done = done.push(text);
        }
        pos = next;
    }
    proof {
        assert(bytes.skip(n as int) =~= Seq::<u8>::empty());
        assert(done + Seq::<Seq<u8>>::empty() =~= done);
    }
}

/// Loads the active log: adds its entries to `entrys`, sorts the list
/// newest first, and adds the hours of what was loaded to `total_hours`.
pub fn read_entrys(log: &str, entrys: &mut Vec<Entry>, total_hours: &mut u128)
    ensures
        is_sorted_form(
            views(old(entrys)@) + log_entries(encode_utf8(log@)),
            views(final(entrys)@),
        ),
        *final(total_hours) == added_hours(
            *old(total_hours) as nat,
            sum_hours(log_entries(encode_utf8(log@))),
        ),
{
    load(log, false, entrys, total_hours);
    sort_entries(entrys);
}

/// Loads the archive: adds its entries and batch ends to `entrys`, each
/// batch newest first and each batch end where its line stands, and the
/// hours of what was loaded to `total_hours`. What `entrys` held stays in
/// front, as it was.
pub fn read_archive(log: &str, entrys: &mut Vec<Entry>, total_hours: &mut u128)
    ensures
        final(entrys)@.len() == old(entrys)@.len() + archive_entries(encode_utf8(log@)).len(),
        views(final(entrys)@).take(old(entrys)@.len() as int) == views(old(entrys)@),
        is_batch_sorted_form(
            archive_entries(encode_utf8(log@)),
            views(final(entrys)@).skip(old(entrys)@.len() as int),
        ),
        marks_stay(
            archive_entries(encode_utf8(log@)),
            views(final(entrys)@).skip(old(entrys)@.len() as int),
        ),
        batches_newest_first(
            archive_entries(encode_utf8(log@)),
            views(final(entrys)@).skip(old(entrys)@.len() as int),
        ),
        views(final(entrys)@).skip(old(entrys)@.len() as int).to_multiset() == archive_entries(
            encode_utf8(log@),
        ).to_multiset(),
        *final(total_hours) == added_hours(
            *old(total_hours) as nat,
            sum_hours(archive_entries(encode_utf8(log@))),
        ),
{
    let ghost held = views(entrys@);
    let mut loaded: Vec<Entry> = Vec::new();
    load(log, true, &mut loaded, total_hours);
    proof {
        let records = archive_entries(encode_utf8(log@));
        assert(views(Seq::<Entry>::empty()) + records =~= records);
    }
    sort_batches(&mut loaded);
    let ghost sorted = views(loaded@);
    entrys.append(&mut loaded);
    proof {
        assert(views(entrys@) =~= held + sorted);
        assert((held + sorted).take(held.len() as int) =~= held);
        assert((held + sorted).skip(held.len() as int) =~= sorted);
    }
}

/// A log with one more entry holds one more line at its end.
pub proof fn lemma_log_text_push(entries: Seq<EntryView>, e: EntryView)
    ensures
        log_text(entries.push(e)) == log_text(entries) + entry_line(e).push(NEWLINE),
    decreases entries.len(),
{
    let line = entry_line(e).push(NEWLINE);
    if entries.len() == 0 {
        assert(entries.push(e).drop_first() =~= entries);
        assert(line + log_text(entries) =~= log_text(entries) + line);
    } else {
        lemma_log_text_push(entries.drop_first(), e);
        assert(entries.push(e).drop_first() =~= entries.drop_first().push(e));
        let first = entry_line(entries[0]).push(NEWLINE);
        assert(first + (log_text(entries.drop_first()) + line) =~= (first + log_text(
            entries.drop_first(),
        )) + line);
    }
}

/// Adds a count of hundredths as a field names it.
fn push_hours(out: &mut String, hours: u128)
    ensures
        encode_utf8(final(out)@) == encode_utf8(old(out)@) + hours_text(hours as nat),
{
    let ghost before = encode_utf8(out@);
    let ghost whole = padded_decimal((hours / 100) as nat, 1);
    push_padded(out, hours / 100, 1);
    let cents: u128 = hours % 100;
    if cents != 0 {
        push_text(out, mark_str(DOT));
        push_text(out, digit_str((cents / 10) as u8));
        if cents % 10 != 0 {
            push_text(out, digit_str((cents % 10) as u8));
            assert(encode_utf8(out@) =~= before + whole.push(DOT).push(
                digit_byte((cents / 10) as nat),
            ).push(digit_byte((cents % 10) as nat)));
        } else {
            assert(encode_utf8(out@) =~= before + whole.push(DOT).push(
                digit_byte((cents / 10) as nat),
            ));
        }
    }
}

/// A count of hundredths as a text of hours, as a log holds it and a table
/// shows it: "8", "7.5", "0.25".
pub fn hours_to_string(hours: u128) -> (text: String)
    ensures
        encode_utf8(text@) == hours_text(hours as nat),
{
    let mut text = String::new();
    push_hours(&mut text, hours);
    assert(encode_utf8(text@) =~= hours_text(hours as nat));
    text
}

/// Adds the line of an entry and the newline that closes it.
fn push_line(out: &mut String, entry: &Entry)
    ensures
        encode_utf8(final(out)@) == encode_utf8(old(out)@) + entry_line(entry@).push(NEWLINE),
{
    let ghost before = encode_utf8(out@);
    push_text(out, entry.date.as_str());
    push_text(out, mark_str(COMMA));
    push_text(out, entry.description.as_str());
    push_text(out, mark_str(COMMA));
    push_text(out, entry.start.as_str());
    push_text(out, mark_str(COMMA));
    push_text(out, entry.end.as_str());
    push_text(out, mark_str(COMMA));
    push_hours(out, entry.hours as u128);
    push_text(out, mark_str(NEWLINE));
    assert(encode_utf8(out@) =~= before + entry_line(entry@).push(NEWLINE));
}

/// Adds one entry to the active log: its line, at the end.
pub fn write_entry(entry: &Entry, log: &mut String)
    ensures
        encode_utf8(final(log)@) == encode_utf8(old(log)@) + entry_line(entry@).push(NEWLINE),
{
    push_line(log, entry);
}

/// Adds a batch to the archive: the lines of the entries, in their order,
/// and the line that closes the batch.
pub fn write_to_archive(entrys: &[Entry], archive: &mut String)
    ensures
        encode_utf8(final(archive)@) == encode_utf8(old(archive)@) + archive_batch(
            views(entrys@),
        ),
{
    let ghost before = encode_utf8(archive@);
    let n: usize = entrys.len();
    let mut i: usize = 0;
    assert(views(entrys@).take(0) =~= Seq::<EntryView>::empty());
    assert(before + log_text(Seq::<EntryView>::empty()) =~= before);
    while i < n
        invariant
            i <= n == entrys@.len(),
            encode_utf8(archive@) == before + log_text(views(entrys@).take(i as int)),
        decreases n - i,
    {
        push_line(archive, &entrys[i]);
        proof {
            let done = views(entrys@).take(i as int);
            lemma_log_text_push(done, entrys@[i as int]@);
            assert(views(entrys@).take(i + 1) =~= done.push(entrys@[i as int]@));
            assert(encode_utf8(archive@) =~= before + log_text(views(entrys@).take(i + 1)));
        }
        i += 1;
    }
    assert(views(entrys@).take(n as int) =~= views(entrys@));
    push_text(archive, mark_str(DASH));
    push_text(archive, mark_str(NEWLINE));
    assert(encode_utf8(archive@) =~= before + archive_batch(views(entrys@)));
}

/// Empties the active log.
pub fn wipe_entrys(log: &mut String)
    ensures
        final(log)@.len() == 0,
        encode_utf8(final(log)@).len() == 0,
{
    *log = String::new();
}

} // verus!
