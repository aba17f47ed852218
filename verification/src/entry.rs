//! One logged interval of work, and the order in which a log shows its
//! entries: newest date first, equal dates in the order they came.

use vstd::prelude::*;
use vstd::utf8::*;
use vstd::seq_lib::{to_multiset_contains, to_multiset_len, to_multiset_remove};
use vstd::slice::slice_subrange;
use std::cmp::Ordering;
use crate::order::lemma_stands_before;
use crate::text::{
    bytes_before, comes_before, find_byte, first_index, parse_unsigned, unsigned_field, DASH,
};

verus! {

/// One interval of work. `hours` counts hundredths of an hour. An entry
/// whose `date` is empty marks the end of a batch in the archive.
#[derive(Clone, Debug)]
pub struct Entry {
    pub date: String,
    pub description: String,
    pub start: String,
    pub end: String,
    pub hours: u64,
}

/// An entry as the contracts see it: each text by its UTF-8 bytes.
pub struct EntryView {
    pub date: Seq<u8>,
    pub description: Seq<u8>,
    pub start: Seq<u8>,
    pub end: Seq<u8>,
    pub hours: nat,
}

impl View for Entry {
    type V = EntryView;

    open spec fn view(&self) -> EntryView {
        EntryView {
            date: encode_utf8(self.date@),
            description: encode_utf8(self.description@),
            start: encode_utf8(self.start@),
            end: encode_utf8(self.end@),
            hours: self.hours as nat,
        }
    }
}

/// The views of a list of entries, in the same order.
pub open spec fn views(entries: Seq<Entry>) -> Seq<EntryView> {
    entries.map_values(|e: Entry| e@)
}

/// The three fields of a date, cut at its first three dashes; `None` where
/// it has fewer than two.
pub open spec fn date_fields(s: Seq<u8>) -> Option<(Seq<u8>, Seq<u8>, Seq<u8>)> {
    let a = first_index(s, DASH, 0);
    let b = first_index(s, DASH, a + 1);
    let c = first_index(s, DASH, b + 1);
    if a < s.len() && b < s.len() {
        Some((s.subrange(0, a), s.subrange(a + 1, b), s.subrange(b + 1, c)))
    } else {
        None
    }
}

/// The number in a field, or zero where it holds none within `max`.
pub open spec fn number_or_zero(field: Seq<u8>, max: nat) -> nat {
    match unsigned_field(field, max) {
        Some(v) => v,
        None => 0,
    }
}

/// Year, month and day of a date text. A field that is no number, or too
/// large a one, counts as zero, and so do all three where one is missing.
pub open spec fn date_ymd(s: Seq<u8>) -> (nat, nat, nat) {
    match date_fields(s) {
        Some((y, m, d)) => (
            number_or_zero(y, 0xffff),
            number_or_zero(m, 0xff),
            number_or_zero(d, 0xff),
        ),
        None => (0, 0, 0),
    }
}

/// A date as one number: later dates have larger ranks. Month and day stay
/// below 256, so ranks order as (year, month, day) triples do.
pub open spec fn date_rank(s: Seq<u8>) -> nat {
    let (y, m, d) = date_ymd(s);
    (y * 256 + m) * 256 + d
}

/// Whether a date stands before another in a log. The later day stands
/// first. Of two texts that name one day the greater stands first, byte by
/// byte, so that only a date text itself stands level with it.
pub open spec fn stands_before(a: Seq<u8>, b: Seq<u8>) -> bool {
    date_rank(a) > date_rank(b) || (date_rank(a) == date_rank(b) && bytes_before(b, a, 0))
}

/// The sum of the hours of a list of entries, in hundredths.
pub open spec fn sum_hours(entries: Seq<EntryView>) -> nat
    decreases entries.len(),
{
    if entries.len() == 0 {
        0
    } else {
        sum_hours(entries.drop_last()) + entries.last().hours
    }
}

/// Year, month and day of a date such as "2024-06-01".
pub fn get_ymd(date: &str) -> (ymd: (u16, u8, u8))
    ensures
        (ymd.0 as nat, ymd.1 as nat, ymd.2 as nat) == date_ymd(encode_utf8(date@)),
{
    let bytes = date.as_bytes();
    let n: usize = bytes.len();
    let a: usize = find_byte(bytes, DASH, 0);
    if a >= n {
        return (0, 0, 0);
    }
    let b: usize = find_byte(bytes, DASH, a + 1);
    if b >= n {
        return (0, 0, 0);
    }
    let c: usize = find_byte(bytes, DASH, b + 1);
    let y: u16 = match parse_unsigned(slice_subrange(bytes, 0, a), 0xffff) {
        Some(v) => v as u16,
        None => 0,
    };
    let m: u8 = match parse_unsigned(slice_subrange(bytes, a + 1, b), 0xff) {
        Some(v) => v as u8,
        None => 0,
    };
    let d: u8 = match parse_unsigned(slice_subrange(bytes, b + 1, c), 0xff) {
        Some(v) => v as u8,
        None => 0,
    };
    (y, m, d)
}

impl Entry {
    /// An entry of these five fields.
    pub fn new(date: String, description: String, start: String, end: String, hours: u64) -> (entry:
        Entry)
        ensures
            entry.date == date,
            entry.description == description,
            entry.start == start,
            entry.end == end,
            entry.hours == hours,
    {
        Entry { date, description, start, end, hours }
    }

    /// The entry that marks the end of an archived batch.
    pub fn separator() -> (entry: Entry)
        ensures
            entry@ == separator_view(),
    {
        Entry::new(String::new(), String::new(), String::new(), String::new(), 0)
    }

    /// Whether this entry is a batch boundary and no interval of work.
    pub fn is_separator(&self) -> (yes: bool)
        ensures
            yes == (self@.date.len() == 0),
    {
        proof {
            lemma_empty_text(self.date@);
        }
        self.date.as_str().is_empty()
    }

    /// The rank of this entry's date.
    pub fn rank(&self) -> (rank: u32)
        ensures
            rank == date_rank(self@.date),
    {
        let (y, m, d) = get_ymd(self.date.as_str());
        (y as u32 * 256 + m as u32) * 256 + d as u32
    }

    /// How this entry stands to `other` in a log: `Less` where it stands
    /// before it, `Greater` where it stands behind it, and `Equal` exactly
    /// where the two have the same date text, which is where `==` holds.
    pub fn cmp(&self, other: &Entry) -> (order: Ordering)
        ensures
            order == Ordering::Less <==> stands_before(self@.date, other@.date),
            order == Ordering::Greater <==> stands_before(other@.date, self@.date),
            order == Ordering::Equal <==> self.date@ == other.date@,
    {
        proof {
            lemma_stands_before(self@.date, other@.date, self@.date);
            lemma_same_bytes_same_text(self.date@, other.date@);
        }
        if self.newer_than(other) {
            Ordering::Less
        } else if other.newer_than(self) {
            Ordering::Greater
        } else {
            Ordering::Equal
        }
    }

    /// Whether this entry stands before `other` in a log: its day is the
    /// later one, or the two name one day and its date text is the greater.
    /// Neither of two entries stands before the other exactly where their
    /// date texts are the same.
    pub fn newer_than(&self, other: &Entry) -> (yes: bool)
        ensures
            yes == stands_before(self@.date, other@.date),
            yes ==> !stands_before(other@.date, self@.date),
            yes ==> self.date@ != other.date@ && self@.date != other@.date,
            !yes && !stands_before(other@.date, self@.date) ==> self.date@ == other.date@
                && self@.date == other@.date,
    {
        proof {
            lemma_stands_before(self@.date, other@.date, self@.date);
            lemma_same_bytes_same_text(self.date@, other.date@);
        }
        let mine: u32 = self.rank();
        let theirs: u32 = other.rank();
        if mine != theirs {
            mine > theirs
        } else {
            comes_before(other.date.as_str().as_bytes(), self.date.as_str().as_bytes())
        }
    }
}

impl PartialEq for Entry {
    /// Two entries are equal where their dates are the same text.
    fn eq(&self, other: &Entry) -> (equal: bool) {
        self.date == other.date
    }
}

impl vstd::std_specs::cmp::PartialEqSpecImpl for Entry {
    open spec fn obeys_eq_spec() -> bool {
        true
    }

    open spec fn eq_spec(&self, other: &Entry) -> bool {
        self.date@ == other.date@
    }
}

/// The view of the entry that marks the end of a batch: nothing in any field.
pub open spec fn separator_view() -> EntryView {
    EntryView { date: seq![], description: seq![], start: seq![], end: seq![], hours: 0 }
}

/// The hours of two lists in a row are the hours of both.
pub proof fn lemma_sum_hours_add(a: Seq<EntryView>, b: Seq<EntryView>)
    ensures
        sum_hours(a + b) == sum_hours(a) + sum_hours(b),
    decreases b.len(),
{
    if b.len() == 0 {
        assert(a + b =~= a);
    } else {
        assert((a + b).drop_last() =~= a + b.drop_last());
        lemma_sum_hours_add(a, b.drop_last());
    }
}

/// Entries whose hours fit in 64 bits have no more hours together than as
/// many entries of the largest such count.
pub proof fn lemma_sum_hours_bound(s: Seq<EntryView>)
    requires
        forall|i: int| 0 <= i < s.len() ==> (#[trigger] s[i]).hours <= u64::MAX,
    ensures
        sum_hours(s) <= s.len() * 0xffff_ffff_ffff_ffff,
    decreases s.len(),
{
    if s.len() > 0 {
        assert forall|i: int| 0 <= i < s.drop_last().len() implies (#[trigger] s.drop_last()[i]).hours
            <= u64::MAX by {
            assert(s.drop_last()[i] == s[i]);
        }
        lemma_sum_hours_bound(s.drop_last());
    }
}

/// Taking one entry out takes its hours out.
pub proof fn lemma_sum_hours_remove(s: Seq<EntryView>, j: int)
    requires
        0 <= j < s.len(),
    ensures
        sum_hours(s) == sum_hours(s.remove(j)) + s[j].hours,
    decreases s.len(),
{
    if j == s.len() - 1 {
        assert(s.remove(j) =~= s.drop_last());
    } else {
        lemma_sum_hours_remove(s.drop_last(), j);
        assert(s.remove(j).drop_last() =~= s.drop_last().remove(j));
        assert(s.remove(j).last() == s.last());
    }
}

/// The sum of the hours does not depend on the order of the entries.
pub proof fn lemma_sum_hours_permutation(a: Seq<EntryView>, b: Seq<EntryView>)
    requires
        a.to_multiset() == b.to_multiset(),
    ensures
        sum_hours(a) == sum_hours(b),
    decreases a.len(),
{
    broadcast use vstd::multiset::group_multiset_axioms;

    to_multiset_len(a);
    to_multiset_len(b);
    if a.len() > 0 {
        let last = a.len() - 1;
        let x = a[last];
        assert(a.remove(last) =~= a.drop_last());
        to_multiset_remove(a, last);
        assert(a.contains(x));
        to_multiset_contains(a, x);
        to_multiset_contains(b, x);
        let j = choose|j: int| 0 <= j < b.len() && b[j] == x;
        to_multiset_remove(b, j);
        lemma_sum_hours_permutation(a.drop_last(), b.remove(j));
        lemma_sum_hours_remove(b, j);
    }
}

/// The views of executable entries hold hours that fit in 64 bits.
pub proof fn lemma_views_hours(entries: Seq<Entry>)
    ensures
        forall|i: int| 0 <= i < views(entries).len() ==> (#[trigger] views(entries)[i]).hours
            <= u64::MAX,
{
}

/// Two texts have the same bytes exactly where they are the same text.
pub proof fn lemma_same_bytes_same_text(a: Seq<char>, b: Seq<char>)
    ensures
        encode_utf8(a) == encode_utf8(b) <==> a == b,
{
    encode_utf8_decode_utf8(a);
    encode_utf8_decode_utf8(b);
}

/// A text has no bytes exactly when it has no characters.
pub proof fn lemma_empty_text(chars: Seq<char>)
    ensures
        encode_utf8(chars).len() == 0 <==> chars.len() == 0,
{
    if chars.len() > 0 {
        assert(encode_scalar(chars[0] as u32).len() > 0);
    }
}

} // verus!
