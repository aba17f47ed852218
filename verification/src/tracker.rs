//! The state of a session: the active entries with their total, the archive
//! as far as it was loaded, and which of the two is on show.
//!
//! The tracker decides and keeps the lists; reading and writing the logs is
//! the caller's part. Where a step adds to a log, it adds to a text that
//! the caller hands in. Archiving to a store that can fail takes two steps,
//! with the caller's write between them.

use vstd::prelude::*;
use vstd::utf8::*;
use crate::calendar::{date_text, Date};
use crate::entry::{
    lemma_sum_hours_add, lemma_sum_hours_bound, lemma_sum_hours_permutation, lemma_views_hours,
    sum_hours, views, Entry, EntryView,
};
use crate::order::{
    batches_newest_first, is_batch_sorted_form, is_sorted_form, lemma_batch_sorted_sum,
    marks_stay, newest_first, sort_entries,
};
use crate::store::{
    archive_batch, archive_entries, entry_line, log_entries, read_archive, read_entrys,
    wipe_entrys, write_entry, write_to_archive,
};
use crate::text::NEWLINE;
use crate::time::{clock_difference, parse_difference};

verus! {

/// Why an entry was not taken.
#[derive(Clone, Copy, Debug, PartialEq, Eq, Structural)]
pub enum SubmitError {
    /// The start or the end names no time of day.
    Time,
    /// The date names no day of the calendar.
    Date,
}

/// The entries of a session and what is on show.
pub struct WorkTracker {
    entrys: Vec<Entry>,
    archive: Vec<Entry>,
    viewing_archive: bool,
    total_hours: u128,
    total_hours_archive: u128,
}

/// A letter of the ASCII alphabet in lower case; any other character as it is.
pub open spec fn lower_char(c: char) -> char {
    if 'A' <= c <= 'Z' {
        ((c as u32) + 32) as char
    } else {
        c
    }
}

/// A text with its ASCII capitals in lower case.
pub open spec fn lowercase(text: Seq<char>) -> Seq<char> {
    text.map_values(|c: char| lower_char(c))
}

/// The entry that a submission makes, given the hours that it spans.
pub open spec fn submitted(
    date: Date,
    description: Seq<char>,
    start: Seq<char>,
    end: Seq<char>,
    hours: nat,
) -> EntryView {
    EntryView {
        date: date_text(date.year as int, date.month as int, date.day as int),
        description: encode_utf8(description),
        start: encode_utf8(lowercase(start)),
        end: encode_utf8(lowercase(end)),
        hours,
    }
}

/// The hours that a submission spans, where its two times can be read.
pub open spec fn submitted_hours(start: Seq<char>, end: Seq<char>) -> Option<nat> {
    clock_difference(encode_utf8(lowercase(start)), encode_utf8(lowercase(end)))
}

/// std's `str::to_ascii_lowercase`. Taken from std unproved: the result
/// holds the characters of `text`, each ASCII capital as its small letter.
#[verifier::external_body]
fn to_lowercase(text: &str) -> (lower: String)
    ensures
        lower@ == lowercase(text@),
{
    text.to_ascii_lowercase()
}

impl WorkTracker {
    /// The active entries.
    pub closed spec fn active(&self) -> Seq<EntryView> {
        views(self.entrys@)
    }

    /// The archive as far as it was loaded: entries and batch ends.
    pub closed spec fn archived(&self) -> Seq<EntryView> {
        views(self.archive@)
    }

    /// Whether the archive is on show.
    pub closed spec fn viewing(&self) -> bool {
        self.viewing_archive
    }

    /// The running total of the active entries, in hundredths of an hour.
    pub closed spec fn total(&self) -> nat {
        self.total_hours as nat
    }

    /// The running total of the loaded archive.
    pub closed spec fn archive_total(&self) -> nat {
        self.total_hours_archive as nat
    }

    /// The active entries stand newest first, and each total is the sum of
    /// the hours of its list.
    pub open spec fn wf(&self) -> bool {
        &&& newest_first(self.active())
        &&& self.total() == sum_hours(self.active())
        &&& self.archive_total() == sum_hours(self.archived())
    }

    /// A tracker that holds what the active log holds.
    pub fn new(active_log: &str) -> (tracker: WorkTracker)
        ensures
            tracker.wf(),
            is_sorted_form(log_entries(encode_utf8(active_log@)), tracker.active()),
            tracker.archived().len() == 0,
            !tracker.viewing(),
    {
        let mut entrys: Vec<Entry> = Vec::new();
        let mut total_hours: u128 = 0;
        read_entrys(active_log, &mut entrys, &mut total_hours);
        proof {
            assert(entrys@.len() == entrys.len());
            let loaded = log_entries(encode_utf8(active_log@));
            assert(views(Seq::<Entry>::empty()) + loaded =~= loaded);
            lemma_sum_hours_permutation(views(entrys@), loaded);
            lemma_views_hours(entrys@);
            lemma_sum_hours_bound(views(entrys@));
            assert(views(Seq::<Entry>::empty()) =~= Seq::<EntryView>::empty());
        }
        WorkTracker {
            entrys,
            archive: Vec::new(),
            viewing_archive: false,
            total_hours,
            total_hours_archive: 0,
        }
    }

    /// The active entries, newest first.
    pub fn entrys(&self) -> (entrys: &Vec<Entry>)
        ensures
            views(entrys@) == self.active(),
    {
        &self.entrys
    }

    /// The archive as far as it was loaded, in the order of its lines.
    pub fn archive(&self) -> (archive: &Vec<Entry>)
        ensures
            views(archive@) == self.archived(),
    {
        &self.archive
    }

    /// Whether the archive is on show.
    pub fn viewing_archive(&self) -> (viewing: bool)
        ensures
            viewing == self.viewing(),
    {
        self.viewing_archive
    }

    /// The hours of the active entries together, in hundredths.
    pub fn total_hours(&self) -> (total: u128)
        ensures
            total == self.total(),
    {
        self.total_hours
    }

    /// The hours of the loaded archive together, in hundredths.
    pub fn total_hours_archive(&self) -> (total: u128)
        ensures
            total == self.archive_total(),
    {
        self.total_hours_archive
    }

    /// Takes an entry for `date` from `start_time` to `end_time`, both put
    /// in lower case first. The entry goes into the active list at its
    /// place, its hours into the total and its line onto `log`. Where the
    /// times or the date cannot be read, nothing changes.
    pub fn submit_entry(
        &mut self,
        date: Date,
        description: &str,
        start_time: &str,
        end_time: &str,
        log: &mut String,
    ) -> (taken: Result<(), SubmitError>)
        requires
            old(self).wf(),
        ensures
            final(self).wf(),
            final(self).archived() == old(self).archived(),
            final(self).archive_total() == old(self).archive_total(),
            final(self).viewing() == old(self).viewing(),
            match taken {
                Ok(_) => {
                    &&& submitted_hours(start_time@, end_time@) is Some
                    &&& date.is_valid()
                    &&& is_sorted_form(
                        old(self).active().push(
                            submitted(
                                date,
                                description@,
                                start_time@,
                                end_time@,
                                submitted_hours(start_time@, end_time@).unwrap(),
                            ),
                        ),
                        final(self).active(),
                    )
                    &&& final(self).total() == old(self).total() + submitted_hours(
                        start_time@,
                        end_time@,
                    ).unwrap()
                    &&& encode_utf8(final(log)@) == encode_utf8(old(log)@) + entry_line(
                        submitted(
                            date,
                            description@,
                            start_time@,
                            end_time@,
                            submitted_hours(start_time@, end_time@).unwrap(),
                        ),
                    ).push(NEWLINE)
                },
                Err(why) => {
                    &&& why == SubmitError::Time <==> submitted_hours(start_time@, end_time@) is None
                    &&& why == SubmitError::Date ==> !date.is_valid()
                    &&& final(self).active() == old(self).active()
                    &&& final(self).total() == old(self).total()
                    &&& final(log)@ == old(log)@
                },
            },
    {
        let start = to_lowercase(start_time);
        let end = to_lowercase(end_time);
        let hours: u64 = match parse_difference(start.as_str(), end.as_str()) {
            Some(hours) => hours,
            None => {
                return Err(SubmitError::Time);
            },
        };
        let date_string = match date.to_text() {
            Some(text) => text,
            None => {
                return Err(SubmitError::Date);
            },
        };
        let entry = Entry::new(date_string, String::from_str(description), start, end, hours);
        write_entry(&entry, log);
        proof {
            assert(self.entrys@.len() == self.entrys.len());
            lemma_views_hours(self.entrys@);
            lemma_sum_hours_bound(views(self.entrys@));
        }
        let ghost before = views(self.entrys@);
        let ghost added = entry@;
        self.total_hours = self.total_hours + hours as u128;
        self.entrys.push(entry);
        proof {
            assert(views(self.entrys@) =~= before.push(added));
            assert(before.push(added).drop_last() =~= before);
        }
        sort_entries(&mut self.entrys);
        proof {
            lemma_sum_hours_permutation(views(self.entrys@), before.push(added));
        }
        Ok(())
    }

    /// Adds the active entries to `archive` as one batch. The tracker stays
    /// as it is: the entries leave it in `finish_archive`, once the batch
    /// is known to be written.
    pub fn begin_archive(&self, archive: &mut String)
        ensures
            encode_utf8(final(archive)@) == encode_utf8(old(archive)@) + archive_batch(
                self.active(),
            ),
    {
        write_to_archive(self.entrys.as_slice(), archive);
    }

    /// Ends an archiving. Where the batch was written, the active list and
    /// the active log are emptied; where it was not, both stay as they are.
    pub fn finish_archive(&mut self, written: bool, active_log: &mut String) -> (done: bool)
        requires
            old(self).wf(),
        ensures
            final(self).wf(),
            done == written,
            final(self).archived() == old(self).archived(),
            final(self).archive_total() == old(self).archive_total(),
            final(self).viewing() == old(self).viewing(),
            written ==> final(self).active().len() == 0,
            written ==> final(self).total() == 0,
            written ==> final(active_log)@.len() == 0,
            !written ==> final(self).active() == old(self).active(),
            !written ==> final(self).total() == old(self).total(),
            !written ==> final(active_log)@ == old(active_log)@,
    {
        if written {
            self.entrys.clear();
            self.total_hours = 0;
            wipe_entrys(active_log);
            assert(views(self.entrys@) =~= Seq::<EntryView>::empty());
        }
        written
    }

    /// Archives into logs held in memory, where no write can fail: the
    /// active entries go to the end of `archive` as one batch, the active
    /// list and `active_log` end up empty.
    pub fn archive_all(&mut self, archive: &mut String, active_log: &mut String)
        requires
            old(self).wf(),
        ensures
            final(self).wf(),
            final(self).active().len() == 0,
            final(self).total() == 0,
            final(active_log)@.len() == 0,
            encode_utf8(final(archive)@) == encode_utf8(old(archive)@) + archive_batch(
                old(self).active(),
            ),
            final(self).archived() == old(self).archived(),
            final(self).archive_total() == old(self).archive_total(),
            final(self).viewing() == old(self).viewing(),
    {
        self.begin_archive(archive);
        self.finish_archive(true, active_log);
    }

    /// Opens the archive view or closes it. The result says whether the
    /// archive is to be loaded now: it is being opened and nothing of it is
    /// in memory.
    pub fn toggle_archive_view(&mut self) -> (load: bool)
        ensures
            final(self).viewing() == !old(self).viewing(),
            load == (!old(self).viewing() && old(self).archived().len() == 0),
            final(self).active() == old(self).active(),
            final(self).total() == old(self).total(),
            final(self).archived() == old(self).archived(),
            final(self).archive_total() == old(self).archive_total(),
    {
        let load = !self.viewing_archive && self.archive.len() == 0;
        self.viewing_archive = !self.viewing_archive;
        load
    }

    /// Adds what the archive log holds to the archive in memory, each
    /// batch newest first and each batch end where its line stands.
    pub fn load_archive(&mut self, archive_log: &str)
        requires
            old(self).wf(),
        ensures
            final(self).wf(),
            final(self).archived().len() == old(self).archived().len() + archive_entries(
                encode_utf8(archive_log@),
            ).len(),
            final(self).archived().take(old(self).archived().len() as int) == old(self).archived(),
            is_batch_sorted_form(
                archive_entries(encode_utf8(archive_log@)),
                final(self).archived().skip(old(self).archived().len() as int),
            ),
            marks_stay(
                archive_entries(encode_utf8(archive_log@)),
                final(self).archived().skip(old(self).archived().len() as int),
            ),
            batches_newest_first(
                archive_entries(encode_utf8(archive_log@)),
                final(self).archived().skip(old(self).archived().len() as int),
            ),
            final(self).active() == old(self).active(),
            final(self).total() == old(self).total(),
            final(self).viewing() == old(self).viewing(),
    {
        let ghost before = views(self.archive@);
        read_archive(archive_log, &mut self.archive, &mut self.total_hours_archive);
        proof {
            let loaded = views(self.archive@).skip(before.len() as int);
            assert(self.archive@.len() == self.archive.len());
            assert(views(self.archive@) =~= views(self.archive@).take(before.len() as int)
                + loaded);
            lemma_batch_sorted_sum(archive_entries(encode_utf8(archive_log@)), loaded);
            lemma_sum_hours_add(before, loaded);
            lemma_views_hours(self.archive@);
            lemma_sum_hours_bound(views(self.archive@));
        }
    }
}

impl Default for WorkTracker {
    /// A tracker with nothing in it.
    fn default() -> (tracker: WorkTracker)
        ensures
            tracker.wf(),
            tracker.active().len() == 0,
            tracker.archived().len() == 0,
            !tracker.viewing(),
    {
        WorkTracker {
            entrys: Vec::new(),
            archive: Vec::new(),
            viewing_archive: false,
            total_hours: 0,
            total_hours_archive: 0,
        }
    }
}

} // verus!
