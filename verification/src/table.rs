//! What the rows of a table of entries show: an entry each, a gap where a
//! batch of the archive ends, and the total in a last row of its own.

use vstd::prelude::*;
use crate::entry::{views, Entry, EntryView};

verus! {

/// What one row shows.
#[derive(Clone, Copy, Debug, PartialEq, Eq, Structural)]
pub enum Row {
    /// The entry at this place of the list.
    Entry,
    /// An empty row, between two batches.
    Gap,
    /// Nothing: the end of the last batch takes no room, and there are no
    /// rows beyond the total.
    Nothing,
    /// The total of the hours, behind the last entry.
    Total,
}

/// What the row at `index` shows, for a list of entries and batch ends.
pub open spec fn row_of(entries: Seq<EntryView>, index: int) -> Row {
    if index == entries.len() {
        Row::Total
    } else if index < 0 || index > entries.len() {
        Row::Nothing
    } else if entries[index].date.len() > 0 {
        Row::Entry
    } else if index == entries.len() - 1 {
        Row::Nothing
    } else {
        Row::Gap
    }
}

/// What the row at `index` shows. The rows are one more than the entries,
/// and beyond them there is nothing to show.
pub fn row_at(entries: &Vec<Entry>, index: usize) -> (row: Row)
    ensures
        row == row_of(views(entries@), index as int),
{
    if index == entries.len() {
        Row::Total
    } else if index > entries.len() {
        Row::Nothing
    } else if !entries[index].is_separator() {
        Row::Entry
    } else if index == entries.len() - 1 {
        Row::Nothing
    } else {
        Row::Gap
    }
}

} // verus!
