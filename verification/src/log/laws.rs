//! What holds of every log.

use crate::log::{Bound, Range};
use crate::log::log::{EntryView, LogView};
use vstd::prelude::*;

verus! {

/// An entry that was appended is the one that is read at its index: the
/// index after the last of the log before, with the term and the command
/// given. What the log held before is read as before.
pub proof fn law_append_then_get(log: LogView, term: u64, command: Option<Seq<u8>>, index: int)
    requires
        log.well_formed(),
        log.last_index() + 1 < u64::MAX,
    ensures
        log.append(term, command).well_formed(),
        log.append(term, command).last_index() == log.last_index() + 1,
        log.append(term, command).last_term() == term,
        log.append(term, command).get(log.last_index() as int + 1) == Some(
            EntryView { index: (log.last_index() + 1) as u64, term, command },
        ),
        1 <= index <= log.last_index() ==> log.append(term, command).get(index) == log.get(index),
{
}

/// A scan from `first` to `last`, both included, gives the entries that
/// are read at `first`, at the index after it, and so on up to `last`.
pub proof fn law_scan_is_gets(log: LogView, first: u64, last: u64, k: int)
    requires
        1 <= first <= last <= log.last_index(),
        0 <= k <= last - first,
    ensures
        (Range { start: Bound::Included(first), end: Bound::Included(last) }).select(
            log.entries,
        ).len() == last - first + 1,
        Some(
            (Range { start: Bound::Included(first), end: Bound::Included(last) }).select(
                log.entries,
            )[k],
        ) == log.get(first + k),
{
}

/// A scan reads nothing but what the range holds: each entry that it gives
/// is the one at an index of the range, and it gives them in ascending
/// order without a gap.
pub proof fn law_scan_in_order(log: LogView, range: Range, k: int)
    requires
        log.well_formed(),
        0 <= k < range.select(log.entries).len(),
    ensures
        range.contains(range.select(log.entries)[k].index as int),
        range.select(log.entries)[k].index == range.select(log.entries)[0].index + k,
        Some(range.select(log.entries)[k]) == log.get(range.first() + k),
{
}

/// Truncating a log keeps its entries up to the index given, and drops
/// the rest.
pub proof fn law_truncate(log: LogView, index: int, at: int)
    requires
        log.well_formed(),
        log.commit_index <= index,
    ensures
        log.truncate(index).well_formed(),
        log.truncate(index).last_index() == if index < log.last_index() {
            index
        } else {
            log.last_index() as int
        },
        1 <= at <= index ==> log.truncate(index).get(at) == log.get(at),
        at > index ==> log.truncate(index).get(at) is None,
{
}

} // verus!
