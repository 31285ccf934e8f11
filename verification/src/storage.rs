//! What is persisted of snapshots and comparisons: the record of a
//! comparison, the lines of the history log, and the messages for a
//! snapshot file that cannot be used.

use crate::diff;
use crate::diff::{Change, ChangeView, DiffReport};
use crate::model::Snapshot;
use crate::text;
use crate::timefmt;
use vstd::prelude::*;
use vstd::string::*;

verus! {

/// One line of the append-only history log: a diff summary tied to the
/// timestamps of the two snapshots it was computed from.
#[derive(Debug)]
pub struct HistoryRecord {
    pub baseline_captured_at_unix: u64,
    pub current_captured_at_unix: u64,
    pub added: usize,
    pub removed: usize,
    pub owner_changed: usize,
    pub changes: Vec<Change>,
}

/// What a `HistoryRecord` says.
pub struct HistoryRecordView {
    pub baseline_captured_at_unix: u64,
    pub current_captured_at_unix: u64,
    pub added: nat,
    pub removed: nat,
    pub owner_changed: nat,
    pub changes: Seq<ChangeView>,
}

impl View for HistoryRecord {
    type V = HistoryRecordView;

    open spec fn view(&self) -> HistoryRecordView {
        HistoryRecordView {
            baseline_captured_at_unix: self.baseline_captured_at_unix,
            current_captured_at_unix: self.current_captured_at_unix,
            added: self.added as nat,
            removed: self.removed as nat,
            owner_changed: self.owner_changed as nat,
            changes: diff::change_views(self.changes@),
        }
    }
}

impl Clone for HistoryRecord {
    fn clone(&self) -> (r: Self)
        ensures
            r@ == self@,
    {
        HistoryRecord {
            baseline_captured_at_unix: self.baseline_captured_at_unix,
            current_captured_at_unix: self.current_captured_at_unix,
            added: self.added,
            removed: self.removed,
            owner_changed: self.owner_changed,
            changes: diff::clone_changes(&self.changes),
        }
    }
}

/// The record of a comparison.
pub open spec fn record_of(baseline: u64, current: u64, changes: Seq<ChangeView>) -> HistoryRecordView {
    HistoryRecordView {
        baseline_captured_at_unix: baseline,
        current_captured_at_unix: current,
        added: diff::added_in(changes),
        removed: diff::removed_in(changes),
        owner_changed: diff::owner_changed_in(changes),
        changes,
    }
}

/// The one-line summary of a record.
pub open spec fn record_text(record: HistoryRecordView) -> Seq<char> {
    timefmt::time_text(record.baseline_captured_at_unix as nat) + " -> "@ + timefmt::time_text(
        record.current_captured_at_unix as nat,
    ) + ": +"@ + text::decimal(record.added) + " -"@ + text::decimal(record.removed) + " ~"@
        + text::decimal(record.owner_changed)
}

/// Whether a line holds nothing but white space.
pub open spec fn is_blank(line: Seq<char>) -> bool {
    text::trim(line).len() == 0
}

/// The lines that are not blank, in order.
pub open spec fn not_blank(lines: Seq<Seq<char>>) -> Seq<Seq<char>>
    decreases lines.len(),
{
    if lines.len() == 0 {
        seq![]
    } else {
        let rest = not_blank(lines.drop_last());
        if is_blank(lines.last()) {
            rest
        } else {
            rest.push(lines.last())
        }
    }
}

/// The records of a history log, each a line of the log's text.
pub open spec fn record_lines(content: Seq<char>) -> Seq<Seq<char>> {
    not_blank(text::lines(content))
}

/// What appending a record leaves in the log: the log, the text of the
/// record, and a line feed.
pub open spec fn appended(content: Seq<char>, record: Seq<char>) -> Seq<char> {
    content + record + seq!['\n']
}

impl HistoryRecord {
    /// The record of the comparison of two snapshots.
    #[must_use]
    pub fn from_report(baseline: &Snapshot, current: &Snapshot, report: &DiffReport) -> (r: Self)
        ensures
            r@ == record_of(baseline@.captured_at_unix, current@.captured_at_unix, report@),
    {
        HistoryRecord {
            baseline_captured_at_unix: baseline.captured_at_unix,
            current_captured_at_unix: current.captured_at_unix,
            added: report.added_count(),
            removed: report.removed_count(),
            owner_changed: report.owner_changed_count(),
            changes: diff::clone_changes(&report.changes),
        }
    }

    /// Whether the record goes into the history log: only one with at least
    /// one change does, so a quiet machine produces a quiet log.
    #[must_use]
    pub fn is_logged(&self) -> (r: bool)
        ensures
            r == (self@.changes.len() > 0),
    {
        self.changes.len() > 0
    }
}

/// What is appended to the history log for a record with this text.
#[must_use]
pub fn history_line(record: &str) -> (r: String)
    ensures
        r@ == record@ + seq!['\n'],
        forall|content: Seq<char>| #[trigger] appended(content, record@) == content + r@,
{
    let mut out = record.to_owned();
    out.push('\n');
    proof {
        assert forall|content: Seq<char>| #[trigger]
            appended(content, record@) == content + out@ by {
            assert(appended(content, record@) =~= content + out@);
        }
        assert(out@ =~= record@ + seq!['\n']);
    }
    out
}

/// The texts of the records in a history log.
#[must_use]
pub fn history_lines(content: &str) -> (r: Vec<String>)
    ensures
        text::texts(r@) == record_lines(content@),
{
    let chars = text::chars_of(content);
    let lines = text::lines_of(chars.as_slice());
    let ghost all = text::slices(lines@);
    let mut out: Vec<String> = Vec::new();
    let mut i: usize = 0;
    assert(text::texts(out@) =~= not_blank(all.take(0)));
    while i < lines.len()
        invariant
            all == text::slices(lines@),
            i <= lines@.len(),
            text::texts(out@) == not_blank(all.take(i as int)),
        decreases lines.len() - i,
    {
        let line = lines[i];
        proof {
            assert(all.take(i + 1).drop_last() =~= all.take(i as int));
            assert(all.take(i + 1).last() == line@);
        }
        if text::trim_of(line).len() > 0 {
            let ghost before = text::texts(out@);
            let s = text::string_of(line);
            out.push(s);
            assert(text::texts(out@) =~= before.push(s@));
        }
        i += 1;
    }
    assert(all.take(i as int) =~= all);
    out
}

/// Human-readable one-line label for a history record.
#[must_use]
pub fn describe_record(record: &HistoryRecord) -> (r: String)
    ensures
        r@ == record_text(record@),
{
    let mut out = timefmt::format_unix(record.baseline_captured_at_unix);
    out.append(" -> ");
    let current = timefmt::format_unix(record.current_captured_at_unix);
    out.append(current.as_str());
    out.append(": +");
    text::push_decimal(&mut out, record.added as u64);
    out.append(" -");
    text::push_decimal(&mut out, record.removed as u64);
    out.append(" ~");
    text::push_decimal(&mut out, record.owner_changed as u64);
    out
}

/// The summaries of the records.
pub open spec fn record_texts(records: Seq<HistoryRecord>) -> Seq<Seq<char>> {
    records.map_values(|r: HistoryRecord| record_text(r@))
}

/// The history as it is shown: a line for each record, or a hint where
/// there is none.
#[must_use]
pub fn describe_history(records: &[HistoryRecord]) -> (r: String)
    ensures
        r@ == if records@.len() == 0 {
            "no history yet - run `portwatch update` to start logging changes"@
        } else {
            text::join(record_texts(records@), "\n"@)
        },
{
    if records.len() == 0 {
        return "no history yet - run `portwatch update` to start logging changes".to_owned();
    }
    let mut lines: Vec<String> = Vec::new();
    let ghost all = record_texts(records@);
    let mut i: usize = 0;
    assert(text::texts(lines@) =~= all.take(0));
    while i < records.len()
        invariant
            all == record_texts(records@),
            i <= records@.len(),
            text::texts(lines@) == all.take(i as int),
        decreases records.len() - i,
    {
        let ghost before = text::texts(lines@);
        let line = describe_record(&records[i]);
        lines.push(line);
        i += 1;
        proof {
            assert(text::texts(lines@) =~= before.push(line@));
            assert(all.take(i as int) =~= all.take(i - 1).push(all[i - 1]));
        }
    }
    assert(all.take(i as int) =~= all);
    text::join_of(&lines, "\n")
}

/// The message for a snapshot file that is not there.
#[must_use]
pub fn missing_snapshot(path: &str) -> (r: String)
    ensures
        r@ == "no snapshot found at "@ + path@ + " - run `portwatch snapshot` first"@,
{
    let mut out = "no snapshot found at ".to_owned();
    out.append(path);
    out.append(" - run `portwatch snapshot` first");
    out
}

/// The message for a snapshot file that holds something else.
#[must_use]
pub fn invalid_snapshot(path: &str, reason: &str) -> (r: String)
    ensures
        r@ == path@ + " does not contain a valid snapshot: "@ + reason@,
{
    let mut out = path.to_owned();
    out.append(" does not contain a valid snapshot: ");
    out.append(reason);
    out
}

} // verus!
