//! Laws of what is persisted: what is appended to the history log is read
//! back, and the record of a comparison adds up.

use crate::diff::ChangeView;
use crate::diff_laws;
use crate::storage;
use crate::storage::{HistoryRecord, HistoryRecordView};
use crate::text;
use crate::text_laws;
use crate::timefmt;
use vstd::prelude::*;

verus! {

/// Whether the text can stand as one line of the log: it has no line feed,
/// does not end in a carriage return, and is not blank.
pub open spec fn is_record_text(line: Seq<char>) -> bool {
    &&& forall|k: int| 0 <= k < line.len() ==> #[trigger] line[k] != '\n'
    &&& line.len() > 0 ==> line.last() != '\r'
    &&& !storage::is_blank(line)
}

/// Whether every line of the log is ended.
pub open spec fn is_ended(content: Seq<char>) -> bool {
    content.len() > 0 ==> content.last() == '\n'
}

/// A line behind ended lines is one more line.
proof fn lemma_lines_append(content: Seq<char>, line: Seq<char>)
    requires
        is_ended(content),
        forall|k: int| 0 <= k < line.len() ==> #[trigger] line[k] != '\n',
        line.len() > 0 ==> line.last() != '\r',
    ensures
        text::lines(storage::appended(content, line)) == text::lines(content).push(line),
    decreases content.len(),
{
    let s = storage::appended(content, line);
    if content.len() == 0 {
        assert(s =~= line + seq!['\n']);
        let n = line.len() as int;
        assert(s[n] == '\n');
        assert forall|i: int| 0 <= i < n implies s[i] != '\n' by {
            assert(s[i] == line[i]);
        }
        text::lemma_find_is(s, '\n', n);
        assert(s.take(n) =~= line);
        assert(s.skip(n + 1) =~= seq![]);
        assert(text::drop_cr(line) == line);
        assert(text::lines(s.skip(n + 1)) =~= seq![]);
        assert(text::lines(s) =~= seq![line]);
        assert(text::lines(content) =~= seq![]);
    } else {
        text::lemma_find(content, '\n');
        let n = text::find(content, '\n');
        if n == content.len() {
            assert(content[content.len() - 1] == '\n');
        }
        assert forall|i: int| 0 <= i < n implies s[i] != '\n' by {
            assert(s[i] == content[i]);
        }
        assert(s[n] == content[n]);
        text::lemma_find_is(s, '\n', n);
        let rest = content.skip(n + 1);
        assert(s.take(n) =~= content.take(n));
        assert(s.skip(n + 1) =~= storage::appended(rest, line));
        if rest.len() > 0 {
            assert(rest.last() == content.last());
        }
        lemma_lines_append(rest, line);
        let first = seq![text::drop_cr(content.take(n))];
        assert(first + text::lines(rest).push(line) =~= (first + text::lines(rest)).push(line));
    }
}

/// A record that is appended to the log is read back behind the records
/// that were there, and takes nothing from them.
pub proof fn appended_record_is_read_back(content: Seq<char>, line: Seq<char>)
    requires
        is_ended(content),
        is_record_text(line),
    ensures
        storage::record_lines(storage::appended(content, line)) == storage::record_lines(
            content,
        ).push(line),
        is_ended(storage::appended(content, line)),
{
    lemma_lines_append(content, line);
    let l = text::lines(content);
    assert(l.push(line).drop_last() =~= l);
    assert(l.push(line).last() == line);
}

/// The log after records were appended to an empty one, one after the
/// other.
pub open spec fn log_of(records: Seq<Seq<char>>) -> Seq<char>
    decreases records.len(),
{
    if records.len() == 0 {
        seq![]
    } else {
        storage::appended(log_of(records.drop_last()), records.last())
    }
}

/// All records that were appended to the log are read back, in order.
pub proof fn history_is_read_back(records: Seq<Seq<char>>)
    requires
        forall|i: int| 0 <= i < records.len() ==> is_record_text(#[trigger] records[i]),
    ensures
        storage::record_lines(log_of(records)) == records,
        is_ended(log_of(records)),
    decreases records.len(),
{
    if records.len() == 0 {
        assert(storage::record_lines(log_of(records)) =~= records);
    } else {
        let front = records.drop_last();
        assert forall|i: int| 0 <= i < front.len() implies is_record_text(#[trigger] front[i]) by {
            assert(front[i] == records[i]);
        }
        history_is_read_back(front);
        assert(is_record_text(records[records.len() - 1]));
        appended_record_is_read_back(log_of(front), records.last());
        assert(front.push(records.last()) =~= records);
    }
}

/// The records that go into the log, in order: those with a change.
pub open spec fn logged(records: Seq<HistoryRecordView>) -> Seq<HistoryRecordView>
    decreases records.len(),
{
    if records.len() == 0 {
        seq![]
    } else {
        let rest = logged(records.drop_last());
        if records.last().changes.len() > 0 {
            rest.push(records.last())
        } else {
            rest
        }
    }
}

/// The log after the records were offered to an empty one, one after the
/// other: each that has a change is appended as `encode` writes it.
pub open spec fn log_after(
    records: Seq<HistoryRecordView>,
    encode: spec_fn(HistoryRecordView) -> Seq<char>,
) -> Seq<char>
    decreases records.len(),
{
    if records.len() == 0 {
        seq![]
    } else {
        let log = log_after(records.drop_last(), encode);
        if records.last().changes.len() > 0 {
            storage::appended(log, encode(records.last()))
        } else {
            log
        }
    }
}

/// The records that the lines hold, as `decode` reads each; none of them if
/// one line holds none.
pub open spec fn decoded(
    lines: Seq<Seq<char>>,
    decode: spec_fn(Seq<char>) -> Option<HistoryRecordView>,
) -> Option<Seq<HistoryRecordView>>
    decreases lines.len(),
{
    if lines.len() == 0 {
        Some(seq![])
    } else {
        match (decoded(lines.drop_last(), decode), decode(lines.last())) {
            (Some(rest), Some(r)) => Some(rest.push(r)),
            _ => None,
        }
    }
}

/// Whatever form the records have in the log, as long as it is one line and
/// is read back as the record: after records were offered to an empty log,
/// reading it gives those with a change, as they were and in order.
pub proof fn logged_records_are_read_back(
    records: Seq<HistoryRecordView>,
    encode: spec_fn(HistoryRecordView) -> Seq<char>,
    decode: spec_fn(Seq<char>) -> Option<HistoryRecordView>,
)
    requires
        forall|i: int|
            0 <= i < records.len() ==> is_record_text(#[trigger] encode(records[i])) && decode(
                encode(records[i]),
            ) == Some(records[i]),
    ensures
        decoded(storage::record_lines(log_after(records, encode)), decode) == Some(
            logged(records),
        ),
        is_ended(log_after(records, encode)),
    decreases records.len(),
{
    if records.len() == 0 {
        assert(storage::record_lines(log_after(records, encode)) =~= seq![]);
    } else {
        let front = records.drop_last();
        let last = records.last();
        assert forall|i: int| 0 <= i < front.len() implies is_record_text(
            #[trigger] encode(front[i]),
        ) && decode(encode(front[i])) == Some(front[i]) by {
            assert(is_record_text(encode(records[i])));
        }
        logged_records_are_read_back(front, encode, decode);
        if last.changes.len() > 0 {
            assert(is_record_text(encode(records[records.len() - 1])));
            let log = log_after(front, encode);
            let lines = storage::record_lines(log);
            appended_record_is_read_back(log, encode(last));
            assert(lines.push(encode(last)).drop_last() =~= lines);
            assert(lines.push(encode(last)).last() == encode(last));
        }
    }
}

/// Blank lines in the log are no records.
pub proof fn blank_lines_are_no_records(lines: Seq<Seq<char>>)
    ensures
        forall|i: int|
            0 <= i < storage::not_blank(lines).len() ==> !storage::is_blank(
                #[trigger] storage::not_blank(lines)[i],
            ),
    decreases lines.len(),
{
    if lines.len() > 0 {
        blank_lines_are_no_records(lines.drop_last());
        let rest = storage::not_blank(lines.drop_last());
        let all = storage::not_blank(lines);
        assert forall|i: int| 0 <= i < all.len() implies !storage::is_blank(#[trigger] all[i]) by {
            if i < rest.len() {
                assert(all[i] == rest[i]);
            }
        }
    }
}

/// The counts of a record add up to the number of its changes.
pub proof fn record_counts_add_up(baseline: u64, current: u64, changes: Seq<ChangeView>)
    ensures
        ({
            let r = storage::record_of(baseline, current, changes);
            r.added + r.removed + r.owner_changed == r.changes.len()
        }),
{
    diff_laws::counts_add_up(changes);
}

/// The record of a comparison counts each kind of change by itself: `added`
/// is the number of additions, `removed` that of removals and
/// `owner_changed` that of owner changes. It keeps the changes, and the two
/// times as they are.
pub proof fn record_counts_each_kind(baseline: u64, current: u64, changes: Seq<ChangeView>)
    ensures
        ({
            let r = storage::record_of(baseline, current, changes);
            &&& r.added == changes.filter(|c: ChangeView| c is Added).len()
            &&& r.removed == changes.filter(|c: ChangeView| c is Removed).len()
            &&& r.owner_changed == changes.filter(|c: ChangeView| c is OwnerChanged).len()
            &&& r.changes == changes
            &&& r.baseline_captured_at_unix == baseline
            &&& r.current_captured_at_unix == current
        }),
{
    diff_laws::counts_are_of_each_kind(changes);
}

/// One change more is one more of its kind, and of no other.
pub proof fn change_counts_once(baseline: u64, current: u64, changes: Seq<ChangeView>, c: ChangeView)
    ensures
        ({
            let r = storage::record_of(baseline, current, changes);
            let s = storage::record_of(baseline, current, changes.push(c));
            &&& s.added == r.added + if c is Added {
                1int
            } else {
                0
            }
            &&& s.removed == r.removed + if c is Removed {
                1int
            } else {
                0
            }
            &&& s.owner_changed == r.owner_changed + if c is OwnerChanged {
                1int
            } else {
                0
            }
        }),
{
    assert(changes.push(c).drop_last() =~= changes);
    assert(changes.push(c).last() == c);
}

/// Where all changes are of one kind, they are counted as that kind alone.
pub proof fn one_kind_is_counted_alone(baseline: u64, current: u64, changes: Seq<ChangeView>)
    ensures
        ({
            let r = storage::record_of(baseline, current, changes);
            let n = changes.len();
            &&& (forall|i: int| 0 <= i < n ==> #[trigger] changes[i] is Added) ==> r.added == n
                && r.removed == 0 && r.owner_changed == 0
            &&& (forall|i: int| 0 <= i < n ==> #[trigger] changes[i] is Removed) ==> r.added == 0
                && r.removed == n && r.owner_changed == 0
            &&& (forall|i: int| 0 <= i < n ==> #[trigger] changes[i] is OwnerChanged) ==> r.added
                == 0 && r.removed == 0 && r.owner_changed == n
        }),
    decreases changes.len(),
{
    if changes.len() > 0 {
        let front = changes.drop_last();
        one_kind_is_counted_alone(baseline, current, front);
        assert(front.push(changes.last()) =~= changes);
        change_counts_once(baseline, current, front, changes.last());
        assert forall|i: int| 0 <= i < front.len() implies #[trigger] front[i] == changes[i] by {}
    }
}

/// The view of a record has all that the record has.
pub proof fn view_keeps_the_record(r: HistoryRecord)
    ensures
        r@.baseline_captured_at_unix == r.baseline_captured_at_unix,
        r@.current_captured_at_unix == r.current_captured_at_unix,
        r@.added == r.added,
        r@.removed == r.removed,
        r@.owner_changed == r.owner_changed,
        r@.changes.len() == r.changes@.len(),
        forall|i: int| 0 <= i < r.changes@.len() ==> #[trigger] r@.changes[i] == r.changes@[i]@,
{
}

/// A line is blank exactly if there is nothing but white space on it.
pub proof fn blank_is_all_white(line: Seq<char>)
    ensures
        storage::is_blank(line) <==> forall|i: int|
            0 <= i < line.len() ==> text::is_white(#[trigger] line[i]),
{
    text_laws::blank_text_has_no_words(line);
}

/// The records of a log are all of its lines that are not blank, in order.
pub proof fn records_are_picked(content: Seq<char>)
    ensures
        storage::record_lines(content) == text::lines(content).filter(
            |l: Seq<char>|
                exists|i: int| 0 <= i < l.len() && !text::is_white(#[trigger] l[i]),
        ),
{
    lemma_not_blank(text::lines(content));
}

/// The same of any lines.
proof fn lemma_not_blank(lines: Seq<Seq<char>>)
    ensures
        storage::not_blank(lines) == lines.filter(
            |l: Seq<char>|
                exists|i: int| 0 <= i < l.len() && !text::is_white(#[trigger] l[i]),
        ),
    decreases lines.len(),
{
    reveal(Seq::filter);
    if lines.len() > 0 {
        lemma_not_blank(lines.drop_last());
        blank_is_all_white(lines.last());
    }
}

/// Appending puts a record and a line feed behind what is there, and leaves
/// that as it is.
pub proof fn appending_keeps_the_log(content: Seq<char>, record: Seq<char>)
    ensures
        storage::appended(content, record).len() == content.len() + record.len() + 1,
        storage::appended(content, record).take(content.len() as int) == content,
        storage::appended(content, record).subrange(
            content.len() as int,
            (content.len() + record.len()) as int,
        ) == record,
        storage::appended(content, record).last() == '\n',
{
    let s = storage::appended(content, record);
    assert(s.take(content.len() as int) =~= content);
    assert(s.subrange(content.len() as int, (content.len() + record.len()) as int) =~= record);
}

/// The summary of a record shows its two times and its counts: the baseline's
/// time in front of the arrow, the current one's behind it; then the
/// additions behind a plus, the removals behind a minus and the owner changes
/// behind a tilde.
#[verifier::rlimit(40)]
pub proof fn summary_shows_the_record(r: HistoryRecordView)
    ensures
        ({
            let t = storage::record_text(r);
            let a = timefmt::time_text(r.baseline_captured_at_unix as nat);
            let b = timefmt::time_text(r.current_captured_at_unix as nat);
            let plus = (a.len() + 4 + b.len() + 2) as int;
            let minus = plus + 1 + text::decimal(r.added).len() + 1;
            let tilde = minus + 1 + text::decimal(r.removed).len() + 1;
            &&& t.take(a.len() as int) == a
            &&& t.subrange(a.len() as int, a.len() as int + 4) == seq![' ', '-', '>', ' ']
            &&& t.subrange(a.len() as int + 4, plus - 2) == b
            &&& t[plus - 2] == ':' && t[plus - 1] == ' ' && t[plus] == '+'
            &&& text::digits_value(t.subrange(plus + 1, minus - 1), 10) == Some(r.added)
            &&& t[minus - 1] == ' ' && t[minus] == '-'
            &&& text::digits_value(t.subrange(minus + 1, tilde - 1), 10) == Some(r.removed)
            &&& t[tilde - 1] == ' ' && t[tilde] == '~'
            &&& text::digits_value(t.skip(tilde + 1), 10) == Some(r.owner_changed)
        }),
{
    let t = storage::record_text(r);
    let a = timefmt::time_text(r.baseline_captured_at_unix as nat);
    let b = timefmt::time_text(r.current_captured_at_unix as nat);
    let x = text::decimal(r.added);
    let y = text::decimal(r.removed);
    let z = text::decimal(r.owner_changed);
    let plus = (a.len() + 4 + b.len() + 2) as int;
    let minus = plus + 1 + x.len() + 1;
    let tilde = minus + 1 + y.len() + 1;
    reveal_strlit(" -> ");
    reveal_strlit(": +");
    reveal_strlit(" -");
    reveal_strlit(" ~");
    text_laws::decimal_reads_back(r.added, r.added);
    text_laws::decimal_reads_back(r.removed, r.removed);
    text_laws::decimal_reads_back(r.owner_changed, r.owner_changed);
    assert(t.take(a.len() as int) =~= a);
    assert(t.subrange(a.len() as int, a.len() as int + 4) =~= seq![' ', '-', '>', ' ']);
    assert(t.subrange(a.len() as int + 4, plus - 2) =~= b);
    assert(t.subrange(plus + 1, minus - 1) =~= x);
    assert(t.subrange(minus + 1, tilde - 1) =~= y);
    assert(t.skip(tilde + 1) =~= z);
}

/// A history is summarized record by record.
pub proof fn every_record_is_summarized(records: Seq<HistoryRecord>)
    ensures
        storage::record_texts(records).len() == records.len(),
        forall|i: int|
            0 <= i < records.len() ==> #[trigger] storage::record_texts(records)[i]
                == storage::record_text(records[i]@),
{
}

} // verus!
