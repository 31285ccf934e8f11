//! Rendering snapshots and diff reports for a terminal.

use crate::diff;
use crate::diff::{Change, ChangeView, DiffReport};
use crate::model;
use crate::model::{Key, PortEntry, PortEntryView};
use crate::text;
use vstd::prelude::*;
use vstd::string::*;

verus! {

// ---------------------------------------------------------------------
// What is shown
// ---------------------------------------------------------------------

/// How an owner is shown: name and pid, a placeholder for an unknown name,
/// and a dash where there is no pid.
pub open spec fn owner_text(owner: (Option<u32>, Option<Seq<char>>)) -> Seq<char> {
    match owner {
        (Some(pid), Some(name)) => name + " ("@ + text::decimal(pid as nat) + ")"@,
        (Some(pid), None) => "<unknown> ("@ + text::decimal(pid as nat) + ")"@,
        (None, _) => "-"@,
    }
}

/// How a socket is shown: `protocol/address:port`.
pub open spec fn socket_text(key: Key) -> Seq<char> {
    key.0.text() + "/"@ + key.1.text() + ":"@ + text::decimal(key.2 as nat)
}

/// The line for a change.
pub open spec fn change_text(change: ChangeView) -> Seq<char> {
    match change {
        ChangeView::Added { entry } => "+ "@ + socket_text(entry.key()) + " now listening ("@
            + owner_text(entry.owner()) + ")"@,
        ChangeView::Removed { entry } => "- "@ + socket_text(entry.key())
            + " no longer listening (was "@ + owner_text(entry.owner()) + ")"@,
        ChangeView::OwnerChanged { key, old_owner, new_owner } => "~ "@ + socket_text(key)
            + " owner changed: "@ + owner_text(old_owner) + " -> "@ + owner_text(new_owner),
    }
}

/// The lines for the changes.
pub open spec fn change_texts(changes: Seq<ChangeView>) -> Seq<Seq<char>> {
    changes.map_values(|c: ChangeView| change_text(c))
}

/// The text of a report: one line for each change.
pub open spec fn report_text(changes: Seq<ChangeView>) -> Seq<char> {
    if changes.len() == 0 {
        "no changes"@
    } else {
        text::join(change_texts(changes), "\n"@)
    }
}

/// The heading of the table.
pub open spec fn header() -> Seq<Seq<char>> {
    seq!["PROTO"@, "ADDRESS"@, "PORT"@, "STATE"@, "PROCESS"@]
}

/// The cells of an entry.
pub open spec fn cells(e: PortEntryView) -> Seq<Seq<char>> {
    seq![
        e.protocol.text(),
        e.local_addr.text(),
        text::decimal(e.local_port as nat),
        match e.state {
            Some(s) => s.text(),
            None => "-"@,
        },
        owner_text(e.owner()),
    ]
}

/// The rows of the table: the heading, then one for each entry.
pub open spec fn table_rows(entries: Seq<PortEntryView>) -> Seq<Seq<Seq<char>>> {
    seq![header()] + entries.map_values(|e: PortEntryView| cells(e))
}

/// The length of the longest cell of a column.
pub open spec fn width(rows: Seq<Seq<Seq<char>>>, column: int) -> nat
    decreases rows.len(),
{
    if rows.len() == 0 {
        0
    } else {
        let w = width(rows.drop_last(), column);
        let n = rows.last()[column].len();
        if n > w {
            n
        } else {
            w
        }
    }
}

/// The widths of the five columns.
pub open spec fn widths(rows: Seq<Seq<Seq<char>>>) -> Seq<nat> {
    Seq::new(5, |c: int| width(rows, c))
}

/// A cell with spaces after it up to a width.
pub open spec fn pad(cell: Seq<char>, w: nat) -> Seq<char> {
    cell + text::repeat(
        ' ',
        if cell.len() < w {
            (w - cell.len()) as nat
        } else {
            0
        },
    )
}

/// The cells of a row, each with spaces after it up to its width.
pub open spec fn pads(row: Seq<Seq<char>>, w: Seq<nat>) -> Seq<Seq<char>> {
    Seq::new(5, |c: int| pad(row[c], w[c]))
}

/// A row in full: the padded cells, two spaces apart.
pub open spec fn full_line(row: Seq<Seq<char>>, w: Seq<nat>) -> Seq<char> {
    text::join(pads(row, w), "  "@)
}

/// The lines of a table: the rows in full, without the spaces at the end.
pub open spec fn table_lines(rows: Seq<Seq<Seq<char>>>) -> Seq<Seq<char>> {
    rows.map_values(|row: Seq<Seq<char>>| text::trim_end(full_line(row, widths(rows))))
}

/// The text of a table of entries.
pub open spec fn table_text(entries: Seq<PortEntryView>) -> Seq<char> {
    if entries.len() == 0 {
        "no listening ports found"@
    } else {
        text::join(table_lines(table_rows(entries)), "\n"@)
    }
}

// ---------------------------------------------------------------------
// Executable functions
// ---------------------------------------------------------------------

/// The characters of an optional string slice.
pub open spec fn label_view(name: Option<&str>) -> Option<Seq<char>> {
    match name {
        Some(s) => Some(s@),
        None => None,
    }
}

/// An optional string as an optional string slice.
fn name_ref(name: &Option<String>) -> (r: Option<&str>)
    ensures
        label_view(r) == model::name_view(*name),
{
    match name {
        Some(s) => Some(s.as_str()),
        None => None,
    }
}

/// How an owner is shown.
pub fn owner_label(pid: Option<u32>, name: Option<&str>) -> (r: String)
    ensures
        r@ == owner_text((pid, label_view(name))),
{
    match (pid, name) {
        (Some(pid), Some(name)) => {
            let mut out = name.to_owned();
            out.append(" (");
            text::push_decimal(&mut out, pid as u64);
            out.append(")");
            out
        },
        (Some(pid), None) => {
            let mut out = "<unknown> (".to_owned();
            text::push_decimal(&mut out, pid as u64);
            out.append(")");
            out
        },
        (None, _) => "-".to_owned(),
    }
}

/// Append how an owner is shown.
fn push_owner(out: &mut String, pid: Option<u32>, name: &Option<String>)
    ensures
        final(out)@ == old(out)@ + owner_text((pid, model::name_view(*name))),
{
    let label = owner_label(pid, name_ref(name));
    out.append(label.as_str());
}

/// Append how a socket is shown.
fn push_socket(out: &mut String, key: Key)
    ensures
        final(out)@ == old(out)@ + socket_text(key),
{
    let p = key.0.to_string();
    out.append(p.as_str());
    out.append("/");
    key.1.push_text(out);
    out.append(":");
    text::push_decimal(out, key.2 as u64);
    assert(out@ =~= old(out)@ + socket_text(key));
}

/// The line for a change.
fn change_line(change: &Change) -> (r: String)
    ensures
        r@ == change_text(change@),
{
    match change {
        Change::Added { entry } => {
            let mut out = "+ ".to_owned();
            push_socket(&mut out, entry.key());
            out.append(" now listening (");
            push_owner(&mut out, entry.pid, &entry.process_name);
            out.append(")");
            out
        },
        Change::Removed { entry } => {
            let mut out = "- ".to_owned();
            push_socket(&mut out, entry.key());
            out.append(" no longer listening (was ");
            push_owner(&mut out, entry.pid, &entry.process_name);
            out.append(")");
            out
        },
        Change::OwnerChanged {
            protocol,
            local_addr,
            local_port,
            old_pid,
            old_process_name,
            new_pid,
            new_process_name,
        } => {
            let mut out = "~ ".to_owned();
            push_socket(&mut out, (*protocol, *local_addr, *local_port));
            out.append(" owner changed: ");
            push_owner(&mut out, *old_pid, old_process_name);
            out.append(" -> ");
            push_owner(&mut out, *new_pid, new_process_name);
            out
        },
    }
}

/// Render a diff report as human-readable lines: one per change, prefixed
/// `+` (added), `-` (removed), or `~` (owning process changed).
#[must_use]
pub fn diff_report(report: &DiffReport) -> (r: String)
    ensures
        r@ == report_text(report@),
{
    if report.is_empty() {
        return "no changes".to_owned();
    }
    let mut lines: Vec<String> = Vec::new();
    let ghost all = change_texts(report@);
    let mut i: usize = 0;
    assert(text::texts(lines@) =~= all.take(0));
    while i < report.changes.len()
        invariant
            all == change_texts(report@),
            i <= report.changes@.len(),
            text::texts(lines@) == all.take(i as int),
        decreases report.changes.len() - i,
    {
        let ghost before = text::texts(lines@);
        let line = change_line(&report.changes[i]);
        lines.push(line);
        i += 1;
        proof {
            assert(text::texts(lines@) =~= before.push(line@));
            assert(all[i - 1] == line@);
            assert(all.take(i as int) =~= all.take(i - 1).push(all[i - 1]));
        }
    }
    assert(all.take(i as int) =~= all);
    text::join_of(&lines, "\n")
}

/// The cells of rows of strings.
pub open spec fn row_views(rows: Seq<[String; 5]>) -> Seq<Seq<Seq<char>>> {
    rows.map_values(|row: [String; 5]| text::texts(row@))
}

/// The length of the longest cell of a column.
fn width_of(rows: &[[String; 5]], column: usize) -> (r: usize)
    requires
        column < 5,
    ensures
        r == width(row_views(rows@), column as int),
{
    let ghost all = row_views(rows@);
    let mut w: usize = 0;
    let mut i: usize = 0;
    while i < rows.len()
        invariant
            column < 5,
            all == row_views(rows@),
            i <= rows@.len(),
            w == width(all.take(i as int), column as int),
        decreases rows.len() - i,
    {
        let n = rows[i][column].as_str().unicode_len();
        proof {
            assert(all.take(i + 1).drop_last() =~= all.take(i as int));
            assert(all.take(i + 1).last()[column as int] == rows@[i as int]@[column as int]@);
        }
        if n > w {
            w = n;
        }
        i += 1;
    }
    assert(all.take(i as int) =~= all);
    w
}

/// The line of a row.
fn row_line(row: &[String; 5], w: &Vec<usize>) -> (r: String)
    requires
        w.len() == 5,
    ensures
        r@ == text::trim_end(
            full_line(text::texts(row@), Seq::new(5, |c: int| w@[c] as nat)),
        ),
{
    let ghost ws = Seq::new(5, |c: int| w@[c] as nat);
    let ghost all = pads(text::texts(row@), ws);
    let mut out = String::new();
    let mut c: usize = 0;
    assert(all.take(0) =~= seq![]);
    while c < 5
        invariant
            w@.len() == 5,
            c <= 5,
            ws == Seq::new(5, |c: int| w@[c] as nat),
            all == pads(text::texts(row@), ws),
            out@ == text::join(all.take(c as int), "  "@),
        decreases 5 - c,
    {
        let ghost before = out@;
        if c > 0 {
            out.append("  ");
        }
        let n = row[c].as_str().unicode_len();
        out.append(row[c].as_str());
        if n < w[c] {
            text::push_repeat(&mut out, ' ', w[c] - n);
        }
        proof {
            let cell = row@[c as int]@;
            assert(all[c as int] == pad(cell, w@[c as int] as nat));
            assert(all.take(c + 1).drop_last() =~= all.take(c as int));
            assert(all.take(c + 1).last() == all[c as int]);
            assert(out@ =~= text::join(all.take(c + 1), "  "@));
        }
        c += 1;
    }
    assert(all.take(5) =~= all);
    let chars = text::chars_of(out.as_str());
    let trimmed = text::trim_end_of(chars.as_slice());
    text::string_of(trimmed)
}

/// The rows as lines of aligned columns.
pub fn render_table(rows: &[[String; 5]]) -> (r: String)
    ensures
        r@ == text::join(table_lines(row_views(rows@)), "\n"@),
{
    let ghost views = row_views(rows@);
    let mut w: Vec<usize> = Vec::new();
    let mut c: usize = 0;
    while c < 5
        invariant
            c <= 5,
            views == row_views(rows@),
            w@.len() == c,
            forall|k: int| 0 <= k < c ==> #[trigger] w@[k] == width(views, k),
        decreases 5 - c,
    {
        w.push(width_of(rows, c));
        c += 1;
    }
    assert(Seq::new(5, |c: int| w@[c] as nat) =~= widths(views));
    let ghost all = table_lines(views);
    let mut lines: Vec<String> = Vec::new();
    let mut i: usize = 0;
    assert(text::texts(lines@) =~= all.take(0));
    while i < rows.len()
        invariant
            views == row_views(rows@),
            all == table_lines(views),
            w@.len() == 5,
            Seq::new(5, |c: int| w@[c] as nat) == widths(views),
            i <= rows@.len(),
            text::texts(lines@) == all.take(i as int),
        decreases rows.len() - i,
    {
        let ghost before = text::texts(lines@);
        let line = row_line(&rows[i], &w);
        lines.push(line);
        i += 1;
        proof {
            assert(text::texts(lines@) =~= before.push(line@));
            assert(all[i - 1] == line@);
            assert(all.take(i as int) =~= all.take(i - 1).push(all[i - 1]));
        }
    }
    assert(all.take(i as int) =~= all);
    text::join_of(&lines, "\n")
}

/// The cells of an entry.
fn row_of(e: &PortEntry) -> (r: [String; 5])
    ensures
        text::texts(r@) == cells(e@),
{
    let state = match e.state {
        Some(s) => s.to_string(),
        None => "-".to_owned(),
    };
    let r = [
        e.protocol.to_string(),
        e.local_addr.to_string(),
        text::decimal_of(e.local_port as u64),
        state,
        owner_label(e.pid, name_ref(&e.process_name)),
    ];
    assert(text::texts(r@) =~= cells(e@));
    r
}

/// Render entries as an aligned plain-text table.
#[must_use]
pub fn table(entries: &[PortEntry]) -> (r: String)
    ensures
        r@ == table_text(model::entry_views(entries@)),
{
    if entries.len() == 0 {
        return "no listening ports found".to_owned();
    }
    let head = [
        "PROTO".to_owned(),
        "ADDRESS".to_owned(),
        "PORT".to_owned(),
        "STATE".to_owned(),
        "PROCESS".to_owned(),
    ];
    assert(text::texts(head@) =~= header());
    let mut rows: Vec<[String; 5]> = Vec::new();
    rows.push(head);
    let ghost all = table_rows(model::entry_views(entries@));
    let mut i: usize = 0;
    assert(row_views(rows@) =~= all.take(1));
    while i < entries.len()
        invariant
            all == table_rows(model::entry_views(entries@)),
            i <= entries@.len(),
            row_views(rows@) == all.take(i + 1),
        decreases entries.len() - i,
    {
        let ghost before = row_views(rows@);
        let row = row_of(&entries[i]);
        rows.push(row);
        i += 1;
        proof {
            assert(row_views(rows@) =~= before.push(text::texts(row@)));
            assert(all[i as int] == text::texts(row@));
            assert(all.take(i + 1) =~= all.take(i as int).push(all[i as int]));
        }
    }
    assert(all.take(i + 1) =~= all);
    render_table(&rows)
}

} // verus!
