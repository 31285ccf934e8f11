//! Laws of what is shown: one line for each change and each entry, a sign
//! for each kind of change, and columns that align.

use crate::addr;
use crate::addr::IpAddr;
use crate::diff::ChangeView;
use crate::model::{Key, PortEntryView, Protocol, TcpState};
use crate::text;
use crate::text_laws;
use vstd::prelude::*;

verus! {

/// Who holds a socket.
pub type Owner = (Option<u32>, Option<Seq<char>>);

/// Whether the text has no line feed.
pub open spec fn one_line(s: Seq<char>) -> bool {
    forall|k: int| 0 <= k < s.len() ==> #[trigger] s[k] != '\n'
}

/// Whether the owner's name, if known, has no line feed.
pub open spec fn plain_owner(o: Owner) -> bool {
    o.1 matches Some(name) ==> one_line(name)
}

/// Whether the names in the change have no line feed.
pub open spec fn plain_change(c: ChangeView) -> bool {
    match c {
        ChangeView::Added { entry } => plain_owner(entry.owner()),
        ChangeView::Removed { entry } => plain_owner(entry.owner()),
        ChangeView::OwnerChanged { old_owner, new_owner, .. } => plain_owner(old_owner)
            && plain_owner(new_owner),
    }
}

// ---------------------------------------------------------------------
// Texts without line feeds
// ---------------------------------------------------------------------

/// Two texts without line feeds make one.
proof fn lemma_one_line_add(a: Seq<char>, b: Seq<char>)
    requires
        one_line(a),
        one_line(b),
    ensures
        one_line(a + b),
{
    let s = a + b;
    assert forall|k: int| 0 <= k < s.len() implies #[trigger] s[k] != '\n' by {
        if k < a.len() {
            assert(s[k] == a[k]);
        } else {
            assert(s[k] == b[k - a.len()]);
        }
    }
}

/// Digits have no line feed among them.
proof fn lemma_digits_one_line(s: Seq<char>, radix: nat)
    requires
        radix <= 16,
        text_laws::all_digits(s, radix),
    ensures
        one_line(s),
{
    assert forall|k: int| 0 <= k < s.len() implies #[trigger] s[k] != '\n' by {
        assert(text::digit_value(s[k], radix) is Some);
    }
}

/// A number has no line feed.
proof fn lemma_decimal_one_line(n: nat)
    ensures
        one_line(text::decimal(n)),
        text::decimal(n).len() > 0,
        forall|k: int|
            0 <= k < text::decimal(n).len() ==> !text::is_white(#[trigger] text::decimal(n)[k]),
{
    text_laws::decimal_reads_back(n, n);
    lemma_digits_one_line(text::decimal(n), 10);
    let s = text::decimal(n);
    assert forall|k: int| 0 <= k < s.len() implies !text::is_white(#[trigger] s[k]) by {
        assert(text::digit_value(s[k], 10) is Some);
    }
}

/// Parts without line feeds, joined by another character, have none.
proof fn lemma_join_one_line(parts: Seq<Seq<char>>, sep: char)
    requires
        sep != '\n',
        forall|i: int| 0 <= i < parts.len() ==> one_line(#[trigger] parts[i]),
    ensures
        one_line(text::join(parts, seq![sep])),
    decreases parts.len(),
{
    if parts.len() == 1 {
        assert(one_line(parts[0]));
    } else if parts.len() > 1 {
        let front = parts.drop_last();
        assert forall|i: int| 0 <= i < front.len() implies one_line(#[trigger] front[i]) by {
            assert(front[i] == parts[i]);
        }
        lemma_join_one_line(front, sep);
        assert(one_line(parts[parts.len() - 1]));
        lemma_one_line_add(text::join(front, seq![sep]), seq![sep]);
        lemma_one_line_add(text::join(front, seq![sep]) + seq![sep], parts.last());
    }
}

/// The text of an IPv4 address has no line feed.
proof fn lemma_ipv4_one_line(bits: nat)
    ensures
        one_line(addr::ipv4_text(bits)),
{
    let parts = addr::octets(bits).map_values(|o: nat| text::decimal(o));
    assert forall|i: int| 0 <= i < parts.len() implies one_line(#[trigger] parts[i]) by {
        lemma_decimal_one_line(addr::octets(bits)[i]);
    }
    lemma_join_one_line(parts, '.');
}

/// Segments with colons between them have no line feed.
proof fn lemma_colons_one_line(g: Seq<nat>)
    ensures
        one_line(addr::colon_text(g)),
{
    let parts = g.map_values(|s: nat| text::hex(s));
    assert forall|i: int| 0 <= i < parts.len() implies one_line(#[trigger] parts[i]) by {
        text_laws::hex_reads_back(g[i], g[i]);
        lemma_digits_one_line(text::hex(g[i]), 16);
    }
    lemma_join_one_line(parts, ':');
}

/// The text of an address has no line feed.
proof fn lemma_address_one_line(a: IpAddr)
    ensures
        one_line(a.text()),
{
    match a {
        IpAddr::V4(v) => {
            lemma_ipv4_one_line(v.bits as nat);
        },
        IpAddr::V6(v) => {
            let bits = v.bits as nat;
            let g = addr::segments(bits);
            let at = addr::longest_run(g, 7);
            let len = addr::zero_run(g, at);
            if addr::is_mapped(bits) {
                reveal_strlit("::ffff:");
                lemma_ipv4_one_line(bits % 0x1_0000_0000);
                lemma_one_line_add("::ffff:"@, addr::ipv4_text(bits % 0x1_0000_0000));
            } else if len > 1 {
                reveal_strlit("::");
                let h = addr::colon_text(g.take(at));
                let l = addr::colon_text(g.skip(at + len));
                lemma_colons_one_line(g.take(at));
                lemma_colons_one_line(g.skip(at + len));
                lemma_one_line_add(h, "::"@);
                lemma_one_line_add(h + "::"@, l);
            } else {
                lemma_colons_one_line(g);
            }
        },
    }
}

/// The text of a protocol has no line feed and starts with a letter.
proof fn lemma_protocol_one_line(p: Protocol)
    ensures
        one_line(p.text()),
        p.text().len() > 0,
        !text::is_white(p.text()[0]),
{
    reveal_strlit("tcp");
    reveal_strlit("udp");
}

/// The text of a state has no line feed.
proof fn lemma_state_one_line(s: TcpState)
    ensures
        one_line(s.text()),
{
    reveal_strlit("LISTEN");
    reveal_strlit("ESTABLISHED");
    reveal_strlit("SYN_SENT");
    reveal_strlit("SYN_RECV");
    reveal_strlit("FIN_WAIT1");
    reveal_strlit("FIN_WAIT2");
    reveal_strlit("TIME_WAIT");
    reveal_strlit("CLOSE");
    reveal_strlit("CLOSE_WAIT");
    reveal_strlit("LAST_ACK");
    reveal_strlit("CLOSING");
    reveal_strlit("NEW_SYN_RECV");
    match s {
        TcpState::Unknown(code) => {
            reveal_strlit("UNKNOWN(");
            reveal_strlit(")");
            lemma_decimal_one_line(code as nat);
            lemma_one_line_add("UNKNOWN("@, text::decimal(code as nat));
            lemma_one_line_add("UNKNOWN("@ + text::decimal(code as nat), ")"@);
        },
        _ => {},
    }
}

/// How an owner is shown has no line feed, and ends in a bracket or is a
/// dash.
proof fn lemma_owner_one_line(o: Owner)
    ensures
        plain_owner(o) ==> one_line(crate::format::owner_text(o)),
        crate::format::owner_text(o).len() > 0,
        crate::format::owner_text(o).last() == ')' || crate::format::owner_text(o).last() == '-',
{
    reveal_strlit(")");
    match o {
        (Some(pid), Some(name)) => {
            reveal_strlit(" (");
            lemma_decimal_one_line(pid as nat);
            if plain_owner(o) {
                lemma_one_line_add(name, " ("@);
                lemma_one_line_add(name + " ("@, text::decimal(pid as nat));
                lemma_one_line_add(name + " ("@ + text::decimal(pid as nat), ")"@);
            }
        },
        (Some(pid), None) => {
            reveal_strlit("<unknown> (");
            lemma_decimal_one_line(pid as nat);
            lemma_one_line_add("<unknown> ("@, text::decimal(pid as nat));
            lemma_one_line_add("<unknown> ("@ + text::decimal(pid as nat), ")"@);
        },
        (None, _) => {
            reveal_strlit("-");
        },
    }
}

/// How a socket is shown has no line feed.
proof fn lemma_socket_one_line(key: Key)
    ensures
        one_line(crate::format::socket_text(key)),
{
    reveal_strlit("/");
    reveal_strlit(":");
    let p = key.0.text();
    let a = key.1.text();
    lemma_protocol_one_line(key.0);
    lemma_address_one_line(key.1);
    lemma_decimal_one_line(key.2 as nat);
    lemma_one_line_add(p, "/"@);
    lemma_one_line_add(p + "/"@, a);
    lemma_one_line_add(p + "/"@ + a, ":"@);
    lemma_one_line_add(p + "/"@ + a + ":"@, text::decimal(key.2 as nat));
}

// ---------------------------------------------------------------------
// Reports
// ---------------------------------------------------------------------

/// The line for a change starts with the sign of its kind: a plus for a
/// socket that is new, a minus for one that is gone, a tilde for one whose
/// owner changed.
pub proof fn sign_tells_the_kind(c: ChangeView)
    ensures
        crate::format::change_text(c).len() > 2,
        crate::format::change_text(c)[0] == match c {
            ChangeView::Added { .. } => '+',
            ChangeView::Removed { .. } => '-',
            ChangeView::OwnerChanged { .. } => '~',
        },
        crate::format::change_text(c)[1] == ' ',
{
    reveal_strlit("+ ");
    reveal_strlit("- ");
    reveal_strlit("~ ");
    reveal_strlit(" now listening (");
    reveal_strlit(" no longer listening (was ");
    reveal_strlit(" owner changed: ");
}

/// Five texts in a row have no line feed if none of them has one, and end as
/// the last of them does.
proof fn lemma_one_line_five(
    a: Seq<char>,
    b: Seq<char>,
    c: Seq<char>,
    d: Seq<char>,
    e: Seq<char>,
)
    ensures
        one_line(a) && one_line(b) && one_line(c) && one_line(d) && one_line(e) ==> one_line(
            a + b + c + d + e,
        ),
        e.len() > 0 ==> (a + b + c + d + e).len() > 0 && (a + b + c + d + e).last() == e.last(),
{
    if one_line(a) && one_line(b) && one_line(c) && one_line(d) && one_line(e) {
        lemma_one_line_add(a, b);
        lemma_one_line_add(a + b, c);
        lemma_one_line_add(a + b + c, d);
        lemma_one_line_add(a + b + c + d, e);
    }
}

/// The line for a change has no line feed, and ends in a bracket or a dash.
#[verifier::rlimit(40)]
proof fn lemma_change_one_line(c: ChangeView)
    ensures
        plain_change(c) ==> one_line(crate::format::change_text(c)),
        crate::format::change_text(c).len() > 0,
        crate::format::change_text(c).last() == ')' || crate::format::change_text(c).last() == '-',
{
    match c {
        ChangeView::Added { entry } => {
            let s = crate::format::socket_text(entry.key());
            let o = crate::format::owner_text(entry.owner());
            lemma_socket_one_line(entry.key());
            lemma_owner_one_line(entry.owner());
            lemma_one_line_five("+ "@, s, " now listening ("@, o, ")"@);
            reveal_strlit("+ ");
            reveal_strlit(" now listening (");
            reveal_strlit(")");
        },
        ChangeView::Removed { entry } => {
            let s = crate::format::socket_text(entry.key());
            let o = crate::format::owner_text(entry.owner());
            lemma_socket_one_line(entry.key());
            lemma_owner_one_line(entry.owner());
            lemma_one_line_five("- "@, s, " no longer listening (was "@, o, ")"@);
            reveal_strlit("- ");
            reveal_strlit(" no longer listening (was ");
            reveal_strlit(")");
        },
        ChangeView::OwnerChanged { key, old_owner, new_owner } => {
            let s = crate::format::socket_text(key);
            let a = crate::format::owner_text(old_owner);
            let b = crate::format::owner_text(new_owner);
            let front = "~ "@ + s;
            lemma_socket_one_line(key);
            lemma_owner_one_line(old_owner);
            lemma_owner_one_line(new_owner);
            lemma_one_line_five(front, " owner changed: "@, a, " -> "@, b);
            reveal_strlit("~ ");
            lemma_one_line_add("~ "@, s);
            reveal_strlit(" owner changed: ");
            reveal_strlit(" -> ");
        },
    }
}

/// A report has one line for each change, in the order of the changes,
/// where no process name holds a line feed.
pub proof fn one_line_per_change(changes: Seq<ChangeView>)
    requires
        changes.len() > 0,
        forall|i: int| 0 <= i < changes.len() ==> plain_change(#[trigger] changes[i]),
    ensures
        text::lines(crate::format::report_text(changes)) == crate::format::change_texts(changes),
{
    let parts = crate::format::change_texts(changes);
    reveal_strlit("\n");
    assert("\n"@ =~= seq!['\n']);
    assert forall|i: int, k: int| 0 <= i < parts.len() && 0 <= k < parts[i].len() implies
        #[trigger] parts[i][k] != '\n' by {
        assert(plain_change(changes[i]));
        lemma_change_one_line(changes[i]);
        assert(parts[i] == crate::format::change_text(changes[i]));
    }
    assert forall|i: int| 0 <= i < parts.len() implies (#[trigger] parts[i]).len() == 0
        || parts[i].last() != '\r' by {
        lemma_change_one_line(changes[i]);
    }
    lemma_change_one_line(changes.last());
    assert(parts.last() == crate::format::change_text(changes.last()));
    text_laws::joined_lines_part(parts);
}

// ---------------------------------------------------------------------
// Tables
// ---------------------------------------------------------------------

/// Where a column starts: behind the columns in front of it, with two
/// spaces after each.
pub open spec fn offset(w: Seq<nat>, column: int) -> nat
    decreases column,
{
    if column <= 0 {
        0
    } else {
        offset(w, column - 1) + w[column - 1] + 2
    }
}

/// A column is as wide as each of its cells.
proof fn lemma_width(rows: Seq<Seq<Seq<char>>>, column: int, i: int)
    requires
        0 <= i < rows.len(),
    ensures
        rows[i][column].len() <= crate::format::width(rows, column),
    decreases rows.len(),
{
    if i < rows.len() - 1 {
        lemma_width(rows.drop_last(), column, i);
    }
}

/// A row in full, written out.
proof fn lemma_full_line(row: Seq<Seq<char>>, w: Seq<nat>)
    ensures
        crate::format::full_line(row, w) == crate::format::pad(row[0], w[0]) + "  "@ + crate::format::pad(row[1], w[1])
            + "  "@ + crate::format::pad(row[2], w[2]) + "  "@ + crate::format::pad(row[3], w[3]) + "  "@
            + crate::format::pad(row[4], w[4]),
{
    let p = crate::format::pads(row, w);
    let p3 = p.drop_last();
    let p2 = p3.drop_last();
    let p1 = p2.drop_last();
    let p0 = p1.drop_last();
    reveal_with_fuel(text::join, 5);
    assert(p0.len() == 1 && p0[0] == p[0]);
}

/// In a row in full each cell stands where its column starts.
#[verifier::rlimit(40)]
proof fn lemma_cell_at(row: Seq<Seq<char>>, w: Seq<nat>, column: int)
    requires
        0 <= column < 5,
        forall|c: int| 0 <= c < 5 ==> (#[trigger] row[c]).len() <= w[c],
    ensures
        offset(w, column) + row[column].len() <= crate::format::full_line(row, w).len(),
        crate::format::full_line(row, w).subrange(
            offset(w, column) as int,
            (offset(w, column) + row[column].len()) as int,
        ) == row[column],
        crate::format::full_line(row, w).len() == offset(w, 4) + w[4],
        forall|k: int|
            offset(w, 4) + row[4].len() <= k < crate::format::full_line(row, w).len()
                ==> #[trigger] crate::format::full_line(row, w)[k] == ' ',
{
    let s = crate::format::full_line(row, w);
    lemma_full_line(row, w);
    reveal_strlit("  ");
    reveal_with_fuel(offset, 6);
    assert(row[0].len() <= w[0] && row[1].len() <= w[1] && row[2].len() <= w[2] && row[3].len()
        <= w[3] && row[4].len() <= w[4]);
    let at = offset(w, column) as int;
    assert(s.subrange(at, at + row[column].len()) =~= row[column]);
}

/// The cells of a row of the table: the heading's or an entry's. They hold
/// no line feed where the owner's name has none, the first starts with no
/// white space, and the last does not end in any.
proof fn lemma_row_cells(entries: Seq<PortEntryView>, i: int)
    requires
        0 <= i < crate::format::table_rows(entries).len(),
    ensures
        ({
            let row = crate::format::table_rows(entries)[i];
            &&& row.len() == 5
            &&& row[0].len() > 0
            &&& !text::is_white(row[0][0])
            &&& row[4].len() > 0
            &&& !text::is_white(row[4].last())
            &&& (forall|k: int| 0 <= k < entries.len() ==> plain_owner(#[trigger] entries[k].owner()))
                ==> forall|c: int| 0 <= c < 5 ==> one_line(#[trigger] row[c])
        }),
{
    let rows = crate::format::table_rows(entries);
    let row = rows[i];
    if i == 0 {
        reveal_strlit("PROTO");
        reveal_strlit("ADDRESS");
        reveal_strlit("PORT");
        reveal_strlit("STATE");
        reveal_strlit("PROCESS");
        assert(row == crate::format::header());
    } else {
        let e = entries[i - 1];
        assert(row == crate::format::cells(e));
        lemma_protocol_one_line(e.protocol);
        lemma_address_one_line(e.local_addr);
        lemma_decimal_one_line(e.local_port as nat);
        match e.state {
            Some(s) => {
                lemma_state_one_line(s);
            },
            None => {
                reveal_strlit("-");
            },
        }
        lemma_owner_one_line(e.owner());
        if forall|k: int| 0 <= k < entries.len() ==> plain_owner(#[trigger] entries[k].owner()) {
            assert(plain_owner(entries[i - 1].owner()));
        }
    }
}

/// The columns of a table align: in the line of the heading and in those of
/// all entries, each cell stands where its column starts.
pub proof fn columns_align(entries: Seq<PortEntryView>, i: int, column: int)
    requires
        0 <= i < crate::format::table_rows(entries).len(),
        0 <= column < 5,
    ensures
        ({
            let rows = crate::format::table_rows(entries);
            let line = crate::format::table_lines(rows)[i];
            let cell = rows[i][column];
            let at = offset(crate::format::widths(rows), column) as int;
            &&& at + cell.len() <= line.len()
            &&& line.subrange(at, at + cell.len()) == cell
        }),
{
    let rows = crate::format::table_rows(entries);
    let w = crate::format::widths(rows);
    let row = rows[i];
    let full = crate::format::full_line(row, w);
    lemma_row_cells(entries, i);
    assert forall|c: int| 0 <= c < 5 implies (#[trigger] row[c]).len() <= w[c] by {
        lemma_width(rows, c, i);
    }
    lemma_cell_at(row, w, column);
    lemma_cell_at(row, w, 4);
    let n = (offset(w, 4) + row[4].len()) as int;
    assert(full[n - 1] == full.subrange(offset(w, 4) as int, n)[row[4].len() - 1]);
    assert forall|k: int| n <= k < full.len() implies text::is_white(#[trigger] full[k]) by {
        assert(full[k] == ' ');
    }
    text::lemma_trim_end_is(full, n);
    let line = crate::format::table_lines(rows)[i];
    assert(line == full.take(n));
    lemma_offsets(w, column);
    let at = offset(w, column) as int;
    assert(row[column].len() <= w[column]);
    assert(at + row[column].len() <= n);
    assert(line.subrange(at, at + row[column].len()) =~= full.subrange(
        at,
        at + row[column].len(),
    ));
}

/// A column ends in front of the last one, or is the last one.
proof fn lemma_offsets(w: Seq<nat>, column: int)
    requires
        0 <= column < 5,
    ensures
        column < 4 ==> offset(w, column) + w[column] <= offset(w, 4),
{
    reveal_with_fuel(offset, 6);
}

/// A table has a line for the heading and one for each entry, in the order
/// of the entries, where no process name holds a line feed.
pub proof fn one_line_per_entry(entries: Seq<PortEntryView>)
    requires
        entries.len() > 0,
        forall|k: int| 0 <= k < entries.len() ==> plain_owner(#[trigger] entries[k].owner()),
    ensures
        text::lines(crate::format::table_text(entries)) == crate::format::table_lines(crate::format::table_rows(entries)),
        text::lines(crate::format::table_text(entries)).len() == entries.len() + 1,
{
    let rows = crate::format::table_rows(entries);
    let parts = crate::format::table_lines(rows);
    reveal_strlit("\n");
    assert("\n"@ =~= seq!['\n']);
    assert forall|i: int| 0 <= i < parts.len() implies one_line(#[trigger] parts[i])
        && parts[i].len() > 0 && parts[i].last() != '\r' by {
        lemma_table_line(entries, i);
    }
    assert forall|i: int, k: int| 0 <= i < parts.len() && 0 <= k < parts[i].len() implies
        #[trigger] parts[i][k] != '\n' by {
        assert(one_line(parts[i]));
    }
    assert(parts[parts.len() - 1].len() > 0);
    text_laws::joined_lines_part(parts);
}

/// A line of the table has no line feed, is not empty, and does not end in
/// white space.
proof fn lemma_table_line(entries: Seq<PortEntryView>, i: int)
    requires
        0 <= i < crate::format::table_rows(entries).len(),
        forall|k: int| 0 <= k < entries.len() ==> plain_owner(#[trigger] entries[k].owner()),
    ensures
        one_line(crate::format::table_lines(crate::format::table_rows(entries))[i]),
        crate::format::table_lines(crate::format::table_rows(entries))[i].len() > 0,
        crate::format::table_lines(crate::format::table_rows(entries))[i].last() != '\r',
{
    let rows = crate::format::table_rows(entries);
    let w = crate::format::widths(rows);
    let row = rows[i];
    let full = crate::format::full_line(row, w);
    let line = crate::format::table_lines(rows)[i];
    lemma_row_cells(entries, i);
    lemma_full_one_line(row, w);
    lemma_trimmed(full);
    columns_align(entries, i, 0);
    reveal_with_fuel(offset, 2);
}

/// A row in full has no line feed where its cells have none.
proof fn lemma_full_one_line(row: Seq<Seq<char>>, w: Seq<nat>)
    requires
        forall|c: int| 0 <= c < 5 ==> one_line(#[trigger] row[c]),
    ensures
        one_line(crate::format::full_line(row, w)),
{
    lemma_full_line(row, w);
    reveal_strlit("  ");
    let gap = "  "@;
    let a = crate::format::pad(row[0], w[0]);
    let b = crate::format::pad(row[1], w[1]);
    let c = crate::format::pad(row[2], w[2]);
    let d = crate::format::pad(row[3], w[3]);
    let e = crate::format::pad(row[4], w[4]);
    lemma_pad_one_line(row[0], w[0]);
    lemma_pad_one_line(row[1], w[1]);
    lemma_pad_one_line(row[2], w[2]);
    lemma_pad_one_line(row[3], w[3]);
    lemma_pad_one_line(row[4], w[4]);
    lemma_one_line_add(a, gap);
    lemma_one_line_add(a + gap, b);
    lemma_one_line_add(a + gap + b, gap);
    lemma_one_line_add(a + gap + b + gap, c);
    lemma_one_line_add(a + gap + b + gap + c, gap);
    lemma_one_line_add(a + gap + b + gap + c + gap, d);
    lemma_one_line_add(a + gap + b + gap + c + gap + d, gap);
    lemma_one_line_add(a + gap + b + gap + c + gap + d + gap, e);
}

/// A padded cell has no line feed where the cell has none.
proof fn lemma_pad_one_line(cell: Seq<char>, w: nat)
    requires
        one_line(cell),
    ensures
        one_line(crate::format::pad(cell, w)),
{
    let n = if cell.len() < w {
        (w - cell.len()) as nat
    } else {
        0
    };
    lemma_one_line_add(cell, text::repeat(' ', n));
}

/// Trimming the end leaves a part of the text that does not end in white
/// space.
proof fn lemma_trimmed(s: Seq<char>)
    ensures
        text::trim_end(s).len() <= s.len(),
        text::trim_end(s) == s.take(text::trim_end(s).len() as int),
        text::trim_end(s).len() > 0 ==> !text::is_white(text::trim_end(s).last()),
        one_line(s) ==> one_line(text::trim_end(s)),
    decreases s.len(),
{
    let t = text::trim_end(s);
    if s.len() > 0 && text::is_white(s.last()) {
        lemma_trimmed(s.drop_last());
        assert(s.drop_last().take(t.len() as int) =~= s.take(t.len() as int));
    } else {
        assert(s.take(s.len() as int) =~= s);
    }
    if one_line(s) {
        assert forall|k: int| 0 <= k < t.len() implies #[trigger] t[k] != '\n' by {
            assert(t[k] == s[k]);
        }
    }
}

// ---------------------------------------------------------------------
// What is printed of each part
// ---------------------------------------------------------------------

/// An owner is printed as its name and, in round brackets, its pid; one
/// without a name as `<unknown>` with its pid; where there is no pid, as a
/// dash.
pub proof fn owner_shows_name_and_pid(pid: u32, name: Seq<char>, any: Option<Seq<char>>)
    ensures
        crate::format::owner_text((Some(pid), Some(name))) == name + seq![' ', '('] + text::decimal(
            pid as nat,
        ) + seq![')'],
        crate::format::owner_text((Some(pid), None)) == seq![
            '<', 'u', 'n', 'k', 'n', 'o', 'w', 'n', '>', ' ', '(',
        ] + text::decimal(pid as nat) + seq![')'],
        crate::format::owner_text((None, any)) == seq!['-'],
{
    reveal_strlit(" (");
    reveal_strlit("<unknown> (");
    reveal_strlit(")");
    reveal_strlit("-");
    assert(" ("@ =~= seq![' ', '(']);
    assert("<unknown> ("@ =~= seq!['<', 'u', 'n', 'k', 'n', 'o', 'w', 'n', '>', ' ', '(']);
    assert(")"@ =~= seq![')']);
}

/// A socket is printed as protocol, slash, address, colon and port.
pub proof fn socket_shows_its_fields(e: PortEntryView)
    ensures
        crate::format::socket_text(e.key()) == (if e.protocol is Tcp {
            seq!['t', 'c', 'p']
        } else {
            seq!['u', 'd', 'p']
        }) + seq!['/'] + e.local_addr.text() + seq![':'] + text::decimal(e.local_port as nat),
{
    reveal_strlit("tcp");
    reveal_strlit("udp");
    reveal_strlit("/");
    reveal_strlit(":");
    assert("tcp"@ =~= seq!['t', 'c', 'p']);
    assert("udp"@ =~= seq!['u', 'd', 'p']);
    assert("/"@ =~= seq!['/']);
    assert(":"@ =~= seq![':']);
}

/// The line for a change shows the socket behind the sign, and then who has
/// come to listen there, who did listen there, or who did and who does now.
pub proof fn change_shows_socket_and_owner(
    entry: PortEntryView,
    key: Key,
    old_owner: (Option<u32>, Option<Seq<char>>),
    new_owner: (Option<u32>, Option<Seq<char>>),
)
    ensures
        ({
            let socket = crate::format::socket_text(
                (entry.protocol, entry.local_addr, entry.local_port),
            );
            let owner = crate::format::owner_text((entry.pid, entry.process_name));
            &&& crate::format::change_text(ChangeView::Added { entry }) == seq!['+', ' '] + socket
                + " now listening ("@ + owner + seq![')']
            &&& crate::format::change_text(ChangeView::Removed { entry }) == seq!['-', ' '] + socket
                + " no longer listening (was "@ + owner + seq![')']
        }),
        crate::format::change_text(ChangeView::OwnerChanged { key, old_owner, new_owner }) == seq![
            '~',
            ' ',
        ] + crate::format::socket_text(key) + " owner changed: "@ + crate::format::owner_text(
            old_owner,
        ) + seq![' ', '-', '>', ' '] + crate::format::owner_text(new_owner),
{
    reveal_strlit("+ ");
    reveal_strlit("- ");
    reveal_strlit("~ ");
    reveal_strlit(")");
    reveal_strlit(" -> ");
    assert("+ "@ =~= seq!['+', ' ']);
    assert("- "@ =~= seq!['-', ' ']);
    assert("~ "@ =~= seq!['~', ' ']);
    assert(")"@ =~= seq![')']);
    assert(" -> "@ =~= seq![' ', '-', '>', ' ']);
}

/// A report without changes says so; one more change is one more line at its
/// end.
pub proof fn report_grows_by_a_line(changes: Seq<ChangeView>, c: ChangeView)
    ensures
        crate::format::report_text(seq![]) == "no changes"@,
        crate::format::report_text(seq![c]) == crate::format::change_text(c),
        changes.len() > 0 ==> crate::format::report_text(changes.push(c))
            == crate::format::report_text(changes) + seq!['\n'] + crate::format::change_text(c),
{
    reveal_strlit("\n");
    assert("\n"@ =~= seq!['\n']);
    let one = crate::format::change_texts(seq![c]);
    assert(one =~= seq![crate::format::change_text(c)]);
    if changes.len() > 0 {
        let all = crate::format::change_texts(changes.push(c));
        assert(all.drop_last() =~= crate::format::change_texts(changes));
        assert(all.last() == crate::format::change_text(c));
    }
}

/// The cells of an entry: protocol, address, port, state and owner. A socket
/// without a state has a dash there.
pub proof fn cells_show_the_entry(e: PortEntryView)
    ensures
        ({
            let c = crate::format::cells(e);
            &&& c.len() == 5
            &&& c[0] == (if e.protocol is Tcp {
                seq!['t', 'c', 'p']
            } else {
                seq!['u', 'd', 'p']
            })
            &&& c[1] == e.local_addr.text()
            &&& c[2] == text::decimal(e.local_port as nat)
            &&& e.state is Some ==> c[3] == e.state->0.text()
            &&& e.state is None ==> c[3] == seq!['-']
            &&& c[4] == crate::format::owner_text((e.pid, e.process_name))
        }),
{
    reveal_strlit("tcp");
    reveal_strlit("udp");
    reveal_strlit("-");
    assert("tcp"@ =~= seq!['t', 'c', 'p']);
    assert("udp"@ =~= seq!['u', 'd', 'p']);
    assert("-"@ =~= seq!['-']);
}

/// The rows of a table: the heading, then one row for each entry, in order.
pub proof fn rows_follow_the_heading(entries: Seq<PortEntryView>)
    ensures
        ({
            let rows = crate::format::table_rows(entries);
            &&& rows.len() == entries.len() + 1
            &&& rows[0] == seq!["PROTO"@, "ADDRESS"@, "PORT"@, "STATE"@, "PROCESS"@]
            &&& forall|i: int|
                0 < i < rows.len() ==> #[trigger] rows[i] == crate::format::cells(entries[i - 1])
        }),
{
}

/// A column is as wide as its widest cell.
pub proof fn column_is_as_wide_as_its_widest(rows: Seq<Seq<Seq<char>>>, column: int)
    ensures
        forall|i: int|
            0 <= i < rows.len() ==> (#[trigger] rows[i])[column].len() <= crate::format::width(
                rows,
                column,
            ),
        rows.len() > 0 ==> exists|i: int|
            0 <= i < rows.len() && (#[trigger] rows[i])[column].len() == crate::format::width(
                rows,
                column,
            ),
        0 <= column < 5 ==> crate::format::widths(rows)[column] == crate::format::width(
            rows,
            column,
        ),
        crate::format::widths(rows).len() == 5,
    decreases rows.len(),
{
    if rows.len() > 0 {
        let front = rows.drop_last();
        let n = rows.len() - 1;
        column_is_as_wide_as_its_widest(front, column);
        let w = crate::format::width(rows, column);
        assert forall|i: int| 0 <= i < rows.len() implies (#[trigger] rows[i])[column].len() <= w by {
            if i < n {
                assert(front[i] == rows[i]);
            }
        }
        if rows.last()[column].len() >= crate::format::width(front, column) {
            assert(rows[n][column].len() == w);
        } else {
            let i = choose|i: int|
                0 <= i < front.len() && (#[trigger] front[i])[column].len()
                    == crate::format::width(front, column);
            assert(rows[i] == front[i]);
        }
    }
}

/// Padding puts spaces behind a cell, up to the width of its column.
pub proof fn padding_is_spaces(cell: Seq<char>, w: nat)
    ensures
        ({
            let p = crate::format::pad(cell, w);
            &&& p.len() == if cell.len() < w {
                w
            } else {
                cell.len()
            }
            &&& p.take(cell.len() as int) == cell
            &&& forall|i: int| cell.len() <= i < p.len() ==> #[trigger] p[i] == ' '
        }),
{
    assert(crate::format::pad(cell, w).take(cell.len() as int) =~= cell);
}

/// A line of a table is its five cells, padded to their columns, with two
/// spaces between each two; white space at the end is cut off.
pub proof fn line_is_its_cells(rows: Seq<Seq<Seq<char>>>, i: int)
    requires
        0 <= i < rows.len(),
    ensures
        ({
            let w = crate::format::widths(rows);
            let r = rows[i];
            let gap = seq![' ', ' '];
            &&& crate::format::table_lines(rows).len() == rows.len()
            &&& crate::format::table_lines(rows)[i] == text::trim_end(
                crate::format::pad(r[0], w[0]) + gap + crate::format::pad(r[1], w[1]) + gap
                    + crate::format::pad(r[2], w[2]) + gap + crate::format::pad(r[3], w[3]) + gap
                    + crate::format::pad(r[4], w[4]),
            )
        }),
{
    reveal_strlit("  ");
    assert("  "@ =~= seq![' ', ' ']);
    lemma_full_line(rows[i], crate::format::widths(rows));
}

/// A table without entries says so; any other is its lines, one below the
/// other.
pub proof fn table_is_its_lines(entries: Seq<PortEntryView>)
    ensures
        crate::format::table_text(seq![]) == "no listening ports found"@,
        entries.len() > 0 ==> crate::format::table_text(entries) == text::join(
            crate::format::table_lines(crate::format::table_rows(entries)),
            seq!['\n'],
        ),
{
    reveal_strlit("\n");
    assert("\n"@ =~= seq!['\n']);
}

/// Rows of cells read as the texts in them, in order.
pub proof fn rows_keep_their_cells(rows: Seq<[String; 5]>, name: Option<&str>)
    ensures
        crate::format::row_views(rows).len() == rows.len(),
        forall|i: int|
            0 <= i < rows.len() ==> (#[trigger] crate::format::row_views(rows)[i]).len() == 5,
        forall|i: int, c: int|
            0 <= i < rows.len() && 0 <= c < 5 ==> #[trigger] crate::format::row_views(rows)[i][c]
                == rows[i]@[c]@,
        name is Some ==> crate::format::label_view(name) == Some(name->0@),
        name is None ==> crate::format::label_view(name) is None,
{
}

} // verus!
