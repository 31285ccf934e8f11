//! Laws of what the public functions answer, in terms of what they are given
//! and of what other calls answer.

use crate::addr;
use crate::addr::{IpAddr, Ipv4Addr, Ipv6Addr};
use crate::addr_laws;
use crate::cli;
use crate::cli::{Args, Command, Outcome};
use crate::diff;
use crate::diff::{Change, ChangeView, DiffReport};
use crate::diff_laws;
use crate::linux;
use crate::linux::{Found, RawSocket, Tables};
use crate::linux_laws;
use crate::macos;
use crate::macos_laws;
use crate::model;
use crate::model::{Key, PortEntry, PortEntryView, Protocol, Snapshot, TcpState};
use crate::model_laws;
use crate::storage;
use crate::storage::HistoryRecord;
use crate::text;
use crate::text_laws;
use crate::timefmt;
use crate::windows;
use crate::windows::{FetchStep, TableBuf, TableFetch};
use crate::windows_laws;
use std::collections::HashMap;
use vstd::prelude::*;

verus! {

// ---------------------------------------------------------------------
// Entries and snapshots
// ---------------------------------------------------------------------

/// The key of an entry is made of its own protocol, address and port, so that
/// two entries have the same key exactly if they have the same of all three.
pub proof fn key_is_of_the_entry(a: PortEntry, b: PortEntry, x: Key, y: Key)
    requires
        call_ensures(PortEntry::key, (&a,), x),
        call_ensures(PortEntry::key, (&b,), y),
    ensures
        x == (a.protocol, a.local_addr, a.local_port),
        x == y <==> a.protocol == b.protocol && a.local_addr == b.local_addr && a.local_port
            == b.local_port,
{
}

/// The key of a change is made of the protocol, address and port of its own
/// entry, or of its own where it is an owner change.
pub proof fn key_is_of_the_change(c: Change, r: Key)
    requires
        call_ensures(Change::key, (&c,), r),
    ensures
        c matches Change::Added { entry } ==> r == (
            entry.protocol,
            entry.local_addr,
            entry.local_port,
        ),
        c matches Change::Removed { entry } ==> r == (
            entry.protocol,
            entry.local_addr,
            entry.local_port,
        ),
        c matches Change::OwnerChanged { protocol, local_addr, local_port, .. } ==> r == (
            protocol,
            local_addr,
            local_port,
        ),
{
}

/// A UDP entry listens; a TCP entry does exactly in the listening state.
pub proof fn entry_listens(e: PortEntry, r: bool)
    requires
        call_ensures(PortEntry::is_listening, (&e,), r),
    ensures
        e.protocol is Udp ==> r,
        e.protocol is Tcp ==> (r <==> e.state == Some(TcpState::Listen)),
{
}

/// One state is the listening state.
pub proof fn state_listens(s: TcpState, r: bool)
    requires
        call_ensures(TcpState::is_listening, (s,), r),
    ensures
        r <==> s == TcpState::Listen,
{
}

/// Linux and Windows have different codes for the listening state, and codes
/// that have no meaning are kept.
pub proof fn codes_are_of_the_platform(code: u32, l: TcpState, w: TcpState)
    requires
        call_ensures(TcpState::from_linux_code, (code,), l),
        call_ensures(TcpState::from_windows_code, (code,), w),
    ensures
        l is Listen <==> code == 10,
        w is Listen <==> code == 2,
        l is Established <==> code == 1,
        w is Established <==> code == 5,
        code == 0 || code > 12 ==> l == TcpState::Unknown(code) && w == TcpState::Unknown(code),
        l == model::linux_state(code),
        w == model::windows_state(code),
{
}

/// A snapshot has the time and the host that it was made with, and the
/// entries in order: TCP before UDP, then by address, then by port, and
/// otherwise as they were given.
pub proof fn snapshot_has_what_it_was_made_of(
    captured_at_unix: u64,
    hostname: String,
    entries: Vec<PortEntry>,
    r: Snapshot,
)
    requires
        call_ensures(Snapshot::new, (captured_at_unix, hostname, entries), r),
    ensures
        r.captured_at_unix == captured_at_unix,
        r.hostname@ == hostname@,
        r.entries@.len() == entries@.len(),
        forall|i: int, j: int|
            0 <= i < j < r.entries@.len() ==> model_laws::in_order(
                (#[trigger] r.entries@[i])@,
                (#[trigger] r.entries@[j])@,
            ),
        forall|p: Protocol, a: IpAddr, port: u16| #[trigger]
            model_laws::entries_with(r@.entries, p, a, port) == model_laws::entries_with(
                model::entry_views(entries@),
                p,
                a,
                port,
            ),
{
    model_laws::sorting_is_by_the_fields(r@.entries, model::entry_views(entries@));
    model_laws::sorted_entries_are_in_order(r@.entries);
    model_laws::sorting_keeps_entries(r@.entries, model::entry_views(entries@));
    assert forall|i: int, j: int| 0 <= i < j < r.entries@.len() implies model_laws::in_order(
        (#[trigger] r.entries@[i])@,
        (#[trigger] r.entries@[j])@,
    ) by {
        assert(model_laws::in_order(r@.entries[i], r@.entries[j]));
    }
}

/// A scan that succeeded becomes a snapshot with the time and the host that
/// were given; one that failed becomes its error.
pub proof fn scan_becomes_a_snapshot(
    scanned: std::io::Result<Vec<PortEntry>>,
    at: u64,
    hostname: String,
    r: std::io::Result<Snapshot>,
)
    requires
        call_ensures(crate::captured, (scanned, at, hostname), r),
    ensures
        r is Ok <==> scanned is Ok,
        r is Ok ==> r->Ok_0.captured_at_unix == at && r->Ok_0.hostname@ == hostname@,
        r is Ok ==> r->Ok_0.entries@.len() == scanned->Ok_0@.len(),
        r is Err ==> r->Err_0 == scanned->Err_0,
{
    if let Ok(s) = r {
        model_laws::sorting_keeps_entries(s@.entries, model::entry_views(scanned->Ok_0@));
    }
}

/// The host is named by the first of the two variables that is set.
pub proof fn host_is_named(host_var: Option<String>, computer_var: Option<String>, r: String)
    requires
        call_ensures(crate::hostname, (host_var, computer_var), r),
    ensures
        host_var is Some ==> r@ == host_var->0@,
        host_var is None && computer_var is Some ==> r@ == computer_var->0@,
        host_var is None && computer_var is None ==> r@ == seq!['u', 'n', 'k', 'n', 'o', 'w', 'n'],
{
    reveal_strlit("unknown");
}

/// The name of a process is looked up under its pid, and nowhere else.
pub proof fn name_is_looked_up(names: HashMap<u32, String>, pid: Option<u32>, r: Option<String>)
    requires
        call_ensures(model::find_name, (&names, pid), r),
    ensures
        r is Some <==> pid is Some && names@.contains_key(pid->0),
        r is Some ==> r->0@ == names@[pid->0]@,
{
}

// ---------------------------------------------------------------------
// Comparisons
// ---------------------------------------------------------------------

/// A comparison reports, of every protocol, address and port where no single
/// owner handed over to another, every entry that is gone and then every
/// entry that is new.
pub proof fn comparison_reports_entries(
    baseline: Snapshot,
    current: Snapshot,
    r: DiffReport,
    p: Protocol,
    a: IpAddr,
    port: u16,
)
    requires
        call_ensures(diff::diff, (&baseline, &current), r),
        forall|x: diff_laws::Owner, y: diff_laws::Owner|
            !(#[trigger] diff_laws::held_only_by(baseline@.entries, p, a, port, x.0, x.1)
                && #[trigger] diff_laws::held_only_by(current@.entries, p, a, port, y.0, y.1) && x
                != y),
    ensures
        diff_laws::reported_of(r@, p, a, port) == diff_laws::not_among(
            baseline@.entries,
            current@.entries,
            p,
            a,
            port,
        ).map_values(|e: PortEntryView| ChangeView::Removed { entry: e }) + diff_laws::not_among(
            current@.entries,
            baseline@.entries,
            p,
            a,
            port,
        ).map_values(|e: PortEntryView| ChangeView::Added { entry: e }),
{
    diff_laws::other_changes_are_reported_entry_by_entry(baseline@, current@, p, a, port);
}

/// A comparison reports a single owner who handed over to another as one
/// owner change.
pub proof fn comparison_reports_handovers(
    baseline: Snapshot,
    current: Snapshot,
    r: DiffReport,
    p: Protocol,
    a: IpAddr,
    port: u16,
    old_owner: diff_laws::Owner,
    new_owner: diff_laws::Owner,
)
    requires
        call_ensures(diff::diff, (&baseline, &current), r),
        diff_laws::held_only_by(baseline@.entries, p, a, port, old_owner.0, old_owner.1),
        diff_laws::held_only_by(current@.entries, p, a, port, new_owner.0, new_owner.1),
        old_owner != new_owner,
    ensures
        diff_laws::reported_of(r@, p, a, port) == seq![
            ChangeView::OwnerChanged { key: (p, a, port), old_owner, new_owner },
        ],
{
    diff_laws::handover_is_reported_as_such(
        baseline@,
        current@,
        p,
        a,
        port,
        old_owner,
        new_owner,
    );
}

/// The changes of a kind are as many as their views of that kind.
proof fn lemma_kinds(v: Seq<Change>)
    ensures
        diff::added_in(diff::change_views(v)) == v.filter(|c: Change| c is Added).len(),
        diff::removed_in(diff::change_views(v)) == v.filter(|c: Change| c is Removed).len(),
        diff::owner_changed_in(diff::change_views(v)) == v.filter(
            |c: Change| c is OwnerChanged,
        ).len(),
    decreases v.len(),
{
    reveal(Seq::filter);
    if v.len() > 0 {
        lemma_kinds(v.drop_last());
        assert(diff::change_views(v).drop_last() =~= diff::change_views(v.drop_last()));
        assert(diff::change_views(v).last() == v.last()@);
    }
}

/// The counts of a report are how many of its changes are of each kind, and
/// it is empty exactly if there is none.
pub proof fn report_counts_each_kind(
    report: DiffReport,
    added: usize,
    removed: usize,
    owner_changed: usize,
    empty: bool,
)
    requires
        call_ensures(DiffReport::added_count, (&report,), added),
        call_ensures(DiffReport::removed_count, (&report,), removed),
        call_ensures(DiffReport::owner_changed_count, (&report,), owner_changed),
        call_ensures(DiffReport::is_empty, (&report,), empty),
    ensures
        added == report.changes@.filter(|c: Change| c is Added).len(),
        removed == report.changes@.filter(|c: Change| c is Removed).len(),
        owner_changed == report.changes@.filter(|c: Change| c is OwnerChanged).len(),
        empty <==> report.changes@.len() == 0,
        empty <==> added == 0 && removed == 0 && owner_changed == 0,
{
    lemma_kinds(report.changes@);
    diff_laws::counts_add_up(report@);
}

/// The record of a comparison has the times of the two snapshots, the changes
/// of the report, and as many of each kind as there are in it.
pub proof fn record_is_of_the_report(
    baseline: Snapshot,
    current: Snapshot,
    report: DiffReport,
    r: HistoryRecord,
)
    requires
        call_ensures(HistoryRecord::from_report, (&baseline, &current, &report), r),
    ensures
        r.baseline_captured_at_unix == baseline.captured_at_unix,
        r.current_captured_at_unix == current.captured_at_unix,
        r.added == report.changes@.filter(|c: Change| c is Added).len(),
        r.removed == report.changes@.filter(|c: Change| c is Removed).len(),
        r.owner_changed == report.changes@.filter(|c: Change| c is OwnerChanged).len(),
        r.changes@.len() == report.changes@.len(),
        forall|i: int|
            0 <= i < report.changes@.len() ==> (#[trigger] r.changes@[i])@ == report.changes@[i]@,
{
    lemma_kinds(report.changes@);
    assert(r@.changes == report@);
    assert forall|i: int| 0 <= i < report.changes@.len() implies (#[trigger] r.changes@[i])@
        == report.changes@[i]@ by {
        assert(r@.changes[i] == report@[i]);
    }
}

/// A record goes into the log exactly if it has a change.
pub proof fn record_with_a_change_is_logged(record: HistoryRecord, r: bool)
    requires
        call_ensures(HistoryRecord::is_logged, (&record,), r),
    ensures
        r <==> record.changes@.len() > 0,
{
}

/// What is put behind the log is the record and a line feed.
pub proof fn line_is_the_record(record: &str, r: String)
    requires
        call_ensures(storage::history_line, (record,), r),
    ensures
        r@ == record@.push('\n'),
{
}

/// The records of a log are its lines that are not blank.
pub proof fn records_are_the_lines(content: &str, r: Vec<String>)
    requires
        call_ensures(storage::history_lines, (content,), r),
    ensures
        text::texts(r@) == text::lines(content@).filter(
            |l: Seq<char>| exists|i: int| 0 <= i < l.len() && !text::is_white(#[trigger] l[i]),
        ),
{
    crate::storage_laws::records_are_picked(content@);
}

/// A history without records says so, and how to start one; any other has a
/// line for each record.
pub proof fn history_has_a_line_for_each_record(records: &[HistoryRecord], r: String)
    requires
        call_ensures(storage::describe_history, (records,), r),
    ensures
        records@.len() == 0 ==> r@
            == "no history yet - run `portwatch update` to start logging changes"@,
        records@.len() == 1 ==> r@ == storage::record_text(records@[0]@),
        records@.len() > 1 ==> r@ == text::join(
            records@.drop_last().map_values(|h: HistoryRecord| storage::record_text(h@)),
            seq!['\n'],
        ) + seq!['\n'] + storage::record_text(records@.last()@),
{
    reveal_strlit("\n");
    assert("\n"@ =~= seq!['\n']);
    if records@.len() > 1 {
        assert(storage::record_texts(records@).drop_last() =~= records@.drop_last().map_values(
            |h: HistoryRecord| storage::record_text(h@),
        ));
    }
}

/// The messages about snapshots name the path, and the reason where there is
/// one.
pub proof fn messages_name_the_path(
    path: &str,
    reason: &str,
    entries: &[PortEntry],
    missing: String,
    invalid: String,
    saved: String,
)
    requires
        call_ensures(storage::missing_snapshot, (path,), missing),
        call_ensures(storage::invalid_snapshot, (path, reason), invalid),
        call_ensures(cli::saved_message, (entries, path), saved),
    ensures
        missing@ == "no snapshot found at "@ + path@ + " - run `portwatch snapshot` first"@,
        invalid@ == path@ + " does not contain a valid snapshot: "@ + reason@,
        saved@ == "saved "@ + text::decimal(
            model::entry_views(entries@).filter(
                |e: PortEntryView| e.protocol is Udp || e.state == Some(TcpState::Listen),
            ).len(),
        ) + " listening port(s) to "@ + path@,
{
    diff_laws::listeners_are_picked(model::entry_views(entries@));
}

/// The listening entries are picked from the entries, in order.
pub proof fn listening_entries_are_picked(entries: &[PortEntry], r: Vec<PortEntry>)
    requires
        call_ensures(cli::listening_entries, (entries,), r),
    ensures
        model::entry_views(r@) == model::entry_views(entries@).filter(
            |e: PortEntryView| e.protocol is Udp || e.state == Some(TcpState::Listen),
        ),
{
    diff_laws::listeners_are_picked(model::entry_views(entries@));
}

// ---------------------------------------------------------------------
// The command line
// ---------------------------------------------------------------------

/// The exit status is zero for success and for a comparison without changes,
/// one for a failure, and two for a comparison with changes.
pub proof fn status_is_of_the_outcome(
    report: DiffReport,
    outcome: Outcome,
    status: u8,
    empty: bool,
    for_report: u8,
)
    requires
        call_ensures(cli::compared, (&report,), outcome),
        call_ensures(cli::exit_status, (outcome,), status),
        call_ensures(DiffReport::is_empty, (&report,), empty),
        call_ensures(cli::exit_for_report, (empty,), for_report),
    ensures
        status == if report.changes@.len() == 0 {
            0u8
        } else {
            2u8
        },
        for_report == status,
{
}

/// A failure ends in one.
pub proof fn failure_ends_in_one(failed: u8, done: u8)
    requires
        call_ensures(cli::exit_status, (Outcome::Failed,), failed),
        call_ensures(cli::exit_status, (Outcome::Done,), done),
    ensures
        failed == 1,
        done == 0,
{
}

/// Each command has its words.
pub proof fn command_is_named(arg: Option<&str>, r: Command)
    requires
        call_ensures(cli::parse_command, (arg,), r),
    ensures
        r is Help <==> arg is None || arg->0@ == "help"@ || arg->0@ == "-h"@ || arg->0@
            == "--help"@,
        r is Version <==> arg is Some && (arg->0@ == "-V"@ || arg->0@ == "--version"@),
        r is Scan <==> arg is Some && arg->0@ == "scan"@,
        r is Snapshot <==> arg is Some && arg->0@ == "snapshot"@,
        r is Diff <==> arg is Some && arg->0@ == "diff"@,
        r is Update <==> arg is Some && arg->0@ == "update"@,
        r is History <==> arg is Some && arg->0@ == "history"@,
{
    if let Some(a) = arg {
        crate::cli_laws::commands_have_their_words(a@);
    }
}

/// Flags that are understood are those asked for, over the defaults; without
/// any, the defaults are kept.
pub proof fn flags_are_read(rest: &[String], r: Result<Args, String>)
    requires
        call_ensures(cli::parse_flags, (rest,), r),
    ensures
        rest@.len() == 0 ==> r is Ok && r->Ok_0.state@ == "portwatch-state.json"@ && r->Ok_0.log@
            == "portwatch-history.jsonl"@ && !r->Ok_0.json,
        r is Ok ==> cli::flags(text::texts(rest@), cli::default_args())
            == Ok::<cli::ArgsView, Seq<char>>(r->Ok_0@),
        r is Err ==> cli::flags(text::texts(rest@), cli::default_args())
            == Err::<cli::ArgsView, Seq<char>>(r->Err_0@),
{
    if rest@.len() == 0 {
        assert(text::texts(rest@) =~= seq![]);
    }
}

// ---------------------------------------------------------------------
// Linux
// ---------------------------------------------------------------------

/// The fields of a socket table are read as what the kernel wrote.
pub proof fn kernel_fields_are_read(
    a: Ipv4Addr,
    b: Ipv6Addr,
    s: &str,
    t: &str,
    x: Option<Ipv4Addr>,
    y: Option<Ipv6Addr>,
)
    requires
        s@ == linux_laws::kernel_ipv4(a.bits as nat),
        t@ == linux_laws::kernel_ipv6(b.bits as nat),
        call_ensures(linux::parse_ipv4_hex, (s,), x),
        call_ensures(linux::parse_ipv6_hex, (t,), y),
    ensures
        x == Some(a),
        y == Some(b),
{
    linux_laws::kernel_ipv4_reads_back(a.bits as nat);
    linux_laws::kernel_ipv6_reads_back(b.bits as nat);
}

/// An address and a port are read from a field of a table of the address's
/// family.
pub proof fn kernel_endpoint_is_read(
    a: IpAddr,
    port: u16,
    port_text: Seq<char>,
    field: &str,
    r: Option<(IpAddr, u16)>,
)
    requires
        text::unsigned(port_text, 16, 0xffff) == Some(port as nat),
        field@ == linux_laws::kernel_addr(a) + seq![':'] + port_text,
        call_ensures(linux::parse_addr_port, (field, a is V6), r),
    ensures
        r == Some((a, port)),
{
    linux_laws::kernel_field_reads_back(a, port_text, port);
}

/// The rows of a table are those of all of its lines, however many there are.
pub proof fn all_lines_of_a_table_are_read(
    lines: Seq<Seq<char>>,
    content: &str,
    v6: bool,
    r: Vec<RawSocket>,
)
    requires
        text_laws::none_has(lines, '\n'),
        content@ == text::join(lines, seq!['\n']),
        call_ensures(linux::parse_proc_net, (content, v6), r),
    ensures
        r@ == lines.filter(|l: Seq<char>| linux::row_value(l, v6) is Some).map_values(
            |l: Seq<char>| linux::row_value(l, v6)->0,
        ),
{
    linux_laws::every_line_is_read(lines, v6);
}

/// The inode of a socket is read from the link to it, and the pid of a
/// process from its name.
pub proof fn inode_and_pid_are_read(
    inode: u64,
    pid: u32,
    link: &str,
    name: &str,
    x: Option<u64>,
    y: Option<u32>,
)
    requires
        link@ == seq!['s', 'o', 'c', 'k', 'e', 't', ':', '['] + text::decimal(inode as nat)
            + seq![']'],
        name@ == text::decimal(pid as nat),
        call_ensures(linux::parse_socket_inode, (link,), x),
        call_ensures(linux::parse_pid, (name,), y),
    ensures
        x == Some(inode),
        y == Some(pid),
{
    let t = link@;
    reveal_strlit("socket:[");
    text_laws::decimal_reads_back(inode as nat, u64::MAX as nat);
    assert(t.take(8) =~= "socket:["@);
    assert(t.subrange(8, t.len() - 1) =~= text::decimal(inode as nat));
    linux_laws::process_is_named_after_its_pid(pid, name@);
}

/// The owner of a socket is the first process that holds it.
pub proof fn first_holder_is_the_owner(
    dirs: &[linux::ProcDir],
    inode: u64,
    i: int,
    r: HashMap<u64, u32>,
)
    requires
        call_ensures(linux::socket_owners, (dirs,), r),
    ensures
        r@.contains_key(inode) <==> exists|k: int|
            0 <= k < dirs@.len() && linux_laws::holds(#[trigger] dirs@[k], inode),
        0 <= i < dirs@.len() && linux_laws::holds(dirs@[i], inode) && (forall|j: int|
            0 <= j < i ==> !linux_laws::holds(#[trigger] dirs@[j], inode)) ==> linux::pid_value(
            dirs@[i].name@,
        ) == Some(r@[inode]),
{
    linux_laws::owner_is_first_holder(dirs@, inode);
}

/// The name of a process is what its `comm` says, without the white space
/// around it.
pub proof fn name_is_trimmed(l: Seq<char>, name: Seq<char>, t: Seq<char>, comm: &str, r: String)
    requires
        text_laws::all_white(l),
        text_laws::all_white(t),
        name.len() > 0 ==> !text::is_white(name[0]) && !text::is_white(name.last()),
        comm@ == l + name + t,
        call_ensures(linux::process_name, (comm,), r),
    ensures
        r@ == name,
{
    text_laws::trimming_takes_white_space_off(l, name, t);
}

/// Each table has its file.
pub proof fn table_has_its_file(table: linux::Table, r: &'static str)
    requires
        call_ensures(linux::Table::file_name, (table,), r),
    ensures
        table is Tcp <==> r@ == seq!['t', 'c', 'p'],
        table is Tcp6 <==> r@ == seq!['t', 'c', 'p', '6'],
        table is Udp <==> r@ == seq!['u', 'd', 'p'],
        table is Udp6 <==> r@ == seq!['u', 'd', 'p', '6'],
{
    reveal_strlit("tcp");
    reveal_strlit("tcp6");
    reveal_strlit("udp");
    reveal_strlit("udp6");
    assert("tcp"@ =~= seq!['t', 'c', 'p']);
    assert("tcp6"@ =~= seq!['t', 'c', 'p', '6']);
    assert("udp"@ =~= seq!['u', 'd', 'p']);
    assert("udp6"@ =~= seq!['u', 'd', 'p', '6']);
    assert(seq!['t', 'c', 'p'][0] != seq!['u', 'd', 'p'][0]);
    assert(seq!['t', 'c', 'p', '6'][0] != seq!['u', 'd', 'p', '6'][0]);
    assert(seq!['t', 'c', 'p'].len() != seq!['t', 'c', 'p', '6'].len());
    assert(seq!['u', 'd', 'p'].len() != seq!['u', 'd', 'p', '6'].len());
}

/// Reading the tables fails exactly where none of them could be read, with
/// the error of the last.
pub proof fn one_table_is_enough<E>(tables: Tables<E>, r: Result<Vec<Found>, E>)
    requires
        call_ensures(linux::read_tables::<E>, (tables,), r),
    ensures
        r is Ok <==> tables.tcp is Ok || tables.tcp6 is Ok || tables.udp is Ok || tables.udp6 is Ok,
        r is Err ==> r->Err_0 == tables.udp6->Err_0,
        r is Ok ==> r->Ok_0@ == linux::found(tables),
{
}

/// The processes whose names are looked up own a socket, and are looked up
/// once each.
pub proof fn names_are_looked_up_once(
    sockets: &[Found],
    owners: HashMap<u64, u32>,
    r: Vec<u32>,
)
    requires
        call_ensures(linux::owning_pids, (sockets, &owners), r),
    ensures
        r@.no_duplicates(),
        forall|pid: u32| #[trigger]
            r@.contains(pid) <==> exists|i: int|
                0 <= i < sockets@.len() && owners@.contains_key((#[trigger] sockets@[i]).socket.inode)
                    && owners@[sockets@[i].socket.inode] == pid,
{
    linux_laws::names_are_looked_up_once(sockets@, owners@);
    assert forall|pid: u32| #[trigger] r@.contains(pid) <==> exists|i: int|
        0 <= i < sockets@.len() && owners@.contains_key((#[trigger] sockets@[i]).socket.inode)
            && owners@[sockets@[i].socket.inode] == pid by {
        if r@.contains(pid) {
            let i = choose|i: int|
                0 <= i < sockets@.len() && linux::owner_of((#[trigger] sockets@[i]).socket, owners@)
                    == Some(pid);
            assert(owners@.contains_key(sockets@[i].socket.inode));
        }
        if exists|i: int|
            0 <= i < sockets@.len() && owners@.contains_key((#[trigger] sockets@[i]).socket.inode)
                && owners@[sockets@[i].socket.inode] == pid {
            let i = choose|i: int|
                0 <= i < sockets@.len() && owners@.contains_key(
                    (#[trigger] sockets@[i]).socket.inode,
                ) && owners@[sockets@[i].socket.inode] == pid;
            assert(linux::owner_of(sockets@[i].socket, owners@) == Some(pid));
        }
    }
}

/// Every socket that was found becomes an entry: with its address and port,
/// the protocol of its table, the state of its code where that is TCP, and
/// its owner and the owner's name where they are known.
pub proof fn socket_becomes_an_entry(
    sockets: &[Found],
    owners: HashMap<u64, u32>,
    names: HashMap<u32, String>,
    r: Vec<PortEntry>,
    i: int,
)
    requires
        call_ensures(linux::resolve, (sockets, &owners, &names), r),
        0 <= i < sockets@.len(),
    ensures
        r@.len() == sockets@.len(),
        ({
            let e = r@[i];
            let t = sockets@[i].table;
            let s = sockets@[i].socket;
            &&& e.local_addr == s.local_addr
            &&& e.local_port == s.local_port
            &&& t is Tcp || t is Tcp6 ==> e.protocol is Tcp && e.state is Some
            &&& t is Tcp || t is Tcp6 ==> (e.state == Some(TcpState::Listen) <==> s.state == 0x0A)
            &&& t is Tcp || t is Tcp6 ==> (e.state == Some(TcpState::Established) <==> s.state
                == 0x01)
            &&& t is Tcp || t is Tcp6 ==> e.state == Some(model::linux_state(s.state))
            &&& t is Udp || t is Udp6 ==> e.protocol is Udp && e.state is None
            &&& e.pid is Some <==> owners@.contains_key(s.inode)
            &&& e.pid is Some ==> e.pid == Some(owners@[s.inode])
            &&& e.process_name is Some <==> owners@.contains_key(s.inode) && names@.contains_key(
                owners@[s.inode],
            )
            &&& e.process_name is Some ==> e.process_name->0@ == names@[owners@[s.inode]]@
        }),
{
    let views = model::names_view(names@);
    assert(model::entry_views(r@).len() == r@.len());
    assert(model::entry_views(r@)[i] == r@[i]@);
    linux_laws::state_is_that_of_the_code(sockets@, owners@, views, i);
    linux_laws::owner_is_that_of_the_inode(sockets@, owners@, views, i);
}

// ---------------------------------------------------------------------
// macOS
// ---------------------------------------------------------------------

/// Whether `lsof` failed: it did not succeed, and did not end with one, with
/// which it says that there is nothing to list.
pub proof fn nothing_to_list_is_no_failure(success: bool, code: Option<i32>, r: bool)
    requires
        call_ensures(macos::lsof_failed, (success, code), r),
    ensures
        success ==> !r,
        code == Some(1i32) ==> !r,
        !success && code != Some(1i32) ==> r,
{
}

/// All lines below the heading that are rows of the protocol become entries,
/// however many there are.
pub proof fn all_lines_of_an_output_are_read(
    heading: Seq<char>,
    lines: Seq<Seq<char>>,
    output: &str,
    protocol: Protocol,
    r: Vec<PortEntry>,
)
    requires
        forall|k: int| 0 <= k < heading.len() ==> #[trigger] heading[k] != '\n',
        text_laws::none_has(lines, '\n'),
        output@ == heading + seq!['\n'] + text::join(lines, seq!['\n']),
        call_ensures(macos::parse_lsof_output, (output, protocol), r),
    ensures
        model::entry_views(r@) == lines.filter(
            |l: Seq<char>| macos::row_value(text::words(l), protocol) is Some,
        ).map_values(|l: Seq<char>| macos::row_value(text::words(l), protocol)->0),
        r@.len() == lines.filter(
            |l: Seq<char>| macos::row_value(text::words(l), protocol) is Some,
        ).len(),
{
    macos_laws::all_lines_are_read(heading, lines, protocol);
    assert(model::entry_views(r@).len() == r@.len());
}

/// A scan has the entries of the TCP output, then those of the UDP output.
pub proof fn outputs_follow_each_other(
    tcp: &str,
    udp: &str,
    a: Vec<PortEntry>,
    b: Vec<PortEntry>,
    r: Vec<PortEntry>,
)
    requires
        call_ensures(macos::parse_lsof_output, (tcp, Protocol::Tcp), a),
        call_ensures(macos::parse_lsof_output, (udp, Protocol::Udp), b),
        call_ensures(macos::lsof_entries, (tcp, udp), r),
    ensures
        model::entry_views(r@) == model::entry_views(a@) + model::entry_views(b@),
{
}

/// An endpoint and a state are read as `lsof` prints them.
pub proof fn lsof_endpoint_is_read(
    a: IpAddr,
    port: u16,
    s: &str,
    r: Option<(IpAddr, u16)>,
    word: &str,
    state: TcpState,
)
    requires
        s@ == macos_laws::host_text(a) + seq![':'] + text::decimal(port as nat),
        call_ensures(macos::parse_endpoint, (s,), r),
        call_ensures(macos::parse_tcp_state_word, (word,), state),
    ensures
        r == Some((a, port)),
        state is Listen <==> word@ == "LISTEN"@,
        state is Established <==> word@ == "ESTABLISHED"@,
        state == macos::state_value(word@),
{
    macos_laws::endpoint_reads_back(a, port);
    macos_laws::states_have_their_words(word@);
}

// ---------------------------------------------------------------------
// Windows
// ---------------------------------------------------------------------

/// Asking for a table starts without a buffer.
pub proof fn asking_starts_without_a_buffer(r: TableFetch)
    requires
        call_ensures(TableFetch::new, (), r),
    ensures
        r.words@.len() == 0,
        r.size == 0,
        r.calls == 0,
{
}

/// An answer ends the asking, or asks for another call with the room it says.
pub proof fn answer_is_followed(f: TableFetch, result: u32, size: u32, r: FetchStep)
    requires
        f.calls < 8,
        call_ensures(TableFetch::answered, (f, result, size), r),
    ensures
        result == 0 ==> (r matches FetchStep::Done(buf) && buf.words@ == f.words@ && buf.byte_len
            == size),
        result != 0 && result != 122 ==> r == FetchStep::Failed(result),
        result == 122 && f.calls == 7 ==> r is GaveUp,
        result == 122 && f.calls < 7 ==> (r matches FetchStep::Again(g) && g.size == size && g.calls
            == f.calls + 1 && size <= 4 * g.words@.len() < size + 4 && forall|i: int|
            0 <= i < g.words@.len() ==> #[trigger] g.words@[i] == 0),
{
    windows_laws::answer_decides(f.words@, f.calls, result, size);
}

/// The port and the address of a field are turned into the order of the
/// machine.
pub proof fn fields_are_turned(raw: u32, port: u16, a: Ipv4Addr)
    requires
        call_ensures(windows::convert_port, (raw,), port),
        call_ensures(windows::convert_ipv4, (raw,), a),
    ensures
        windows_laws::is_port_in(raw, port),
        windows_laws::is_turned(raw, a.bits as nat),
{
    windows_laws::port_is_in_the_low_bytes(raw);
    windows_laws::word_is_turned(raw);
}

/// Each table has as many entries as rows that are in the buffer whole and
/// are counted, of its own protocol.
pub proof fn rows_become_entries(
    buf: TableBuf,
    a: Vec<PortEntry>,
    b: Vec<PortEntry>,
    c: Vec<PortEntry>,
    d: Vec<PortEntry>,
)
    requires
        call_ensures(windows::scan_tcp4, (&buf,), a),
        call_ensures(windows::scan_tcp6, (&buf,), b),
        call_ensures(windows::scan_udp4, (&buf,), c),
        call_ensures(windows::scan_udp6, (&buf,), d),
    ensures
        model::entry_views(a@) == windows::Table::Tcp4.entries(buf),
        model::entry_views(b@) == windows::Table::Tcp6.entries(buf),
        model::entry_views(c@) == windows::Table::Udp4.entries(buf),
        model::entry_views(d@) == windows::Table::Udp6.entries(buf),
        buf.byte_len > 0 && buf.words@.len() >= 1 + 14 * buf.words@[0] ==> a@.len() == buf.words@[0]
            && b@.len() == buf.words@[0] && c@.len() == buf.words@[0] && d@.len() == buf.words@[0],
{
    assert(model::entry_views(a@).len() == a@.len());
    assert(model::entry_views(b@).len() == b@.len());
    assert(model::entry_views(c@).len() == c@.len());
    assert(model::entry_views(d@).len() == d@.len());
    windows_laws::rows_are_those_that_fit(windows::Table::Tcp4, buf);
    windows_laws::rows_are_those_that_fit(windows::Table::Tcp6, buf);
    windows_laws::rows_are_those_that_fit(windows::Table::Udp4, buf);
    windows_laws::rows_are_those_that_fit(windows::Table::Udp6, buf);
}

/// A wide string is read up to its terminating zero.
pub proof fn wide_string_is_read(s: Seq<char>, behind: Seq<u16>, wide: &[u16], r: String)
    requires
        forall|i: int| 0 <= i < s.len() ==> #[trigger] s[i] != '\0',
        wide@ == windows_laws::units_of(s) + seq![0u16] + behind,
        call_ensures(windows::wide_to_string, (wide,), r),
    ensures
        r@ == s,
{
    windows_laws::wide_string_reads_back(s, behind);
}

/// The entries of a scan are those of the four tables, one after the other,
/// with the names of their owners.
pub proof fn tables_become_entries(
    tcp4: TableBuf,
    tcp6: TableBuf,
    udp4: TableBuf,
    udp6: TableBuf,
    names: HashMap<u32, String>,
    a: Vec<PortEntry>,
    b: Vec<PortEntry>,
    c: Vec<PortEntry>,
    d: Vec<PortEntry>,
    r: Vec<PortEntry>,
    i: int,
)
    requires
        call_ensures(windows::scan_tcp4, (&tcp4,), a),
        call_ensures(windows::scan_tcp6, (&tcp6,), b),
        call_ensures(windows::scan_udp4, (&udp4,), c),
        call_ensures(windows::scan_udp6, (&udp6,), d),
        call_ensures(windows::table_entries, (&tcp4, &tcp6, &udp4, &udp6, &names), r),
        0 <= i < r@.len(),
    ensures
        r@.len() == a@.len() + b@.len() + c@.len() + d@.len(),
        ({
            let all = a@ + b@ + c@ + d@;
            let e = all[i];
            &&& r@[i].protocol == e.protocol
            &&& r@[i].local_addr == e.local_addr
            &&& r@[i].local_port == e.local_port
            &&& r@[i].state == e.state
            &&& r@[i].pid == e.pid
            &&& e.pid is Some && names@.contains_key(e.pid->0) ==> r@[i].process_name is Some
                && r@[i].process_name->0@ == names@[e.pid->0]@
            &&& e.pid is Some && !names@.contains_key(e.pid->0) ==> r@[i].process_name is None
        }),
{
    let all = a@ + b@ + c@ + d@;
    assert(model::entry_views(all) =~= model::entry_views(a@) + model::entry_views(b@)
        + model::entry_views(c@) + model::entry_views(d@));
    assert(model::entry_views(r@).len() == r@.len());
    assert(model::entry_views(all).len() == all.len());
    let views = model::names_view(names@);
    windows_laws::every_entry_is_named(model::entry_views(all), views, i);
    assert(model::entry_views(r@)[i] == r@[i]@);
    assert(model::entry_views(all)[i] == all[i]@);
}

// ---------------------------------------------------------------------
// Addresses and texts
// ---------------------------------------------------------------------

/// An IPv4 address has the octets that it was made of.
pub proof fn ipv4_is_made_of_its_octets(a: u8, b: u8, c: u8, d: u8, r: Ipv4Addr, none: Ipv4Addr)
    requires
        call_ensures(Ipv4Addr::new, (a, b, c, d), r),
        call_ensures(Ipv4Addr::unspecified, (), none),
    ensures
        addr::octets(r.bits as nat) == seq![a as nat, b as nat, c as nat, d as nat],
        none.bits == 0,
{
    addr_laws::octets_are_those_it_is_made_of(a as nat, b as nat, c as nat, d as nat);
}

/// An IPv6 address has the segments that it was made of.
pub proof fn ipv6_is_made_of_its_segments(
    a: u16,
    b: u16,
    c: u16,
    d: u16,
    e: u16,
    f: u16,
    g: u16,
    h: u16,
    r: Ipv6Addr,
)
    requires
        call_ensures(Ipv6Addr::new, (a, b, c, d, e, f, g, h), r),
    ensures
        addr::segments(r.bits as nat) == seq![
            a as nat,
            b as nat,
            c as nat,
            d as nat,
            e as nat,
            f as nat,
            g as nat,
            h as nat,
        ],
{
    addr_laws::segments_are_those_it_is_made_of(
        seq![
            a as nat,
            b as nat,
            c as nat,
            d as nat,
            e as nat,
            f as nat,
            g as nat,
            h as nat,
        ],
    );
}

/// The text of an address is read back as the address.
pub proof fn address_is_read_back(a: IpAddr, text: String, t: &[char], r: Option<IpAddr>)
    requires
        call_ensures(IpAddr::to_string, (&a,), text),
        t@ == text@,
        call_ensures(IpAddr::parse, (t,), r),
    ensures
        r == Some(a),
{
    addr_laws::text_reads_back(a);
}

/// What is printed of a report, of a table and of an owner.
#[verifier::rlimit(40)]
pub proof fn what_is_printed(
    report: DiffReport,
    entries: &[PortEntry],
    pid: Option<u32>,
    name: Option<&str>,
    a: String,
    b: String,
    c: String,
)
    requires
        call_ensures(crate::format::diff_report, (&report,), a),
        call_ensures(crate::format::table, (entries,), b),
        call_ensures(crate::format::owner_label, (pid, name), c),
    ensures
        report.changes@.len() == 0 ==> a@ == "no changes"@,
        report.changes@.len() == 1 ==> a@ == crate::format::change_text(report.changes@[0]@),
        report.changes@.len() > 1 ==> a@ == crate::format::report_text(report@.drop_last()) + seq![
            '\n',
        ] + crate::format::change_text(report.changes@.last()@),
        entries@.len() == 0 ==> b@ == "no listening ports found"@,
        entries@.len() > 0 ==> b@ == crate::format::table_text(model::entry_views(entries@)),
        pid is None ==> c@ == seq!['-'],
        pid is Some && name is Some ==> c@ == name->0@ + seq![' ', '('] + text::decimal(
            pid->0 as nat,
        ) + seq![')'],
        pid is Some && name is None ==> c@ == seq![
            '<', 'u', 'n', 'k', 'n', 'o', 'w', 'n', '>', ' ', '(',
        ] + text::decimal(pid->0 as nat) + seq![')'],
{
    if let Some(p) = pid {
        if let Some(n) = name {
            crate::format_laws::owner_shows_name_and_pid(p, n@, None);
        } else {
            crate::format_laws::owner_shows_name_and_pid(p, seq![], None);
        }
    } else {
        crate::format_laws::owner_shows_name_and_pid(0, seq![], crate::format::label_view(name));
    }
    if report.changes@.len() == 1 {
        assert(report@ =~= seq![report.changes@[0]@]);
        crate::format_laws::report_grows_by_a_line(seq![], report.changes@[0]@);
    }
    if report.changes@.len() > 1 {
        let front = report@.drop_last();
        assert(report@ =~= front.push(report@.last()));
        crate::format_laws::report_grows_by_a_line(front, report@.last());
    }
    if entries@.len() == 0 {
        assert(model::entry_views(entries@) =~= seq![]);
    }
}

/// The text of a time shows its date, and a date is followed by the next one.
pub proof fn time_shows_its_date(secs: u64, t: String, z: i64, x: (i64, u32, u32))
    requires
        z <= 0x7fff_ffff_ffff_ffff - 719_468,
        z == secs / 86400,
        call_ensures(timefmt::format_unix, (secs,), t),
        call_ensures(timefmt::civil_from_days, (z,), x),
    ensures
        ({
            let n = t@.len() - 16;
            &&& text::digits_value(t@.take(n), 10) == Some(x.0 as nat)
            &&& text::digits_value(t@.subrange(n + 1, n + 3), 10) == Some(x.1 as nat)
            &&& text::digits_value(t@.subrange(n + 4, n + 6), 10) == Some(x.2 as nat)
        }),
{
    crate::timefmt_laws::time_text_has_its_parts(secs as nat);
}

/// The name of a protocol and of a state.
pub proof fn names_are_printed(p: Protocol, s: TcpState, x: String, y: String)
    requires
        call_ensures(Protocol::to_string, (&p,), x),
        call_ensures(TcpState::to_string, (&s,), y),
    ensures
        p is Tcp <==> x@ == seq!['t', 'c', 'p'],
        p is Udp <==> x@ == seq!['u', 'd', 'p'],
        y@ == s.text(),
{
    model_laws::names_are_known(s);
    assert(seq!['t', 'c', 'p'][0] != seq!['u', 'd', 'p'][0]);
}

/// The summary of a record.
pub proof fn record_is_summarized(record: HistoryRecord, r: String)
    requires
        call_ensures(storage::describe_record, (&record,), r),
    ensures
        r@ == storage::record_text(record@),
{
}

/// A line of an output is read by its words.
pub proof fn line_is_read_by_its_words(line: &str, protocol: Protocol, r: Option<PortEntry>)
    requires
        call_ensures(macos::parse_line, (line, protocol), r),
    ensures
        r is Some <==> macos::row_value(text::words(line@), protocol) is Some,
        r is Some ==> macos::row_value(text::words(line@), protocol) == Some(r->0@),
{
}

/// The names of processes are those of the list, and each entry gets that of
/// its owner.
pub proof fn owners_are_named(
    list: &[windows::Process],
    entries: Vec<PortEntry>,
    names: HashMap<u32, String>,
    r: Vec<PortEntry>,
    i: int,
)
    requires
        call_ensures(windows::process_names, (list,), names),
        call_ensures(windows::attach_names, (entries, &names), r),
        0 <= i < entries@.len(),
    ensures
        r@.len() == entries@.len(),
        r@[i]@.key() == entries@[i]@.key(),
        r@[i].state == entries@[i].state,
        r@[i].pid == entries@[i].pid,
        entries@[i].pid is None ==> r@[i]@.process_name == entries@[i]@.process_name,
        entries@[i].pid is Some ==> (r@[i].process_name is Some <==> windows::names_in(
            list@,
        ).contains_key(entries@[i].pid->0)),
        entries@[i].pid is Some && r@[i].process_name is Some ==> r@[i].process_name->0@
            == windows::names_in(list@)[entries@[i].pid->0],
{
    assert(model::entry_views(r@).len() == r@.len());
    assert(model::entry_views(entries@).len() == entries@.len());
    windows_laws::every_entry_is_named(model::entry_views(entries@), windows::names_in(list@), i);
    assert(model::entry_views(r@)[i] == r@[i]@);
    assert(model::entry_views(entries@)[i] == entries@[i]@);
}

/// Entries compare as equal exactly if they have the same protocol, address
/// and port, and as less exactly if the first stands in front of the second.
pub proof fn entries_compare_by_their_keys(a: PortEntry, b: PortEntry, r: std::cmp::Ordering)
    requires
        call_ensures(PortEntry::cmp, (&a, &b), r),
    ensures
        r is Equal <==> a.protocol == b.protocol && a.local_addr == b.local_addr && a.local_port
            == b.local_port,
        r is Less ==> model_laws::in_order(a@, b@),
        r is Greater ==> model_laws::in_order(b@, a@),
{
    model_laws::comparing_keys_is_consistent(a@.key(), b@.key());
    model_laws::comparing_keys_is_consistent(b@.key(), a@.key());
}

/// The cells of a table are printed in aligned columns.
pub proof fn cells_are_printed(rows: &[[String; 5]], r: String)
    requires
        call_ensures(crate::format::render_table, (rows,), r),
    ensures
        r@ == text::join(
            crate::format::table_lines(crate::format::row_views(rows@)),
            seq!['\n'],
        ),
{
    reveal_strlit("\n");
    assert("\n"@ =~= seq!['\n']);
}

/// The seconds are kept, and where there are none they are zero, as they are
/// where the clock shows a time before the epoch.
pub proof fn before_the_epoch_is_zero(
    seconds: Option<u64>,
    r: u64,
    e: std::time::SystemTimeError,
    s: u64,
)
    requires
        call_ensures(crate::seconds_or_zero, (seconds,), r),
    ensures
        seconds is Some ==> r == seconds->0,
        seconds is None ==> r == 0,
        crate::is_seconds_of(Err(e), s) <==> s == 0,
{
}

/// A capture has the host that it was given, a time that the clock showed,
/// and as many entries as the scan found; where the scan failed, it is the
/// error.
pub proof fn capture_is_of_the_scan<S: crate::source::PortSource>(
    source: S,
    hostname: String,
    r: std::io::Result<Snapshot>,
)
    requires
        call_ensures(crate::capture::<S>, (&source, hostname), r),
    ensures
        r is Ok ==> r->Ok_0.hostname@ == hostname@ && crate::is_reading(r->Ok_0.captured_at_unix),
        r is Ok ==> exists|entries: Vec<PortEntry>| #[trigger]
            call_ensures(S::scan, (&source,), Ok::<_, std::io::Error>(entries)) && entries@.len()
                == r->Ok_0.entries@.len(),
        r is Err ==> call_ensures(S::scan, (&source,), Err::<Vec<PortEntry>, _>(r->Err_0)),
{
    if let Ok(s) = r {
        let entries = choose|entries: Vec<PortEntry>| #[trigger]
            call_ensures(S::scan, (&source,), Ok::<_, std::io::Error>(entries))
                && model::is_sort_of(s@.entries, model::entry_views(entries@));
        model_laws::sorting_keeps_entries(s@.entries, model::entry_views(entries@));
        assert(call_ensures(S::scan, (&source,), Ok::<_, std::io::Error>(entries)));
        assert(entries@.len() == s.entries@.len());
    }
}

/// A copy says what was copied, and a report starts out empty.
pub proof fn copies_say_the_same(
    e: PortEntry,
    s: Snapshot,
    c: Change,
    d: DiffReport,
    h: HistoryRecord,
    e2: PortEntry,
    s2: Snapshot,
    c2: Change,
    d2: DiffReport,
    h2: HistoryRecord,
    none: DiffReport,
)
    requires
        call_ensures(PortEntry::clone, (&e,), e2),
        call_ensures(Snapshot::clone, (&s,), s2),
        call_ensures(Change::clone, (&c,), c2),
        call_ensures(DiffReport::clone, (&d,), d2),
        call_ensures(HistoryRecord::clone, (&h,), h2),
        call_ensures(DiffReport::default, (), none),
    ensures
        e2@ == e@,
        s2@ == s@,
        c2@ == c@,
        d2@ == d@,
        h2@ == h@,
        none.changes@.len() == 0,
{
    assert(none@.len() == none.changes@.len());
}

/// A buffer is empty exactly if no bytes were filled.
pub proof fn buffer_is_empty_without_bytes(buf: TableBuf, r: bool)
    requires
        call_ensures(TableBuf::is_empty, (&buf,), r),
    ensures
        r <==> buf.byte_len == 0,
{
}

/// What each reader of a text says of any text, not only of one that is well
/// formed: it is a value exactly if the text is one, and then that value.
pub proof fn readers_take_any_text(
    t: &str,
    chars: &[char],
    v6: bool,
    wide: &[u16],
    ipv4: Option<Ipv4Addr>,
    ipv6: Option<Ipv6Addr>,
    field: Option<(IpAddr, u16)>,
    inode: Option<u64>,
    pid: Option<u32>,
    endpoint: Option<(IpAddr, u16)>,
    ip: Option<IpAddr>,
    name: String,
)
    requires
        call_ensures(linux::parse_ipv4_hex, (t,), ipv4),
        call_ensures(linux::parse_ipv6_hex, (t,), ipv6),
        call_ensures(linux::parse_addr_port, (t, v6), field),
        call_ensures(linux::parse_socket_inode, (t,), inode),
        call_ensures(linux::parse_pid, (t,), pid),
        call_ensures(macos::parse_endpoint, (t,), endpoint),
        call_ensures(IpAddr::parse, (chars,), ip),
        call_ensures(windows::wide_to_string, (wide,), name),
    ensures
        ipv4 is Some <==> linux::ipv4_hex_value(t@) is Some,
        ipv4 is Some ==> linux::ipv4_hex_value(t@) == Some(ipv4->0.bits as nat),
        ipv6 is Some <==> linux::ipv6_hex_value(t@) is Some,
        ipv6 is Some ==> linux::ipv6_hex_value(t@) == Some(ipv6->0.bits as nat),
        field == linux::addr_port_value(t@, v6),
        inode == linux::inode_value(t@),
        pid == linux::pid_value(t@),
        endpoint == macos::endpoint_value(t@),
        ip == addr::ip_value(chars@),
        name@ == windows::utf16_text(windows::up_to_nul(wide@)),
{
}

/// The text of a time and of an address, and the order of addresses.
pub proof fn times_and_addresses_are_printed(
    secs: u64,
    a: IpAddr,
    b: IpAddr,
    t: String,
    x: String,
    before: bool,
)
    requires
        call_ensures(timefmt::format_unix, (secs,), t),
        call_ensures(IpAddr::to_string, (&a,), x),
        call_ensures(IpAddr::is_before, (&a, &b), before),
    ensures
        t@ == timefmt::time_text(secs as nat),
        x@ == a.text(),
        before == a.before(b),
{
}

} // verus!
