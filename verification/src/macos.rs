//! macOS port source: the columns that `lsof -nP -iTCP` and
//! `lsof -nP -iUDP` print.
//!
//! The `COMMAND` column can itself contain spaces (`Google Chrome Helper`),
//! so a line is read from its end: each of the later columns is one word,
//! and what is left in front of them is the command.

use crate::addr;
use crate::addr::{IpAddr, Ipv4Addr};
use crate::model;
use crate::model::{PortEntry, PortEntryView, Protocol, TcpState};
use crate::text;
use vstd::prelude::*;
use vstd::slice::*;
use vstd::string::*;

verus! {

// ---------------------------------------------------------------------
// Meanings
// ---------------------------------------------------------------------

/// The state that `lsof` shows by this word.
pub open spec fn state_value(word: Seq<char>) -> TcpState {
    if word == "LISTEN"@ {
        TcpState::Listen
    } else if word == "ESTABLISHED"@ {
        TcpState::Established
    } else if word == "SYN_SENT"@ {
        TcpState::SynSent
    } else if word == "SYN_RECEIVED"@ {
        TcpState::SynRecv
    } else if word == "FIN_WAIT_1"@ {
        TcpState::FinWait1
    } else if word == "FIN_WAIT_2"@ {
        TcpState::FinWait2
    } else if word == "TIME_WAIT"@ {
        TcpState::TimeWait
    } else if word == "CLOSED"@ {
        TcpState::Close
    } else if word == "CLOSE_WAIT"@ {
        TcpState::CloseWait
    } else if word == "LAST_ACK"@ {
        TcpState::LastAck
    } else if word == "CLOSING"@ {
        TcpState::Closing
    } else {
        TcpState::Unknown(0)
    }
}

/// Whether the text stands between these two brackets.
pub open spec fn is_within(t: Seq<char>, open: char, close: char) -> bool {
    t.len() >= 2 && t[0] == open && t.last() == close
}

/// What stands between the brackets.
pub open spec fn within(t: Seq<char>) -> Seq<char> {
    t.subrange(1, t.len() - 1)
}

/// The address that the host part of an endpoint writes: `*` for any
/// address, and an address with or without square brackets.
pub open spec fn host_value(t: Seq<char>) -> Option<IpAddr> {
    if t == "*"@ {
        Some(IpAddr::V4(Ipv4Addr { bits: 0 }))
    } else if is_within(t, '[', ']') {
        addr::ip_value(within(t))
    } else {
        addr::ip_value(t)
    }
}

/// The address and port that an endpoint `host:port` writes. The port is
/// what stands behind the last colon.
pub open spec fn endpoint_value(t: Seq<char>) -> Option<(IpAddr, u16)> {
    let n = text::find_last(t, ':');
    if n < 0 {
        None
    } else {
        match (host_value(t.take(n)), text::unsigned(t.skip(n + 1), 10, u16::MAX as nat)) {
            (Some(a), Some(p)) => Some((a, p as u16)),
            _ => None,
        }
    }
}

/// The local end of a connection `local->remote`, which is all of it where
/// there is no remote end.
pub open spec fn local_end(name: Seq<char>) -> Seq<char> {
    name.take(text::find_pair(name, '-', '>'))
}

/// The name of the protocol in the `NODE` column.
pub open spec fn node_text(protocol: Protocol) -> Seq<char> {
    match protocol {
        Protocol::Tcp => "TCP"@,
        Protocol::Udp => "UDP"@,
    }
}

/// Whether the last column of the line is a state in round brackets.
pub open spec fn shows_state(w: Seq<Seq<char>>) -> bool {
    w.len() > 0 && is_within(w.last(), '(', ')')
}

/// The columns of the line, without the state.
pub open spec fn columns(w: Seq<Seq<char>>) -> Seq<Seq<char>> {
    if shows_state(w) {
        w.drop_last()
    } else {
        w
    }
}

/// The words of the command: those in front of the last eight columns.
pub open spec fn command_words(w: Seq<Seq<char>>) -> Seq<Seq<char>> {
    columns(w).take(columns(w).len() - 8)
}

/// The entry for a line with these words. A line that is not the row of a
/// socket of the protocol holds none.
pub open spec fn row_value(w: Seq<Seq<char>>, protocol: Protocol) -> Option<PortEntryView> {
    let c = columns(w);
    let n = c.len() as int;
    if n < 9 || c[n - 2] != node_text(protocol) {
        None
    } else {
        match (text::unsigned(c[n - 8], 10, u32::MAX as nat), endpoint_value(local_end(c[n - 1]))) {
            (Some(pid), Some((local_addr, local_port))) => Some(
                PortEntryView {
                    protocol,
                    local_addr,
                    local_port,
                    state: match protocol {
                        Protocol::Tcp => if shows_state(w) {
                            Some(state_value(within(w.last())))
                        } else {
                            Some(TcpState::Unknown(0))
                        },
                        Protocol::Udp => None,
                    },
                    pid: Some(pid as u32),
                    process_name: Some(text::join(command_words(w), " "@)),
                },
            ),
            _ => None,
        }
    }
}

/// The entries for the lines, in order.
pub open spec fn rows_in(lines: Seq<Seq<char>>, protocol: Protocol) -> Seq<PortEntryView>
    decreases lines.len(),
{
    if lines.len() == 0 {
        seq![]
    } else {
        let rest = rows_in(lines.drop_last(), protocol);
        match row_value(text::words(lines.last()), protocol) {
            Some(e) => rest.push(e),
            None => rest,
        }
    }
}

/// The lines of the output below its heading.
pub open spec fn body(output: Seq<char>) -> Seq<Seq<char>> {
    let l = text::lines(output);
    if l.len() == 0 {
        l
    } else {
        l.skip(1)
    }
}

/// The entries in an output.
pub open spec fn output_value(output: Seq<char>, protocol: Protocol) -> Seq<PortEntryView> {
    rows_in(body(output), protocol)
}

// ---------------------------------------------------------------------
// Executable functions
// ---------------------------------------------------------------------

/// The state that `lsof` shows by this word.
fn state_of(word: &[char]) -> (r: TcpState)
    ensures
        r == state_value(word@),
{
    if text::is_text(word, "LISTEN") {
        TcpState::Listen
    } else if text::is_text(word, "ESTABLISHED") {
        TcpState::Established
    } else if text::is_text(word, "SYN_SENT") {
        TcpState::SynSent
    } else if text::is_text(word, "SYN_RECEIVED") {
        TcpState::SynRecv
    } else if text::is_text(word, "FIN_WAIT_1") {
        TcpState::FinWait1
    } else if text::is_text(word, "FIN_WAIT_2") {
        TcpState::FinWait2
    } else if text::is_text(word, "TIME_WAIT") {
        TcpState::TimeWait
    } else if text::is_text(word, "CLOSED") {
        TcpState::Close
    } else if text::is_text(word, "CLOSE_WAIT") {
        TcpState::CloseWait
    } else if text::is_text(word, "LAST_ACK") {
        TcpState::LastAck
    } else if text::is_text(word, "CLOSING") {
        TcpState::Closing
    } else {
        TcpState::Unknown(0)
    }
}

/// The state that `lsof` shows by this word.
pub fn parse_tcp_state_word(word: &str) -> (r: TcpState)
    ensures
        r == state_value(word@),
{
    let t = text::chars_of(word);
    state_of(t.as_slice())
}

/// What stands between the brackets, if the text stands between them.
fn within_of(t: &[char], open: char, close: char) -> (r: Option<&[char]>)
    ensures
        match r {
            Some(s) => is_within(t@, open, close) && s@ == within(t@),
            None => !is_within(t@, open, close),
        },
{
    if t.len() >= 2 && t[0] == open && t[t.len() - 1] == close {
        Some(slice_subrange(t, 1, t.len() - 1))
    } else {
        None
    }
}

/// The address that the host part of an endpoint writes.
fn host_of(t: &[char]) -> (r: Option<IpAddr>)
    ensures
        r == host_value(t@),
{
    if text::is_text(t, "*") {
        return Some(IpAddr::V4(Ipv4Addr::unspecified()));
    }
    match within_of(t, '[', ']') {
        Some(inner) => IpAddr::parse(inner),
        None => IpAddr::parse(t),
    }
}

/// The address and port that an endpoint writes.
fn endpoint_of(t: &[char]) -> (r: Option<(IpAddr, u16)>)
    ensures
        r == endpoint_value(t@),
{
    match text::find_last_in(t, ':') {
        None => None,
        Some(n) => {
            let host = slice_subrange(t, 0, n);
            let port = slice_subrange(t, n + 1, t.len());
            assert(host@ =~= t@.take(n as int));
            assert(port@ =~= t@.skip(n + 1));
            match (host_of(host), text::unsigned_of(port, 10, u16::MAX as u64)) {
                (Some(a), Some(p)) => Some((a, p as u16)),
                _ => None,
            }
        },
    }
}

/// Parse a `host:port` endpoint as `lsof` prints it: `*:8080`,
/// `127.0.0.1:5432`, or `[::1]:631` for IPv6.
pub fn parse_endpoint(s: &str) -> (r: Option<(IpAddr, u16)>)
    ensures
        r == endpoint_value(s@),
{
    let t = text::chars_of(s);
    endpoint_of(t.as_slice())
}

/// The words, with a space between each two of them.
fn join_words(w: &[&[char]]) -> (r: String)
    ensures
        r@ == text::join(text::slices(w@), " "@),
{
    let ghost all = text::slices(w@);
    let mut parts: Vec<String> = Vec::new();
    let mut i: usize = 0;
    assert(text::texts(parts@) =~= all.take(0));
    while i < w.len()
        invariant
            all == text::slices(w@),
            i <= w@.len(),
            text::texts(parts@) == all.take(i as int),
        decreases w.len() - i,
    {
        let ghost before = text::texts(parts@);
        let s = text::string_of(w[i]);
        parts.push(s);
        i += 1;
        proof {
            assert(text::texts(parts@) =~= before.push(s@));
            assert(all.take(i as int) =~= all.take(i - 1).push(all[i - 1]));
        }
    }
    assert(all.take(i as int) =~= all);
    text::join_of(&parts, " ")
}

/// The local end of a connection.
fn local_of(name: &[char]) -> (r: &[char])
    ensures
        r@ == local_end(name@),
{
    let n = text::find_pair_in(name, '-', '>');
    assert(name@.subrange(0, n as int) =~= name@.take(n as int));
    slice_subrange(name, 0, n)
}

/// Whether the `NODE` column names the protocol.
fn is_node(t: &[char], protocol: Protocol) -> (r: bool)
    ensures
        r == (t@ == node_text(protocol)),
{
    match protocol {
        Protocol::Tcp => text::is_text(t, "TCP"),
        Protocol::Udp => text::is_text(t, "UDP"),
    }
}

/// The entry for a line.
fn row_of(line: &[char], protocol: Protocol) -> (r: Option<PortEntry>)
    ensures
        match r {
            Some(e) => row_value(text::words(line@), protocol) == Some(e@),
            None => row_value(text::words(line@), protocol) is None,
        },
{
    let words = text::words_of(line);
    let ghost w = text::words(line@);
    assert(w == text::slices(words@) && w.len() == words@.len());
    if words.len() < 9 {
        return None;
    }
    let last = words[words.len() - 1];
    assert(w.last() == last@);
    let state_word = within_of(last, '(', ')');
    let n: usize = match state_word {
        Some(_) => words.len() - 1,
        None => words.len(),
    };
    let ghost c = columns(w);
    assert(c.len() == n);
    if n < 9 {
        return None;
    }
    assert(c[n - 1] == words@[n - 1]@ && c[n - 2] == words@[n - 2]@ && c[n - 8] == words@[n - 8]@);
    if !is_node(words[n - 2], protocol) {
        return None;
    }
    match (
        text::unsigned_of(words[n - 8], 10, u32::MAX as u64),
        endpoint_of(local_of(words[n - 1])),
    ) {
        (Some(pid), Some((local_addr, local_port))) => {
            let command = slice_subrange(words.as_slice(), 0, n - 8);
            assert(text::slices(command@) =~= command_words(w));
            let state = match protocol {
                Protocol::Tcp => match state_word {
                    Some(word) => Some(state_of(word)),
                    None => Some(TcpState::Unknown(0)),
                },
                Protocol::Udp => None,
            };
            Some(
                PortEntry {
                    protocol,
                    local_addr,
                    local_port,
                    state,
                    pid: Some(pid as u32),
                    process_name: Some(join_words(command)),
                },
            )
        },
        _ => None,
    }
}

/// Parse one data line of `lsof -nP -iTCP` / `-iUDP` output. There is
/// nothing to return for a line that doesn't look like a network socket
/// row: a future `lsof` quirk degrades to one fewer row.
pub fn parse_line(line: &str, protocol: Protocol) -> (r: Option<PortEntry>)
    ensures
        match r {
            Some(e) => row_value(text::words(line@), protocol) == Some(e@),
            None => row_value(text::words(line@), protocol) is None,
        },
{
    let t = text::chars_of(line);
    row_of(t.as_slice(), protocol)
}

/// Parse the full output of an `lsof -nP -iTCP` or `-iUDP` invocation.
pub fn parse_lsof_output(output: &str, protocol: Protocol) -> (r: Vec<PortEntry>)
    ensures
        model::entry_views(r@) == output_value(output@, protocol),
{
    let chars = text::chars_of(output);
    let lines = text::lines_of(chars.as_slice());
    let ghost all = body(output@);
    let mut out: Vec<PortEntry> = Vec::new();
    if lines.len() == 0 {
        assert(text::lines(output@).len() == lines@.len());
        assert(model::entry_views(out@) =~= seq![]);
        return out;
    }
    assert(all =~= text::slices(lines@).skip(1));
    // The first line is the heading:
    // COMMAND PID USER FD TYPE DEVICE SIZE/OFF NODE NAME
    let mut i: usize = 1;
    assert(model::entry_views(out@) =~= rows_in(all.take(0), protocol));
    while i < lines.len()
        invariant
            all == text::slices(lines@).skip(1),
            1 <= i <= lines@.len(),
            model::entry_views(out@) == rows_in(all.take(i - 1), protocol),
        decreases lines.len() - i,
    {
        let ghost before = model::entry_views(out@);
        proof {
            assert(all.take(i as int).drop_last() =~= all.take(i - 1));
            assert(all.take(i as int).last() == lines@[i as int]@);
        }
        if let Some(e) = row_of(lines[i], protocol) {
            out.push(e);
            assert(model::entry_views(out@) =~= before.push(e@));
        }
        i += 1;
    }
    assert(all.take(i - 1) =~= all);
    out
}

/// The entries of a scan: those of the TCP output, then those of the UDP
/// output.
pub fn lsof_entries(tcp_output: &str, udp_output: &str) -> (r: Vec<PortEntry>)
    ensures
        model::entry_views(r@) == output_value(tcp_output@, Protocol::Tcp) + output_value(
            udp_output@,
            Protocol::Udp,
        ),
{
    let mut entries = parse_lsof_output(tcp_output, Protocol::Tcp);
    let mut udp = parse_lsof_output(udp_output, Protocol::Udp);
    let ghost a = entries@;
    let ghost b = udp@;
    entries.append(&mut udp);
    assert(model::entry_views(a + b) =~= model::entry_views(a) + model::entry_views(b));
    entries
}

/// Whether `lsof` failed, by how it ended: whether it succeeded, and with
/// which exit code, if it had one. It exits 1 when it finds nothing to
/// list, which is a normal result; only a signal or another code is a
/// failure.
pub fn lsof_failed(success: bool, code: Option<i32>) -> (r: bool)
    ensures
        r == (!success && code != Some(1i32)),
{
    if success {
        return false;
    }
    match code {
        Some(c) => c != 1,
        None => true,
    }
}

} // verus!
