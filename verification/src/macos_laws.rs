//! Laws of the macOS port source: command names are kept whole, the rows of
//! one protocol are not those of the other, and endpoints are read back.

use crate::addr;
use crate::addr::IpAddr;
use crate::addr_laws;
use crate::macos;
use crate::model::{PortEntryView, Protocol, TcpState};
use crate::text;
use crate::text_laws;
use vstd::prelude::*;

verus! {

// ---------------------------------------------------------------------
// Rows
// ---------------------------------------------------------------------

/// The words of a line: those of the command, the eight columns behind it,
/// and the state, if the line shows one.
pub open spec fn line_words(
    command: Seq<Seq<char>>,
    columns: Seq<Seq<char>>,
    state: Option<Seq<char>>,
) -> Seq<Seq<char>> {
    match state {
        Some(s) => (command + columns).push(s),
        None => command + columns,
    }
}

/// However many words a command has, its name is read whole, and so are the
/// columns behind it: the pid, then six that only have to be there - but
/// for the protocol - and the endpoint.
pub proof fn command_is_kept_whole(
    command: Seq<Seq<char>>,
    columns: Seq<Seq<char>>,
    state: Option<Seq<char>>,
    protocol: Protocol,
    pid: u32,
    local: (IpAddr, u16),
)
    requires
        command.len() >= 1,
        columns.len() == 8,
        text::unsigned(columns[0], 10, u32::MAX as nat) == Some(pid as nat),
        columns[6] == macos::node_text(protocol),
        macos::endpoint_value(macos::local_end(columns[7])) == Some(local),
        state matches Some(s) ==> macos::is_within(s, '(', ')'),
        state is None ==> !macos::is_within(columns[7], '(', ')'),
        forall|i: int|
            0 <= i < line_words(command, columns, state).len() ==> text_laws::is_word(
                #[trigger] line_words(command, columns, state)[i],
            ),
    ensures
        macos::row_value(
            text::words(text::join(line_words(command, columns, state), seq![' '])),
            protocol,
        ) == Some(
            PortEntryView {
                protocol,
                local_addr: local.0,
                local_port: local.1,
                state: match (protocol, state) {
                    (Protocol::Tcp, Some(s)) => Some(macos::state_value(macos::within(s))),
                    (Protocol::Tcp, None) => Some(TcpState::Unknown(0)),
                    (Protocol::Udp, _) => None,
                },
                pid: Some(pid),
                process_name: Some(text::join(command, " "@)),
            },
        ),
{
    let w = line_words(command, columns, state);
    text_laws::joined_words_part(w);
    let c = macos::columns(w);
    let n = command.len() as int + 8;
    match state {
        Some(s) => {
            assert(w.last() == s);
            assert(w.drop_last() =~= command + columns);
        },
        None => {
            assert(w.last() == columns[7]);
        },
    }
    assert(c =~= command + columns);
    assert(c[n - 8] == columns[0]);
    assert(c[n - 2] == columns[6]);
    assert(c[n - 1] == columns[7]);
    assert(macos::command_words(w) =~= command);
}

/// A line is a row of one protocol at most.
pub proof fn rows_are_of_one_protocol(words: Seq<Seq<char>>)
    ensures
        macos::row_value(words, Protocol::Tcp) is None || macos::row_value(
            words,
            Protocol::Udp,
        ) is None,
{
    reveal_strlit("TCP");
    reveal_strlit("UDP");
    assert("TCP"@[0] != "UDP"@[0]);
}

/// Every row is of the protocol that was asked for and names its owner; it
/// has a state exactly if it is one of TCP.
pub proof fn rows_are_as_asked(output: Seq<char>, protocol: Protocol, i: int)
    requires
        0 <= i < macos::output_value(output, protocol).len(),
    ensures
        macos::output_value(output, protocol)[i].protocol == protocol,
        macos::output_value(output, protocol)[i].pid is Some,
        macos::output_value(output, protocol)[i].process_name is Some,
        macos::output_value(output, protocol)[i].state is Some <==> protocol is Tcp,
{
    lemma_rows(macos::body(output), protocol, i);
}

/// The same of any lines.
proof fn lemma_rows(lines: Seq<Seq<char>>, protocol: Protocol, i: int)
    requires
        0 <= i < macos::rows_in(lines, protocol).len(),
    ensures
        macos::rows_in(lines, protocol)[i].protocol == protocol,
        macos::rows_in(lines, protocol)[i].pid is Some,
        macos::rows_in(lines, protocol)[i].process_name is Some,
        macos::rows_in(lines, protocol)[i].state is Some <==> protocol is Tcp,
    decreases lines.len(),
{
    if lines.len() > 0 && i < macos::rows_in(lines.drop_last(), protocol).len() {
        lemma_rows(lines.drop_last(), protocol, i);
    }
}

/// The rows of lines are those of each line by itself: a line that holds no
/// row takes nothing from the others.
pub proof fn rows_are_independent(a: Seq<Seq<char>>, b: Seq<Seq<char>>, protocol: Protocol)
    ensures
        macos::rows_in(a + b, protocol) == macos::rows_in(a, protocol) + macos::rows_in(
            b,
            protocol,
        ),
    decreases b.len(),
{
    let x = macos::rows_in(a, protocol);
    if b.len() == 0 {
        assert(a + b =~= a);
        assert(x + macos::rows_in(b, protocol) =~= x);
    } else {
        let y = macos::rows_in(b.drop_last(), protocol);
        rows_are_independent(a, b.drop_last(), protocol);
        assert((a + b).drop_last() =~= a + b.drop_last());
        assert((a + b).last() == b.last());
        match macos::row_value(text::words(b.last()), protocol) {
            Some(e) => {
                assert((x + y).push(e) =~= x + y.push(e));
            },
            None => {},
        }
    }
}

// ---------------------------------------------------------------------
// Endpoints
// ---------------------------------------------------------------------

/// The host part of an endpoint as `lsof` prints it.
pub open spec fn host_text(a: IpAddr) -> Seq<char> {
    match a {
        IpAddr::V4(_) => a.text(),
        IpAddr::V6(_) => seq!['['] + a.text() + seq![']'],
    }
}

/// The last colon is in front of the port.
proof fn lemma_last_colon(host: Seq<char>, port_text: Seq<char>)
    requires
        forall|k: int| 0 <= k < port_text.len() ==> #[trigger] port_text[k] != ':',
    ensures
        text::find_last(host + seq![':'] + port_text, ':') == host.len(),
{
    let t = host + seq![':'] + port_text;
    let n = host.len() as int;
    text::lemma_find_last(t, ':');
    let m = text::find_last(t, ':');
    assert(t[n] == ':');
    if m > n {
        assert(t[m] == port_text[m - n - 1]);
    }
}

/// The text of an IPv4 address starts with a digit, and is more than one
/// part.
proof fn lemma_ipv4_host(t: Seq<char>)
    requires
        addr::ipv4_value(t) is Some,
    ensures
        t != "*"@,
        !macos::is_within(t, '[', ']'),
{
    reveal_strlit("*");
    text::lemma_find(t, '.');
    let first = text::split(t, '.')[0];
    assert(addr::octet_value(first) is Some);
    text_laws::lemma_value_of_digits(first, 10);
    assert(text::digit_value(first[0], 10) is Some);
    assert(t[0] == first[0]);
}

/// The host part that `lsof` prints for an address is read back as the
/// address.
proof fn lemma_host_reads_back(a: IpAddr)
    ensures
        macos::host_value(host_text(a)) == Some(a),
{
    addr_laws::text_reads_back(a);
    match a {
        IpAddr::V4(v) => {
            addr_laws::ipv4_text_reads_back(v.bits as nat);
            lemma_ipv4_host(a.text());
        },
        IpAddr::V6(_) => {
            let t = host_text(a);
            reveal_strlit("*");
            assert(t[0] == '[' && t.last() == ']');
            assert(macos::within(t) =~= a.text());
        },
    }
}

/// An endpoint that `lsof` prints is read back: the address, in square
/// brackets if it is one of IPv6, a colon, and the port.
pub proof fn endpoint_reads_back(a: IpAddr, port: u16)
    ensures
        macos::endpoint_value(host_text(a) + seq![':'] + text::decimal(port as nat)) == Some(
            (a, port),
        ),
{
    let host = host_text(a);
    let digits = text::decimal(port as nat);
    let t = host + seq![':'] + digits;
    text_laws::decimal_reads_back(port as nat, u16::MAX as nat);
    assert forall|k: int| 0 <= k < digits.len() implies #[trigger] digits[k] != ':' by {
        assert(text::digit_value(digits[k], 10) is Some);
    }
    lemma_last_colon(host, digits);
    assert(t.take(host.len() as int) =~= host);
    assert(t.skip(host.len() as int + 1) =~= digits);
    lemma_host_reads_back(a);
}

/// A star in place of the address stands for any IPv4 address.
pub proof fn star_is_any_address(port: u16)
    ensures
        macos::endpoint_value(seq!['*', ':'] + text::decimal(port as nat)) matches Some(local)
            && local.0 == IpAddr::V4(addr::Ipv4Addr { bits: 0 }) && local.1 == port,
{
    let host = seq!['*'];
    let digits = text::decimal(port as nat);
    let t = host + seq![':'] + digits;
    reveal_strlit("*");
    text_laws::decimal_reads_back(port as nat, u16::MAX as nat);
    assert forall|k: int| 0 <= k < digits.len() implies #[trigger] digits[k] != ':' by {
        assert(text::digit_value(digits[k], 10) is Some);
    }
    lemma_last_colon(host, digits);
    assert(t.take(1) =~= host);
    assert(t.skip(2) =~= digits);
    assert(host =~= "*"@);
    assert(seq!['*', ':'] + digits =~= t);
}

/// The remote end of a connection does not count: what stands in front of
/// the first arrow is the local end.
pub proof fn remote_end_is_ignored(local: Seq<char>, remote: Seq<char>)
    requires
        forall|i: int, j: int|
            0 <= i < local.len() && j == i + 1 && j < local.len() ==> !(#[trigger] local[i] == '-'
                && #[trigger] local[j] == '>'),
    ensures
        macos::local_end(local + seq!['-', '>'] + remote) == local,
        macos::local_end(local) == local,
{
    let t = local + seq!['-', '>'] + remote;
    let n = local.len() as int;
    assert forall|i: int| 0 <= i < n && i + 1 < t.len() implies !(#[trigger] t[i] == '-' && t[i + 1]
        == '>') by {
        assert(t[i] == local[i]);
        if i + 1 < n {
            let j = i + 1;
            assert(t[j] == local[j]);
        } else {
            assert(t[i + 1] == '-');
        }
    }
    assert(t[n] == '-' && t[n + 1] == '>');
    text::lemma_find_pair_is(t, '-', '>', n);
    assert(t.take(n) =~= local);
    assert forall|i: int| 0 <= i < n && i + 1 < local.len() implies !(#[trigger] local[i] == '-'
        && local[i + 1] == '>') by {
        let j = i + 1;
        assert(!(local[i] == '-' && local[j] == '>'));
    }
    text::lemma_find_pair_is(local, '-', '>', n);
    assert(local.take(n) =~= local);
}

/// An endpoint is a host and a port, to the two sides of its last colon; a
/// text without a colon is none.
pub proof fn endpoint_is_host_and_port(host: Seq<char>, port: Seq<char>)
    requires
        forall|k: int| 0 <= k < port.len() ==> #[trigger] port[k] != ':',
    ensures
        macos::endpoint_value(host + seq![':'] + port) == match (
            macos::host_value(host),
            text::unsigned(port, 10, 0xffff),
        ) {
            (Some(a), Some(p)) => Some((a, p as u16)),
            _ => None,
        },
        macos::endpoint_value(port) is None,
{
    let t = host + seq![':'] + port;
    lemma_last_colon(host, port);
    assert(t.take(host.len() as int) =~= host);
    assert(t.skip(host.len() as int + 1) =~= port);
    text::lemma_find_last(port, ':');
}

/// A host is an address, which may stand in square brackets, or the star.
pub proof fn host_is_an_address(t: Seq<char>)
    ensures
        macos::host_value(seq!['['] + t + seq![']']) == addr::ip_value(t),
        t != seq!['*'] && !(t.len() >= 2 && t[0] == '[' && t.last() == ']') ==> macos::host_value(t)
            == addr::ip_value(t),
        macos::host_value(seq!['*']) == Some(IpAddr::V4(addr::Ipv4Addr { bits: 0 })),
{
    let b = seq!['['] + t + seq![']'];
    reveal_strlit("*");
    assert("*"@ =~= seq!['*']);
    assert(b.len() >= 2 && b[0] == '[' && b.last() == ']');
    assert(macos::within(b) =~= t);
}

// ---------------------------------------------------------------------
// Words of a line
// ---------------------------------------------------------------------

/// The word for each protocol in the column of the node.
pub proof fn nodes_are_named()
    ensures
        macos::node_text(Protocol::Tcp) == seq!['T', 'C', 'P'],
        macos::node_text(Protocol::Udp) == seq!['U', 'D', 'P'],
{
    reveal_strlit("TCP");
    reveal_strlit("UDP");
}

/// Each state has its word, and every other word stands for a state that is
/// not known.
pub proof fn states_have_their_words(word: Seq<char>)
    ensures
        macos::state_value(word) is Listen <==> word == "LISTEN"@,
        macos::state_value(word) is Established <==> word == "ESTABLISHED"@,
        macos::state_value(word) is SynSent <==> word == "SYN_SENT"@,
        macos::state_value(word) is SynRecv <==> word == "SYN_RECEIVED"@,
        macos::state_value(word) is FinWait1 <==> word == "FIN_WAIT_1"@,
        macos::state_value(word) is FinWait2 <==> word == "FIN_WAIT_2"@,
        macos::state_value(word) is TimeWait <==> word == "TIME_WAIT"@,
        macos::state_value(word) is Close <==> word == "CLOSED"@,
        macos::state_value(word) is CloseWait <==> word == "CLOSE_WAIT"@,
        macos::state_value(word) is LastAck <==> word == "LAST_ACK"@,
        macos::state_value(word) is Closing <==> word == "CLOSING"@,
        macos::state_value(word) !is NewSynRecv,
        macos::state_value(word) is Unknown ==> macos::state_value(word) == TcpState::Unknown(0),
{
    reveal_strlit("LISTEN");
    reveal_strlit("ESTABLISHED");
    reveal_strlit("SYN_SENT");
    reveal_strlit("SYN_RECEIVED");
    reveal_strlit("FIN_WAIT_1");
    reveal_strlit("FIN_WAIT_2");
    reveal_strlit("TIME_WAIT");
    reveal_strlit("CLOSED");
    reveal_strlit("CLOSE_WAIT");
    reveal_strlit("LAST_ACK");
    reveal_strlit("CLOSING");
    assert("LISTEN"@.len() == 6);
    assert("ESTABLISHED"@.len() == 11);
    assert("SYN_SENT"@.len() == 8);
    assert("SYN_RECEIVED"@.len() == 12);
    assert("FIN_WAIT_1"@.len() == 10);
    assert("FIN_WAIT_2"@.len() == 10);
    assert("TIME_WAIT"@.len() == 9);
    assert("CLOSED"@.len() == 6);
    assert("CLOSE_WAIT"@.len() == 10);
    assert("LAST_ACK"@.len() == 8);
    assert("CLOSING"@.len() == 7);
    assert("FIN_WAIT_1"@[9] != "FIN_WAIT_2"@[9]);
    assert("LISTEN"@[0] == 'L' && "CLOSED"@[0] == 'C');
    assert("SYN_SENT"@[0] == 'S' && "LAST_ACK"@[0] == 'L');
    assert("FIN_WAIT_1"@[0] == 'F' && "FIN_WAIT_2"@[0] == 'F' && "CLOSE_WAIT"@[0] == 'C');
}

/// A line is a row exactly if, apart from a last word in brackets, it has at
/// least nine words: the one before the last is the protocol, the last is
/// the endpoint, and the eighth from the end is the pid. What stands in
/// front of the pid is the command.
pub proof fn row_is_its_last_columns(w: Seq<Seq<char>>, protocol: Protocol)
    ensures
        ({
            let shown = w.len() > 0 && w.last().len() >= 2 && w.last()[0] == '(' && w.last().last()
                == ')';
            let n: int = if shown {
                w.len() - 1
            } else {
                w.len() as int
            };
            let pid = text::unsigned(w[n - 8], 10, 0xffff_ffff);
            let local = macos::endpoint_value(macos::local_end(w[n - 1]));
            &&& macos::row_value(w, protocol) is Some <==> n >= 9 && w[n - 2] == (
            if protocol is Tcp {
                seq!['T', 'C', 'P']
            } else {
                seq!['U', 'D', 'P']
            }) && pid is Some && local is Some
            &&& macos::row_value(w, protocol) matches Some(e) ==> {
                &&& e.protocol == protocol
                &&& (e.local_addr, e.local_port) == local->0
                &&& e.pid == Some(pid->0 as u32)
                &&& e.process_name == Some(text::join(w.take(n - 8), seq![' ']))
                &&& protocol is Udp ==> e.state is None
                &&& protocol is Tcp && !shown ==> e.state == Some(TcpState::Unknown(0))
                &&& protocol is Tcp && shown ==> e.state == Some(
                    macos::state_value(w.last().subrange(1, w.last().len() - 1)),
                )
            }
        }),
{
    nodes_are_named();
    reveal_strlit(" ");
    assert(" "@ =~= seq![' ']);
    if macos::shows_state(w) && w.len() >= 10 {
        assert(w.drop_last().take(w.len() - 9) =~= w.take(w.len() - 9));
    }
}

// ---------------------------------------------------------------------
// Whole outputs
// ---------------------------------------------------------------------

/// A carriage return at the end of a line is in none of its words.
proof fn lemma_words_drop_cr(s: Seq<char>)
    ensures
        text::words(text::drop_cr(s)) == text::words(s),
{
    if s.len() > 0 && s.last() == '\r' {
        let d = s.drop_last();
        text_laws::white_space_parts_words(d, '\r', seq![]);
        assert(d + seq!['\r'] + Seq::<char>::empty() =~= s);
        assert(text::words(d) + text::words(seq![]) =~= text::words(d));
    }
}

/// The rows of one line.
proof fn lemma_one_row(line: Seq<char>, protocol: Protocol)
    ensures
        macos::rows_in(seq![line], protocol) == match macos::row_value(
            text::words(line),
            protocol,
        ) {
            Some(e) => seq![e],
            None => seq![],
        },
{
    let l = seq![line];
    assert(l.drop_last() =~= seq![]);
    assert(macos::rows_in(l.drop_last(), protocol) =~= seq![]);
    assert(l.last() == line);
    match macos::row_value(text::words(line), protocol) {
        Some(e) => {
            assert(macos::rows_in(l, protocol) =~= seq![e]);
        },
        None => {},
    }
}

/// The rows of a text with one line more in front.
proof fn lemma_rows_front(line: Seq<char>, rest: Seq<char>, protocol: Protocol)
    requires
        forall|k: int| 0 <= k < line.len() ==> #[trigger] line[k] != '\n',
    ensures
        text::lines(line + seq!['\n'] + rest).len() > 0,
        text::lines(line + seq!['\n'] + rest).skip(1) == text::lines(rest),
        macos::rows_in(text::lines(line + seq!['\n'] + rest), protocol) == macos::rows_in(
            seq![line],
            protocol,
        ) + macos::rows_in(text::lines(rest), protocol),
{
    let s = line + seq!['\n'] + rest;
    let n = line.len() as int;
    assert forall|i: int| 0 <= i < n implies s[i] != '\n' by {
        assert(s[i] == line[i]);
    }
    assert(s[n] == '\n');
    text::lemma_find_is(s, '\n', n);
    assert(s.take(n) =~= line);
    assert(s.skip(n + 1) =~= rest);
    let first = seq![text::drop_cr(line)];
    assert(text::lines(s) == first + text::lines(rest));
    assert(text::lines(s).skip(1) =~= text::lines(rest));
    rows_are_independent(first, text::lines(rest), protocol);
    lemma_words_drop_cr(line);
    lemma_one_row(line, protocol);
    lemma_one_row(text::drop_cr(line), protocol);
}

/// The rows of lines are those of each line that holds one, in order.
proof fn lemma_rows_are_picked(lines: Seq<Seq<char>>, protocol: Protocol)
    ensures
        macos::rows_in(lines, protocol) == lines.filter(
            |l: Seq<char>| macos::row_value(text::words(l), protocol) is Some,
        ).map_values(|l: Seq<char>| macos::row_value(text::words(l), protocol)->0),
    decreases lines.len(),
{
    reveal(Seq::filter);
    let is_row = |l: Seq<char>| macos::row_value(text::words(l), protocol) is Some;
    let row = |l: Seq<char>| macos::row_value(text::words(l), protocol)->0;
    if lines.len() > 0 {
        lemma_rows_are_picked(lines.drop_last(), protocol);
        assert(macos::rows_in(lines, protocol) =~= lines.filter(is_row).map_values(row));
    } else {
        assert(macos::rows_in(lines, protocol) =~= lines.filter(is_row).map_values(row));
    }
}

/// The rows of lines that were joined by line feeds are those of the lines.
proof fn lemma_joined_rows(lines: Seq<Seq<char>>, protocol: Protocol)
    requires
        text_laws::none_has(lines, '\n'),
    ensures
        macos::rows_in(text::lines(text::join(lines, seq!['\n'])), protocol) == macos::rows_in(
            lines,
            protocol,
        ),
    decreases lines.len(),
{
    let s = text::join(lines, seq!['\n']);
    if lines.len() == 0 {
        assert(text::lines(s) =~= lines);
    } else {
        let p = lines[0];
        let rest = lines.drop_first();
        assert forall|k: int| 0 <= k < p.len() implies #[trigger] p[k] != '\n' by {
            assert(lines[0][k] != '\n');
        }
        assert forall|i: int, k: int| 0 <= i < rest.len() && 0 <= k < rest[i].len() implies
            #[trigger] rest[i][k] != '\n' by {
            assert(lines[i + 1][k] != '\n');
        }
        if lines.len() == 1 {
            assert(lines =~= seq![p]);
            text_laws::rest_is_a_line(p);
            lemma_one_row(p, protocol);
            if p.len() == 0 {
                text_laws::blank_text_has_no_words(p);
            }
        } else {
            text_laws::lemma_join_front(lines, seq!['\n']);
            lemma_rows_front(p, text::join(rest, seq!['\n']), protocol);
            lemma_joined_rows(rest, protocol);
            rows_are_independent(seq![p], rest, protocol);
            assert(seq![p] + rest =~= lines);
        }
    }
}

/// Whatever the heading is and however many lines follow it, the entries of
/// an output are those of all the lines below the heading that are rows of
/// the protocol, in order; the heading is none.
pub proof fn all_lines_are_read(heading: Seq<char>, lines: Seq<Seq<char>>, protocol: Protocol)
    requires
        forall|k: int| 0 <= k < heading.len() ==> #[trigger] heading[k] != '\n',
        text_laws::none_has(lines, '\n'),
    ensures
        macos::output_value(heading + seq!['\n'] + text::join(lines, seq!['\n']), protocol)
            == macos::rows_in(lines, protocol),
        macos::output_value(heading + seq!['\n'] + text::join(lines, seq!['\n']), protocol)
            == lines.filter(
            |l: Seq<char>| macos::row_value(text::words(l), protocol) is Some,
        ).map_values(|l: Seq<char>| macos::row_value(text::words(l), protocol)->0),
        macos::output_value(heading + seq!['\n'] + text::join(lines, seq!['\n']), protocol).len()
            == lines.filter(
            |l: Seq<char>| macos::row_value(text::words(l), protocol) is Some,
        ).len(),
        macos::output_value(heading, protocol).len() == 0,
{
    lemma_rows_front(heading, text::join(lines, seq!['\n']), protocol);
    lemma_joined_rows(lines, protocol);
    lemma_rows_are_picked(lines, protocol);
    text_laws::rest_is_a_line(heading);
    if heading.len() > 0 {
        assert(macos::body(heading) =~= seq![]);
    }
}

/// A line at the end of an output adds its row, if it is one, behind the
/// others, and takes nothing from them.
pub proof fn one_more_line_is_read(
    heading: Seq<char>,
    lines: Seq<Seq<char>>,
    line: Seq<char>,
    protocol: Protocol,
)
    requires
        forall|k: int| 0 <= k < heading.len() ==> #[trigger] heading[k] != '\n',
        text_laws::none_has(lines, '\n'),
        forall|k: int| 0 <= k < line.len() ==> #[trigger] line[k] != '\n',
    ensures
        ({
            let before = macos::output_value(
                heading + seq!['\n'] + text::join(lines, seq!['\n']),
                protocol,
            );
            let after = macos::output_value(
                heading + seq!['\n'] + text::join(lines.push(line), seq!['\n']),
                protocol,
            );
            match macos::row_value(text::words(line), protocol) {
                Some(e) => after == before.push(e),
                None => after == before,
            }
        }),
{
    let more = lines.push(line);
    assert forall|i: int, k: int| 0 <= i < more.len() && 0 <= k < more[i].len() implies
        #[trigger] more[i][k] != '\n' by {
        if i < lines.len() {
            assert(lines[i][k] != '\n');
        }
    }
    all_lines_are_read(heading, lines, protocol);
    all_lines_are_read(heading, more, protocol);
    assert(more.drop_last() =~= lines);
    assert(more.last() == line);
}

} // verus!
