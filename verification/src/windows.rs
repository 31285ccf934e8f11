//! Windows port source: the owner-PID socket tables that
//! `GetExtendedTcpTable` and `GetExtendedUdpTable` fill, and the process
//! list of `CreateToolhelp32Snapshot`.
//!
//! The calls are made elsewhere. Here it is decided how a table is asked
//! for (`TableFetch`), what the words of a filled table say, and how the
//! processes' names are attached. A table is an array of 32-bit words: the
//! number of rows, then the rows. Windows runs on little-endian machines
//! only, so that the first byte of a word in memory is its lowest.

use crate::addr::{IpAddr, Ipv4Addr, Ipv6Addr};
use crate::model;
use crate::model::{PortEntry, PortEntryView, Protocol, TcpState};
use std::collections::HashMap;
use vstd::prelude::*;
use vstd::slice::*;
use vstd::string::*;

verus! {

broadcast use vstd::std_specs::hash::group_hash_axioms;

/// `char::from_u32` gives the character with the code, and nothing exactly
/// where the code is a surrogate or above the last code point.
pub assume_specification[ char::from_u32 ](i: u32) -> (r: Option<char>)
    ensures
        r == if 0xd800 <= i < 0xe000 || i > 0x10ffff {
            None
        } else {
            Some(i as char)
        },
;

// ---------------------------------------------------------------------
// Fields
// ---------------------------------------------------------------------

/// The port in a port field: its two low bytes, in network order.
pub open spec fn port_value(raw: nat) -> nat {
    raw % 256 * 256 + raw / 256 % 256
}

/// The number whose bytes stand in the word in network order.
pub open spec fn network_value(raw: nat) -> nat {
    raw % 256 * 0x100_0000 + raw / 0x100 % 256 * 0x1_0000 + raw / 0x1_0000 % 256 * 0x100 + raw
        / 0x100_0000
}

/// The address in four words, whose bytes stand in network order.
pub open spec fn address6_value(w: Seq<u32>, at: int) -> nat {
    network_value(w[at] as nat) * 0x1_0000_0000_0000_0000_0000_0000 + network_value(
        w[at + 1] as nat,
    ) * 0x1_0000_0000_0000_0000 + network_value(w[at + 2] as nat) * 0x1_0000_0000 + network_value(
        w[at + 3] as nat,
    )
}

/// Convert the low 16 bits of the port field the IP Helper API returns
/// (network byte order, packed into a `u32`) into a normal host-order port
/// number. The API documents that only the low 16 bits are meaningful.
pub fn convert_port(raw: u32) -> (r: u16)
    ensures
        r == port_value(raw as nat),
{
    (raw % 256 * 256 + raw / 256 % 256) as u16
}

/// The number whose bytes stand in the word in network order.
fn from_network(raw: u32) -> (r: u32)
    ensures
        r == network_value(raw as nat),
{
    raw % 256 * 0x100_0000 + raw / 0x100 % 256 * 0x1_0000 + raw / 0x1_0000 % 256 * 0x100 + raw
        / 0x100_0000
}

/// Convert an IPv4 `dwLocalAddr`-style field (network byte order, packed
/// into a `u32`) into an address.
pub fn convert_ipv4(raw: u32) -> (r: Ipv4Addr)
    ensures
        r.bits == network_value(raw as nat),
{
    Ipv4Addr { bits: from_network(raw) }
}

/// The address in four words.
fn convert_ipv6(words: &[u32], at: usize) -> (r: Ipv6Addr)
    requires
        at + 4 <= words.len(),
    ensures
        r.bits == address6_value(words@, at as int),
{
    Ipv6Addr {
        bits: from_network(words[at]) as u128 * 0x1_0000_0000_0000_0000_0000_0000 + from_network(
            words[at + 1],
        ) as u128 * 0x1_0000_0000_0000_0000 + from_network(words[at + 2]) as u128 * 0x1_0000_0000
            + from_network(words[at + 3]) as u128,
    }
}

// ---------------------------------------------------------------------
// Asking for a table
// ---------------------------------------------------------------------

/// The result code of a call whose buffer is too small.
pub const INSUFFICIENT_BUFFER: u32 = 122;

/// How often a table is asked for.
pub const ATTEMPTS: u32 = 8;

/// A filled table: its words, and how many bytes of them were filled.
#[derive(Debug, PartialEq, Eq)]
pub struct TableBuf {
    pub words: Vec<u32>,
    pub byte_len: usize,
}

impl TableBuf {
    /// Whether nothing was filled.
    pub fn is_empty(&self) -> (r: bool)
        ensures
            r == (self.byte_len == 0),
    {
        self.byte_len == 0
    }
}

/// A table that is being asked for: the buffer and the size in bytes to
/// call with next, and how many calls were answered.
#[derive(Debug, PartialEq, Eq)]
pub struct TableFetch {
    pub words: Vec<u32>,
    pub size: u32,
    pub calls: u32,
}

/// What to do after a call.
#[derive(Debug, PartialEq, Eq)]
pub enum FetchStep {
    /// Call again.
    Again(TableFetch),
    /// The table is filled.
    Done(TableBuf),
    /// The call failed with this code.
    Failed(u32),
    /// The size kept changing.
    GaveUp,
}

/// What a `FetchStep` says.
pub enum FetchStepView {
    Again { words: Seq<u32>, size: u32, calls: u32 },
    Done { words: Seq<u32>, byte_len: nat },
    Failed(u32),
    GaveUp,
}

impl View for FetchStep {
    type V = FetchStepView;

    open spec fn view(&self) -> FetchStepView {
        match self {
            FetchStep::Again(f) => FetchStepView::Again {
                words: f.words@,
                size: f.size,
                calls: f.calls,
            },
            FetchStep::Done(buf) => FetchStepView::Done {
                words: buf.words@,
                byte_len: buf.byte_len as nat,
            },
            FetchStep::Failed(code) => FetchStepView::Failed(*code),
            FetchStep::GaveUp => FetchStepView::GaveUp,
        }
    }
}

/// The number of words that hold this many bytes.
pub open spec fn words_for(size: u32) -> nat {
    (size as nat + 3) / 4
}

/// What to do after a call, before which this many were answered, came
/// back with a result and a size in bytes, and with these words in the
/// buffer. A table that did not fit is asked for again, with a zeroed buffer
/// of the size that was reported.
pub open spec fn step(words: Seq<u32>, calls: u32, result: u32, size: u32) -> FetchStepView {
    if result == 0 {
        FetchStepView::Done { words, byte_len: size as nat }
    } else if result != INSUFFICIENT_BUFFER {
        FetchStepView::Failed(result)
    } else if calls + 1 >= ATTEMPTS {
        FetchStepView::GaveUp
    } else {
        FetchStepView::Again {
            words: Seq::new(words_for(size), |i: int| 0u32),
            size,
            calls: (calls + 1) as u32,
        }
    }
}

impl TableFetch {
    /// The first call asks for the size only, with no buffer.
    pub fn new() -> (r: Self)
        ensures
            r.words@ == Seq::<u32>::empty(),
            r.size == 0,
            r.calls == 0,
    {
        TableFetch { words: Vec::new(), size: 0, calls: 0 }
    }

    /// What to do after the call came back with a result and a size in
    /// bytes. The table can grow between two calls, so that it takes a few
    /// attempts.
    pub fn answered(self, result: u32, size: u32) -> (r: FetchStep)
        ensures
            r@ == step(self.words@, self.calls, result, size),
    {
        if result == 0 {
            return FetchStep::Done(TableBuf { words: self.words, byte_len: size as usize });
        }
        if result != INSUFFICIENT_BUFFER {
            return FetchStep::Failed(result);
        }
        if self.calls >= ATTEMPTS - 1 {
            return FetchStep::GaveUp;
        }
        let count: u32 = if size % 4 == 0 {
            size / 4
        } else {
            size / 4 + 1
        };
        FetchStep::Again(
            TableFetch { words: zero_words(count as usize), size, calls: self.calls + 1 },
        )
    }
}

/// This many zeros.
fn zero_words(n: usize) -> (r: Vec<u32>)
    ensures
        r@ == Seq::new(n as nat, |i: int| 0u32),
{
    let mut out: Vec<u32> = Vec::new();
    let mut i: usize = 0;
    while i < n
        invariant
            i <= n,
            out@ == Seq::new(i as nat, |k: int| 0u32),
        decreases n - i,
    {
        out.push(0);
        i += 1;
        assert(out@ =~= Seq::new(i as nat, |k: int| 0u32));
    }
    out
}

// ---------------------------------------------------------------------
// What a table says
// ---------------------------------------------------------------------

/// The four owner-PID tables.
#[derive(Debug, Clone, Copy, PartialEq, Eq, Structural)]
pub enum Table {
    Tcp4,
    Tcp6,
    Udp4,
    Udp6,
}

impl Table {
    /// How many words a row of the table has.
    pub open spec fn row_len(self) -> nat {
        match self {
            Table::Tcp4 => 6,
            Table::Tcp6 => 14,
            Table::Udp4 => 3,
            Table::Udp6 => 7,
        }
    }

    /// The entry for the row that starts at word `at`. Its fields, in
    /// words:
    /// - TCP: state, local address, local port, remote address, remote
    ///   port, owner.
    /// - TCP over IPv6: local address (4), scope, local port, remote
    ///   address (4), scope, remote port, state, owner.
    /// - UDP: local address, local port, owner.
    /// - UDP over IPv6: local address (4), scope, local port, owner.
    pub open spec fn row_value(self, w: Seq<u32>, at: int) -> PortEntryView {
        match self {
            Table::Tcp4 => PortEntryView {
                protocol: Protocol::Tcp,
                local_addr: IpAddr::V4(Ipv4Addr { bits: network_value(w[at + 1] as nat) as u32 }),
                local_port: port_value(w[at + 2] as nat) as u16,
                state: Some(model::windows_state(w[at])),
                pid: Some(w[at + 5]),
                process_name: None,
            },
            Table::Tcp6 => PortEntryView {
                protocol: Protocol::Tcp,
                local_addr: IpAddr::V6(Ipv6Addr { bits: address6_value(w, at) as u128 }),
                local_port: port_value(w[at + 5] as nat) as u16,
                state: Some(model::windows_state(w[at + 12])),
                pid: Some(w[at + 13]),
                process_name: None,
            },
            Table::Udp4 => PortEntryView {
                protocol: Protocol::Udp,
                local_addr: IpAddr::V4(Ipv4Addr { bits: network_value(w[at] as nat) as u32 }),
                local_port: port_value(w[at + 1] as nat) as u16,
                state: None,
                pid: Some(w[at + 2]),
                process_name: None,
            },
            Table::Udp6 => PortEntryView {
                protocol: Protocol::Udp,
                local_addr: IpAddr::V6(Ipv6Addr { bits: address6_value(w, at) as u128 }),
                local_port: port_value(w[at + 5] as nat) as u16,
                state: None,
                pid: Some(w[at + 6]),
                process_name: None,
            },
        }
    }

    /// How many rows there are to read: as many as the first word says, as
    /// far as the buffer holds them whole.
    pub open spec fn row_count(self, buf: TableBuf) -> nat {
        let w = buf.words@;
        if buf.byte_len == 0 || w.len() == 0 {
            0
        } else {
            let fit = (w.len() - 1) as nat / self.row_len();
            if w[0] < fit {
                w[0] as nat
            } else {
                fit
            }
        }
    }

    /// The entries of the table, in the order of its rows.
    pub open spec fn entries(self, buf: TableBuf) -> Seq<PortEntryView> {
        Seq::new(
            self.row_count(buf),
            |i: int| self.row_value(buf.words@, 1 + i * self.row_len()),
        )
    }

    /// How many words a row of the table has.
    fn row_words(self) -> (r: usize)
        ensures
            r == self.row_len(),
    {
        match self {
            Table::Tcp4 => 6,
            Table::Tcp6 => 14,
            Table::Udp4 => 3,
            Table::Udp6 => 7,
        }
    }

    /// The entry for the row that starts at word `at`.
    fn row(self, w: &[u32], at: usize) -> (r: PortEntry)
        requires
            at + self.row_len() <= w.len(),
        ensures
            r@ == self.row_value(w@, at as int),
    {
        match self {
            Table::Tcp4 => PortEntry {
                protocol: Protocol::Tcp,
                local_addr: IpAddr::V4(convert_ipv4(w[at + 1])),
                local_port: convert_port(w[at + 2]),
                state: Some(TcpState::from_windows_code(w[at])),
                pid: Some(w[at + 5]),
                process_name: None,
            },
            Table::Tcp6 => PortEntry {
                protocol: Protocol::Tcp,
                local_addr: IpAddr::V6(convert_ipv6(w, at)),
                local_port: convert_port(w[at + 5]),
                state: Some(TcpState::from_windows_code(w[at + 12])),
                pid: Some(w[at + 13]),
                process_name: None,
            },
            Table::Udp4 => PortEntry {
                protocol: Protocol::Udp,
                local_addr: IpAddr::V4(convert_ipv4(w[at])),
                local_port: convert_port(w[at + 1]),
                state: None,
                pid: Some(w[at + 2]),
                process_name: None,
            },
            Table::Udp6 => PortEntry {
                protocol: Protocol::Udp,
                local_addr: IpAddr::V6(convert_ipv6(w, at)),
                local_port: convert_port(w[at + 5]),
                state: None,
                pid: Some(w[at + 6]),
                process_name: None,
            },
        }
    }

    /// The entries of the table.
    fn read(self, buf: &TableBuf) -> (r: Vec<PortEntry>)
        ensures
            model::entry_views(r@) == self.entries(*buf),
    {
        let mut out: Vec<PortEntry> = Vec::new();
        let ghost all = self.entries(*buf);
        if buf.is_empty() || buf.words.len() == 0 {
            assert(model::entry_views(out@) =~= all);
            return out;
        }
        let w = buf.words.as_slice();
        let len = self.row_words();
        let fit: usize = (w.len() - 1) / len;
        let count: usize = if w[0] as u64 <= fit as u64 {
            w[0] as usize
        } else {
            fit
        };
        assert(count == self.row_count(*buf));
        assert(fit * len <= w@.len() - 1) by (nonlinear_arith)
            requires
                fit == (w@.len() - 1) as nat / len as nat,
                len > 0,
                w@.len() >= 1,
        ;
        let mut i: usize = 0;
        let mut at: usize = 1;
        assert(model::entry_views(out@) =~= all.take(0));
        while i < count
            invariant
                w@ == buf.words@,
                all == self.entries(*buf),
                all.len() == count,
                len == self.row_len(),
                i <= count <= fit,
                at == 1 + i * len,
                w@.len() <= usize::MAX,
                fit * len <= w@.len() - 1,
                model::entry_views(out@) == all.take(i as int),
            decreases count - i,
        {
            proof {
                assert((i + 1) * len == i * len + len) by (nonlinear_arith);
                assert((i + 1) * len <= fit * len) by (nonlinear_arith)
                    requires
                        i + 1 <= fit,
                ;
            }
            let ghost before = model::entry_views(out@);
            let e = self.row(w, at);
            out.push(e);
            i += 1;
            at += len;
            proof {
                assert(model::entry_views(out@) =~= before.push(e@));
                assert(all.take(i as int) =~= all.take(i - 1).push(all[i - 1]));
            }
        }
        assert(all.take(i as int) =~= all);
        out
    }
}

/// The entries of the TCP table.
pub fn scan_tcp4(buf: &TableBuf) -> (r: Vec<PortEntry>)
    ensures
        model::entry_views(r@) == Table::Tcp4.entries(*buf),
{
    Table::Tcp4.read(buf)
}

/// The entries of the TCP table over IPv6.
pub fn scan_tcp6(buf: &TableBuf) -> (r: Vec<PortEntry>)
    ensures
        model::entry_views(r@) == Table::Tcp6.entries(*buf),
{
    Table::Tcp6.read(buf)
}

/// The entries of the UDP table.
pub fn scan_udp4(buf: &TableBuf) -> (r: Vec<PortEntry>)
    ensures
        model::entry_views(r@) == Table::Udp4.entries(*buf),
{
    Table::Udp4.read(buf)
}

/// The entries of the UDP table over IPv6.
pub fn scan_udp6(buf: &TableBuf) -> (r: Vec<PortEntry>)
    ensures
        model::entry_views(r@) == Table::Udp6.entries(*buf),
{
    Table::Udp6.read(buf)
}

// ---------------------------------------------------------------------
// Names of processes
// ---------------------------------------------------------------------

/// Whether the unit is the first half of a pair.
pub open spec fn is_high(u: u16) -> bool {
    0xd800 <= u < 0xdc00
}

/// Whether the unit is the second half of a pair.
pub open spec fn is_low(u: u16) -> bool {
    0xdc00 <= u < 0xe000
}

/// The text that UTF-16 units write, with a replacement character for each
/// half that has lost its other half.
pub open spec fn utf16_text(w: Seq<u16>) -> Seq<char>
    decreases w.len(),
{
    if w.len() == 0 {
        seq![]
    } else if is_high(w[0]) && w.len() > 1 && is_low(w[1]) {
        seq![(0x1_0000 + (w[0] - 0xd800) * 0x400 + (w[1] - 0xdc00)) as char] + utf16_text(w.skip(2))
    } else if is_high(w[0]) || is_low(w[0]) {
        seq!['\u{fffd}'] + utf16_text(w.skip(1))
    } else {
        seq![w[0] as char] + utf16_text(w.skip(1))
    }
}

/// The units in front of the first zero, or all of them if there is none.
pub open spec fn up_to_nul(w: Seq<u16>) -> Seq<u16>
    decreases w.len(),
{
    if w.len() == 0 || w[0] == 0 {
        seq![]
    } else {
        seq![w[0]] + up_to_nul(w.skip(1))
    }
}

/// The character with this code, or the replacement character.
fn char_of(code: u32) -> (r: char)
    ensures
        r == if 0xd800 <= code < 0xe000 || code > 0x10ffff {
            '\u{fffd}'
        } else {
            code as char
        },
{
    match char::from_u32(code) {
        Some(c) => c,
        None => '\u{fffd}',
    }
}

/// The text of a wide string, up to its terminating zero.
pub fn wide_to_string(wide: &[u16]) -> (r: String)
    ensures
        r@ == utf16_text(up_to_nul(wide@)),
{
    let mut len: usize = 0;
    assert(wide@.skip(0) =~= wide@);
    assert(wide@.take(0) + up_to_nul(wide@) =~= up_to_nul(wide@));
    while len < wide.len() && wide[len] != 0
        invariant
            len <= wide.len(),
            wide@.take(len as int) + up_to_nul(wide@.skip(len as int)) == up_to_nul(wide@),
        decreases wide.len() - len,
    {
        proof {
            let rest = wide@.skip(len as int);
            assert(rest.skip(1) =~= wide@.skip(len + 1));
            assert(wide@.take(len as int) + (seq![rest[0]] + up_to_nul(rest.skip(1)))
                =~= wide@.take(len + 1) + up_to_nul(wide@.skip(len + 1)));
        }
        len += 1;
    }
    assert(up_to_nul(wide@) =~= wide@.take(len as int));
    let w = slice_subrange(wide, 0, len);
    assert(w@ =~= up_to_nul(wide@));
    let mut out = String::new();
    let mut i: usize = 0;
    assert(w@.skip(0) =~= w@);
    assert(out@ + utf16_text(w@) =~= utf16_text(w@));
    while i < w.len()
        invariant
            i <= w.len(),
            out@ + utf16_text(w@.skip(i as int)) == utf16_text(w@),
        decreases w.len() - i,
    {
        let ghost rest = w@.skip(i as int);
        let ghost before = out@;
        let u: u32 = w[i] as u32;
        if 0xd800 <= u && u < 0xdc00 && w.len() - i > 1 && 0xdc00 <= w[i + 1] && w[i + 1] < 0xe000 {
            let low: u32 = w[i + 1] as u32;
            let c = char_of(0x1_0000 + (u - 0xd800) * 0x400 + (low - 0xdc00));
            out.push(c);
            i += 2;
            proof {
                assert(rest.skip(2) =~= w@.skip(i as int));
                assert(before + (seq![c] + utf16_text(w@.skip(i as int))) =~= before.push(c)
                    + utf16_text(w@.skip(i as int)));
            }
        } else {
            let c = char_of(u);
            out.push(c);
            i += 1;
            proof {
                assert(rest.skip(1) =~= w@.skip(i as int));
                assert(before + (seq![c] + utf16_text(w@.skip(i as int))) =~= before.push(c)
                    + utf16_text(w@.skip(i as int)));
            }
        }
    }
    assert(out@ + utf16_text(w@.skip(i as int)) =~= out@);
    out
}

/// A row of the process list: a pid and the name of its executable, as a
/// wide string.
#[derive(Debug)]
pub struct Process {
    pub pid: u32,
    pub exe_file: Vec<u16>,
}

/// The names of the processes in the list, of those that have one: the
/// name in its last row, where a process has several.
pub open spec fn names_in(list: Seq<Process>) -> Map<u32, Seq<char>>
    decreases list.len(),
{
    if list.len() == 0 {
        Map::empty()
    } else {
        let rest = names_in(list.drop_last());
        let name = utf16_text(up_to_nul(list.last().exe_file@));
        if name.len() == 0 {
            rest
        } else {
            rest.insert(list.last().pid, name)
        }
    }
}

/// Build a `pid -> executable name` map from the process list.
pub fn process_names(list: &[Process]) -> (r: HashMap<u32, String>)
    ensures
        model::names_view(r@) == names_in(list@),
{
    let mut names: HashMap<u32, String> = HashMap::new();
    let mut i: usize = 0;
    assert(list@.take(0) =~= seq![]);
    assert(model::names_view(names@) =~= Map::empty());
    while i < list.len()
        invariant
            i <= list@.len(),
            model::names_view(names@) == names_in(list@.take(i as int)),
        decreases list.len() - i,
    {
        proof {
            assert(list@.take(i + 1).drop_last() =~= list@.take(i as int));
            assert(list@.take(i + 1).last() == list@[i as int]);
        }
        let ghost before = names@;
        let name = wide_to_string(list[i].exe_file.as_slice());
        if name.as_str().unicode_len() > 0 {
            names.insert(list[i].pid, name);
            assert(model::names_view(names@) =~= model::names_view(before).insert(
                list@[i as int].pid,
                name@,
            ));
        }
        i += 1;
    }
    assert(list@.take(i as int) =~= list@);
    names
}

/// The entry with the name of its owner. Of an entry without an owner
/// nothing changes.
pub open spec fn named(e: PortEntryView, names: Map<u32, Seq<char>>) -> PortEntryView {
    PortEntryView {
        process_name: if e.pid is Some {
            model::name_in(names, e.pid)
        } else {
            e.process_name
        },
        ..e
    }
}

/// The entries with the names of their owners.
pub open spec fn all_named(
    entries: Seq<PortEntryView>,
    names: Map<u32, Seq<char>>,
) -> Seq<PortEntryView> {
    entries.map_values(|e: PortEntryView| named(e, names))
}

/// Give each entry the name of its owner, where that is known.
pub fn attach_names(entries: Vec<PortEntry>, names: &HashMap<u32, String>) -> (r: Vec<PortEntry>)
    ensures
        model::entry_views(r@) == all_named(
            model::entry_views(entries@),
            model::names_view(names@),
        ),
{
    let ghost all = all_named(model::entry_views(entries@), model::names_view(names@));
    let mut out: Vec<PortEntry> = Vec::new();
    let mut i: usize = 0;
    assert(model::entry_views(out@) =~= all.take(0));
    while i < entries.len()
        invariant
            all == all_named(model::entry_views(entries@), model::names_view(names@)),
            i <= entries@.len(),
            model::entry_views(out@) == all.take(i as int),
        decreases entries.len() - i,
    {
        let ghost before = model::entry_views(out@);
        let mut e = entries[i].clone();
        if e.pid.is_some() {
            e.process_name = model::find_name(names, e.pid);
        }
        out.push(e);
        i += 1;
        proof {
            assert(model::entry_views(out@) =~= before.push(e@));
            assert(all.take(i as int) =~= all.take(i - 1).push(all[i - 1]));
            assert(e@ == all[i - 1]);
        }
    }
    assert(all.take(i as int) =~= all);
    out
}

/// The entries of all four tables, one table after the other.
pub open spec fn all_entries(
    tcp4: TableBuf,
    tcp6: TableBuf,
    udp4: TableBuf,
    udp6: TableBuf,
) -> Seq<PortEntryView> {
    Table::Tcp4.entries(tcp4) + Table::Tcp6.entries(tcp6) + Table::Udp4.entries(udp4)
        + Table::Udp6.entries(udp6)
}

/// The entries of a scan: those of the four tables, one after the other,
/// with the names of their owners.
pub fn table_entries(
    tcp4: &TableBuf,
    tcp6: &TableBuf,
    udp4: &TableBuf,
    udp6: &TableBuf,
    names: &HashMap<u32, String>,
) -> (r: Vec<PortEntry>)
    ensures
        model::entry_views(r@) == all_named(
            all_entries(*tcp4, *tcp6, *udp4, *udp6),
            model::names_view(names@),
        ),
{
    let mut entries = scan_tcp4(tcp4);
    let mut b = scan_tcp6(tcp6);
    let mut c = scan_udp4(udp4);
    let mut d = scan_udp6(udp6);
    let ghost all = entries@ + b@ + c@ + d@;
    assert(model::entry_views(all) =~= model::entry_views(entries@) + model::entry_views(b@)
        + model::entry_views(c@) + model::entry_views(d@));
    entries.append(&mut b);
    entries.append(&mut c);
    entries.append(&mut d);
    assert(entries@ =~= all);
    attach_names(entries, names)
}

} // verus!
