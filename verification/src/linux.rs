//! Linux port source: the socket tables `/proc/net/{tcp,tcp6,udp,udp6}`,
//! and the owners of their sockets, which are found by following the
//! entries of `/proc/<pid>/fd`.
//!
//! Everything here works on text that has been read already. A scan is:
//! find the owners of sockets (`socket_owners`), read the rows of the four
//! tables (`read_tables`), look up the name of each owning process
//! (`owning_pids`), and put it together (`resolve`).

use crate::addr;
use crate::addr::{IpAddr, Ipv4Addr, Ipv6Addr};
use crate::model;
use crate::model::{PortEntry, PortEntryView, Protocol, TcpState};
use crate::text;
use std::collections::HashMap;
use vstd::prelude::*;
use vstd::slice::*;
use vstd::string::*;

verus! {

broadcast use vstd::std_specs::hash::group_hash_axioms;

// ---------------------------------------------------------------------
// Socket tables
// ---------------------------------------------------------------------

/// The byte that two hexadecimal digits of `t` write, from place `i` on.
pub open spec fn byte_at(t: Seq<char>, i: int) -> Option<nat> {
    text::unsigned(t.subrange(i, i + 2), 16, 255)
}

/// The IPv4 address in an address field. The kernel writes the address as
/// it sits in memory (little-endian on every Linux architecture of
/// interest), so that its octets stand in reverse.
pub open spec fn ipv4_hex_value(t: Seq<char>) -> Option<nat> {
    if t.len() == 8 && byte_at(t, 0) is Some && byte_at(t, 2) is Some && byte_at(t, 4) is Some
        && byte_at(t, 6) is Some {
        Some(
            addr::from_octets(
                seq![byte_at(t, 6)->0, byte_at(t, 4)->0, byte_at(t, 2)->0, byte_at(t, 0)->0],
            ),
        )
    } else {
        None
    }
}

/// The word of an IPv6 address field from place `i` on, which is written
/// as an IPv4 address is.
pub open spec fn word_at(t: Seq<char>, i: int) -> Option<nat> {
    ipv4_hex_value(t.subrange(i, i + 8))
}

/// The IPv6 address in an address field: four words, first to last.
pub open spec fn ipv6_hex_value(t: Seq<char>) -> Option<nat> {
    if t.len() == 32 && word_at(t, 0) is Some && word_at(t, 8) is Some && word_at(t, 16) is Some
        && word_at(t, 24) is Some {
        Some(
            word_at(t, 0)->0 * 0x1_0000_0000_0000_0000_0000_0000 + word_at(t, 8)->0
                * 0x1_0000_0000_0000_0000 + word_at(t, 16)->0 * 0x1_0000_0000 + word_at(t, 24)->0,
        )
    } else {
        None
    }
}

/// The address in an address field of a table of either family.
pub open spec fn addr_hex_value(t: Seq<char>, v6: bool) -> Option<IpAddr> {
    if v6 {
        match ipv6_hex_value(t) {
            Some(v) => Some(IpAddr::V6(Ipv6Addr { bits: v as u128 })),
            None => None,
        }
    } else {
        match ipv4_hex_value(t) {
            Some(v) => Some(IpAddr::V4(Ipv4Addr { bits: v as u32 })),
            None => None,
        }
    }
}

/// The address and port in a field `address:port`, both in hexadecimal.
pub open spec fn addr_port_value(t: Seq<char>, v6: bool) -> Option<(IpAddr, u16)> {
    let n = text::find(t, ':');
    if n < t.len() {
        match (
            addr_hex_value(t.take(n), v6),
            text::unsigned(t.skip(n + 1), 16, u16::MAX as nat),
        ) {
            (Some(a), Some(p)) => Some((a, p as u16)),
            _ => None,
        }
    } else {
        None
    }
}

/// One row of `/proc/net/{tcp,udp}[6]`, before process ownership has been
/// resolved.
#[derive(Debug, Clone, Copy, PartialEq, Eq, Structural)]
pub struct RawSocket {
    pub local_addr: IpAddr,
    pub local_port: u16,
    pub state: u32,
    pub inode: u64,
}

/// The row in a line of a table. Blank lines, the heading, and lines that
/// do not have the fields of a row hold none.
pub open spec fn row_value(line: Seq<char>, v6: bool) -> Option<RawSocket> {
    let t = text::trim(line);
    let f = text::words(t);
    if t.len() == 0 || (t.len() >= 2 && t[0] == 's' && t[1] == 'l') || f.len() < 10 {
        None
    } else {
        match (
            addr_port_value(f[1], v6),
            text::unsigned(f[3], 16, u32::MAX as nat),
            text::unsigned(f[9], 10, u64::MAX as nat),
        ) {
            (Some((local_addr, local_port)), Some(state), Some(inode)) => Some(
                RawSocket { local_addr, local_port, state: state as u32, inode: inode as u64 },
            ),
            _ => None,
        }
    }
}

/// The rows in the lines of a table, in order.
pub open spec fn rows_in(lines: Seq<Seq<char>>, v6: bool) -> Seq<RawSocket>
    decreases lines.len(),
{
    if lines.len() == 0 {
        seq![]
    } else {
        let rest = rows_in(lines.drop_last(), v6);
        match row_value(lines.last(), v6) {
            Some(row) => rest.push(row),
            None => rest,
        }
    }
}

/// The rows of a table.
pub open spec fn table_value(content: Seq<char>, v6: bool) -> Seq<RawSocket> {
    rows_in(text::lines(content), v6)
}

/// The byte that two digits write.
fn byte_of(t: &[char], i: usize) -> (r: Option<u8>)
    requires
        i + 2 <= t.len(),
    ensures
        match r {
            Some(b) => byte_at(t@, i as int) == Some(b as nat),
            None => byte_at(t@, i as int) is None,
        },
{
    match text::unsigned_of(slice_subrange(t, i, i + 2), 16, 255) {
        Some(v) => Some(v as u8),
        None => None,
    }
}

/// The IPv4 address in an address field.
fn ipv4_hex_of(t: &[char]) -> (r: Option<u32>)
    ensures
        match r {
            Some(v) => ipv4_hex_value(t@) == Some(v as nat),
            None => ipv4_hex_value(t@) is None,
        },
{
    if t.len() != 8 {
        return None;
    }
    match (byte_of(t, 0), byte_of(t, 2), byte_of(t, 4), byte_of(t, 6)) {
        (Some(d), Some(c), Some(b), Some(a)) => Some(Ipv4Addr::new(a, b, c, d).bits),
        _ => None,
    }
}

/// The IPv6 address in an address field.
fn ipv6_hex_of(t: &[char]) -> (r: Option<u128>)
    ensures
        match r {
            Some(v) => ipv6_hex_value(t@) == Some(v as nat),
            None => ipv6_hex_value(t@) is None,
        },
{
    if t.len() != 32 {
        return None;
    }
    match (
        ipv4_hex_of(slice_subrange(t, 0, 8)),
        ipv4_hex_of(slice_subrange(t, 8, 16)),
        ipv4_hex_of(slice_subrange(t, 16, 24)),
        ipv4_hex_of(slice_subrange(t, 24, 32)),
    ) {
        (Some(a), Some(b), Some(c), Some(d)) => Some(
            a as u128 * 0x1_0000_0000_0000_0000_0000_0000 + b as u128 * 0x1_0000_0000_0000_0000
                + c as u128 * 0x1_0000_0000 + d as u128,
        ),
        _ => None,
    }
}

/// Parse the 8-hex-character IPv4 address field used in `/proc/net/tcp`.
pub fn parse_ipv4_hex(hex: &str) -> (r: Option<Ipv4Addr>)
    ensures
        match r {
            Some(a) => ipv4_hex_value(hex@) == Some(a.bits as nat),
            None => ipv4_hex_value(hex@) is None,
        },
{
    let t = text::chars_of(hex);
    match ipv4_hex_of(t.as_slice()) {
        Some(bits) => Some(Ipv4Addr { bits }),
        None => None,
    }
}

/// Parse the 32-hex-character IPv6 address field. Same byte-order quirk as
/// IPv4, applied independently within each of the four 32-bit words that
/// make up the address.
pub fn parse_ipv6_hex(hex: &str) -> (r: Option<Ipv6Addr>)
    ensures
        match r {
            Some(a) => ipv6_hex_value(hex@) == Some(a.bits as nat),
            None => ipv6_hex_value(hex@) is None,
        },
{
    let t = text::chars_of(hex);
    match ipv6_hex_of(t.as_slice()) {
        Some(bits) => Some(Ipv6Addr { bits }),
        None => None,
    }
}

/// The address and port in a field.
fn addr_port_of(t: &[char], v6: bool) -> (r: Option<(IpAddr, u16)>)
    ensures
        r == addr_port_value(t@, v6),
{
    let n = text::find_in(t, ':');
    if n == t.len() {
        return None;
    }
    let head = slice_subrange(t, 0, n);
    let tail = slice_subrange(t, n + 1, t.len());
    assert(head@ =~= t@.take(n as int));
    assert(tail@ =~= t@.skip(n + 1));
    let address = if v6 {
        match ipv6_hex_of(head) {
            Some(bits) => IpAddr::V6(Ipv6Addr { bits }),
            None => {
                return None;
            },
        }
    } else {
        match ipv4_hex_of(head) {
            Some(bits) => IpAddr::V4(Ipv4Addr { bits }),
            None => {
                return None;
            },
        }
    };
    match text::unsigned_of(tail, 16, u16::MAX as u64) {
        Some(port) => Some((address, port as u16)),
        None => None,
    }
}

/// Parse an `address:port` field of a socket table.
pub fn parse_addr_port(field: &str, v6: bool) -> (r: Option<(IpAddr, u16)>)
    ensures
        r == addr_port_value(field@, v6),
{
    let t = text::chars_of(field);
    addr_port_of(t.as_slice(), v6)
}

/// The row in a line of a table.
fn row_of(line: &[char], v6: bool) -> (r: Option<RawSocket>)
    ensures
        r == row_value(line@, v6),
{
    let t = text::trim_of(line);
    if t.len() == 0 || (t.len() >= 2 && t[0] == 's' && t[1] == 'l') {
        return None;
    }
    // sl local_address rem_address st tx_queue:rx_queue tr:tm->when
    // retrnsmt uid timeout inode ...
    let f = text::words_of(t);
    let ghost w = text::words(t@);
    assert(w == text::slices(f@) && w.len() == f@.len());
    if f.len() < 10 {
        return None;
    }
    assert(w[1] == f@[1]@ && w[3] == f@[3]@ && w[9] == f@[9]@);
    match (
        addr_port_of(f[1], v6),
        text::unsigned_of(f[3], 16, u32::MAX as u64),
        text::unsigned_of(f[9], 10, u64::MAX),
    ) {
        (Some((local_addr, local_port)), Some(state), Some(inode)) => Some(
            RawSocket { local_addr, local_port, state: state as u32, inode },
        ),
        _ => None,
    }
}

/// Parse the body of a `/proc/net/tcp`-style file (heading included or
/// not; it is detected and skipped either way).
pub fn parse_proc_net(content: &str, v6: bool) -> (r: Vec<RawSocket>)
    ensures
        r@ == table_value(content@, v6),
{
    let chars = text::chars_of(content);
    let lines = text::lines_of(chars.as_slice());
    let ghost all = text::slices(lines@);
    let mut out: Vec<RawSocket> = Vec::new();
    let mut i: usize = 0;
    assert(out@ =~= rows_in(all.take(0), v6));
    while i < lines.len()
        invariant
            all == text::slices(lines@),
            i <= lines@.len(),
            out@ == rows_in(all.take(i as int), v6),
        decreases lines.len() - i,
    {
        proof {
            assert(all.take(i + 1).drop_last() =~= all.take(i as int));
            assert(all.take(i + 1).last() == lines@[i as int]@);
        }
        if let Some(row) = row_of(lines[i], v6) {
            out.push(row);
        }
        i += 1;
    }
    assert(all.take(i as int) =~= all);
    out
}

// ---------------------------------------------------------------------
// Owners of sockets
// ---------------------------------------------------------------------

/// The inode in the target `socket:[inode]` of a file descriptor.
pub open spec fn inode_value(target: Seq<char>) -> Option<u64> {
    let head = "socket:["@;
    if target.len() > head.len() && target.take(head.len() as int) == head && target.last() == ']' {
        match text::unsigned(
            target.subrange(head.len() as int, target.len() - 1),
            10,
            u64::MAX as nat,
        ) {
            Some(v) => Some(v as u64),
            None => None,
        }
    } else {
        None
    }
}

/// Extract the inode number from a `socket:[12345]` symlink target.
pub fn parse_socket_inode(target: &str) -> (r: Option<u64>)
    ensures
        r == inode_value(target@),
{
    proof {
        reveal_strlit("socket:[");
    }
    let t = text::chars_of(target);
    let t = t.as_slice();
    if t.len() <= 8 {
        return None;
    }
    let head = slice_subrange(t, 0, 8);
    assert(head@ =~= target@.take(8));
    if !text::is_text(head, "socket:[") || t[t.len() - 1] != ']' {
        return None;
    }
    text::unsigned_of(slice_subrange(t, 8, t.len() - 1), 10, u64::MAX)
}

/// What was found behind an entry of `/proc/<pid>/fd`: the target of the
/// link it is; or, where it is no link, what it holds as a file; or
/// nothing that can be read.
#[derive(Debug)]
pub enum FdEntry {
    Link(String),
    File(String),
    Unreadable,
}

/// An entry of `/proc`: its name, and what its `fd` directory holds where
/// that can be listed.
#[derive(Debug)]
pub struct ProcDir {
    pub name: String,
    pub fds: Option<Vec<FdEntry>>,
}

/// The inode of the socket behind a file descriptor, if it is one. The
/// white space around a file's content does not count.
pub open spec fn fd_inode(fd: FdEntry) -> Option<u64> {
    match fd {
        FdEntry::Link(target) => inode_value(target@),
        FdEntry::File(content) => inode_value(text::trim(content@)),
        FdEntry::Unreadable => None,
    }
}

/// The pid that an entry of `/proc` is named after, if it is named after
/// one.
pub open spec fn pid_value(name: Seq<char>) -> Option<u32> {
    match text::unsigned(name, 10, u32::MAX as nat) {
        Some(v) => Some(v as u32),
        None => None,
    }
}

/// The owners known so far, with those of one process added: the first
/// process found to hold a socket stays its owner.
pub open spec fn with_fds(owners: Map<u64, u32>, pid: u32, fds: Seq<FdEntry>) -> Map<u64, u32>
    decreases fds.len(),
{
    if fds.len() == 0 {
        owners
    } else {
        let known = with_fds(owners, pid, fds.drop_last());
        match fd_inode(fds.last()) {
            Some(inode) => if known.contains_key(inode) {
                known
            } else {
                known.insert(inode, pid)
            },
            None => known,
        }
    }
}

/// The owner of each socket: the first process that holds it. Entries that
/// are not named after a pid, and processes whose descriptors cannot be
/// listed, are passed over.
pub open spec fn owners_in(dirs: Seq<ProcDir>) -> Map<u64, u32>
    decreases dirs.len(),
{
    if dirs.len() == 0 {
        Map::empty()
    } else {
        let known = owners_in(dirs.drop_last());
        match (pid_value(dirs.last().name@), dirs.last().fds) {
            (Some(pid), Some(fds)) => with_fds(known, pid, fds@),
            _ => known,
        }
    }
}

/// The pid that an entry of `/proc` is named after.
pub fn parse_pid(name: &str) -> (r: Option<u32>)
    ensures
        r == pid_value(name@),
{
    let t = text::chars_of(name);
    match text::unsigned_of(t.as_slice(), 10, u32::MAX as u64) {
        Some(v) => Some(v as u32),
        None => None,
    }
}

/// The inode of the socket behind a file descriptor.
fn fd_inode_of(fd: &FdEntry) -> (r: Option<u64>)
    ensures
        r == fd_inode(*fd),
{
    match fd {
        FdEntry::Link(target) => parse_socket_inode(target.as_str()),
        FdEntry::File(content) => {
            let target = trimmed(content.as_str());
            parse_socket_inode(target.as_str())
        },
        FdEntry::Unreadable => None,
    }
}

/// The text without the white space around it.
fn trimmed(s: &str) -> (r: String)
    ensures
        r@ == text::trim(s@),
{
    let t = text::chars_of(s);
    text::string_of(text::trim_of(t.as_slice()))
}

/// Add the sockets of one process to the owners.
fn add_fds(owners: &mut HashMap<u64, u32>, pid: u32, fds: &Vec<FdEntry>)
    ensures
        final(owners)@ == with_fds(old(owners)@, pid, fds@),
{
    let mut i: usize = 0;
    while i < fds.len()
        invariant
            i <= fds@.len(),
            owners@ == with_fds(old(owners)@, pid, fds@.take(i as int)),
        decreases fds.len() - i,
    {
        proof {
            assert(fds@.take(i + 1).drop_last() =~= fds@.take(i as int));
            assert(fds@.take(i + 1).last() == fds@[i as int]);
        }
        if let Some(inode) = fd_inode_of(&fds[i]) {
            if !owners.contains_key(&inode) {
                owners.insert(inode, pid);
            }
        }
        i += 1;
    }
    assert(fds@.take(i as int) =~= fds@);
}

/// Build an `inode -> pid` map from what the `fd` directories of `/proc`
/// hold. Processes whose `fd` directory can't be listed (already exited,
/// or no permission) are passed over, matching what `ss`/`lsof` do when run
/// unprivileged.
pub fn socket_owners(dirs: &[ProcDir]) -> (r: HashMap<u64, u32>)
    ensures
        r@ == owners_in(dirs@),
{
    let mut owners: HashMap<u64, u32> = HashMap::new();
    let mut i: usize = 0;
    assert(dirs@.take(0) =~= seq![]);
    while i < dirs.len()
        invariant
            i <= dirs@.len(),
            owners@ == owners_in(dirs@.take(i as int)),
        decreases dirs.len() - i,
    {
        proof {
            assert(dirs@.take(i + 1).drop_last() =~= dirs@.take(i as int));
            assert(dirs@.take(i + 1).last() == dirs@[i as int]);
        }
        let dir = &dirs[i];
        if let Some(pid) = parse_pid(dir.name.as_str()) {
            if let Some(fds) = &dir.fds {
                add_fds(&mut owners, pid, fds);
            }
        }
        i += 1;
    }
    assert(dirs@.take(i as int) =~= dirs@);
    owners
}

/// The name of a process as `/proc/<pid>/comm` holds it, without the white
/// space around it.
pub fn process_name(comm: &str) -> (r: String)
    ensures
        r@ == text::trim(comm@),
{
    trimmed(comm)
}

// ---------------------------------------------------------------------
// A scan
// ---------------------------------------------------------------------

/// The four socket tables of `/proc/net`.
#[derive(Debug, Clone, Copy, PartialEq, Eq, Structural)]
pub enum Table {
    Tcp,
    Tcp6,
    Udp,
    Udp6,
}

impl Table {
    /// The protocol of the sockets in the table.
    pub open spec fn protocol(self) -> Protocol {
        match self {
            Table::Tcp => Protocol::Tcp,
            Table::Tcp6 => Protocol::Tcp,
            Table::Udp => Protocol::Udp,
            Table::Udp6 => Protocol::Udp,
        }
    }

    /// Whether the addresses in the table are of IPv6.
    pub open spec fn is_v6(self) -> bool {
        self is Tcp6 || self is Udp6
    }

    /// The name of the file that holds the table.
    pub fn file_name(self) -> (r: &'static str)
        ensures
            r@ == match self {
                Table::Tcp => "tcp"@,
                Table::Tcp6 => "tcp6"@,
                Table::Udp => "udp"@,
                Table::Udp6 => "udp6"@,
            },
    {
        match self {
            Table::Tcp => "tcp",
            Table::Tcp6 => "tcp6",
            Table::Udp => "udp",
            Table::Udp6 => "udp6",
        }
    }

    /// The rows of the table with this content.
    fn rows(self, content: &str) -> (r: Vec<RawSocket>)
        ensures
            r@ == table_value(content@, self.is_v6()),
    {
        match self {
            Table::Tcp => parse_proc_net(content, false),
            Table::Tcp6 => parse_proc_net(content, true),
            Table::Udp => parse_proc_net(content, false),
            Table::Udp6 => parse_proc_net(content, true),
        }
    }
}

/// What came of reading each of the four tables.
#[derive(Debug)]
pub struct Tables<E> {
    pub tcp: Result<String, E>,
    pub tcp6: Result<String, E>,
    pub udp: Result<String, E>,
    pub udp6: Result<String, E>,
}

/// A socket, with the table that it was found in.
#[derive(Debug, Clone, Copy, PartialEq, Eq, Structural)]
pub struct Found {
    pub table: Table,
    pub socket: RawSocket,
}

/// The sockets of one table; none if it could not be read.
pub open spec fn found_in<E>(table: Table, content: Result<String, E>) -> Seq<Found> {
    match content {
        Ok(c) => table_value(c@, table.is_v6()).map_values(
            |socket: RawSocket| Found { table, socket },
        ),
        Err(_) => seq![],
    }
}

/// The sockets of all four tables, one table after the other.
pub open spec fn found<E>(tables: Tables<E>) -> Seq<Found> {
    found_in(Table::Tcp, tables.tcp) + found_in(Table::Tcp6, tables.tcp6) + found_in(
        Table::Udp,
        tables.udp,
    ) + found_in(Table::Udp6, tables.udp6)
}

/// Append the sockets of one table; whether it could be read.
fn push_found<E>(out: &mut Vec<Found>, table: Table, content: &Result<String, E>) -> (r: bool)
    ensures
        final(out)@ == old(out)@ + found_in(table, *content),
        r == (*content is Ok),
{
    match content {
        Ok(c) => {
            let rows = table.rows(c.as_str());
            let ghost all = found_in(table, *content);
            let mut i: usize = 0;
            assert(out@ =~= old(out)@ + all.take(0));
            while i < rows.len()
                invariant
                    all == rows@.map_values(|socket: RawSocket| Found { table, socket }),
                    i <= rows@.len(),
                    out@ == old(out)@ + all.take(i as int),
                decreases rows.len() - i,
            {
                out.push(Found { table, socket: rows[i] });
                i += 1;
                assert(out@ =~= old(out)@ + all.take(i as int));
            }
            assert(all.take(i as int) =~= all);
            true
        },
        Err(_) => {
            assert(out@ =~= old(out)@ + found_in(table, *content));
            false
        },
    }
}

/// The sockets of the tables that could be read. Only where none could be
/// is there an error: that of the last one.
pub fn read_tables<E>(tables: Tables<E>) -> (r: Result<Vec<Found>, E>)
    ensures
        match r {
            Ok(v) => v@ == found(tables) && (tables.tcp is Ok || tables.tcp6 is Ok || tables.udp is Ok
                || tables.udp6 is Ok),
            Err(e) => tables.tcp is Err && tables.tcp6 is Err && tables.udp is Err && tables.udp6
                == Err::<String, E>(e),
        },
{
    let mut out: Vec<Found> = Vec::new();
    let a = push_found(&mut out, Table::Tcp, &tables.tcp);
    let b = push_found(&mut out, Table::Tcp6, &tables.tcp6);
    let c = push_found(&mut out, Table::Udp, &tables.udp);
    let d = push_found(&mut out, Table::Udp6, &tables.udp6);
    assert(out@ =~= found(tables));
    if a || b || c || d {
        return Ok(out);
    }
    match tables.udp6 {
        Ok(_) => Ok(out),
        Err(e) => Err(e),
    }
}

/// The owner of a socket, where one was found.
pub open spec fn owner_of(socket: RawSocket, owners: Map<u64, u32>) -> Option<u32> {
    if owners.contains_key(socket.inode) {
        Some(owners[socket.inode])
    } else {
        None
    }
}

/// The pids with one more put at the end, unless it is there.
pub open spec fn with_pid(pids: Seq<u32>, pid: Option<u32>) -> Seq<u32> {
    match pid {
        Some(p) => if pids.contains(p) {
            pids
        } else {
            pids.push(p)
        },
        None => pids,
    }
}

/// The processes that own one of the sockets, each once, in the order in
/// which their sockets were found.
pub open spec fn pids_of(sockets: Seq<Found>, owners: Map<u64, u32>) -> Seq<u32>
    decreases sockets.len(),
{
    if sockets.len() == 0 {
        seq![]
    } else {
        with_pid(
            pids_of(sockets.drop_last(), owners),
            owner_of(sockets.last().socket, owners),
        )
    }
}

/// Whether the pid is among the pids.
fn has_pid(pids: &Vec<u32>, pid: u32) -> (r: bool)
    ensures
        r == pids@.contains(pid),
{
    let mut i: usize = 0;
    while i < pids.len()
        invariant
            i <= pids@.len(),
            forall|k: int| 0 <= k < i ==> pids@[k] != pid,
        decreases pids.len() - i,
    {
        if pids[i] == pid {
            return true;
        }
        i += 1;
    }
    false
}

/// The owner of a socket.
fn owner_in(socket: &RawSocket, owners: &HashMap<u64, u32>) -> (r: Option<u32>)
    ensures
        r == owner_of(*socket, owners@),
{
    match owners.get(&socket.inode) {
        Some(pid) => Some(*pid),
        None => None,
    }
}

/// The processes whose names a scan looks up, each once.
pub fn owning_pids(sockets: &[Found], owners: &HashMap<u64, u32>) -> (r: Vec<u32>)
    ensures
        r@ == pids_of(sockets@, owners@),
{
    let mut out: Vec<u32> = Vec::new();
    let mut i: usize = 0;
    while i < sockets.len()
        invariant
            i <= sockets@.len(),
            out@ == pids_of(sockets@.take(i as int), owners@),
        decreases sockets.len() - i,
    {
        proof {
            assert(sockets@.take(i + 1).drop_last() =~= sockets@.take(i as int));
            assert(sockets@.take(i + 1).last() == sockets@[i as int]);
        }
        if let Some(pid) = owner_in(&sockets[i].socket, owners) {
            if !has_pid(&out, pid) {
                out.push(pid);
            }
        }
        i += 1;
    }
    assert(sockets@.take(i as int) =~= sockets@);
    out
}

/// The entry for a socket. What could not be found out about its owner is
/// left open; a UDP socket has no state.
pub open spec fn entry_of(
    found: Found,
    owners: Map<u64, u32>,
    names: Map<u32, Seq<char>>,
) -> PortEntryView {
    let pid = owner_of(found.socket, owners);
    PortEntryView {
        protocol: found.table.protocol(),
        local_addr: found.socket.local_addr,
        local_port: found.socket.local_port,
        state: if found.table.protocol() is Tcp {
            Some(model::linux_state(found.socket.state))
        } else {
            None
        },
        pid,
        process_name: model::name_in(names, pid),
    }
}

/// The entries for the sockets.
pub open spec fn entries_of(
    sockets: Seq<Found>,
    owners: Map<u64, u32>,
    names: Map<u32, Seq<char>>,
) -> Seq<PortEntryView> {
    sockets.map_values(|f: Found| entry_of(f, owners, names))
}

/// The entry for a socket.
fn resolve_one(
    found: &Found,
    owners: &HashMap<u64, u32>,
    names: &HashMap<u32, String>,
) -> (r: PortEntry)
    ensures
        r@ == entry_of(*found, owners@, model::names_view(names@)),
{
    let pid = owner_in(&found.socket, owners);
    let process_name = model::find_name(names, pid);
    let (protocol, state) = match found.table {
        Table::Tcp => (Protocol::Tcp, Some(TcpState::from_linux_code(found.socket.state))),
        Table::Tcp6 => (Protocol::Tcp, Some(TcpState::from_linux_code(found.socket.state))),
        Table::Udp => (Protocol::Udp, None),
        Table::Udp6 => (Protocol::Udp, None),
    };
    PortEntry {
        protocol,
        local_addr: found.socket.local_addr,
        local_port: found.socket.local_port,
        state,
        pid,
        process_name,
    }
}

/// The entries for the sockets, with their owners and the owners' names.
pub fn resolve(
    sockets: &[Found],
    owners: &HashMap<u64, u32>,
    names: &HashMap<u32, String>,
) -> (r: Vec<PortEntry>)
    ensures
        model::entry_views(r@) == entries_of(sockets@, owners@, model::names_view(names@)),
{
    let ghost all = entries_of(sockets@, owners@, model::names_view(names@));
    let mut out: Vec<PortEntry> = Vec::new();
    let mut i: usize = 0;
    assert(model::entry_views(out@) =~= all.take(0));
    while i < sockets.len()
        invariant
            all == entries_of(sockets@, owners@, model::names_view(names@)),
            i <= sockets@.len(),
            model::entry_views(out@) == all.take(i as int),
        decreases sockets.len() - i,
    {
        let ghost before = model::entry_views(out@);
        let e = resolve_one(&sockets[i], owners, names);
        out.push(e);
        i += 1;
        proof {
            assert(model::entry_views(out@) =~= before.push(e@));
            assert(all.take(i as int) =~= all.take(i - 1).push(all[i - 1]));
        }
    }
    assert(all.take(i as int) =~= all);
    out
}

} // verus!
