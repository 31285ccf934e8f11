//! The data model: a listening-port entry and a snapshot of the machine's
//! listening sockets at one point in time.

use crate::addr::IpAddr;
use crate::order;
use crate::order::Keyed;
use crate::text;
use std::cmp::Ordering;
use std::collections::HashMap;
use vstd::prelude::*;
use vstd::string::*;

verus! {

/// Transport-layer protocol a socket is bound on.
#[derive(Debug, Clone, Copy, PartialEq, Eq, Hash, PartialOrd, Ord, Structural)]
pub enum Protocol {
    Tcp,
    Udp,
}

impl Protocol {
    /// The name of the protocol in reports.
    pub open spec fn text(self) -> Seq<char> {
        match self {
            Protocol::Tcp => "tcp"@,
            Protocol::Udp => "udp"@,
        }
    }

    /// The name of the protocol in reports.
    pub fn to_string(&self) -> (r: String)
        ensures
            r@ == self.text(),
    {
        match self {
            Protocol::Tcp => "tcp".to_owned(),
            Protocol::Udp => "udp".to_owned(),
        }
    }
}

/// TCP connection state, as reported by the kernel. UDP sockets have no
/// connection state and are always represented as `None` on a `PortEntry`.
#[derive(Debug, Clone, Copy, PartialEq, Eq, Hash, Structural)]
pub enum TcpState {
    Listen,
    Established,
    SynSent,
    SynRecv,
    FinWait1,
    FinWait2,
    TimeWait,
    Close,
    CloseWait,
    LastAck,
    Closing,
    NewSynRecv,
    Unknown(u32),
}

/// The state that each code of `/proc/net/tcp` stands for.
pub open spec fn linux_state(code: u32) -> TcpState {
    if code == 1 {
        TcpState::Established
    } else if code == 2 {
        TcpState::SynSent
    } else if code == 3 {
        TcpState::SynRecv
    } else if code == 4 {
        TcpState::FinWait1
    } else if code == 5 {
        TcpState::FinWait2
    } else if code == 6 {
        TcpState::TimeWait
    } else if code == 7 {
        TcpState::Close
    } else if code == 8 {
        TcpState::CloseWait
    } else if code == 9 {
        TcpState::LastAck
    } else if code == 10 {
        TcpState::Listen
    } else if code == 11 {
        TcpState::Closing
    } else if code == 12 {
        TcpState::NewSynRecv
    } else {
        TcpState::Unknown(code)
    }
}

/// The state that each `MIB_TCP_STATE` value of the Windows IP Helper API
/// stands for.
pub open spec fn windows_state(code: u32) -> TcpState {
    if code == 1 || code == 12 {
        TcpState::Close
    } else if code == 2 {
        TcpState::Listen
    } else if code == 3 {
        TcpState::SynSent
    } else if code == 4 {
        TcpState::SynRecv
    } else if code == 5 {
        TcpState::Established
    } else if code == 6 {
        TcpState::FinWait1
    } else if code == 7 {
        TcpState::FinWait2
    } else if code == 8 {
        TcpState::CloseWait
    } else if code == 9 {
        TcpState::Closing
    } else if code == 10 {
        TcpState::LastAck
    } else if code == 11 {
        TcpState::TimeWait
    } else {
        TcpState::Unknown(code)
    }
}

impl TcpState {
    /// The conventional name of the state.
    pub open spec fn text(self) -> Seq<char> {
        match self {
            TcpState::Listen => "LISTEN"@,
            TcpState::Established => "ESTABLISHED"@,
            TcpState::SynSent => "SYN_SENT"@,
            TcpState::SynRecv => "SYN_RECV"@,
            TcpState::FinWait1 => "FIN_WAIT1"@,
            TcpState::FinWait2 => "FIN_WAIT2"@,
            TcpState::TimeWait => "TIME_WAIT"@,
            TcpState::Close => "CLOSE"@,
            TcpState::CloseWait => "CLOSE_WAIT"@,
            TcpState::LastAck => "LAST_ACK"@,
            TcpState::Closing => "CLOSING"@,
            TcpState::NewSynRecv => "NEW_SYN_RECV"@,
            TcpState::Unknown(code) => "UNKNOWN("@ + text::decimal(code as nat) + ")"@,
        }
    }

    /// The state for the hex code used in `/proc/net/tcp*`.
    #[must_use]
    pub fn from_linux_code(code: u32) -> (r: Self)
        ensures
            r == linux_state(code),
    {
        match code {
            0x01 => TcpState::Established,
            0x02 => TcpState::SynSent,
            0x03 => TcpState::SynRecv,
            0x04 => TcpState::FinWait1,
            0x05 => TcpState::FinWait2,
            0x06 => TcpState::TimeWait,
            0x07 => TcpState::Close,
            0x08 => TcpState::CloseWait,
            0x09 => TcpState::LastAck,
            0x0A => TcpState::Listen,
            0x0B => TcpState::Closing,
            0x0C => TcpState::NewSynRecv,
            other => TcpState::Unknown(other),
        }
    }

    /// Whether a socket in this state accepts connections.
    #[must_use]
    pub fn is_listening(self) -> (r: bool)
        ensures
            r == (self is Listen),
    {
        matches!(self, TcpState::Listen)
    }

    /// The state for a `MIB_TCP_STATE` value of the Windows IP Helper API,
    /// whose numbering differs from that of `/proc/net/tcp`.
    #[must_use]
    pub fn from_windows_code(code: u32) -> (r: Self)
        ensures
            r == windows_state(code),
    {
        match code {
            // 1 = CLOSED, 12 = DELETE_TCB: both mean "not a live socket
            // anymore" here, so they share a variant.
            1 | 12 => TcpState::Close,
            2 => TcpState::Listen,
            3 => TcpState::SynSent,
            4 => TcpState::SynRecv,
            5 => TcpState::Established,
            6 => TcpState::FinWait1,
            7 => TcpState::FinWait2,
            8 => TcpState::CloseWait,
            9 => TcpState::Closing,
            10 => TcpState::LastAck,
            11 => TcpState::TimeWait,
            other => TcpState::Unknown(other),
        }
    }

    /// The conventional name of the state.
    pub fn to_string(&self) -> (r: String)
        ensures
            r@ == self.text(),
    {
        match self {
            TcpState::Listen => "LISTEN".to_owned(),
            TcpState::Established => "ESTABLISHED".to_owned(),
            TcpState::SynSent => "SYN_SENT".to_owned(),
            TcpState::SynRecv => "SYN_RECV".to_owned(),
            TcpState::FinWait1 => "FIN_WAIT1".to_owned(),
            TcpState::FinWait2 => "FIN_WAIT2".to_owned(),
            TcpState::TimeWait => "TIME_WAIT".to_owned(),
            TcpState::Close => "CLOSE".to_owned(),
            TcpState::CloseWait => "CLOSE_WAIT".to_owned(),
            TcpState::LastAck => "LAST_ACK".to_owned(),
            TcpState::Closing => "CLOSING".to_owned(),
            TcpState::NewSynRecv => "NEW_SYN_RECV".to_owned(),
            TcpState::Unknown(code) => {
                let mut out = "UNKNOWN(".to_owned();
                text::push_decimal(&mut out, *code as u64);
                out.append(")");
                out
            },
        }
    }
}

/// What identifies a socket across two snapshots: protocol, bind address
/// and port.
pub type Key = (Protocol, IpAddr, u16);

/// The order of keys: by protocol, then by address, then by port.
pub open spec fn key_before(a: Key, b: Key) -> bool {
    if a.0 != b.0 {
        a.0 is Tcp
    } else if a.1 != b.1 {
        a.1.before(b.1)
    } else {
        a.2 < b.2
    }
}

/// Whether the key comes before the other in the order of keys.
pub fn is_key_before(a: &Key, b: &Key) -> (r: bool)
    ensures
        r == key_before(*a, *b),
{
    if a.0 != b.0 {
        a.0 == Protocol::Tcp
    } else if a.1 != b.1 {
        a.1.is_before(&b.1)
    } else {
        a.2 < b.2
    }
}

/// One listening (or, for TCP, otherwise-live) socket and whatever the
/// operating system was willing to tell about the process that owns it.
///
/// `pid` and `process_name` are `None` when the lookup could not be
/// completed - typically because the socket is owned by a process the
/// caller does not have permission to inspect.
#[derive(Debug, PartialEq, Eq)]
pub struct PortEntry {
    pub protocol: Protocol,
    pub local_addr: IpAddr,
    pub local_port: u16,
    /// `None` for UDP sockets, which have no connection state.
    pub state: Option<TcpState>,
    pub pid: Option<u32>,
    pub process_name: Option<String>,
}

/// What a `PortEntry` says, with the process name as its characters.
pub struct PortEntryView {
    pub protocol: Protocol,
    pub local_addr: IpAddr,
    pub local_port: u16,
    pub state: Option<TcpState>,
    pub pid: Option<u32>,
    pub process_name: Option<Seq<char>>,
}

/// The characters of an optional string.
pub open spec fn name_view(name: Option<String>) -> Option<Seq<char>> {
    match name {
        Some(s) => Some(s@),
        None => None,
    }
}

impl View for PortEntry {
    type V = PortEntryView;

    open spec fn view(&self) -> PortEntryView {
        PortEntryView {
            protocol: self.protocol,
            local_addr: self.local_addr,
            local_port: self.local_port,
            state: self.state,
            pid: self.pid,
            process_name: name_view(self.process_name),
        }
    }
}

impl PortEntryView {
    /// The identity of the socket, which says nothing of its owner.
    pub open spec fn key(self) -> Key {
        (self.protocol, self.local_addr, self.local_port)
    }

    /// Whether the socket counts as listening: any UDP socket, and a TCP
    /// socket in the listening state.
    pub open spec fn listening(self) -> bool {
        self.protocol is Udp || self.state == Some(TcpState::Listen)
    }

    /// Who holds the socket.
    pub open spec fn owner(self) -> (Option<u32>, Option<Seq<char>>) {
        (self.pid, self.process_name)
    }
}

/// What the entries of a sequence say.
pub open spec fn entry_views(v: Seq<PortEntry>) -> Seq<PortEntryView> {
    v.map_values(|e: PortEntry| e@)
}

impl Clone for PortEntry {
    fn clone(&self) -> (r: Self)
        ensures
            r == *self,
    {
        PortEntry {
            protocol: self.protocol,
            local_addr: self.local_addr,
            local_port: self.local_port,
            state: self.state,
            pid: self.pid,
            process_name: clone_name(&self.process_name),
        }
    }
}

/// A copy of an optional string.
pub fn clone_name(name: &Option<String>) -> (r: Option<String>)
    ensures
        r == *name,
{
    match name {
        Some(s) => Some(s.clone()),
        None => None,
    }
}

/// The name of a process, where it is known.
pub open spec fn name_in(names: Map<u32, Seq<char>>, pid: Option<u32>) -> Option<Seq<char>> {
    match pid {
        Some(p) => if names.contains_key(p) {
            Some(names[p])
        } else {
            None
        },
        None => None,
    }
}

/// What a map of names says.
pub open spec fn names_view(names: Map<u32, String>) -> Map<u32, Seq<char>> {
    names.map_values(|s: String| s@)
}

/// The name of a process, where it is known.
pub fn find_name(names: &HashMap<u32, String>, pid: Option<u32>) -> (r: Option<String>)
    ensures
        name_view(r) == name_in(names_view(names@), pid),
{
    broadcast use vstd::std_specs::hash::group_hash_axioms;

    match pid {
        Some(p) => match names.get(&p) {
            Some(name) => Some(name.clone()),
            None => None,
        },
        None => None,
    }
}

impl PortEntry {
    /// The identity used to match an entry across two snapshots: protocol,
    /// bind address and port. Two entries with the same key but a different
    /// `pid`/`process_name` are the same socket changing owner between
    /// scans, which is the signal this library exists to surface.
    #[must_use]
    pub fn key(&self) -> (r: Key)
        ensures
            r == self@.key(),
    {
        (self.protocol, self.local_addr, self.local_port)
    }

    /// Whether the socket counts as listening.
    #[must_use]
    pub fn is_listening(&self) -> (r: bool)
        ensures
            r == self@.listening(),
    {
        match self.protocol {
            Protocol::Udp => true,
            Protocol::Tcp => match self.state {
                Some(state) => state.is_listening(),
                None => false,
            },
        }
    }

    /// The order of entries, which is that of their keys.
    pub fn cmp(&self, other: &Self) -> (r: Ordering)
        ensures
            r == key_ordering(self@.key(), other@.key()),
    {
        let a = self.key();
        let b = other.key();
        if is_key_before(&a, &b) {
            Ordering::Less
        } else if is_key_before(&b, &a) {
            Ordering::Greater
        } else {
            Ordering::Equal
        }
    }
}

/// How two keys compare.
pub open spec fn key_ordering(a: Key, b: Key) -> Ordering {
    if key_before(a, b) {
        Ordering::Less
    } else if key_before(b, a) {
        Ordering::Greater
    } else {
        Ordering::Equal
    }
}

impl PartialOrd for PortEntry {
    fn partial_cmp(&self, other: &Self) -> (r: Option<Ordering>) {
        Some(self.cmp(other))
    }
}

impl vstd::std_specs::cmp::PartialOrdSpecImpl for PortEntry {
    open spec fn obeys_partial_cmp_spec() -> bool {
        true
    }

    open spec fn partial_cmp_spec(&self, other: &Self) -> Option<Ordering> {
        Some(key_ordering(self@.key(), other@.key()))
    }
}

impl Keyed for PortEntry {
    open spec fn sort_key(&self) -> Key {
        self@.key()
    }

    fn key_of(&self) -> (r: Key) {
        self.key()
    }
}

/// A full capture of listening sockets at one instant, plus enough context
/// to know where and when it was taken.
#[derive(Debug, PartialEq, Eq)]
pub struct Snapshot {
    /// Seconds since the Unix epoch (UTC). Stored as an integer rather
    /// than a formatted string so equality and ordering stay exact.
    pub captured_at_unix: u64,
    pub hostname: String,
    pub entries: Vec<PortEntry>,
}

/// What a `Snapshot` says.
pub struct SnapshotView {
    pub captured_at_unix: u64,
    pub hostname: Seq<char>,
    pub entries: Seq<PortEntryView>,
}

impl View for Snapshot {
    type V = SnapshotView;

    open spec fn view(&self) -> SnapshotView {
        SnapshotView {
            captured_at_unix: self.captured_at_unix,
            hostname: self.hostname@,
            entries: entry_views(self.entries@),
        }
    }
}

impl Clone for Snapshot {
    fn clone(&self) -> (r: Self)
        ensures
            r@ == self@,
    {
        let mut entries: Vec<PortEntry> = Vec::new();
        let mut i: usize = 0;
        while i < self.entries.len()
            invariant
                i <= self.entries@.len(),
                entries@ == self.entries@.take(i as int),
            decreases self.entries.len() - i,
        {
            entries.push(self.entries[i].clone());
            i += 1;
            assert(entries@ =~= self.entries@.take(i as int));
        }
        assert(entries@ =~= self.entries@);
        Snapshot {
            captured_at_unix: self.captured_at_unix,
            hostname: self.hostname.clone(),
            entries,
        }
    }
}

/// The entries at one key, in order.
pub open spec fn at_key(entries: Seq<PortEntryView>, key: Key) -> Seq<PortEntryView>
    decreases entries.len(),
{
    if entries.len() == 0 {
        seq![]
    } else {
        let rest = at_key(entries.drop_last(), key);
        if entries.last().key() == key {
            rest.push(entries.last())
        } else {
            rest
        }
    }
}

/// Whether the keys of the entries never step back.
pub open spec fn entries_sorted(entries: Seq<PortEntryView>) -> bool {
    forall|i: int, j: int|
        0 <= i <= j < entries.len() ==> !key_before(
            (#[trigger] entries[j]).key(),
            (#[trigger] entries[i]).key(),
        )
}

/// Whether `sorted` holds the entries in the order of their keys, with
/// those of one key in the order in which they stand in `entries`.
pub open spec fn is_sort_of(sorted: Seq<PortEntryView>, entries: Seq<PortEntryView>) -> bool {
    &&& entries_sorted(sorted)
    &&& forall|key: Key| #[trigger] at_key(sorted, key) == at_key(entries, key)
}

impl Snapshot {
    /// A snapshot of the entries, in the order of their keys.
    #[must_use]
    pub fn new(captured_at_unix: u64, hostname: String, entries: Vec<PortEntry>) -> (r: Self)
        ensures
            r@.captured_at_unix == captured_at_unix,
            r@.hostname == hostname@,
            is_sort_of(r@.entries, entry_views(entries@)),
    {
        let ghost given = entries@;
        let entries = order::stable_sort(entries);
        proof {
            lemma_sorted_views(given, entries@);
        }
        Snapshot { captured_at_unix, hostname, entries }
    }
}

/// What a sequence of entries says at a key is what its entries at the key
/// say.
pub proof fn lemma_at_key_views(v: Seq<PortEntry>, key: Key)
    ensures
        at_key(entry_views(v), key) == entry_views(order::at(v, key)),
    decreases v.len(),
{
    if v.len() > 0 {
        lemma_at_key_views(v.drop_last(), key);
        assert(entry_views(v).drop_last() =~= entry_views(v.drop_last()));
        if v.last()@.key() == key {
            assert(entry_views(order::at(v, key)) =~= entry_views(
                order::at(v.drop_last(), key),
            ).push(v.last()@));
        }
    } else {
        assert(entry_views(order::at(v, key)) =~= seq![]);
    }
}

/// A stable sort of the entries is one of what they say.
proof fn lemma_sorted_views(given: Seq<PortEntry>, sorted: Seq<PortEntry>)
    requires
        order::is_stable_sort(sorted, given),
    ensures
        is_sort_of(entry_views(sorted), entry_views(given)),
{
    assert forall|key: Key| #[trigger]
        at_key(entry_views(sorted), key) == at_key(entry_views(given), key) by {
        lemma_at_key_views(sorted, key);
        lemma_at_key_views(given, key);
        assert(order::at(sorted, key) == order::at(given, key));
    }
    let s = entry_views(sorted);
    assert forall|i: int, j: int| 0 <= i <= j < s.len() implies !key_before(
        (#[trigger] s[j]).key(),
        (#[trigger] s[i]).key(),
    ) by {
        assert(s[i] == sorted[i]@ && s[j] == sorted[j]@);
        assert(!key_before(sorted[j].sort_key(), sorted[i].sort_key()));
    }
}

} // verus!
