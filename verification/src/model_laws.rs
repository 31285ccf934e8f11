//! Laws of the data model: the order of keys, what a snapshot keeps of its
//! entries, and the codes of the states.

use crate::addr::IpAddr;
use crate::addr_laws;
use crate::diff_laws;
use crate::model;
use crate::model::{Key, PortEntry, PortEntryView, Protocol, Snapshot, TcpState};
use crate::text;
use crate::text_laws;
use vstd::prelude::*;

verus! {

/// No key comes before itself; of two different keys exactly one comes
/// before the other; and the order is transitive.
pub proof fn keys_are_ordered(a: Key, b: Key, c: Key)
    ensures
        !model::key_before(a, a),
        a != b ==> (model::key_before(a, b) <==> !model::key_before(b, a)),
        model::key_before(a, b) && model::key_before(b, c) ==> model::key_before(a, c),
{
    addr_laws::addresses_are_ordered(a.1, b.1, c.1);
}

/// A UDP socket counts as listening whatever its state; a TCP socket
/// exactly in the listening state.
pub proof fn udp_always_listens(e: PortEntryView)
    ensures
        e.protocol is Udp ==> e.listening(),
        e.protocol is Tcp ==> (e.listening() <==> e.state == Some(TcpState::Listen)),
{
}

/// On each platform exactly one code stands for the listening state.
pub proof fn one_code_listens(code: u32)
    ensures
        model::linux_state(code) is Listen <==> code == 10,
        model::windows_state(code) is Listen <==> code == 2,
{
}

/// A code that names no state is kept as it is.
pub proof fn unknown_codes_are_kept(code: u32)
    ensures
        model::linux_state(code) matches TcpState::Unknown(c) ==> c == code && (code == 0 || code
            > 12),
        code == 0 || code > 12 ==> model::linux_state(code) == TcpState::Unknown(code)
            && model::windows_state(code) == TcpState::Unknown(code),
{
}

// ---------------------------------------------------------------------
// Snapshots
// ---------------------------------------------------------------------

/// A sorted row whose last entry has this key ends in the last entry of
/// the key.
proof fn lemma_last_at_key(s: Seq<PortEntryView>)
    requires
        s.len() > 0,
    ensures
        model::at_key(s, s.last().key()).len() > 0,
        model::at_key(s, s.last().key()).last() == s.last(),
{
}

/// There is one way only to put entries into order: the result is fixed by
/// the entries.
pub proof fn sorting_is_unique(
    a: Seq<PortEntryView>,
    b: Seq<PortEntryView>,
    entries: Seq<PortEntryView>,
)
    requires
        model::is_sort_of(a, entries),
        model::is_sort_of(b, entries),
    ensures
        a == b,
{
    assert forall|key: Key| #[trigger] model::at_key(a, key) == model::at_key(b, key) by {
        assert(model::at_key(a, key) == model::at_key(entries, key));
        assert(model::at_key(b, key) == model::at_key(entries, key));
    }
    lemma_same_rows(a, b);
}

/// Two sorted rows with the same entries at every key are the same.
proof fn lemma_same_rows(a: Seq<PortEntryView>, b: Seq<PortEntryView>)
    requires
        model::entries_sorted(a),
        model::entries_sorted(b),
        forall|key: Key| #[trigger] model::at_key(a, key) == model::at_key(b, key),
    ensures
        a == b,
    decreases a.len(),
{
    if a.len() == 0 {
        if b.len() > 0 {
            lemma_last_at_key(b);
            assert(model::at_key(a, b.last().key()).len() == 0);
        }
        assert(a =~= b);
    } else {
        let k = a.last().key();
        lemma_last_at_key(a);
        assert(model::at_key(b, k) == model::at_key(a, k));
        lemma_has_key(b, k);
        let m = b.last().key();
        lemma_last_at_key(b);
        assert(model::at_key(a, m) == model::at_key(b, m));
        lemma_has_key(a, m);
        let i = choose|i: int| 0 <= i < a.len() && (#[trigger] a[i]).key() == m;
        let j = choose|j: int| 0 <= j < b.len() && (#[trigger] b[j]).key() == k;
        assert(!model::key_before(a[a.len() - 1].key(), a[i].key()));
        assert(!model::key_before(b[b.len() - 1].key(), b[j].key()));
        keys_are_ordered(k, m, k);
        assert(k == m);
        assert(a.last() == b.last());
        let a2 = a.drop_last();
        let b2 = b.drop_last();
        assert forall|key: Key| #[trigger] model::at_key(a2, key) == model::at_key(b2, key) by {
            assert(model::at_key(a, key) == model::at_key(b, key));
            if key == k {
                assert(model::at_key(a, key).drop_last() =~= model::at_key(a2, key));
                assert(model::at_key(b, key).drop_last() =~= model::at_key(b2, key));
            }
        }
        assert forall|x: int, y: int| 0 <= x <= y < a2.len() implies !model::key_before(
            (#[trigger] a2[y]).key(),
            (#[trigger] a2[x]).key(),
        ) by {
            assert(a2[x] == a[x] && a2[y] == a[y]);
        }
        assert forall|x: int, y: int| 0 <= x <= y < b2.len() implies !model::key_before(
            (#[trigger] b2[y]).key(),
            (#[trigger] b2[x]).key(),
        ) by {
            assert(b2[x] == b[x] && b2[y] == b[y]);
        }
        lemma_same_rows(a2, b2);
        assert(a =~= a2.push(a.last()));
        assert(b =~= b2.push(b.last()));
    }
}

/// Where there are entries at a key, one of the entries has it.
proof fn lemma_has_key(s: Seq<PortEntryView>, key: Key)
    requires
        model::at_key(s, key).len() > 0,
    ensures
        exists|i: int| 0 <= i < s.len() && (#[trigger] s[i]).key() == key,
        s.len() > 0,
{
    diff_laws::lemma_at_key(s, key);
    let e = model::at_key(s, key)[0];
    assert(s.contains(e));
    let i = choose|i: int| 0 <= i < s.len() && s[i] == e;
    assert(s[i].key() == key);
}

/// Entries that are in order stay as they are.
pub proof fn sorting_twice_is_sorting(sorted: Seq<PortEntryView>, again: Seq<PortEntryView>)
    requires
        model::entries_sorted(sorted),
        model::is_sort_of(again, sorted),
    ensures
        again == sorted,
{
    sorting_is_unique(again, sorted, sorted);
}

/// Sorting loses no entry and adds none.
pub proof fn sorting_keeps_entries(sorted: Seq<PortEntryView>, entries: Seq<PortEntryView>)
    requires
        model::is_sort_of(sorted, entries),
    ensures
        sorted.to_multiset() == entries.to_multiset(),
        sorted.len() == entries.len(),
{
    assert forall|e: PortEntryView| #[trigger]
        sorted.to_multiset().count(e) == entries.to_multiset().count(e) by {
        lemma_count_at_key(sorted, e);
        lemma_count_at_key(entries, e);
        assert(model::at_key(sorted, e.key()) == model::at_key(entries, e.key()));
    }
    assert(sorted.to_multiset() =~= entries.to_multiset());
    sorted.to_multiset_ensures();
    entries.to_multiset_ensures();
}

/// An entry occurs as often as it does at its key.
proof fn lemma_count_at_key(s: Seq<PortEntryView>, e: PortEntryView)
    ensures
        s.to_multiset().count(e) == model::at_key(s, e.key()).to_multiset().count(e),
    decreases s.len(),
{
    if s.len() == 0 {
        assert(model::at_key(s, e.key()) =~= s);
    } else {
        let t = s.drop_last();
        lemma_count_at_key(t, e);
        t.to_multiset_ensures();
        model::at_key(t, e.key()).to_multiset_ensures();
        assert(s =~= t.push(s.last()));
    }
}

// ---------------------------------------------------------------------
// What the parts of an entry mean
// ---------------------------------------------------------------------

/// Two entries are the same socket exactly if protocol, address and port are
/// all the same, whatever the address is and whoever holds it.
pub proof fn same_socket_iff_same_fields(a: PortEntryView, b: PortEntryView)
    ensures
        a.key() == b.key() <==> (a.protocol == b.protocol && a.local_addr == b.local_addr
            && a.local_port == b.local_port),
        a.key().0 == a.protocol,
        a.key().1 == a.local_addr,
        a.key().2 == a.local_port,
{
}

/// Two entries have the same owner exactly if pid and process name are both
/// the same.
pub proof fn same_owner_iff_same_pid_and_name(a: PortEntryView, b: PortEntryView)
    ensures
        a.owner() == b.owner() <==> (a.pid == b.pid && a.process_name == b.process_name),
        a.owner().0 == a.pid,
        a.owner().1 == a.process_name,
{
}

/// The view of an entry has all that the entry has.
pub proof fn view_keeps_the_entry(e: PortEntry)
    ensures
        e@.protocol == e.protocol,
        e@.local_addr == e.local_addr,
        e@.local_port == e.local_port,
        e@.state == e.state,
        e@.pid == e.pid,
        e.process_name is None ==> e@.process_name is None,
        e.process_name is Some ==> e@.process_name == Some(e.process_name->0@),
{
}

/// The views of a row of entries are those of each, in order.
pub proof fn views_keep_the_row(v: Seq<PortEntry>)
    ensures
        model::entry_views(v).len() == v.len(),
        forall|i: int| 0 <= i < v.len() ==> #[trigger] model::entry_views(v)[i] == v[i]@,
{
}

/// The view of a snapshot has all that the snapshot has.
pub proof fn view_keeps_the_snapshot(s: Snapshot)
    ensures
        s@.captured_at_unix == s.captured_at_unix,
        s@.hostname == s.hostname@,
        s@.entries.len() == s.entries@.len(),
        forall|i: int| 0 <= i < s.entries@.len() ==> #[trigger] s@.entries[i] == s.entries@[i]@,
{
}

/// The name of a process is looked up under its pid and nowhere else; there
/// is none for a process that is not known.
pub proof fn names_are_looked_up_by_pid(names: Map<u32, String>, pid: Option<u32>, name: Seq<char>)
    ensures
        model::name_in(model::names_view(names), pid) == Some(name) <==> (pid is Some
            && names.contains_key(pid->0) && names[pid->0]@ == name),
        model::name_in(model::names_view(names), pid) is None <==> (pid is None
            || !names.contains_key(pid->0)),
{
}

/// Sockets are ordered by protocol, TCP first; within a protocol by address;
/// and at one address by port number.
pub proof fn keys_compare_part_by_part(a: Key, b: Key)
    ensures
        a.0 is Tcp && b.0 is Udp ==> model::key_before(a, b),
        a.0 == b.0 && a.1.before(b.1) ==> model::key_before(a, b),
        a.0 == b.0 && a.1 == b.1 ==> (model::key_before(a, b) <==> a.2 < b.2),
        model::key_before(a, b) ==> (a.0 is Tcp && b.0 is Udp) || (a.0 == b.0 && (a.1.before(b.1)
            || (a.1 == b.1 && a.2 < b.2))),
{
    addr_laws::addresses_are_ordered(a.1, b.1, a.1);
}

/// Two keys compare as equal exactly if they are the same, and the other way
/// round the other way round.
pub proof fn comparing_keys_is_consistent(a: Key, b: Key)
    ensures
        model::key_ordering(a, b) is Equal <==> a == b,
        model::key_ordering(a, b) is Less <==> model::key_before(a, b),
        model::key_ordering(a, b) is Greater <==> model::key_ordering(b, a) is Less,
{
    keys_are_ordered(a, b, a);
    keys_are_ordered(b, a, b);
}

/// Which code of `/proc/net/tcp` each state has.
pub proof fn linux_states_have_their_codes(code: u32)
    ensures
        model::linux_state(code) is Established <==> code == 0x01,
        model::linux_state(code) is SynSent <==> code == 0x02,
        model::linux_state(code) is SynRecv <==> code == 0x03,
        model::linux_state(code) is FinWait1 <==> code == 0x04,
        model::linux_state(code) is FinWait2 <==> code == 0x05,
        model::linux_state(code) is TimeWait <==> code == 0x06,
        model::linux_state(code) is Close <==> code == 0x07,
        model::linux_state(code) is CloseWait <==> code == 0x08,
        model::linux_state(code) is LastAck <==> code == 0x09,
        model::linux_state(code) is Listen <==> code == 0x0A,
        model::linux_state(code) is Closing <==> code == 0x0B,
        model::linux_state(code) is NewSynRecv <==> code == 0x0C,
        model::linux_state(code) is Unknown ==> model::linux_state(code) == TcpState::Unknown(code),
{
}

/// Which `MIB_TCP_STATE` value each state has.
pub proof fn windows_states_have_their_codes(code: u32)
    ensures
        model::windows_state(code) is Close <==> code == 1 || code == 12,
        model::windows_state(code) is Listen <==> code == 2,
        model::windows_state(code) is SynSent <==> code == 3,
        model::windows_state(code) is SynRecv <==> code == 4,
        model::windows_state(code) is Established <==> code == 5,
        model::windows_state(code) is FinWait1 <==> code == 6,
        model::windows_state(code) is FinWait2 <==> code == 7,
        model::windows_state(code) is CloseWait <==> code == 8,
        model::windows_state(code) is Closing <==> code == 9,
        model::windows_state(code) is LastAck <==> code == 10,
        model::windows_state(code) is TimeWait <==> code == 11,
        model::windows_state(code) is Unknown <==> code == 0 || code > 12,
        model::windows_state(code) is Unknown ==> model::windows_state(code) == TcpState::Unknown(
            code,
        ),
{
}

/// The text of a state without a name shows its code, which can be read
/// back from between the brackets.
pub proof fn unknown_states_show_their_code(code: u32)
    ensures
        ({
            let t = TcpState::Unknown(code).text();
            &&& t.len() > 9
            &&& t.take(8) == seq!['U', 'N', 'K', 'N', 'O', 'W', 'N', '(']
            &&& t.last() == ')'
            &&& text::unsigned(t.subrange(8, t.len() - 1), 10, u32::MAX as nat) == Some(
                code as nat,
            )
        }),
{
    let t = TcpState::Unknown(code).text();
    reveal_strlit("UNKNOWN(");
    reveal_strlit(")");
    text_laws::decimal_reads_back(code as nat, u32::MAX as nat);
    assert(t.take(8) =~= seq!['U', 'N', 'K', 'N', 'O', 'W', 'N', '(']);
    assert(t.subrange(8, t.len() - 1) =~= text::decimal(code as nat));
}

// ---------------------------------------------------------------------
// Rows as what is picked from other rows
// ---------------------------------------------------------------------

/// Picking twice is picking once by both.
pub proof fn lemma_filter_twice<A>(
    s: Seq<A>,
    p: spec_fn(A) -> bool,
    q: spec_fn(A) -> bool,
    both: spec_fn(A) -> bool,
)
    requires
        forall|x: A| #[trigger] both(x) <==> p(x) && q(x),
    ensures
        s.filter(p).filter(q) == s.filter(both),
    decreases s.len(),
{
    reveal(Seq::filter);
    if s.len() > 0 {
        lemma_filter_twice(s.drop_last(), p, q, both);
        let x = s.last();
        assert(both(x) <==> p(x) && q(x));
        if p(x) {
            assert(s.filter(p).drop_last() =~= s.drop_last().filter(p));
            assert(s.filter(p).last() == x);
        }
    }
}

/// What is picked depends on what the test says only.
pub proof fn lemma_filter_same<A>(s: Seq<A>, p: spec_fn(A) -> bool, q: spec_fn(A) -> bool)
    requires
        forall|x: A| #[trigger] p(x) <==> q(x),
    ensures
        s.filter(p) == s.filter(q),
    decreases s.len(),
{
    reveal(Seq::filter);
    if s.len() > 0 {
        lemma_filter_same(s.drop_last(), p, q);
        assert(p(s.last()) <==> q(s.last()));
    }
}

/// The entries at a socket are all those with its protocol, address and
/// port, in the order in which they stand.
pub proof fn entries_at_a_socket_are_picked(entries: Seq<PortEntryView>, key: Key)
    ensures
        model::at_key(entries, key) == entries_with(entries, key.0, key.1, key.2),
    decreases entries.len(),
{
    reveal(Seq::filter);
    if entries.len() > 0 {
        entries_at_a_socket_are_picked(entries.drop_last(), key);
    }
}

/// Each protocol and each state has its name.
pub proof fn names_are_known(s: TcpState)
    ensures
        Protocol::Tcp.text() == seq!['t', 'c', 'p'],
        Protocol::Udp.text() == seq!['u', 'd', 'p'],
        s is Listen ==> s.text() == "LISTEN"@,
        s is Established ==> s.text() == "ESTABLISHED"@,
        s is SynSent ==> s.text() == "SYN_SENT"@,
        s is SynRecv ==> s.text() == "SYN_RECV"@,
        s is FinWait1 ==> s.text() == "FIN_WAIT1"@,
        s is FinWait2 ==> s.text() == "FIN_WAIT2"@,
        s is TimeWait ==> s.text() == "TIME_WAIT"@,
        s is Close ==> s.text() == "CLOSE"@,
        s is CloseWait ==> s.text() == "CLOSE_WAIT"@,
        s is LastAck ==> s.text() == "LAST_ACK"@,
        s is Closing ==> s.text() == "CLOSING"@,
        s is NewSynRecv ==> s.text() == "NEW_SYN_RECV"@,
{
    reveal_strlit("tcp");
    reveal_strlit("udp");
}

/// Different states have different names.
pub proof fn state_names_differ(s: TcpState, t: TcpState)
    requires
        s != t,
    ensures
        s.text() != t.text(),
{
    reveal_strlit("LISTEN");
    reveal_strlit("ESTABLISHED");
    reveal_strlit("SYN_SENT");
    reveal_strlit("SYN_RECV");
    reveal_strlit("FIN_WAIT1");
    reveal_strlit("FIN_WAIT2");
    reveal_strlit("TIME_WAIT");
    reveal_strlit("CLOSE");
    reveal_strlit("CLOSE_WAIT");
    reveal_strlit("LAST_ACK");
    reveal_strlit("CLOSING");
    reveal_strlit("NEW_SYN_RECV");
    if let TcpState::Unknown(c) = s {
        unknown_states_show_their_code(c);
        assert(s.text().take(8)[0] == 'U');
    }
    if let TcpState::Unknown(c) = t {
        unknown_states_show_their_code(c);
        assert(t.text().take(8)[0] == 'U');
    }
    if s.text() == t.text() {
        assert(s.text()[0] == t.text()[0]);
        assert(s.text()[4] == t.text()[4]);
        assert(s.text()[s.text().len() - 1] == t.text()[t.text().len() - 1]);
    }
}

/// The entries with this protocol, address and port, in order.
pub open spec fn entries_with(
    entries: Seq<PortEntryView>,
    p: Protocol,
    a: IpAddr,
    port: u16,
) -> Seq<PortEntryView> {
    entries.filter(
        |e: PortEntryView| e.protocol == p && e.local_addr == a && e.local_port == port,
    )
}

/// Whether the first may stand in front of the second.
pub open spec fn in_order(a: PortEntryView, b: PortEntryView) -> bool {
    ||| a.protocol is Tcp && b.protocol is Udp
    ||| a.protocol == b.protocol && a.local_addr.before(b.local_addr)
    ||| a.protocol == b.protocol && a.local_addr == b.local_addr && a.local_port <= b.local_port
}

/// Sorted entries are TCP before UDP, then by address and then by port.
pub proof fn sorted_entries_are_in_order(entries: Seq<PortEntryView>)
    ensures
        model::entries_sorted(entries) <==> forall|i: int, j: int|
            0 <= i < j < entries.len() ==> in_order(#[trigger] entries[i], #[trigger] entries[j]),
{
    assert forall|i: int, j: int|
        0 <= i < entries.len() && 0 <= j < entries.len() implies (in_order(
        #[trigger] entries[i],
        #[trigger] entries[j],
    ) <==> !model::key_before(entries[j].key(), entries[i].key())) by {
        let a = entries[i];
        let b = entries[j];
        addr_laws::addresses_are_ordered(a.local_addr, b.local_addr, a.local_addr);
    }
    if forall|i: int, j: int|
        0 <= i < j < entries.len() ==> in_order(#[trigger] entries[i], #[trigger] entries[j]) {
        assert forall|i: int, j: int| 0 <= i <= j < entries.len() implies !model::key_before(
            (#[trigger] entries[j]).key(),
            (#[trigger] entries[i]).key(),
        ) by {
            if i < j {
                assert(in_order(entries[i], entries[j]));
            } else {
                keys_are_ordered(entries[i].key(), entries[i].key(), entries[i].key());
            }
        }
    }
}

/// Sorting keeps all entries; those of one protocol, address and port stay in
/// the order in which they were given. Nothing else is a way to sort them.
pub proof fn sorting_is_by_the_fields(sorted: Seq<PortEntryView>, entries: Seq<PortEntryView>)
    ensures
        model::is_sort_of(sorted, entries) <==> model::entries_sorted(sorted) && forall|
            p: Protocol,
            a: IpAddr,
            port: u16,
        | #[trigger]
            entries_with(sorted, p, a, port) == entries_with(entries, p, a, port),
{
    assert forall|p: Protocol, a: IpAddr, port: u16| #[trigger]
        entries_with(sorted, p, a, port) == model::at_key(sorted, (p, a, port)) by {
        entries_at_a_socket_are_picked(sorted, (p, a, port));
    }
    assert forall|p: Protocol, a: IpAddr, port: u16| #[trigger]
        entries_with(entries, p, a, port) == model::at_key(entries, (p, a, port)) by {
        entries_at_a_socket_are_picked(entries, (p, a, port));
    }
    if model::is_sort_of(sorted, entries) {
        assert forall|p: Protocol, a: IpAddr, port: u16| #[trigger]
            entries_with(sorted, p, a, port) == entries_with(entries, p, a, port) by {
            assert(model::at_key(sorted, (p, a, port)) == model::at_key(entries, (p, a, port)));
        }
    }
    if forall|p: Protocol, a: IpAddr, port: u16| #[trigger]
        entries_with(sorted, p, a, port) == entries_with(entries, p, a, port) {
        assert forall|key: Key| #[trigger]
            model::at_key(sorted, key) == model::at_key(entries, key) by {
            assert(entries_with(sorted, key.0, key.1, key.2) == entries_with(
                entries,
                key.0,
                key.1,
                key.2,
            ));
        }
    }
}

} // verus!
