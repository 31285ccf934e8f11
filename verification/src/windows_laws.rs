//! Laws of the Windows port source: a table is asked for a bounded number
//! of times, its rows are all reported, fields and names are read back.

use crate::addr::IpAddr;
use crate::model;
use crate::model::PortEntryView;
use crate::windows;
use crate::windows::{FetchStep, FetchStepView, Process, Table, TableBuf};
use vstd::arithmetic::div_mod::*;
use vstd::prelude::*;

verus! {

// ---------------------------------------------------------------------
// Asking for a table
// ---------------------------------------------------------------------

/// How a call came back: its result, the size in bytes that it reported,
/// and the words that it left in the buffer.
pub struct Answer {
    pub result: u32,
    pub size: u32,
    pub filled: Seq<u32>,
}

/// Where asking for a table ends up with these answers, from where the
/// next call is made with a buffer of these words and this size, and this
/// many calls were answered.
pub open spec fn fetch(
    words: Seq<u32>,
    size: u32,
    calls: u32,
    answers: Seq<Answer>,
) -> FetchStepView
    decreases answers.len(),
{
    if answers.len() == 0 {
        FetchStepView::Again { words, size, calls }
    } else {
        let a = answers[0];
        match windows::step(a.filled, calls, a.result, a.size) {
            FetchStepView::Again { words, size, calls } => fetch(
                words,
                size,
                calls,
                answers.skip(1),
            ),
            other => other,
        }
    }
}

/// Where asking for a table ends up with these answers from the first call
/// on.
pub open spec fn fetch_all(answers: Seq<Answer>) -> FetchStepView {
    fetch(seq![], 0, 0, answers)
}

/// A table is asked for eight times at most.
pub proof fn no_more_than_eight_calls(answers: Seq<Answer>)
    requires
        answers.len() >= 8,
    ensures
        !(fetch_all(answers) is Again),
{
    lemma_bounded(seq![], 0, 0, answers);
}

/// With `calls` calls made, there are `8 - calls` left.
proof fn lemma_bounded(words: Seq<u32>, size: u32, calls: u32, answers: Seq<Answer>)
    requires
        calls < 8,
        answers.len() >= 8 - calls,
    ensures
        !(fetch(words, size, calls, answers) is Again),
    decreases answers.len(),
{
    let a = answers[0];
    match windows::step(a.filled, calls, a.result, a.size) {
        FetchStepView::Again { words, size, calls } => {
            lemma_bounded(words, size, calls, answers.skip(1));
        },
        _ => {},
    }
}

/// The first answer that is not "too small" decides, if it is one of the
/// first eight: a success gives the table as the call left it, another
/// result is the failure. Where all eight are "too small", asking ends
/// there.
pub proof fn first_other_answer_decides(answers: Seq<Answer>, k: int)
    requires
        0 <= k <= 8,
        k <= answers.len(),
        forall|i: int| 0 <= i < k ==> (#[trigger] answers[i]).result == windows::INSUFFICIENT_BUFFER,
        k < 8 ==> k < answers.len() && answers[k].result != windows::INSUFFICIENT_BUFFER,
    ensures
        k < 8 && answers[k].result == 0 ==> fetch_all(answers) == (FetchStepView::Done {
            words: answers[k].filled,
            byte_len: answers[k].size as nat,
        }),
        k < 8 && answers[k].result != 0 ==> fetch_all(answers) == FetchStepView::Failed(
            answers[k].result,
        ),
        k == 8 ==> fetch_all(answers) is GaveUp,
{
    lemma_decides(seq![], 0, 0, answers, k);
}

/// The same after `calls` calls.
proof fn lemma_decides(words: Seq<u32>, size: u32, calls: u32, answers: Seq<Answer>, k: int)
    requires
        0 <= k <= answers.len(),
        calls + k <= 8,
        calls < 8,
        forall|i: int| 0 <= i < k ==> (#[trigger] answers[i]).result == windows::INSUFFICIENT_BUFFER,
        calls + k < 8 ==> k < answers.len() && answers[k].result != windows::INSUFFICIENT_BUFFER,
    ensures
        calls + k < 8 && answers[k].result == 0 ==> fetch(words, size, calls, answers) == (
        FetchStepView::Done { words: answers[k].filled, byte_len: answers[k].size as nat }),
        calls + k < 8 && answers[k].result != 0 ==> fetch(words, size, calls, answers)
            == FetchStepView::Failed(answers[k].result),
        calls + k == 8 ==> fetch(words, size, calls, answers) is GaveUp,
    decreases k,
{
    if k > 0 {
        let a = answers[0];
        assert(a.result == windows::INSUFFICIENT_BUFFER);
        match windows::step(a.filled, calls, a.result, a.size) {
            FetchStepView::Again { words, size, calls } => {
                let rest = answers.skip(1);
                assert forall|i: int| 0 <= i < k - 1 implies (#[trigger] rest[i]).result
                    == windows::INSUFFICIENT_BUFFER by {
                    assert(rest[i] == answers[i + 1]);
                }
                if k < answers.len() {
                    assert(rest[k - 1] == answers[k]);
                }
                lemma_decides(words, size, calls, rest, k - 1);
            },
            _ => {},
        }
    }
}

/// The buffer of the next call holds as many bytes as the last one asked
/// for, and not four more.
pub proof fn buffer_fits_the_size(words: Seq<u32>, calls: u32, size: u32)
    ensures
        windows::step(words, calls, windows::INSUFFICIENT_BUFFER, size) matches
            FetchStepView::Again { words: next, .. } ==> size <= 4 * next.len() < size + 4,
{
}

// ---------------------------------------------------------------------
// Tables
// ---------------------------------------------------------------------

/// A table that was filled whole is reported whole: one entry for each of
/// the rows that its first word counts.
pub proof fn every_row_is_reported(table: Table, buf: TableBuf)
    requires
        buf.byte_len > 0,
        buf.words@.len() > 0,
        buf.words@.len() >= 1 + buf.words@[0] * table.row_len(),
    ensures
        table.entries(buf).len() == buf.words@[0],
{
    let count = buf.words@[0] as nat;
    let len = table.row_len();
    let room = (buf.words@.len() - 1) as nat;
    assert(room / len >= count) by (nonlinear_arith)
        requires
            room >= count * len,
            len > 0,
    ;
}

/// Every entry of a table has an owner, and no name yet.
pub proof fn every_entry_has_an_owner(table: Table, buf: TableBuf, i: int)
    requires
        0 <= i < table.entries(buf).len(),
    ensures
        table.entries(buf)[i].pid is Some,
        table.entries(buf)[i].process_name is None,
        table.entries(buf)[i].state is Some <==> table is Tcp4 || table is Tcp6,
{
}

// ---------------------------------------------------------------------
// Fields
// ---------------------------------------------------------------------

/// A port that was put into network order is read back, whatever stands
/// above it in the field.
pub proof fn port_reads_back(port: u16, above: nat)
    ensures
        windows::port_value(windows::port_value(port as nat) + above * 0x1_0000) == port,
{
}

/// A word that was put into network order is read back.
pub proof fn word_reads_back(word: u32)
    ensures
        windows::network_value(windows::network_value(word as nat)) == word,
        windows::network_value(word as nat) <= u32::MAX,
{
    let w = word as nat;
    let a = w % 256;
    let b = w / 0x100 % 256;
    let c = w / 0x1_0000 % 256;
    let d = w / 0x100_0000;
    lemma_four_bytes(w);
    lemma_bytes(a, b, c, d);
    lemma_turned(a, b, c, d);
}

/// A word is made of its four bytes.
proof fn lemma_four_bytes(w: nat)
    requires
        w < 0x1_0000_0000,
    ensures
        w / 0x100_0000 < 256,
        w == w / 0x100_0000 * 0x100_0000 + w / 0x1_0000 % 256 * 0x1_0000 + w / 0x100 % 256 * 0x100
            + w % 256,
{
    lemma_div_denominator(w as int, 0x100, 0x100);
    lemma_div_denominator(w as int, 0x1_0000, 0x100);
    lemma_fundamental_div_mod(w as int, 0x100);
    lemma_fundamental_div_mod((w / 0x100) as int, 0x100);
    lemma_fundamental_div_mod((w / 0x1_0000) as int, 0x100);
}

/// The word with these bytes, read in the other order.
proof fn lemma_bytes(a: nat, b: nat, c: nat, d: nat)
    requires
        a < 256,
        b < 256,
        c < 256,
        d < 256,
    ensures
        windows::network_value(a * 0x100_0000 + b * 0x1_0000 + c * 0x100 + d) == d * 0x100_0000 + c
            * 0x1_0000 + b * 0x100 + a,
{
    lemma_turned(a, b, c, d);
}

// ---------------------------------------------------------------------
// Names
// ---------------------------------------------------------------------

/// The UTF-16 units for a character.
pub open spec fn units_for(c: char) -> Seq<u16> {
    let v = c as int;
    if v < 0x1_0000 {
        seq![v as u16]
    } else {
        seq![
            (0xd800 + (v - 0x1_0000) / 0x400) as u16,
            (0xdc00 + (v - 0x1_0000) % 0x400) as u16,
        ]
    }
}

/// The UTF-16 units for a text.
pub open spec fn units_of(s: Seq<char>) -> Seq<u16>
    decreases s.len(),
{
    if s.len() == 0 {
        seq![]
    } else {
        units_for(s[0]) + units_of(s.skip(1))
    }
}

/// One character, and what follows it.
proof fn lemma_one_char(c: char, rest: Seq<u16>)
    ensures
        windows::utf16_text(units_for(c) + rest) == seq![c] + windows::utf16_text(rest),
{
    let w = units_for(c) + rest;
    let v = c as int;
    if v < 0x1_0000 {
        assert(w[0] == v);
        assert(!windows::is_high(w[0]) && !windows::is_low(w[0]));
        assert(w.skip(1) =~= rest);
    } else {
        assert(windows::is_high(w[0]) && windows::is_low(w[1]));
        assert(w.skip(2) =~= rest);
        assert(0x1_0000 + (w[0] - 0xd800) * 0x400 + (w[1] - 0xdc00) == v);
    }
}

/// The units of a character are read as the character, whatever follows them.
pub proof fn character_is_read(c: char, rest: Seq<u16>)
    ensures
        windows::utf16_text(units_for(c) + rest) == seq![c] + windows::utf16_text(rest),
{
    lemma_one_char(c, rest);
}

/// A text in UTF-16 is read back.
pub proof fn utf16_reads_back(s: Seq<char>)
    ensures
        windows::utf16_text(units_of(s)) == s,
    decreases s.len(),
{
    if s.len() == 0 {
        assert(windows::utf16_text(units_of(s)) =~= s);
    } else {
        utf16_reads_back(s.skip(1));
        lemma_one_char(s[0], units_of(s.skip(1)));
        assert(seq![s[0]] + s.skip(1) =~= s);
    }
}

/// A terminated wide string is read back, whatever stands behind its
/// terminating zero.
pub proof fn wide_string_reads_back(s: Seq<char>, behind: Seq<u16>)
    requires
        forall|i: int| 0 <= i < s.len() ==> #[trigger] s[i] != '\0',
    ensures
        windows::utf16_text(windows::up_to_nul(units_of(s) + seq![0u16] + behind)) == s,
        windows::utf16_text(windows::up_to_nul(units_of(s))) == s,
{
    lemma_no_zero(s);
    lemma_up_to_nul(units_of(s), seq![0u16] + behind);
    assert(units_of(s) + seq![0u16] + behind =~= units_of(s) + (seq![0u16] + behind));
    lemma_up_to_nul(units_of(s), seq![]);
    assert(units_of(s) + Seq::<u16>::empty() =~= units_of(s));
    utf16_reads_back(s);
}

/// The units of a character other than zero are not zero.
proof fn lemma_char_no_zero(c: char)
    requires
        c != '\0',
    ensures
        forall|i: int| 0 <= i < units_for(c).len() ==> #[trigger] units_for(c)[i] != 0,
{
    assert(c as int != 0);
}

/// A text without a zero has none in its units.
proof fn lemma_no_zero(s: Seq<char>)
    requires
        forall|i: int| 0 <= i < s.len() ==> #[trigger] s[i] != '\0',
    ensures
        forall|i: int| 0 <= i < units_of(s).len() ==> #[trigger] units_of(s)[i] != 0,
    decreases s.len(),
{
    if s.len() > 0 {
        let t = s.skip(1);
        assert forall|i: int| 0 <= i < t.len() implies #[trigger] t[i] != '\0' by {
            assert(t[i] == s[i + 1]);
        }
        lemma_no_zero(t);
        let first = units_for(s[0]);
        let u = units_of(s);
        lemma_char_no_zero(s[0]);
        assert forall|i: int| 0 <= i < u.len() implies #[trigger] u[i] != 0 by {
            if i < first.len() {
                assert(u[i] == first[i]);
            } else {
                assert(u[i] == units_of(t)[i - first.len()]);
            }
        }
    }
}

/// Units without a zero, in front of a zero or of nothing, are all of what
/// is read.
proof fn lemma_up_to_nul(w: Seq<u16>, behind: Seq<u16>)
    requires
        forall|i: int| 0 <= i < w.len() ==> #[trigger] w[i] != 0,
        behind.len() > 0 ==> behind[0] == 0,
    ensures
        windows::up_to_nul(w + behind) == w,
    decreases w.len(),
{
    let s = w + behind;
    if w.len() == 0 {
        assert(s =~= behind);
        assert(windows::up_to_nul(s) =~= w);
    } else {
        assert(w[0] != 0);
        assert(s[0] == w[0]);
        assert(s.skip(1) =~= w.skip(1) + behind);
        lemma_up_to_nul(w.skip(1), behind);
        assert(seq![w[0]] + w.skip(1) =~= w);
    }
}

/// A process has a name exactly where the list names it.
pub proof fn names_are_those_listed(list: Seq<Process>, pid: u32)
    ensures
        windows::names_in(list).contains_key(pid) <==> exists|i: int|
            0 <= i < list.len() && (#[trigger] list[i]).pid == pid && windows::utf16_text(
                windows::up_to_nul(list[i].exe_file@),
            ).len() > 0,
    decreases list.len(),
{
    if list.len() > 0 {
        let rest = list.drop_last();
        let n = list.len() - 1;
        names_are_those_listed(rest, pid);
        assert(list[n] == list.last());
        if windows::names_in(rest).contains_key(pid) {
            let i = choose|i: int|
                0 <= i < rest.len() && (#[trigger] rest[i]).pid == pid && windows::utf16_text(
                    windows::up_to_nul(rest[i].exe_file@),
                ).len() > 0;
            assert(list[i] == rest[i]);
        }
        if exists|i: int|
            0 <= i < list.len() && (#[trigger] list[i]).pid == pid && windows::utf16_text(
                windows::up_to_nul(list[i].exe_file@),
            ).len() > 0 {
            let i = choose|i: int|
                0 <= i < list.len() && (#[trigger] list[i]).pid == pid && windows::utf16_text(
                    windows::up_to_nul(list[i].exe_file@),
                ).len() > 0;
            if i < n {
                assert(rest[i] == list[i]);
            }
        }
    }
}

/// Attaching names changes nothing but names.
pub proof fn naming_keeps_the_rest(e: PortEntryView, names: Map<u32, Seq<char>>)
    ensures
        windows::named(e, names).key() == e.key(),
        windows::named(e, names).state == e.state,
        windows::named(e, names).pid == e.pid,
        e.pid is None ==> windows::named(e, names).process_name == e.process_name,
{
}

/// The name of a process is that of its last row in the list that has one.
pub proof fn last_name_counts(list: Seq<Process>, i: int)
    requires
        0 <= i < list.len(),
        windows::utf16_text(windows::up_to_nul(list[i].exe_file@)).len() > 0,
        forall|j: int|
            i < j < list.len() && (#[trigger] list[j]).pid == list[i].pid ==> windows::utf16_text(
                windows::up_to_nul(list[j].exe_file@),
            ).len() == 0,
    ensures
        windows::names_in(list).contains_key(list[i].pid),
        windows::names_in(list)[list[i].pid] == windows::utf16_text(
            windows::up_to_nul(list[i].exe_file@),
        ),
    decreases list.len(),
{
    let rest = list.drop_last();
    let n = list.len() - 1;
    if i < n {
        assert forall|j: int|
            i < j < rest.len() && (#[trigger] rest[j]).pid == rest[i].pid implies windows::utf16_text(
            windows::up_to_nul(rest[j].exe_file@),
        ).len() == 0 by {
            assert(list[j].pid == list[i].pid);
        }
        last_name_counts(rest, i);
        assert(list[n] == list.last());
    }
}

/// An entry with an owner gets the name of that process, and none where the
/// process has no name. All entries are kept, in order.
pub proof fn every_entry_is_named(
    entries: Seq<PortEntryView>,
    names: Map<u32, Seq<char>>,
    i: int,
)
    requires
        0 <= i < entries.len(),
    ensures
        windows::all_named(entries, names).len() == entries.len(),
        ({
            let e = entries[i];
            let r = windows::all_named(entries, names)[i];
            &&& r.protocol == e.protocol
            &&& r.local_addr == e.local_addr
            &&& r.local_port == e.local_port
            &&& r.state == e.state
            &&& r.pid == e.pid
            &&& e.pid is None ==> r.process_name == e.process_name
            &&& e.pid is Some && names.contains_key(e.pid->0) ==> r.process_name == Some(
                names[e.pid->0],
            )
            &&& e.pid is Some && !names.contains_key(e.pid->0) ==> r.process_name is None
        }),
{
}

/// A unit that is half of a pair, without the other half behind it, is read
/// as the replacement character; nothing else is lost.
pub proof fn lone_half_is_replaced(u: u16, rest: Seq<u16>)
    ensures
        0xd800 <= u <= 0xdbff && (rest.len() == 0 || !(0xdc00 <= rest[0] <= 0xdfff))
            ==> windows::utf16_text(seq![u] + rest) == seq!['\u{fffd}'] + windows::utf16_text(rest),
        0xdc00 <= u <= 0xdfff ==> windows::utf16_text(seq![u] + rest) == seq!['\u{fffd}']
            + windows::utf16_text(rest),
        u < 0xd800 || u > 0xdfff ==> windows::utf16_text(seq![u] + rest) == seq![u as char]
            + windows::utf16_text(rest),
{
    let w = seq![u] + rest;
    assert(w[0] == u);
    assert(w.skip(1) =~= rest);
    if rest.len() > 0 {
        assert(w[1] == rest[0]);
    }
}

/// A wide string ends at its first zero, or where the units end.
pub proof fn wide_string_ends_at_zero(w: Seq<u16>, behind: Seq<u16>)
    requires
        forall|i: int| 0 <= i < w.len() ==> #[trigger] w[i] != 0,
    ensures
        windows::up_to_nul(w) == w,
        windows::up_to_nul(w + seq![0u16] + behind) == w,
{
    lemma_up_to_nul(w, seq![]);
    assert(w + Seq::<u16>::empty() =~= w);
    lemma_up_to_nul(w, seq![0u16] + behind);
    assert(w + seq![0u16] + behind =~= w + (seq![0u16] + behind));
}

// ---------------------------------------------------------------------
// Where the fields of a row are
// ---------------------------------------------------------------------

/// Whether these are the bytes of the word, the lowest first, read as an
/// address with the first octet on top.
pub open spec fn is_turned(word: u32, bits: nat) -> bool {
    &&& bits / 0x100_0000 == word as nat % 256
    &&& bits / 0x1_0000 % 256 == word as nat / 0x100 % 256
    &&& bits / 0x100 % 256 == word as nat / 0x1_0000 % 256
    &&& bits % 256 == word as nat / 0x100_0000
}

/// Whether this is the port in the low two bytes of the word, the lower of
/// which is the upper byte of the port.
pub open spec fn is_port_in(word: u32, port: u16) -> bool {
    &&& port as nat / 256 == word as nat % 256
    &&& port as nat % 256 == word as nat / 256 % 256
}

/// An address in a word has its first octet in the lowest byte.
pub proof fn word_is_turned(word: u32)
    ensures
        is_turned(word, windows::network_value(word as nat)),
        windows::network_value(word as nat) < 0x1_0000_0000,
{
    let w = word as nat;
    let a = w % 256;
    let b = w / 0x100 % 256;
    let c = w / 0x1_0000 % 256;
    let d = w / 0x100_0000;
    lemma_turned(a, b, c, d);
}

/// The octets of an address that is made of these.
proof fn lemma_turned(a: nat, b: nat, c: nat, d: nat)
    requires
        a < 256,
        b < 256,
        c < 256,
        d < 256,
    ensures
        ({
            let v = a * 0x100_0000 + b * 0x1_0000 + c * 0x100 + d;
            &&& v < 0x1_0000_0000
            &&& v / 0x100_0000 == a
            &&& v / 0x1_0000 % 256 == b
            &&& v / 0x100 % 256 == c
            &&& v % 256 == d
        }),
{
    let v = a * 0x100_0000 + b * 0x1_0000 + c * 0x100 + d;
    assert(v / 0x100_0000 == a);
    assert(v / 0x1_0000 == a * 256 + b);
    assert(v / 0x100 == a * 0x1_0000 + b * 0x100 + c);
    assert((a * 256 + b) % 256 == b);
    assert((a * 0x1_0000 + b * 0x100 + c) % 256 == c);
}

/// A port is in the low two bytes of its word, whatever stands above them.
pub proof fn port_is_in_the_low_bytes(word: u32)
    ensures
        windows::port_value(word as nat) < 0x1_0000,
        is_port_in(word, windows::port_value(word as nat) as u16),
{
}

/// A row of the TCP table has six words: the state is in the first, the
/// address in the second, the port in the third and the owner in the last.
pub proof fn tcp4_fields(buf: TableBuf, i: int)
    requires
        0 <= i < Table::Tcp4.entries(buf).len(),
    ensures
        ({
            let e = Table::Tcp4.entries(buf)[i];
            let w = buf.words@.skip(1 + 6 * i);
            &&& e.protocol is Tcp
            &&& e.local_addr matches IpAddr::V4(a) && is_turned(w[1], a.bits as nat)
            &&& is_port_in(w[2], e.local_port)
            &&& e.state == Some(model::windows_state(w[0]))
            &&& e.pid == Some(w[5])
            &&& e.process_name is None
        }),
{
    let at = 1 + i * 6;
    lemma_fits(Table::Tcp4, buf, i);
    let w = buf.words@.skip(1 + 6 * i);
    assert(w[0] == buf.words@[at] && w[1] == buf.words@[at + 1] && w[2] == buf.words@[at + 2]
        && w[5] == buf.words@[at + 5]);
    word_is_turned(w[1]);
    port_is_in_the_low_bytes(w[2]);
}

/// A row of the UDP table has three words: address, port and owner.
pub proof fn udp4_fields(buf: TableBuf, i: int)
    requires
        0 <= i < Table::Udp4.entries(buf).len(),
    ensures
        ({
            let e = Table::Udp4.entries(buf)[i];
            let w = buf.words@.skip(1 + 3 * i);
            &&& e.protocol is Udp
            &&& e.local_addr matches IpAddr::V4(a) && is_turned(w[0], a.bits as nat)
            &&& is_port_in(w[1], e.local_port)
            &&& e.state is None
            &&& e.pid == Some(w[2])
            &&& e.process_name is None
        }),
{
    let at = 1 + i * 3;
    lemma_fits(Table::Udp4, buf, i);
    let w = buf.words@.skip(1 + 3 * i);
    assert(w[0] == buf.words@[at] && w[1] == buf.words@[at + 1] && w[2] == buf.words@[at + 2]);
    word_is_turned(w[0]);
    port_is_in_the_low_bytes(w[1]);
}

/// Whether the address has these four words, each with its first octet in
/// its lowest byte, the first word on top.
pub open spec fn is_turned6(w: Seq<u32>, bits: nat) -> bool {
    &&& is_turned(w[0], bits / 0x1_0000_0000_0000_0000_0000_0000)
    &&& is_turned(w[1], bits / 0x1_0000_0000_0000_0000 % 0x1_0000_0000)
    &&& is_turned(w[2], bits / 0x1_0000_0000 % 0x1_0000_0000)
    &&& is_turned(w[3], bits % 0x1_0000_0000)
}

/// The words of a number that is made of four of them.
proof fn lemma_words(a: nat, b: nat, c: nat, d: nat)
    requires
        a < 0x1_0000_0000,
        b < 0x1_0000_0000,
        c < 0x1_0000_0000,
        d < 0x1_0000_0000,
    ensures
        ({
            let v = a * 0x1_0000_0000_0000_0000_0000_0000 + b * 0x1_0000_0000_0000_0000 + c
                * 0x1_0000_0000 + d;
            &&& v <= u128::MAX
            &&& v / 0x1_0000_0000_0000_0000_0000_0000 == a
            &&& v / 0x1_0000_0000_0000_0000 % 0x1_0000_0000 == b
            &&& v / 0x1_0000_0000 % 0x1_0000_0000 == c
            &&& v % 0x1_0000_0000 == d
        }),
{
    let v = a * 0x1_0000_0000_0000_0000_0000_0000 + b * 0x1_0000_0000_0000_0000 + c * 0x1_0000_0000
        + d;
    assert(v / 0x1_0000_0000_0000_0000_0000_0000 == a);
    assert(v / 0x1_0000_0000_0000_0000 == a * 0x1_0000_0000 + b);
    assert(v / 0x1_0000_0000 == a * 0x1_0000_0000_0000_0000 + b * 0x1_0000_0000 + c);
    assert((a * 0x1_0000_0000 + b) % 0x1_0000_0000 == b);
    assert((a * 0x1_0000_0000_0000_0000 + b * 0x1_0000_0000 + c) % 0x1_0000_0000 == c);
}

/// An IPv6 address is in four words.
pub proof fn address6_is_turned(w: Seq<u32>, at: int)
    requires
        0 <= at,
        at + 4 <= w.len(),
    ensures
        windows::address6_value(w, at) <= u128::MAX,
        is_turned6(w.skip(at), windows::address6_value(w, at)),
{
    word_is_turned(w[at]);
    word_is_turned(w[at + 1]);
    word_is_turned(w[at + 2]);
    word_is_turned(w[at + 3]);
    lemma_words(
        windows::network_value(w[at] as nat),
        windows::network_value(w[at + 1] as nat),
        windows::network_value(w[at + 2] as nat),
        windows::network_value(w[at + 3] as nat),
    );
    let s = w.skip(at);
    assert(s[0] == w[at] && s[1] == w[at + 1] && s[2] == w[at + 2] && s[3] == w[at + 3]);
}

/// A row of the TCP table over IPv6 has fourteen words: the address is in the
/// first four, the port in the sixth, the state in the thirteenth and the
/// owner in the last.
pub proof fn tcp6_fields(buf: TableBuf, i: int)
    requires
        0 <= i < Table::Tcp6.entries(buf).len(),
    ensures
        ({
            let e = Table::Tcp6.entries(buf)[i];
            let w = buf.words@.skip(1 + 14 * i);
            &&& e.protocol is Tcp
            &&& e.local_addr matches IpAddr::V6(a) && is_turned6(w, a.bits as nat)
            &&& is_port_in(w[5], e.local_port)
            &&& e.state == Some(model::windows_state(w[12]))
            &&& e.pid == Some(w[13])
            &&& e.process_name is None
        }),
{
    let at = 1 + i * 14;
    lemma_fits(Table::Tcp6, buf, i);
    let w = buf.words@.skip(1 + 14 * i);
    assert(w[5] == buf.words@[at + 5] && w[12] == buf.words@[at + 12] && w[13] == buf.words@[at
        + 13]);
    address6_is_turned(buf.words@, at);
    port_is_in_the_low_bytes(w[5]);
}

/// A row of the UDP table over IPv6 has seven words: the address is in the
/// first four, the port in the sixth and the owner in the last.
pub proof fn udp6_fields(buf: TableBuf, i: int)
    requires
        0 <= i < Table::Udp6.entries(buf).len(),
    ensures
        ({
            let e = Table::Udp6.entries(buf)[i];
            let w = buf.words@.skip(1 + 7 * i);
            &&& e.protocol is Udp
            &&& e.local_addr matches IpAddr::V6(a) && is_turned6(w, a.bits as nat)
            &&& is_port_in(w[5], e.local_port)
            &&& e.state is None
            &&& e.pid == Some(w[6])
            &&& e.process_name is None
        }),
{
    let at = 1 + i * 7;
    lemma_fits(Table::Udp6, buf, i);
    let w = buf.words@.skip(1 + 7 * i);
    assert(w[5] == buf.words@[at + 5] && w[6] == buf.words@[at + 6]);
    address6_is_turned(buf.words@, at);
    port_is_in_the_low_bytes(w[5]);
}

/// A row that is read is in the buffer whole.
proof fn lemma_fits(table: Table, buf: TableBuf, i: int)
    requires
        0 <= i < table.entries(buf).len(),
    ensures
        1 + i * table.row_len() + table.row_len() <= buf.words@.len(),
{
    let len = table.row_len() as int;
    let room = buf.words@.len() - 1;
    let fit = room / len;
    assert(i * len + len <= room) by (nonlinear_arith)
        requires
            i + 1 <= fit,
            fit == room / len,
            len > 0,
            room >= 0,
    ;
}

/// How many rows of a table are read: none of one that was not filled; else
/// as many as its first word says, or as many as are in the buffer whole,
/// whichever is less.
pub proof fn rows_are_those_that_fit(table: Table, buf: TableBuf)
    ensures
        ({
            let n = table.entries(buf).len();
            let len: nat = match table {
                Table::Tcp4 => 6,
                Table::Tcp6 => 14,
                Table::Udp4 => 3,
                Table::Udp6 => 7,
            };
            let w = buf.words@;
            &&& buf.byte_len == 0 || w.len() == 0 ==> n == 0
            &&& buf.byte_len > 0 && w.len() > 0 ==> {
                &&& n <= w[0]
                &&& 1 + n * len <= w.len()
                &&& n == w[0] || 1 + (n + 1) * len > w.len()
            }
        }),
{
    let len = table.row_len() as int;
    let room = buf.words@.len() - 1;
    if buf.words@.len() > 0 {
        let fit = room / len;
        let n = table.entries(buf).len() as int;
        assert(fit * len <= room && (fit + 1) * len > room) by (nonlinear_arith)
            requires
                fit == room / len,
                len > 0,
                room >= 0,
        ;
        assert(n * len <= fit * len) by (nonlinear_arith)
            requires
                n <= fit,
                len > 0,
        ;
    }
}

/// The entries of a scan are those of the four tables, one table after the
/// other.
pub proof fn tables_follow_each_other(
    tcp4: TableBuf,
    tcp6: TableBuf,
    udp4: TableBuf,
    udp6: TableBuf,
)
    ensures
        ({
            let all = windows::all_entries(tcp4, tcp6, udp4, udp6);
            let a = Table::Tcp4.entries(tcp4);
            let b = Table::Tcp6.entries(tcp6);
            let c = Table::Udp4.entries(udp4);
            let d = Table::Udp6.entries(udp6);
            &&& all.len() == a.len() + b.len() + c.len() + d.len()
            &&& all.take(a.len() as int) == a
            &&& all.subrange(a.len() as int, (a.len() + b.len()) as int) == b
            &&& all.subrange(
                (a.len() + b.len()) as int,
                (a.len() + b.len() + c.len()) as int,
            ) == c
            &&& all.skip((a.len() + b.len() + c.len()) as int) == d
        }),
{
    lemma_four_rows(
        Table::Tcp4.entries(tcp4),
        Table::Tcp6.entries(tcp6),
        Table::Udp4.entries(udp4),
        Table::Udp6.entries(udp6),
    );
}

/// Where four rows stand when they are put behind each other.
proof fn lemma_four_rows(
    a: Seq<PortEntryView>,
    b: Seq<PortEntryView>,
    c: Seq<PortEntryView>,
    d: Seq<PortEntryView>,
)
    ensures
        ({
            let all = a + b + c + d;
            &&& all.len() == a.len() + b.len() + c.len() + d.len()
            &&& all.take(a.len() as int) == a
            &&& all.subrange(a.len() as int, (a.len() + b.len()) as int) == b
            &&& all.subrange(
                (a.len() + b.len()) as int,
                (a.len() + b.len() + c.len()) as int,
            ) == c
            &&& all.skip((a.len() + b.len() + c.len()) as int) == d
        }),
{
    let all = a + b + c + d;
    assert(all.take(a.len() as int) =~= a);
    assert(all.subrange(a.len() as int, (a.len() + b.len()) as int) =~= b);
    assert(all.subrange((a.len() + b.len()) as int, (a.len() + b.len() + c.len()) as int) =~= c);
    assert(all.skip((a.len() + b.len() + c.len()) as int) =~= d);
}

/// What follows from the answer to a call: zero is success, and the table is
/// what the call left in the buffer; `ERROR_INSUFFICIENT_BUFFER`, which is 122,
/// asks for another call with as much room as the answer says, all of it
/// zero, unless that was the eighth call; anything else is the failure.
pub proof fn answer_decides(words: Seq<u32>, calls: u32, result: u32, size: u32)
    requires
        calls < 8,
    ensures
        ({
            let next = windows::step(words, calls, result, size);
            &&& result == 0 ==> next == (FetchStepView::Done { words, byte_len: size as nat })
            &&& result != 0 && result != 122 ==> next == FetchStepView::Failed(result)
            &&& result == 122 && calls == 7 ==> next is GaveUp
            &&& result == 122 && calls < 7 ==> {
                &&& next is Again
                &&& next->Again_size == size
                &&& next->Again_calls == calls + 1
                &&& size <= 4 * next->Again_words.len() < size + 4
                &&& forall|i: int|
                    0 <= i < next->Again_words.len() ==> #[trigger] next->Again_words[i] == 0
            }
        }),
{
}

/// The view of a step has all that the step has.
pub proof fn view_keeps_the_step(s: FetchStep)
    ensures
        s matches FetchStep::Again(f) ==> s@ == (FetchStepView::Again {
            words: f.words@,
            size: f.size,
            calls: f.calls,
        }),
        s matches FetchStep::Done(b) ==> s@ == (FetchStepView::Done {
            words: b.words@,
            byte_len: b.byte_len as nat,
        }),
        s matches FetchStep::Failed(c) ==> s@ == FetchStepView::Failed(c),
        s is GaveUp ==> s@ is GaveUp,
{
}

} // verus!
