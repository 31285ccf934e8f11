//! Laws of the Linux port source: what the kernel writes is read back, no
//! socket is dropped, and owners are those processes that hold the socket.

use crate::addr;
use crate::addr::IpAddr;
use crate::addr_laws;
use crate::linux;
use crate::linux::{FdEntry, Found, ProcDir, RawSocket, Table, Tables};
use crate::model::TcpState;
use crate::text;
use crate::text_laws;
use vstd::arithmetic::div_mod::*;
use vstd::prelude::*;

verus! {

// ---------------------------------------------------------------------
// Reading what the kernel writes
// ---------------------------------------------------------------------

/// The digit for `d`, with upper-case letters for ten and above.
pub open spec fn upper_digit(d: nat) -> char {
    if d < 10 {
        (48 + d) as char
    } else {
        (55 + d) as char
    }
}

/// A byte in two hexadecimal digits.
pub open spec fn byte_text(b: nat) -> Seq<char> {
    seq![upper_digit(b / 16), upper_digit(b % 16)]
}

/// An IPv4 address as the kernel writes it: the octets in reverse.
pub open spec fn kernel_ipv4(bits: nat) -> Seq<char> {
    let o = addr::octets(bits);
    byte_text(o[3]) + byte_text(o[2]) + byte_text(o[1]) + byte_text(o[0])
}

/// An IPv6 address as the kernel writes it: four words, each as an IPv4
/// address.
pub open spec fn kernel_ipv6(bits: nat) -> Seq<char> {
    kernel_ipv4(bits / 0x1_0000_0000_0000_0000_0000_0000) + kernel_ipv4(
        bits / 0x1_0000_0000_0000_0000 % 0x1_0000_0000,
    ) + kernel_ipv4(bits / 0x1_0000_0000 % 0x1_0000_0000) + kernel_ipv4(bits % 0x1_0000_0000)
}

/// An address as the kernel writes it.
pub open spec fn kernel_addr(a: IpAddr) -> Seq<char> {
    match a {
        IpAddr::V4(v) => kernel_ipv4(v.bits as nat),
        IpAddr::V6(v) => kernel_ipv6(v.bits as nat),
    }
}

/// Two hexadecimal digits are read back as the byte.
proof fn lemma_byte_text(b: nat)
    requires
        b < 256,
    ensures
        text::unsigned(byte_text(b), 16, 255) == Some(b),
        text_laws::all_digits(byte_text(b), 16),
{
    let s = byte_text(b);
    reveal_with_fuel(text::digits_value, 3);
    assert(s.drop_last() =~= seq![upper_digit(b / 16)]);
    assert(s.drop_last().drop_last() =~= seq![]);
    assert(s.last() == upper_digit(b % 16));
    assert(text::digit_value(s[0], 16) == Some(b / 16));
    assert(text::digit_value(s[1], 16) == Some(b % 16));
}

/// An IPv4 address that the kernel wrote is read back.
pub proof fn kernel_ipv4_reads_back(bits: nat)
    requires
        bits < 0x1_0000_0000,
    ensures
        linux::ipv4_hex_value(kernel_ipv4(bits)) == Some(bits),
        kernel_ipv4(bits).len() == 8,
        text_laws::all_digits(kernel_ipv4(bits), 16),
{
    let o = addr::octets(bits);
    let t = kernel_ipv4(bits);
    addr_laws::octets_make_the_address(bits);
    assert(o[0] < 256 && o[1] < 256 && o[2] < 256 && o[3] < 256);
    lemma_byte_text(o[0]);
    lemma_byte_text(o[1]);
    lemma_byte_text(o[2]);
    lemma_byte_text(o[3]);
    assert(t.subrange(0, 2) =~= byte_text(o[3]));
    assert(t.subrange(2, 4) =~= byte_text(o[2]));
    assert(t.subrange(4, 6) =~= byte_text(o[1]));
    assert(t.subrange(6, 8) =~= byte_text(o[0]));
    assert(seq![o[0], o[1], o[2], o[3]] =~= o);
    assert forall|i: int| 0 <= i < t.len() implies text::digit_value(#[trigger] t[i], 16) is Some by {
        if i < 2 {
            assert(t[i] == byte_text(o[3])[i]);
        } else if i < 4 {
            assert(t[i] == byte_text(o[2])[i - 2]);
        } else if i < 6 {
            assert(t[i] == byte_text(o[1])[i - 4]);
        } else {
            assert(t[i] == byte_text(o[0])[i - 6]);
        }
    }
}

/// An IPv6 address that the kernel wrote is read back.
pub proof fn kernel_ipv6_reads_back(bits: nat)
    requires
        bits <= u128::MAX,
    ensures
        linux::ipv6_hex_value(kernel_ipv6(bits)) == Some(bits),
        text_laws::all_digits(kernel_ipv6(bits), 16),
{
    let w0 = bits / 0x1_0000_0000_0000_0000_0000_0000;
    let w1 = bits / 0x1_0000_0000_0000_0000 % 0x1_0000_0000;
    let w2 = bits / 0x1_0000_0000 % 0x1_0000_0000;
    let w3 = bits % 0x1_0000_0000;
    lemma_four_words(bits);
    lemma_kernel_words(w0, w1, w2, w3);
}

/// One word taken off the low end of a number.
proof fn lemma_low_word(bits: nat, unit: nat)
    requires
        unit > 0,
    ensures
        bits / unit == bits / (unit * 0x1_0000_0000) * 0x1_0000_0000 + bits / unit % 0x1_0000_0000,
{
    lemma_div_denominator(bits as int, unit as int, 0x1_0000_0000);
    lemma_fundamental_div_mod((bits / unit) as int, 0x1_0000_0000);
}

/// A number is made of its four words.
proof fn lemma_four_words(bits: nat)
    requires
        bits <= u128::MAX,
    ensures
        bits / 0x1_0000_0000_0000_0000_0000_0000 < 0x1_0000_0000,
        bits / 0x1_0000_0000_0000_0000_0000_0000 * 0x1_0000_0000_0000_0000_0000_0000 + bits
            / 0x1_0000_0000_0000_0000 % 0x1_0000_0000 * 0x1_0000_0000_0000_0000 + bits
            / 0x1_0000_0000 % 0x1_0000_0000 * 0x1_0000_0000 + bits % 0x1_0000_0000 == bits,
{
    lemma_low_word(bits, 1);
    lemma_low_word(bits, 0x1_0000_0000);
    lemma_low_word(bits, 0x1_0000_0000_0000_0000);
}

/// Four words that the kernel wrote are read back.
#[verifier::rlimit(40)]
proof fn lemma_kernel_words(w0: nat, w1: nat, w2: nat, w3: nat)
    requires
        w0 < 0x1_0000_0000,
        w1 < 0x1_0000_0000,
        w2 < 0x1_0000_0000,
        w3 < 0x1_0000_0000,
    ensures
        ({
            let t = kernel_ipv4(w0) + kernel_ipv4(w1) + kernel_ipv4(w2) + kernel_ipv4(w3);
            &&& linux::ipv6_hex_value(t) == Some(
                w0 * 0x1_0000_0000_0000_0000_0000_0000 + w1 * 0x1_0000_0000_0000_0000 + w2
                    * 0x1_0000_0000 + w3,
            )
            &&& text_laws::all_digits(t, 16)
        }),
{
    let a = kernel_ipv4(w0);
    let b = kernel_ipv4(w1);
    let c = kernel_ipv4(w2);
    let d = kernel_ipv4(w3);
    let t = a + b + c + d;
    kernel_ipv4_reads_back(w0);
    kernel_ipv4_reads_back(w1);
    kernel_ipv4_reads_back(w2);
    kernel_ipv4_reads_back(w3);
    assert(t.subrange(0, 8) =~= a);
    assert(t.subrange(8, 16) =~= b);
    assert(t.subrange(16, 24) =~= c);
    assert(t.subrange(24, 32) =~= d);
    assert forall|i: int| 0 <= i < t.len() implies text::digit_value(#[trigger] t[i], 16) is Some by {
        if i < 8 {
            assert(t[i] == a[i]);
        } else if i < 16 {
            assert(t[i] == b[i - 8]);
        } else if i < 24 {
            assert(t[i] == c[i - 16]);
        } else {
            assert(t[i] == d[i - 24]);
        }
    }
}

/// An address that the kernel wrote is read back from a table of its
/// family.
proof fn lemma_kernel_addr(a: IpAddr)
    ensures
        linux::addr_hex_value(kernel_addr(a), a is V6) == Some(a),
        text_laws::all_digits(kernel_addr(a), 16),
{
    match a {
        IpAddr::V4(v) => {
            kernel_ipv4_reads_back(v.bits as nat);
        },
        IpAddr::V6(v) => {
            kernel_ipv6_reads_back(v.bits as nat);
        },
    }
}

/// Where the digits end at the first colon, an address field is read as
/// what stands on the colon's two sides.
proof fn lemma_field(k: Seq<char>, port_text: Seq<char>, v6: bool)
    requires
        text_laws::all_digits(k, 16),
    ensures
        linux::addr_port_value(k + seq![':'] + port_text, v6) == match (
            linux::addr_hex_value(k, v6),
            text::unsigned(port_text, 16, u16::MAX as nat),
        ) {
            (Some(a), Some(p)) => Some((a, p as u16)),
            _ => None,
        },
{
    let t = k + seq![':'] + port_text;
    let n = k.len() as int;
    assert forall|i: int| 0 <= i < n implies t[i] != ':' by {
        assert(t[i] == k[i]);
        assert(text::digit_value(k[i], 16) is Some);
    }
    assert(t[n] == ':');
    text::lemma_find_is(t, ':', n);
    assert(t.take(n) =~= k);
    assert(t.skip(n + 1) =~= port_text);
}

/// An address and a port that the kernel wrote are read back from a table
/// of the address's family.
pub proof fn kernel_field_reads_back(a: IpAddr, port_text: Seq<char>, port: u16)
    requires
        text::unsigned(port_text, 16, u16::MAX as nat) == Some(port as nat),
    ensures
        linux::addr_port_value(kernel_addr(a) + seq![':'] + port_text, a is V6) == Some((a, port)),
{
    lemma_kernel_addr(a);
    lemma_field(kernel_addr(a), port_text, a is V6);
}

/// A text that starts and ends in something other than white space is
/// trimmed already.
proof fn lemma_trimmed(s: Seq<char>)
    requires
        s.len() > 0,
        !text::is_white(s[0]),
        !text::is_white(s.last()),
    ensures
        text::trim(s) == s,
{
    assert(s.skip(0) =~= s);
}

/// Words joined by spaces start as their first and end as their last.
proof fn lemma_joined_ends(words: Seq<Seq<char>>)
    requires
        words.len() > 0,
        forall|i: int| 0 <= i < words.len() ==> text_laws::is_word(#[trigger] words[i]),
    ensures
        text::join(words, seq![' ']).len() >= words[0].len(),
        text::join(words, seq![' ']).take(words[0].len() as int) == words[0],
        words.len() > 1 ==> text::join(words, seq![' ']).len() > words[0].len() && text::join(
            words,
            seq![' '],
        )[words[0].len() as int] == ' ',
        text::join(words, seq![' ']).last() == words.last().last(),
{
    let s = text::join(words, seq![' ']);
    assert(text_laws::is_word(words[words.len() - 1]));
    if words.len() > 1 {
        text_laws::lemma_join_front(words, seq![' ']);
        let rest = text::join(words.drop_first(), seq![' ']);
        assert(s == words[0] + seq![' '] + rest);
        assert(s.take(words[0].len() as int) =~= words[0]);
        assert(s == text::join(words.drop_last(), seq![' ']) + seq![' '] + words.last());
    } else {
        assert(s == words[0]);
        assert(s.take(words[0].len() as int) =~= words[0]);
    }
}

/// A row that the kernel wrote is read back: the local address and port,
/// the state and the inode are those that stand in its columns.
pub proof fn kernel_row_reads_back(
    columns: Seq<Seq<char>>,
    port_text: Seq<char>,
    row: RawSocket,
)
    requires
        columns.len() >= 10,
        forall|i: int| 0 <= i < columns.len() ==> text_laws::is_word(#[trigger] columns[i]),
        !(columns[0].len() >= 2 && columns[0][0] == 's' && columns[0][1] == 'l'),
        columns[1] == kernel_addr(row.local_addr) + seq![':'] + port_text,
        text::unsigned(port_text, 16, u16::MAX as nat) == Some(row.local_port as nat),
        text::unsigned(columns[3], 16, u32::MAX as nat) == Some(row.state as nat),
        text::unsigned(columns[9], 10, u64::MAX as nat) == Some(row.inode as nat),
    ensures
        linux::row_value(text::join(columns, seq![' ']), row.local_addr is V6) == Some(row),
{
    let line = text::join(columns, seq![' ']);
    lemma_joined_ends(columns);
    assert(text_laws::is_word(columns[0]));
    assert(text_laws::is_word(columns[columns.len() - 1]));
    let c = columns[0];
    let z = columns.last();
    assert(line[0] == line.take(c.len() as int)[0]);
    assert(!text::is_white(c[0]));
    assert(!text::is_white(z[z.len() - 1]));
    lemma_trimmed(line);
    text_laws::joined_words_part(columns);
    if c.len() >= 2 {
        assert(line[1] == line.take(c.len() as int)[1]);
    }
    kernel_field_reads_back(row.local_addr, port_text, row.local_port);
}

/// The rows of a text are those of its lines, each by itself: a line that
/// holds no row takes nothing from the others.
pub proof fn rows_are_independent(a: Seq<Seq<char>>, b: Seq<Seq<char>>, v6: bool)
    ensures
        linux::rows_in(a + b, v6) == linux::rows_in(a, v6) + linux::rows_in(b, v6),
    decreases b.len(),
{
    if b.len() == 0 {
        assert(a + b =~= a);
        assert(linux::rows_in(a, v6) + linux::rows_in(b, v6) =~= linux::rows_in(a, v6));
    } else {
        rows_are_independent(a, b.drop_last(), v6);
        assert((a + b).drop_last() =~= a + b.drop_last());
        assert((a + b).last() == b.last());
        match linux::row_value(b.last(), v6) {
            Some(row) => {
                let x = linux::rows_in(a, v6);
                let y = linux::rows_in(b.drop_last(), v6);
                assert((x + y).push(row) =~= x + y.push(row));
            },
            None => {},
        }
    }
}

/// A carriage return at the end is white space.
proof fn lemma_trim_drop_cr(s: Seq<char>)
    ensures
        text::trim(text::drop_cr(s)) == text::trim(s),
{
    if s.len() > 0 && s.last() == '\r' {
        let d = s.drop_last();
        text::lemma_white_len(d);
        let n = text::white_len(d) as int;
        assert forall|i: int| 0 <= i < n implies text::is_white(#[trigger] s[i]) by {
            assert(d[i] == s[i]);
        }
        if n < d.len() {
            assert(d[n] == s[n]);
            text::lemma_white_len_is(s, n);
            assert(s.skip(n).drop_last() =~= d.skip(n));
            assert(s.skip(n).last() == '\r');
        } else {
            assert(text::is_white(s[n]));
            text::lemma_white_len_is(s, s.len() as int);
            assert(s.skip(s.len() as int) =~= d.skip(n));
        }
    }
}

/// The rows of one line.
proof fn lemma_one_row(line: Seq<char>, v6: bool)
    ensures
        linux::rows_in(seq![line], v6) == match linux::row_value(line, v6) {
            Some(row) => seq![row],
            None => seq![],
        },
{
    let l = seq![line];
    assert(l.drop_last() =~= seq![]);
    assert(linux::rows_in(l.drop_last(), v6) =~= seq![]);
    assert(l.last() == line);
    match linux::row_value(line, v6) {
        Some(row) => {
            assert(linux::rows_in(l, v6) =~= seq![row]);
        },
        None => {},
    }
}

/// The first line of a text in front of a line feed, and what follows it.
proof fn lemma_first_line(line: Seq<char>, rest: Seq<char>, v6: bool)
    requires
        forall|k: int| 0 <= k < line.len() ==> #[trigger] line[k] != '\n',
    ensures
        linux::table_value(line + seq!['\n'] + rest, v6) == linux::rows_in(seq![line], v6)
            + linux::table_value(rest, v6),
        linux::table_value(line, v6) == linux::rows_in(seq![line], v6),
{
    let s = line + seq!['\n'] + rest;
    let n = line.len() as int;
    assert forall|i: int| 0 <= i < n implies s[i] != '\n' by {
        assert(s[i] == line[i]);
    }
    assert(s[n] == '\n');
    text::lemma_find_is(s, '\n', n);
    assert(s.take(n) =~= line);
    assert(s.skip(n + 1) =~= rest);
    let first = seq![text::drop_cr(line)];
    assert(text::lines(s) == first + text::lines(rest));
    rows_are_independent(first, text::lines(rest), v6);
    lemma_trim_drop_cr(line);
    lemma_one_row(line, v6);
    lemma_one_row(text::drop_cr(line), v6);
    text_laws::rest_is_a_line(line);
    if n == 0 {
        text_laws::blank_text_has_no_words(line);
        assert(linux::table_value(line, v6) =~= seq![]);
    }
}

/// A table reads as its parts do: the rows of a text, a line feed and
/// another text are the rows of the one, then those of the other.
pub proof fn tables_concatenate(a: Seq<char>, b: Seq<char>, v6: bool)
    ensures
        linux::table_value(a + seq!['\n'] + b, v6) == linux::table_value(a, v6)
            + linux::table_value(b, v6),
    decreases a.len(),
{
    let n = text::find(a, '\n');
    text::lemma_find(a, '\n');
    let line = a.take(n);
    assert forall|k: int| 0 <= k < line.len() implies #[trigger] line[k] != '\n' by {
        assert(line[k] == a[k]);
    }
    if n < a.len() {
        let rest = a.skip(n + 1);
        assert(a =~= line + seq!['\n'] + rest);
        assert(a + seq!['\n'] + b =~= line + seq!['\n'] + (rest + seq!['\n'] + b));
        tables_concatenate(rest, b, v6);
        lemma_first_line(line, rest, v6);
        lemma_first_line(line, rest + seq!['\n'] + b, v6);
        let x = linux::rows_in(seq![line], v6);
        assert(x + (linux::table_value(rest, v6) + linux::table_value(b, v6)) =~= x
            + linux::table_value(rest, v6) + linux::table_value(b, v6));
    } else {
        assert(line =~= a);
        lemma_first_line(a, b, v6);
    }
}

/// A blank line in front of a table is skipped.
pub proof fn blank_line_is_skipped(line: Seq<char>, content: Seq<char>, v6: bool)
    requires
        forall|k: int| 0 <= k < line.len() ==> #[trigger] line[k] != '\n',
        text::trim(line).len() == 0,
    ensures
        linux::table_value(line + seq!['\n'] + content, v6) == linux::table_value(content, v6),
{
    tables_concatenate(line, content, v6);
    if line.len() > 0 {
        text::lemma_find_is(line, '\n', line.len() as int);
        assert(text::lines(line) =~= seq![line]);
        lemma_one_row(line, v6);
    }
    assert(linux::table_value(line, v6) =~= seq![]);
    assert(linux::table_value(line, v6) + linux::table_value(content, v6) =~= linux::table_value(
        content,
        v6,
    ));
}

/// A table reads the same with its heading or without.
pub proof fn heading_is_skipped(heading: Seq<char>, content: Seq<char>, v6: bool)
    requires
        forall|k: int| 0 <= k < heading.len() ==> #[trigger] heading[k] != '\n',
        text::trim(text::drop_cr(heading)).len() >= 2,
        text::trim(text::drop_cr(heading))[0] == 's',
        text::trim(text::drop_cr(heading))[1] == 'l',
    ensures
        linux::table_value(heading + seq!['\n'] + content, v6) == linux::table_value(content, v6),
{
    let s = heading + seq!['\n'] + content;
    assert forall|i: int| 0 <= i < heading.len() implies s[i] != '\n' by {
        assert(s[i] == heading[i]);
    }
    assert(s[heading.len() as int] == '\n');
    text::lemma_find_is(s, '\n', heading.len() as int);
    assert(s.take(heading.len() as int) =~= heading);
    assert(s.skip(heading.len() as int + 1) =~= content);
    let h = seq![text::drop_cr(heading)];
    assert(text::lines(s) == h + text::lines(content));
    rows_are_independent(h, text::lines(content), v6);
    assert(h.drop_last() =~= seq![]);
    assert(h.last() == text::drop_cr(heading));
    assert(linux::row_value(h.last(), v6) is None);
    assert(linux::rows_in(h.drop_last(), v6) =~= seq![]);
    assert(linux::rows_in(h, v6) == linux::rows_in(h.drop_last(), v6));
    assert(linux::rows_in(h, v6) + linux::table_value(content, v6) =~= linux::table_value(
        content,
        v6,
    ));
}

// ---------------------------------------------------------------------
// Owners
// ---------------------------------------------------------------------

/// Whether one of the descriptors is the socket with this inode.
pub open spec fn has_inode(fds: Seq<FdEntry>, inode: u64) -> bool {
    exists|i: int| 0 <= i < fds.len() && linux::fd_inode(#[trigger] fds[i]) == Some(inode)
}

/// Whether the entry of `/proc` is a process that is seen to hold the
/// socket.
pub open spec fn holds(dir: ProcDir, inode: u64) -> bool {
    linux::pid_value(dir.name@) is Some && (dir.fds matches Some(fds) && has_inode(fds@, inode))
}

/// What the descriptors of one process add to the known owners.
proof fn lemma_with_fds(owners: Map<u64, u32>, pid: u32, fds: Seq<FdEntry>, inode: u64)
    ensures
        linux::with_fds(owners, pid, fds).contains_key(inode) <==> owners.contains_key(inode)
            || has_inode(fds, inode),
        owners.contains_key(inode) ==> linux::with_fds(owners, pid, fds)[inode] == owners[inode],
        !owners.contains_key(inode) && has_inode(fds, inode) ==> linux::with_fds(
            owners,
            pid,
            fds,
        )[inode] == pid,
    decreases fds.len(),
{
    if fds.len() > 0 {
        let rest = fds.drop_last();
        lemma_with_fds(owners, pid, rest, inode);
        if has_inode(fds, inode) {
            let i = choose|i: int|
                0 <= i < fds.len() && linux::fd_inode(#[trigger] fds[i]) == Some(inode);
            if i < rest.len() {
                assert(rest[i] == fds[i]);
                assert(has_inode(rest, inode));
            }
        }
        if has_inode(rest, inode) {
            let i = choose|i: int|
                0 <= i < rest.len() && linux::fd_inode(#[trigger] rest[i]) == Some(inode);
            assert(fds[i] == rest[i]);
        }
        if linux::fd_inode(fds.last()) == Some(inode) {
            assert(linux::fd_inode(fds[fds.len() - 1]) == Some(inode));
            assert(has_inode(fds, inode));
        }
    }
}

/// A socket has an owner exactly where a process is seen to hold it, and
/// the owner is the first such process. No owner is made up.
pub proof fn owner_is_first_holder(dirs: Seq<ProcDir>, inode: u64)
    ensures
        linux::owners_in(dirs).contains_key(inode) <==> exists|i: int|
            0 <= i < dirs.len() && holds(#[trigger] dirs[i], inode),
        forall|i: int|
            0 <= i < dirs.len() && holds(#[trigger] dirs[i], inode) && (forall|j: int|
                0 <= j < i ==> !holds(#[trigger] dirs[j], inode)) ==> linux::pid_value(
                dirs[i].name@,
            ) == Some(linux::owners_in(dirs)[inode]),
    decreases dirs.len(),
{
    if dirs.len() > 0 {
        let rest = dirs.drop_last();
        let last = dirs.last();
        let n = dirs.len() - 1;
        let known = linux::owners_in(rest);
        owner_is_first_holder(rest, inode);
        assert(dirs[n] == last);
        assert forall|i: int| 0 <= i < n implies dirs[i] == #[trigger] rest[i] by {}
        match (linux::pid_value(last.name@), last.fds) {
            (Some(pid), Some(fds)) => {
                lemma_with_fds(known, pid, fds@, inode);
            },
            _ => {},
        }
        if known.contains_key(inode) {
            let i = choose|i: int| 0 <= i < rest.len() && holds(#[trigger] rest[i], inode);
            assert(holds(dirs[i], inode));
        }
        if exists|i: int| 0 <= i < dirs.len() && holds(#[trigger] dirs[i], inode) {
            let i = choose|i: int| 0 <= i < dirs.len() && holds(#[trigger] dirs[i], inode);
            if i < n {
                assert(holds(rest[i], inode));
            }
        }
        assert forall|i: int|
            0 <= i < dirs.len() && holds(#[trigger] dirs[i], inode) && (forall|j: int|
                0 <= j < i ==> !holds(#[trigger] dirs[j], inode)) implies linux::pid_value(
            dirs[i].name@,
        ) == Some(linux::owners_in(dirs)[inode]) by {
            if i < n {
                assert(holds(rest[i], inode));
                assert forall|j: int| 0 <= j < i implies !holds(#[trigger] rest[j], inode) by {
                    assert(!holds(dirs[j], inode));
                }
                assert(known.contains_key(inode));
            } else {
                assert forall|j: int| 0 <= j < rest.len() implies !holds(
                    #[trigger] rest[j],
                    inode,
                ) by {
                    assert(!holds(dirs[j], inode));
                }
                assert(!known.contains_key(inode));
            }
        }
    }
}

// ---------------------------------------------------------------------
// Scans
// ---------------------------------------------------------------------

/// Every socket that was found is reported, in its place, with the address
/// and port that it was found with, also where its owner is not known.
pub proof fn every_socket_is_reported(
    sockets: Seq<Found>,
    owners: Map<u64, u32>,
    names: Map<u32, Seq<char>>,
    i: int,
)
    requires
        0 <= i < sockets.len(),
    ensures
        linux::entries_of(sockets, owners, names).len() == sockets.len(),
        ({
            let e = linux::entries_of(sockets, owners, names)[i];
            let s = sockets[i].socket;
            &&& e.protocol == sockets[i].table.protocol()
            &&& e.local_addr == s.local_addr
            &&& e.local_port == s.local_port
            &&& !owners.contains_key(s.inode) ==> e.pid is None && e.process_name is None
            &&& owners.contains_key(s.inode) ==> e.pid == Some(owners[s.inode])
        }),
{
}

/// A UDP socket has no state; a TCP socket has one.
pub proof fn only_tcp_has_a_state(
    sockets: Seq<Found>,
    owners: Map<u64, u32>,
    names: Map<u32, Seq<char>>,
    i: int,
)
    requires
        0 <= i < sockets.len(),
    ensures
        linux::entries_of(sockets, owners, names)[i].state is Some <==> sockets[i].table is Tcp
            || sockets[i].table is Tcp6,
{
}

/// The names that are looked up are those of the owners of sockets, each
/// once.
pub proof fn names_are_looked_up_once(sockets: Seq<Found>, owners: Map<u64, u32>)
    ensures
        linux::pids_of(sockets, owners).no_duplicates(),
        forall|pid: u32| #[trigger]
            linux::pids_of(sockets, owners).contains(pid) <==> exists|i: int|
                0 <= i < sockets.len() && linux::owner_of((#[trigger] sockets[i]).socket, owners)
                    == Some(pid),
    decreases sockets.len(),
{
    let pids = linux::pids_of(sockets, owners);
    if sockets.len() > 0 {
        let rest = sockets.drop_last();
        let before = linux::pids_of(rest, owners);
        let n = sockets.len() - 1;
        names_are_looked_up_once(rest, owners);
        assert(sockets[n] == sockets.last());
        assert forall|pid: u32| #[trigger] pids.contains(pid) <==> exists|i: int|
            0 <= i < sockets.len() && linux::owner_of((#[trigger] sockets[i]).socket, owners)
                == Some(pid) by {
            if before.contains(pid) {
                let i = choose|i: int|
                    0 <= i < rest.len() && linux::owner_of((#[trigger] rest[i]).socket, owners)
                        == Some(pid);
                assert(sockets[i] == rest[i]);
                let k = choose|k: int| 0 <= k < before.len() && before[k] == pid;
                assert(pids[k] == pid);
            }
            if linux::owner_of(sockets.last().socket, owners) == Some(pid) {
                assert(linux::owner_of(sockets[n].socket, owners) == Some(pid));
                if !before.contains(pid) {
                    assert(pids[pids.len() - 1] == pid);
                }
            }
            if exists|i: int|
                0 <= i < sockets.len() && linux::owner_of((#[trigger] sockets[i]).socket, owners)
                    == Some(pid) {
                let i = choose|i: int|
                    0 <= i < sockets.len() && linux::owner_of(
                        (#[trigger] sockets[i]).socket,
                        owners,
                    ) == Some(pid);
                if i < n {
                    assert(rest[i] == sockets[i]);
                    assert(before.contains(pid));
                }
            }
            if pids.contains(pid) && !before.contains(pid) {
                let k = choose|k: int| 0 <= k < pids.len() && pids[k] == pid;
                if k < before.len() {
                    assert(before[k] == pid);
                }
            }
        }
    }
}

// ---------------------------------------------------------------------
// Rows, whatever stands around them
// ---------------------------------------------------------------------

/// What a line says of a socket is in its words: how much white space is
/// around and between them does not count.
pub proof fn spacing_does_not_count(a: Seq<char>, b: Seq<char>, v6: bool)
    requires
        text::words(a) == text::words(b),
    ensures
        linux::row_value(a, v6) == linux::row_value(b, v6),
{
    lemma_row_front(a);
    lemma_row_front(b);
    text_laws::trimming_keeps_the_words(a);
    text_laws::trimming_keeps_the_words(b);
}

/// Whether a line is blank or is the heading can be seen from its words.
proof fn lemma_row_front(line: Seq<char>)
    ensures
        ({
            let t = text::trim(line);
            let w = text::words(line);
            &&& t.len() == 0 <==> w.len() == 0
            &&& (t.len() >= 2 && t[0] == 's' && t[1] == 'l') <==> (w.len() > 0 && w[0].len() >= 2
                && w[0][0] == 's' && w[0][1] == 'l')
        }),
{
    let t = text::trim(line);
    let (l, r) = text_laws::lemma_trim_parts(line);
    text_laws::trimming_keeps_the_words(line);
    text_laws::blank_text_has_no_words(line);
    if t.len() > 0 {
        text::lemma_word_len(t);
        let n = text::word_len(t) as int;
        let w = t.take(n);
        assert(text::words(t)[0] == w);
        assert(w[0] == t[0]);
        if n >= 2 {
            assert(w[1] == t[1]);
        } else if t.len() >= 2 {
            assert(text::is_white(t[1]));
        }
    }
}

/// A row needs at least ten columns. The second is the local address and
/// port, to the two sides of its first colon; the fourth is the state, and
/// the tenth is the inode. Nothing is a row but what has these.
pub proof fn row_is_its_columns(line: Seq<char>, v6: bool)
    ensures
        match linux::row_value(line, v6) {
            Some(row) => {
                let w = text::words(line);
                let n = text::find(w[1], ':');
                &&& w.len() >= 10
                &&& n < w[1].len()
                &&& linux::addr_hex_value(w[1].take(n), v6) == Some(row.local_addr)
                &&& text::unsigned(w[1].skip(n + 1), 16, 0xffff) == Some(row.local_port as nat)
                &&& text::unsigned(w[3], 16, 0xffff_ffff) == Some(row.state as nat)
                &&& text::unsigned(w[9], 10, 0xffff_ffff_ffff_ffff) == Some(row.inode as nat)
                &&& row.local_addr is V6 <==> v6
            },
            None => {
                let w = text::words(line);
                let n = text::find(w[1], ':');
                ||| w.len() < 10
                ||| w[0].len() >= 2 && w[0][0] == 's' && w[0][1] == 'l'
                ||| n >= w[1].len()
                ||| linux::addr_hex_value(w[1].take(n), v6) is None
                ||| text::unsigned(w[1].skip(n + 1), 16, 0xffff) is None
                ||| text::unsigned(w[3], 16, 0xffff_ffff) is None
                ||| text::unsigned(w[9], 10, 0xffff_ffff_ffff_ffff) is None
            },
        },
{
    lemma_row_front(line);
    text_laws::trimming_keeps_the_words(line);
}

/// The octets of an IPv4 address are written in reverse, each in two
/// digits; the text has no more and no less than eight of them.
pub proof fn ipv4_field_is_reversed(t: Seq<char>)
    ensures
        t.len() == 8 && text_laws::all_digits(t, 16) ==> linux::ipv4_hex_value(t) == Some(
            ((((hex_digit(t[6]) * 16 + hex_digit(t[7])) * 256 + hex_digit(t[4]) * 16 + hex_digit(
                t[5],
            )) * 256 + hex_digit(t[2]) * 16 + hex_digit(t[3])) * 256 + hex_digit(t[0]) * 16
                + hex_digit(t[1])) as nat,
        ),
        t.len() != 8 ==> linux::ipv4_hex_value(t) is None,
{
    if t.len() == 8 && text_laws::all_digits(t, 16) {
        lemma_byte_at(t, 0);
        lemma_byte_at(t, 2);
        lemma_byte_at(t, 4);
        lemma_byte_at(t, 6);
    }
}

/// What a hexadecimal digit is worth.
pub open spec fn hex_digit(c: char) -> nat {
    text::digit_value(c, 16)->0
}

/// Two digits write a byte.
proof fn lemma_byte_at(t: Seq<char>, i: int)
    requires
        0 <= i,
        i + 2 <= t.len(),
        text_laws::all_digits(t, 16),
    ensures
        linux::byte_at(t, i) == Some(hex_digit(t[i]) * 16 + hex_digit(t[i + 1])),
{
    let s = t.subrange(i, i + 2);
    assert(text::digit_value(t[i], 16) is Some);
    assert(text::digit_value(t[i + 1], 16) is Some);
    assert(s[0] == t[i] && s[1] == t[i + 1]);
    reveal_with_fuel(text::digits_value, 3);
    assert(s.drop_last().last() == s[0]);
    assert(s.drop_last().drop_last() =~= seq![]);
}

/// An IPv6 address is four such words, the first of which counts most; the
/// text has no more and no less than thirty-two digits.
pub proof fn ipv6_field_is_four_words(t: Seq<char>)
    ensures
        t.len() == 32 && text_laws::all_digits(t, 16) ==> {
            let a = linux::ipv4_hex_value(t.subrange(0, 8));
            let b = linux::ipv4_hex_value(t.subrange(8, 16));
            let c = linux::ipv4_hex_value(t.subrange(16, 24));
            let d = linux::ipv4_hex_value(t.subrange(24, 32));
            &&& a is Some && b is Some && c is Some && d is Some
            &&& linux::ipv6_hex_value(t) == Some(
                ((a->0 * 0x1_0000_0000 + b->0) * 0x1_0000_0000 + c->0) * 0x1_0000_0000 + d->0,
            )
        },
        t.len() != 32 ==> linux::ipv6_hex_value(t) is None,
{
    if t.len() == 32 && text_laws::all_digits(t, 16) {
        lemma_part_is_digits(t, 0);
        lemma_part_is_digits(t, 8);
        lemma_part_is_digits(t, 16);
        lemma_part_is_digits(t, 24);
        ipv4_field_is_reversed(t.subrange(0, 8));
        ipv4_field_is_reversed(t.subrange(8, 16));
        ipv4_field_is_reversed(t.subrange(16, 24));
        ipv4_field_is_reversed(t.subrange(24, 32));
    }
}

/// Part of a row of digits is digits.
proof fn lemma_part_is_digits(t: Seq<char>, i: int)
    requires
        0 <= i,
        i + 8 <= t.len(),
        text_laws::all_digits(t, 16),
    ensures
        text_laws::all_digits(t.subrange(i, i + 8), 16),
{
    let s = t.subrange(i, i + 8);
    assert forall|k: int| 0 <= k < s.len() implies text::digit_value(#[trigger] s[k], 16) is Some by {
        assert(s[k] == t[i + k]);
    }
}

/// The rows of a table are those of all of its lines, however many there
/// are, each line by itself and in order.
pub proof fn every_line_is_read(lines: Seq<Seq<char>>, v6: bool)
    requires
        text_laws::none_has(lines, '\n'),
    ensures
        linux::table_value(text::join(lines, seq!['\n']), v6) == lines.filter(
            |l: Seq<char>| linux::row_value(l, v6) is Some,
        ).map_values(|l: Seq<char>| linux::row_value(l, v6)->0),
    decreases lines.len(),
{
    reveal(Seq::filter);
    let is_row = |l: Seq<char>| linux::row_value(l, v6) is Some;
    let row = |l: Seq<char>| linux::row_value(l, v6)->0;
    if lines.len() == 0 {
        assert(lines.filter(is_row).map_values(row) =~= seq![]);
        assert(linux::table_value(text::join(lines, seq!['\n']), v6) =~= seq![]);
    } else {
        let front = lines.drop_last();
        let last = lines.last();
        assert forall|k: int| 0 <= k < last.len() implies #[trigger] last[k] != '\n' by {
            assert(lines[lines.len() - 1][k] != '\n');
        }
        assert forall|i: int, k: int| 0 <= i < front.len() && 0 <= k < front[i].len() implies
            #[trigger] front[i][k] != '\n' by {
            assert(lines[i][k] != '\n');
        }
        every_line_is_read(front, v6);
        text_laws::rest_is_a_line(last);
        lemma_one_row(last, v6);
        if last.len() == 0 {
            text_laws::blank_text_has_no_words(last);
        }
        let x = linux::table_value(text::join(front, seq!['\n']), v6);
        let y = linux::table_value(last, v6);
        if lines.len() > 1 {
            tables_concatenate(text::join(front, seq!['\n']), last, v6);
        } else {
            assert(front.filter(is_row).map_values(row) =~= seq![]);
            assert(text::join(lines, seq!['\n']) == last);
            assert(x + y =~= y);
        }
        assert(lines.filter(is_row).map_values(row) =~= x + y);
    }
}

// ---------------------------------------------------------------------
// Descriptors and pids
// ---------------------------------------------------------------------

/// The target of a link to a socket is read back as the inode of the
/// socket, also from a file with white space around it.
pub proof fn socket_link_reads_back(inode: u64, l: Seq<char>, r: Seq<char>, link: String, file: String)
    requires
        text_laws::all_white(l),
        text_laws::all_white(r),
        link@ == seq!['s', 'o', 'c', 'k', 'e', 't', ':', '['] + text::decimal(inode as nat)
            + seq![']'],
        file@ == l + link@ + r,
    ensures
        linux::inode_value(link@) == Some(inode),
        linux::fd_inode(FdEntry::Link(link)) == Some(inode),
        linux::fd_inode(FdEntry::File(file)) == Some(inode),
        linux::fd_inode(FdEntry::Unreadable) is None,
{
    let t = link@;
    let d = text::decimal(inode as nat);
    reveal_strlit("socket:[");
    text_laws::decimal_reads_back(inode as nat, u64::MAX as nat);
    assert(t.take(8) =~= "socket:["@);
    assert(t.subrange(8, t.len() - 1) =~= d);
    text_laws::trimming_takes_white_space_off(l, t, r);
}

/// What stands between the square brackets of such a link is the inode, in
/// decimal; where it is no number there is none.
pub proof fn inode_is_between_the_brackets(inode: Seq<char>)
    ensures
        linux::inode_value(
            seq!['s', 'o', 'c', 'k', 'e', 't', ':', '['] + inode + seq![']'],
        ) == match text::unsigned(inode, 10, 0xffff_ffff_ffff_ffff) {
            Some(v) => Some(v as u64),
            None => None,
        },
{
    let t = seq!['s', 'o', 'c', 'k', 'e', 't', ':', '['] + inode + seq![']'];
    reveal_strlit("socket:[");
    assert(t.take(8) =~= "socket:["@);
    assert(t.subrange(8, t.len() - 1) =~= inode);
}

/// Nothing else is a socket: what does not start or end so has no inode.
pub proof fn only_socket_links_have_an_inode(t: Seq<char>)
    requires
        linux::inode_value(t) is Some,
    ensures
        t.len() >= 10,
        t.take(8) == seq!['s', 'o', 'c', 'k', 'e', 't', ':', '['],
        t.last() == ']',
        text::unsigned(t.subrange(8, t.len() - 1), 10, 0xffff_ffff_ffff_ffff) == Some(
            linux::inode_value(t)->0 as nat,
        ),
{
    reveal_strlit("socket:[");
    assert(t.take(8) =~= seq!['s', 'o', 'c', 'k', 'e', 't', ':', '[']);
    if t.len() == 9 {
        assert(t.subrange(8, 8) =~= seq![]);
    }
}

/// A process has its directory under its pid; what is not named after a
/// number that is a pid is no process.
pub proof fn process_is_named_after_its_pid(pid: u32, name: Seq<char>)
    ensures
        linux::pid_value(text::decimal(pid as nat)) == Some(pid),
        linux::pid_value(name) == Some(pid) <==> text::unsigned(name, 10, 0xffff_ffff) == Some(
            pid as nat,
        ),
{
    text_laws::decimal_reads_back(pid as nat, u32::MAX as nat);
}

// ---------------------------------------------------------------------
// What becomes of a row
// ---------------------------------------------------------------------

/// What came of reading a table.
pub open spec fn content_of<E>(tables: Tables<E>, table: Table) -> Result<String, E> {
    match table {
        Table::Tcp => tables.tcp,
        Table::Tcp6 => tables.tcp6,
        Table::Udp => tables.udp,
        Table::Udp6 => tables.udp6,
    }
}

/// The rows of a table that could be read.
pub open spec fn rows_of<E>(content: Result<String, E>, v6: bool) -> Seq<RawSocket> {
    match content {
        Ok(c) => linux::table_value(c@, v6),
        Err(_) => seq![],
    }
}

/// The sockets that are found are the rows of the four tables: first those
/// of `tcp`, then those of `tcp6`, `udp` and `udp6`, each with its table, and
/// with IPv6 addresses in `tcp6` and `udp6` alone.
pub proof fn tables_follow_each_other<E>(tables: Tables<E>)
    ensures
        ({
            let f = linux::found(tables);
            let a = rows_of(tables.tcp, false);
            let b = rows_of(tables.tcp6, true);
            let c = rows_of(tables.udp, false);
            let d = rows_of(tables.udp6, true);
            &&& f.len() == a.len() + b.len() + c.len() + d.len()
            &&& forall|i: int|
                0 <= i < a.len() ==> #[trigger] f[i] == (Found { table: Table::Tcp, socket: a[i] })
            &&& forall|i: int|
                a.len() <= i < a.len() + b.len() ==> #[trigger] f[i] == (Found {
                    table: Table::Tcp6,
                    socket: b[i - a.len()],
                })
            &&& forall|i: int|
                a.len() + b.len() <= i < a.len() + b.len() + c.len() ==> #[trigger] f[i] == (Found {
                    table: Table::Udp,
                    socket: c[i - a.len() - b.len()],
                })
            &&& forall|i: int|
                a.len() + b.len() + c.len() <= i < f.len() ==> #[trigger] f[i] == (Found {
                    table: Table::Udp6,
                    socket: d[i - a.len() - b.len() - c.len()],
                })
        }),
{
}

/// A socket of either TCP table has the state of its code in
/// `/proc/net/tcp`, the same in both; one of either UDP table has none.
pub proof fn state_is_that_of_the_code(
    sockets: Seq<Found>,
    owners: Map<u64, u32>,
    names: Map<u32, Seq<char>>,
    i: int,
)
    requires
        0 <= i < sockets.len(),
    ensures
        ({
            let e = linux::entries_of(sockets, owners, names)[i];
            let t = sockets[i].table;
            let code = sockets[i].socket.state;
            &&& t is Tcp || t is Tcp6 ==> {
                &&& e.protocol is Tcp
                &&& e.state is Some
                &&& e.state == Some(TcpState::Established) <==> code == 0x01
                &&& e.state == Some(TcpState::SynSent) <==> code == 0x02
                &&& e.state == Some(TcpState::SynRecv) <==> code == 0x03
                &&& e.state == Some(TcpState::FinWait1) <==> code == 0x04
                &&& e.state == Some(TcpState::FinWait2) <==> code == 0x05
                &&& e.state == Some(TcpState::TimeWait) <==> code == 0x06
                &&& e.state == Some(TcpState::Close) <==> code == 0x07
                &&& e.state == Some(TcpState::CloseWait) <==> code == 0x08
                &&& e.state == Some(TcpState::LastAck) <==> code == 0x09
                &&& e.state == Some(TcpState::Listen) <==> code == 0x0A
                &&& e.state == Some(TcpState::Closing) <==> code == 0x0B
                &&& e.state == Some(TcpState::NewSynRecv) <==> code == 0x0C
                &&& e.state == Some(TcpState::Unknown(code)) <==> code == 0 || code > 0x0C
            }
            &&& t is Udp || t is Udp6 ==> e.protocol is Udp && e.state is None
        }),
{
}

/// Two sockets of one protocol that were found with the same address, port,
/// state and owner have the same entry, whichever of the protocol's two
/// tables each was found in.
pub proof fn tables_of_a_protocol_agree(
    socket: RawSocket,
    owners: Map<u64, u32>,
    names: Map<u32, Seq<char>>,
)
    ensures
        linux::entry_of(Found { table: Table::Tcp, socket }, owners, names) == linux::entry_of(
            Found { table: Table::Tcp6, socket },
            owners,
            names,
        ),
        linux::entry_of(Found { table: Table::Udp, socket }, owners, names) == linux::entry_of(
            Found { table: Table::Udp6, socket },
            owners,
            names,
        ),
{
}

/// The owner of a socket is the process that is known to hold its inode,
/// and its name is the one that was looked up for that process.
pub proof fn owner_is_that_of_the_inode(
    sockets: Seq<Found>,
    owners: Map<u64, u32>,
    names: Map<u32, Seq<char>>,
    i: int,
)
    requires
        0 <= i < sockets.len(),
    ensures
        ({
            let e = linux::entries_of(sockets, owners, names)[i];
            let inode = sockets[i].socket.inode;
            &&& e.pid is Some <==> owners.contains_key(inode)
            &&& e.pid is Some ==> e.pid == Some(owners[inode])
            &&& e.process_name is Some <==> owners.contains_key(inode) && names.contains_key(
                owners[inode],
            )
            &&& e.process_name is Some ==> e.process_name == Some(names[owners[inode]])
        }),
{
}

/// Words joined by spaces are one line.
proof fn lemma_row_is_a_line(columns: Seq<Seq<char>>)
    requires
        columns.len() > 0,
        forall|i: int| 0 <= i < columns.len() ==> text_laws::is_word(#[trigger] columns[i]),
    ensures
        text::lines(text::join(columns, seq![' '])) == seq![text::join(columns, seq![' '])],
{
    let line = text::join(columns, seq![' ']);
    assert forall|i: int, k: int| 0 <= i < columns.len() && 0 <= k < columns[i].len() implies
        #[trigger] columns[i][k] != '\n' by {
        assert(text_laws::is_word(columns[i]));
        assert(!text::is_white(columns[i][k]));
    }
    addr_laws::lemma_join_has_not(columns, ' ', '\n');
    lemma_joined_ends(columns);
    assert(text_laws::is_word(columns[0]));
    text_laws::rest_is_a_line(line);
}

/// Texts can be put together from the back as well as from the front.
proof fn lemma_texts_regroup(above: Seq<char>, line: Seq<char>, below: Seq<char>)
    ensures
        above + seq!['\n'] + line + seq!['\n'] + below == above + seq!['\n'] + (line + seq!['\n']
            + below),
{
    assert(above + seq!['\n'] + line + seq!['\n'] + below =~= above + seq!['\n'] + (line + seq![
        '\n',
    ] + below));
}

/// What stands in the middle of rows.
proof fn lemma_middle(x: Seq<RawSocket>, row: RawSocket, z: Seq<RawSocket>)
    ensures
        (x + (seq![row] + z)).len() > x.len(),
        (x + (seq![row] + z))[x.len() as int] == row,
{
}

/// A line with a row in the middle of a table is one of its rows.
#[verifier::rlimit(40)]
proof fn lemma_row_in_table(above: Seq<char>, line: Seq<char>, below: Seq<char>, v6: bool)
    requires
        text::lines(line) == seq![line],
        linux::row_value(line, v6) is Some,
    ensures
        ({
            let c = above + seq!['\n'] + line + seq!['\n'] + below;
            let k = linux::table_value(above, v6).len() as int;
            &&& 0 <= k < linux::table_value(c, v6).len()
            &&& linux::table_value(c, v6)[k] == linux::row_value(line, v6)->0
        }),
{
    let x = linux::table_value(above, v6);
    let y = linux::table_value(line, v6);
    let z = linux::table_value(below, v6);
    let row = linux::row_value(line, v6)->0;
    assert(y == seq![row]) by {
        lemma_one_row(line, v6);
    }
    lemma_texts_regroup(above, line, below);
    tables_concatenate(above, line + seq!['\n'] + below, v6);
    tables_concatenate(line, below, v6);
    lemma_middle(x, row, z);
}

/// A row of a table that could be read is found.
proof fn lemma_row_is_found<E>(tables: Tables<E>, table: Table, k: int) -> (i: int)
    requires
        content_of(tables, table) is Ok,
        0 <= k < rows_of(content_of(tables, table), table is Tcp6 || table is Udp6).len(),
    ensures
        0 <= i < linux::found(tables).len(),
        linux::found(tables)[i] == (Found {
            table,
            socket: rows_of(content_of(tables, table), table is Tcp6 || table is Udp6)[k],
        }),
{
    tables_follow_each_other(tables);
    let a = rows_of(tables.tcp, false).len() as int;
    let b = rows_of(tables.tcp6, true).len() as int;
    let c = rows_of(tables.udp, false).len() as int;
    match table {
        Table::Tcp => k,
        Table::Tcp6 => a + k,
        Table::Udp => a + b + k,
        Table::Udp6 => a + b + c + k,
    }
}

/// A row that the kernel wrote into a table, wherever in the table it
/// stands, is reported: as an entry of the table's protocol, with the
/// address and port of the row. One of either TCP table that is in the state
/// with the code `0A` is reported as listening, and no other is; one of
/// either UDP table has no state.
pub proof fn kernel_row_is_reported<E>(
    tables: Tables<E>,
    table: Table,
    above: Seq<char>,
    columns: Seq<Seq<char>>,
    below: Seq<char>,
    port_text: Seq<char>,
    row: RawSocket,
    owners: Map<u64, u32>,
    names: Map<u32, Seq<char>>,
) -> (i: int)
    requires
        content_of(tables, table) is Ok,
        content_of(tables, table)->Ok_0@ == above + seq!['\n'] + text::join(columns, seq![' '])
            + seq!['\n'] + below,
        row.local_addr is V6 <==> table is Tcp6 || table is Udp6,
        columns.len() >= 10,
        forall|i: int| 0 <= i < columns.len() ==> text_laws::is_word(#[trigger] columns[i]),
        !(columns[0].len() >= 2 && columns[0][0] == 's' && columns[0][1] == 'l'),
        columns[1] == kernel_addr(row.local_addr) + seq![':'] + port_text,
        text::unsigned(port_text, 16, u16::MAX as nat) == Some(row.local_port as nat),
        text::unsigned(columns[3], 16, u32::MAX as nat) == Some(row.state as nat),
        text::unsigned(columns[9], 10, u64::MAX as nat) == Some(row.inode as nat),
    ensures
        0 <= i < linux::entries_of(linux::found(tables), owners, names).len(),
        ({
            let e = linux::entries_of(linux::found(tables), owners, names)[i];
            &&& e.local_addr == row.local_addr
            &&& e.local_port == row.local_port
            &&& table is Tcp || table is Tcp6 ==> e.protocol is Tcp && (e.state == Some(
                TcpState::Listen,
            ) <==> row.state == 0x0A)
            &&& table is Udp || table is Udp6 ==> e.protocol is Udp && e.state is None
            &&& owners.contains_key(row.inode) ==> e.pid == Some(owners[row.inode])
        }),
{
    let line = text::join(columns, seq![' ']);
    let v6 = row.local_addr is V6;
    kernel_row_reads_back(columns, port_text, row);
    lemma_row_is_a_line(columns);
    lemma_row_in_table(above, line, below, v6);
    let i = lemma_row_is_found(tables, table, linux::table_value(above, v6).len() as int);
    state_is_that_of_the_code(linux::found(tables), owners, names, i);
    owner_is_that_of_the_inode(linux::found(tables), owners, names, i);
    i
}

/// Names are looked up in the order in which the owners' sockets were found:
/// more sockets add to the end only.
pub proof fn later_sockets_add_at_the_end(a: Seq<Found>, b: Seq<Found>, owners: Map<u64, u32>)
    ensures
        linux::pids_of(a, owners).is_prefix_of(linux::pids_of(a + b, owners)),
        b.len() == 1 && owners.contains_key(b[0].socket.inode) && !linux::pids_of(
            a,
            owners,
        ).contains(owners[b[0].socket.inode]) ==> linux::pids_of(a + b, owners) == linux::pids_of(
            a,
            owners,
        ).push(owners[b[0].socket.inode]),
    decreases b.len(),
{
    if b.len() == 0 {
        assert(a + b =~= a);
    } else {
        later_sockets_add_at_the_end(a, b.drop_last(), owners);
        assert((a + b).drop_last() =~= a + b.drop_last());
        assert((a + b).last() == b.last());
        if b.len() == 1 {
            assert(a + b.drop_last() =~= a);
        }
    }
}

/// A field of a table is an address and a port, to the two sides of its first
/// colon; without a colon it is none.
pub proof fn field_is_address_and_port(address: Seq<char>, port: Seq<char>, v6: bool)
    requires
        forall|k: int| 0 <= k < address.len() ==> #[trigger] address[k] != ':',
    ensures
        linux::addr_port_value(address + seq![':'] + port, v6) == match (
            linux::addr_hex_value(address, v6),
            text::unsigned(port, 16, 0xffff),
        ) {
            (Some(a), Some(p)) => Some((a, p as u16)),
            _ => None,
        },
        linux::addr_port_value(address, v6) is None,
{
    let t = address + seq![':'] + port;
    let n = address.len() as int;
    assert forall|i: int| 0 <= i < n implies t[i] != ':' by {
        assert(t[i] == address[i]);
    }
    assert(t[n] == ':');
    text::lemma_find_is(t, ':', n);
    assert(t.take(n) =~= address);
    assert(t.skip(n + 1) =~= port);
    text::lemma_find_is(address, ':', n);
}

/// The addresses of a table are of its family, and a text is one exactly if
/// every two characters of it are a number.
#[verifier::rlimit(40)]
pub proof fn address_field_is_of_the_family(t: Seq<char>, v6: bool)
    ensures
        linux::addr_hex_value(t, v6) is Some ==> (linux::addr_hex_value(t, v6)->0 is V6 <==> v6),
        linux::addr_hex_value(t, false) is Some <==> t.len() == 8 && pair_at(t, 0) && pair_at(t, 2)
            && pair_at(t, 4) && pair_at(t, 6),
        linux::addr_hex_value(t, true) is Some <==> t.len() == 32 && (forall|i: int|
            0 <= i < 32 && i % 2 == 0 ==> #[trigger] pair_at(t, i)),
{
    if t.len() == 32 {
        lemma_word_pairs(t, 0);
        lemma_word_pairs(t, 8);
        lemma_word_pairs(t, 16);
        lemma_word_pairs(t, 24);
        if linux::addr_hex_value(t, true) is Some {
            assert forall|i: int| 0 <= i < 32 && i % 2 == 0 implies #[trigger] pair_at(t, i) by {
                assert(i == 0 || i == 2 || i == 4 || i == 6 || i == 8 || i == 10 || i == 12 || i
                    == 14 || i == 16 || i == 18 || i == 20 || i == 22 || i == 24 || i == 26 || i
                    == 28 || i == 30);
            }
        }
    }
}

/// Whether the two characters there are a number in hexadecimal.
pub open spec fn pair_at(t: Seq<char>, i: int) -> bool {
    text::unsigned(t.subrange(i, i + 2), 16, 255) is Some
}

/// A word of an IPv6 address is one exactly if its pairs are numbers.
proof fn lemma_word_pairs(t: Seq<char>, i: int)
    requires
        0 <= i,
        i + 8 <= t.len(),
    ensures
        linux::word_at(t, i) is Some <==> pair_at(t, i) && pair_at(t, i + 2) && pair_at(t, i + 4)
            && pair_at(t, i + 6),
{
    let s = t.subrange(i, i + 8);
    assert(s.subrange(0, 2) =~= t.subrange(i, i + 2));
    assert(s.subrange(2, 4) =~= t.subrange(i + 2, i + 4));
    assert(s.subrange(4, 6) =~= t.subrange(i + 4, i + 6));
    assert(s.subrange(6, 8) =~= t.subrange(i + 6, i + 8));
}

/// A link is taken as it is, and a file without the white space around what
/// it holds.
pub proof fn link_is_taken_as_it_is(link: String, l: Seq<char>, t: Seq<char>, r: Seq<char>, file: String)
    requires
        text_laws::all_white(l),
        text_laws::all_white(r),
        t.len() > 0 ==> !text::is_white(t[0]) && !text::is_white(t.last()),
        file@ == l + t + r,
    ensures
        linux::fd_inode(FdEntry::Link(link)) == linux::inode_value(link@),
        linux::fd_inode(FdEntry::File(file)) == linux::inode_value(t),
{
    text_laws::trimming_takes_white_space_off(l, t, r);
}

} // verus!
