//! Laws of IP addresses: their order, and that the text of an address is
//! read back as the address.

use crate::addr;
use crate::addr::{IpAddr, Ipv4Addr, Ipv6Addr};
use crate::text;
use crate::text_laws;
use vstd::arithmetic::div_mod::*;
use vstd::prelude::*;

verus! {

// ---------------------------------------------------------------------
// Order
// ---------------------------------------------------------------------

/// No address comes before itself; of two different addresses exactly one
/// comes before the other; and the order is transitive.
pub proof fn addresses_are_ordered(a: IpAddr, b: IpAddr, c: IpAddr)
    ensures
        !a.before(a),
        a != b ==> (a.before(b) <==> !b.before(a)),
        a.before(b) && b.before(c) ==> a.before(c),
{
}

// ---------------------------------------------------------------------
// Numbers and their pieces
// ---------------------------------------------------------------------

/// An IPv4 address is made of its octets.
pub proof fn octets_make_the_address(bits: nat)
    requires
        bits < 0x1_0000_0000,
    ensures
        addr::from_octets(addr::octets(bits)) == bits,
        forall|i: int| 0 <= i < 4 ==> #[trigger] addr::octets(bits)[i] < 256,
{
    lemma_div_denominator(bits as int, 0x100, 0x100);
    lemma_div_denominator(bits as int, 0x1_0000, 0x100);
    lemma_fundamental_div_mod(bits as int, 0x100);
    lemma_fundamental_div_mod((bits / 0x100) as int, 0x100);
    lemma_fundamental_div_mod((bits / 0x1_0000) as int, 0x100);
}

/// One segment taken off the low end of a number.
proof fn lemma_low_segment(bits: nat, unit: nat)
    requires
        unit > 0,
    ensures
        bits / unit == bits / (unit * 0x1_0000) * 0x1_0000 + bits / unit % 0x1_0000,
{
    lemma_div_denominator(bits as int, unit as int, 0x1_0000);
    lemma_fundamental_div_mod((bits / unit) as int, 0x1_0000);
}

/// An IPv6 address is made of its segments.
pub proof fn segments_make_the_address(bits: nat)
    requires
        bits <= u128::MAX,
    ensures
        addr::from_segments(addr::segments(bits)) == bits,
        forall|i: int| 0 <= i < 8 ==> #[trigger] addr::segments(bits)[i] < 0x1_0000,
{
    lemma_low_segment(bits, 1);
    lemma_low_segment(bits, 0x1_0000);
    lemma_low_segment(bits, 0x1_0000_0000);
    lemma_low_segment(bits, 0x1_0000_0000_0000);
    lemma_low_segment(bits, 0x1_0000_0000_0000_0000);
    lemma_low_segment(bits, 0x1_0000_0000_0000_0000_0000);
    lemma_low_segment(bits, 0x1_0000_0000_0000_0000_0000_0000);
}

// ---------------------------------------------------------------------
// IPv4 texts
// ---------------------------------------------------------------------

/// A digit is neither a dot nor a colon.
proof fn lemma_digit_is_no_mark(c: char, radix: nat)
    requires
        radix <= 16,
        text::digit_value(c, radix) is Some,
    ensures
        c != '.',
        c != ':',
{
}

/// A row of digits holds neither a dot nor a colon.
proof fn lemma_digits_hold_no_mark(s: Seq<char>, radix: nat)
    requires
        radix <= 16,
        text_laws::all_digits(s, radix),
    ensures
        forall|k: int| 0 <= k < s.len() ==> #[trigger] s[k] != '.' && s[k] != ':',
{
    assert forall|k: int| 0 <= k < s.len() implies #[trigger] s[k] != '.' && s[k] != ':' by {
        lemma_digit_is_no_mark(s[k], radix);
    }
}

/// The text of an octet is read back as the octet, and holds neither a dot
/// nor a colon.
proof fn lemma_octet_text(o: nat)
    requires
        o < 256,
    ensures
        addr::octet_value(text::decimal(o)) == Some(o),
        forall|k: int|
            0 <= k < text::decimal(o).len() ==> #[trigger] text::decimal(o)[k] != '.'
                && text::decimal(o)[k] != ':',
{
    text_laws::decimal_reads_back(o, 255);
    text_laws::lemma_decimal_front(o);
    text_laws::lemma_decimal_short(o);
    lemma_digits_hold_no_mark(text::decimal(o), 10);
}

/// The text of an IPv4 address is read back as the address.
pub proof fn ipv4_text_reads_back(bits: nat)
    requires
        bits < 0x1_0000_0000,
    ensures
        addr::ipv4_value(addr::ipv4_text(bits)) == Some(bits),
{
    let o = addr::octets(bits);
    let parts = o.map_values(|v: nat| text::decimal(v));
    octets_make_the_address(bits);
    assert forall|i: int| 0 <= i < 4 implies addr::octet_value(#[trigger] parts[i]) == Some(o[i])
        by {
        assert(o[i] < 256);
        lemma_octet_text(o[i]);
    }
    assert forall|i: int, k: int| 0 <= i < parts.len() && 0 <= k < parts[i].len() implies
        #[trigger] parts[i][k] != '.' by {
        assert(o[i] < 256);
        lemma_octet_text(o[i]);
    }
    text_laws::joined_parts_split(parts, '.');
    let t = addr::ipv4_text(bits);
    assert(text::split(t, '.') == parts);
    assert(addr::octet_value(parts[0]) is Some);
    assert(addr::octet_value(parts[1]) is Some);
    assert(addr::octet_value(parts[2]) is Some);
    assert(addr::octet_value(parts[3]) is Some);
    assert(parts.map_values(|p: Seq<char>| addr::octet_value(p)->0) =~= o);
}

/// The text of an IPv4 address holds no colon and is not empty.
proof fn lemma_ipv4_text_has_no_colon(bits: nat)
    requires
        bits < 0x1_0000_0000,
    ensures
        forall|k: int|
            0 <= k < addr::ipv4_text(bits).len() ==> #[trigger] addr::ipv4_text(bits)[k] != ':',
        addr::ipv4_text(bits).len() > 0,
{
    let o = addr::octets(bits);
    let parts = o.map_values(|v: nat| text::decimal(v));
    octets_make_the_address(bits);
    assert forall|i: int, k: int| 0 <= i < parts.len() && 0 <= k < parts[i].len() implies
        #[trigger] parts[i][k] != ':' by {
        assert(o[i] < 256);
        lemma_octet_text(o[i]);
    }
    lemma_join_has_not(parts, '.', ':');
    text_laws::lemma_join_front(parts, seq!['.']);
}

/// What stands in no part and is not the separator does not stand in the
/// joined text.
pub proof fn lemma_join_has_not(parts: Seq<Seq<char>>, sep: char, c: char)
    requires
        text_laws::none_has(parts, c),
        sep != c,
    ensures
        forall|k: int|
            0 <= k < text::join(parts, seq![sep]).len() ==> #[trigger] text::join(
                parts,
                seq![sep],
            )[k] != c,
    decreases parts.len(),
{
    let s = text::join(parts, seq![sep]);
    if parts.len() == 1 {
        assert forall|k: int| 0 <= k < s.len() implies #[trigger] s[k] != c by {
            assert(parts[0][k] != c);
        }
    } else if parts.len() > 1 {
        let front = parts.drop_last();
        let a = text::join(front, seq![sep]);
        let n = parts.len() - 1;
        assert forall|i: int, k: int| 0 <= i < front.len() && 0 <= k < front[i].len() implies
            #[trigger] front[i][k] != c by {
            assert(parts[i][k] != c);
        }
        lemma_join_has_not(front, sep, c);
        assert(s == a + seq![sep] + parts[n]);
        assert forall|k: int| 0 <= k < s.len() implies #[trigger] s[k] != c by {
            if k < a.len() {
                assert(s[k] == a[k]);
            } else if k > a.len() {
                assert(s[k] == parts[n][k - a.len() - 1]);
            }
        }
    }
}

// ---------------------------------------------------------------------
// IPv6 texts
// ---------------------------------------------------------------------

/// Whether all are segments.
spec fn are_segments(g: Seq<nat>) -> bool {
    forall|i: int| 0 <= i < g.len() ==> #[trigger] g[i] < 0x1_0000
}

/// The texts of the segments.
spec fn hexes(g: Seq<nat>) -> Seq<Seq<char>> {
    g.map_values(|s: nat| text::hex(s))
}

/// The text of a segment is read back as the segment, and holds neither a
/// dot nor a colon.
proof fn lemma_segment_text(s: nat)
    requires
        s < 0x1_0000,
    ensures
        addr::segment_value(text::hex(s)) == Some(s),
        text::hex(s).len() > 0,
        forall|k: int|
            0 <= k < text::hex(s).len() ==> #[trigger] text::hex(s)[k] != '.' && text::hex(s)[k]
                != ':',
{
    text_laws::hex_reads_back(s, 0xffff);
    text_laws::lemma_hex_short(s);
    lemma_digits_hold_no_mark(text::hex(s), 16);
}

/// The texts of segments hold neither dots nor colons.
proof fn lemma_hexes_hold_no_mark(g: Seq<nat>)
    requires
        are_segments(g),
    ensures
        text_laws::none_has(hexes(g), ':'),
        text_laws::none_has(hexes(g), '.'),
{
    let parts = hexes(g);
    assert forall|i: int, k: int| 0 <= i < parts.len() && 0 <= k < parts[i].len() implies
        #[trigger] parts[i][k] != ':' by {
        assert(g[i] < 0x1_0000);
        lemma_segment_text(g[i]);
    }
    assert forall|i: int, k: int| 0 <= i < parts.len() && 0 <= k < parts[i].len() implies
        #[trigger] parts[i][k] != '.' by {
        assert(g[i] < 0x1_0000);
        lemma_segment_text(g[i]);
    }
}

/// Whether the text has no two colons in a row, and none at its end.
spec fn is_plain(s: Seq<char>) -> bool {
    &&& forall|i: int| 0 <= i && i + 1 < s.len() ==> !(#[trigger] s[i] == ':' && s[i + 1] == ':')
    &&& s.len() > 0 ==> s[0] != ':' && s.last() != ':'
}

/// Segments with colons between them never show two colons in a row.
proof fn lemma_colon_text_is_plain(g: Seq<nat>)
    requires
        are_segments(g),
    ensures
        is_plain(addr::colon_text(g)),
        g.len() > 0 ==> addr::colon_text(g).len() > 0,
    decreases g.len(),
{
    let parts = hexes(g);
    let s = addr::colon_text(g);
    lemma_hexes_hold_no_mark(g);
    if g.len() == 1 {
        lemma_segment_text(g[0]);
        assert(s == text::hex(g[0]));
    } else if g.len() > 1 {
        let front = g.drop_last();
        let a = addr::colon_text(front);
        let z = text::hex(g.last());
        lemma_colon_text_is_plain(front);
        lemma_segment_text(g.last());
        assert(hexes(front) =~= parts.drop_last());
        assert(s == a + seq![':'] + z);
        let n = a.len() as int;
        assert forall|i: int| 0 <= i && i + 1 < s.len() implies !(#[trigger] s[i] == ':' && s[i + 1]
            == ':') by {
            if i + 1 < n {
                assert(s[i] == a[i] && s[i + 1] == a[i + 1]);
            } else if i + 1 == n {
                assert(s[i] == a[i]);
            } else if i == n {
                assert(s[i + 1] == z[0]);
            } else {
                assert(s[i] == z[i - n - 1]);
            }
        }
        assert(s[0] == a[0]);
        assert(s.last() == z.last());
        assert(z[z.len() - 1] != ':');
    }
}

/// A text without a dot is no IPv4 address.
proof fn lemma_no_dot_is_no_ipv4(s: Seq<char>)
    requires
        forall|k: int| 0 <= k < s.len() ==> #[trigger] s[k] != '.',
    ensures
        addr::ipv4_value(s) is None,
{
    text::lemma_find_is(s, '.', s.len() as int);
    assert(text::split(s, '.').len() == 1);
}

/// Segments with colons between them are read back as they are.
proof fn lemma_colon_text_reads_back(g: Seq<nat>, dotted: bool)
    requires
        are_segments(g),
    ensures
        addr::groups(addr::colon_text(g), dotted) == Some(g),
{
    let parts = hexes(g);
    let s = addr::colon_text(g);
    lemma_colon_text_is_plain(g);
    if g.len() == 0 {
        assert(s.len() == 0);
        assert(g =~= seq![]);
    } else {
        lemma_hexes_hold_no_mark(g);
        text_laws::joined_parts_split(parts, ':');
        assert(text::split(s, ':') == parts);
        let last = parts.last();
        assert forall|k: int| 0 <= k < last.len() implies #[trigger] last[k] != '.' by {
            assert(parts[parts.len() - 1][k] != '.');
        }
        lemma_no_dot_is_no_ipv4(last);
        assert forall|i: int| 0 <= i < parts.len() implies addr::segment_value(#[trigger] parts[i])
            == Some(g[i]) by {
            assert(g[i] < 0x1_0000);
            lemma_segment_text(g[i]);
        }
        assert(parts.map_values(|p: Seq<char>| addr::segment_value(p)->0) =~= g);
    }
}

/// A run of zeros is one.
proof fn lemma_zero_run(g: Seq<nat>, at: int)
    requires
        0 <= at <= g.len(),
    ensures
        at + addr::zero_run(g, at) <= g.len(),
        forall|i: int| at <= i < at + addr::zero_run(g, at) ==> #[trigger] g[i] == 0,
    decreases g.len() - at,
{
    if at < g.len() && g[at] == 0 {
        lemma_zero_run(g, at + 1);
    }
}

/// The longest run starts at one of the places that were looked at.
proof fn lemma_longest_run(g: Seq<nat>, n: nat)
    ensures
        0 <= addr::longest_run(g, n) <= n,
    decreases n,
{
    if n > 0 {
        lemma_longest_run(g, (n - 1) as nat);
    }
}

/// The texts of two rows of segments, with two colons between them, are
/// read back as they are, with the zeros that are missing between them.
proof fn lemma_gap_text(head: Seq<nat>, tail: Seq<nat>)
    requires
        are_segments(head),
        are_segments(tail),
        head.len() + tail.len() <= 7,
    ensures
        addr::ipv6_value(addr::colon_text(head) + "::"@ + addr::colon_text(tail)) == Some(
            addr::from_segments(
                head + addr::zeros((8 - head.len() - tail.len()) as nat) + tail,
            ),
        ),
{
    let h = addr::colon_text(head);
    let l = addr::colon_text(tail);
    let t = h + "::"@ + l;
    reveal_strlit("::");
    assert("::"@ =~= seq![':', ':']);
    lemma_colon_text_is_plain(head);
    lemma_colon_text_reads_back(head, false);
    lemma_colon_text_reads_back(tail, true);
    let p = h.len() as int;
    assert(t[p] == ':' && t[p + 1] == ':');
    assert forall|i: int| 0 <= i < p && i + 1 < t.len() implies !(#[trigger] t[i] == ':' && t[i + 1]
        == ':') by {
        assert(t[i] == h[i]);
        if i + 1 < p {
            assert(t[i + 1] == h[i + 1]);
        }
    }
    text::lemma_find_pair_is(t, ':', ':', p);
    assert(t.take(p) =~= h);
    assert(t.skip(p + 2) =~= l);
}

/// Segments with colons between them, and two colons somewhere, are no
/// IPv4 address.
proof fn lemma_gap_text_is_no_ipv4(head: Seq<nat>, tail: Seq<nat>)
    requires
        are_segments(head),
        are_segments(tail),
    ensures
        addr::ipv4_value(addr::colon_text(head) + "::"@ + addr::colon_text(tail)) is None,
{
    let h = addr::colon_text(head);
    let l = addr::colon_text(tail);
    let t = h + "::"@ + l;
    let p = h.len() as int;
    reveal_strlit("::");
    lemma_hexes_hold_no_mark(head);
    lemma_hexes_hold_no_mark(tail);
    lemma_join_has_not(hexes(head), ':', '.');
    lemma_join_has_not(hexes(tail), ':', '.');
    assert forall|k: int| 0 <= k < t.len() implies #[trigger] t[k] != '.' by {
        if k < p {
            assert(t[k] == h[k]);
        } else if k >= p + 2 {
            assert(t[k] == l[k - p - 2]);
        }
    }
    lemma_no_dot_is_no_ipv4(t);
}

/// Eight segments with colons between them are read back as they are.
proof fn lemma_full_text(g: Seq<nat>)
    requires
        are_segments(g),
        g.len() == 8,
    ensures
        addr::ipv6_value(addr::colon_text(g)) == Some(addr::from_segments(g)),
        addr::ipv4_value(addr::colon_text(g)) is None,
{
    let t = addr::colon_text(g);
    lemma_colon_text_is_plain(g);
    lemma_colon_text_reads_back(g, true);
    text::lemma_find_pair_is(t, ':', ':', t.len() as int);
    lemma_hexes_hold_no_mark(g);
    lemma_join_has_not(hexes(g), ':', '.');
    lemma_no_dot_is_no_ipv4(t);
}

/// Where a run of zeros is taken out of the segments, what is left on both
/// sides and the zeros make them up again.
proof fn lemma_gap_is_zeros(g: Seq<nat>, at: int, len: nat)
    requires
        g.len() == 8,
        0 <= at,
        at + len <= 8,
        forall|i: int| at <= i < at + len ==> #[trigger] g[i] == 0,
    ensures
        g.take(at) + addr::zeros(len) + g.skip(at + len) == g,
{
    assert(g.take(at) + addr::zeros(len) + g.skip(at + len) =~= g);
}

/// The text of an IPv6 address that is no mapped IPv4 address is read back
/// as the address.
proof fn lemma_plain_ipv6_text(bits: nat)
    requires
        bits <= u128::MAX,
        !addr::is_mapped(bits),
    ensures
        addr::ipv6_value(addr::ipv6_text(bits)) == Some(bits),
        addr::ipv4_value(addr::ipv6_text(bits)) is None,
{
    let g = addr::segments(bits);
    let at = addr::longest_run(g, 7);
    let len = addr::zero_run(g, at);
    segments_make_the_address(bits);
    lemma_longest_run(g, 7);
    lemma_zero_run(g, at);
    assert(are_segments(g));
    if len > 1 {
        let head = g.take(at);
        let tail = g.skip(at + len);
        assert(are_segments(head));
        assert(are_segments(tail));
        lemma_gap_text(head, tail);
        lemma_gap_text_is_no_ipv4(head, tail);
        lemma_gap_is_zeros(g, at, len);
    } else {
        lemma_full_text(g);
    }
}

/// Four times the digit `f` write the segment of ones.
proof fn lemma_segment_of_ones()
    ensures
        addr::segment_values(seq![seq!['f', 'f', 'f', 'f']]) == Some(seq![0xffffnat]),
{
    let f = seq!['f', 'f', 'f', 'f'];
    reveal_with_fuel(text::digits_value, 5);
    assert(f.drop_last().drop_last().drop_last() =~= seq!['f']);
    assert(f.drop_last().drop_last().drop_last().drop_last() =~= seq![]);
    assert(addr::segment_value(f) == Some(0xffffnat));
    assert(seq![f].map_values(|p: Seq<char>| addr::segment_value(p)->0) =~= seq![0xffffnat]);
}

/// A segment, a colon and an IPv4 address are read as the segment and the
/// two halves of the address.
proof fn lemma_dotted_tail(f: Seq<char>, q: Seq<char>)
    requires
        forall|k: int| 0 <= k < f.len() ==> #[trigger] f[k] != ':',
        forall|k: int| 0 <= k < q.len() ==> #[trigger] q[k] != ':',
        addr::ipv4_value(q) is Some,
        addr::segment_values(seq![f]) is Some,
    ensures
        addr::groups(f + seq![':'] + q, true) == Some(
            addr::segment_values(seq![f])->0 + seq![
                addr::ipv4_value(q)->0 / 0x1_0000,
                addr::ipv4_value(q)->0 % 0x1_0000,
            ],
        ),
{
    let parts = seq![f, q];
    assert(text::join(parts, seq![':']) =~= f + seq![':'] + q) by {
        text_laws::lemma_join_front(parts, seq![':']);
        assert(parts.drop_first() =~= seq![q]);
    }
    assert forall|i: int, k: int| 0 <= i < parts.len() && 0 <= k < parts[i].len() implies
        #[trigger] parts[i][k] != ':' by {
        if i == 0 {
            assert(f[k] != ':');
        } else {
            assert(q[k] != ':');
        }
    }
    text_laws::joined_parts_split(parts, ':');
    assert(parts.last() == q);
    assert(parts.drop_last() =~= seq![f]);
}

/// The part of a mapped address behind its two colons is read as the
/// segment of ones and the two halves of the IPv4 address.
proof fn lemma_mapped_tail(v: nat)
    requires
        v < 0x1_0000_0000,
    ensures
        addr::groups(seq!['f', 'f', 'f', 'f'] + seq![':'] + addr::ipv4_text(v), true) == Some(
            seq![0xffffnat, v / 0x1_0000, v % 0x1_0000],
        ),
{
    ipv4_text_reads_back(v);
    lemma_ipv4_text_has_no_colon(v);
    lemma_segment_of_ones();
    lemma_dotted_tail(seq!['f', 'f', 'f', 'f'], addr::ipv4_text(v));
    assert(seq![0xffffnat] + seq![v / 0x1_0000, v % 0x1_0000] =~= seq![
        0xffffnat,
        v / 0x1_0000,
        v % 0x1_0000,
    ]);
}

/// A text that starts with a colon is no IPv4 address.
proof fn lemma_colon_is_no_ipv4(t: Seq<char>)
    requires
        t.len() > 0,
        t[0] == ':',
    ensures
        addr::ipv4_value(t) is None,
{
    text::lemma_find(t, '.');
    let first = text::split(t, '.')[0];
    assert(first.len() > 0 && first[0] == ':');
    text_laws::lemma_value_of_digits(first, 10);
    if text_laws::all_digits(first, 10) {
        assert(text::digit_value(first[0], 10) is Some);
    }
}

/// The text of a mapped IPv4 address is read back as the address.
#[verifier::rlimit(40)]
proof fn lemma_mapped_ipv6_text(bits: nat)
    requires
        bits <= u128::MAX,
        addr::is_mapped(bits),
    ensures
        addr::ipv6_value(addr::ipv6_text(bits)) == Some(bits),
        addr::ipv4_value(addr::ipv6_text(bits)) is None,
{
    let v = bits % 0x1_0000_0000;
    let q = addr::ipv4_text(v);
    let t = addr::ipv6_text(bits);
    reveal_strlit("::ffff:");
    assert(t == "::ffff:"@ + q);
    assert(t[0] == ':' && t[1] == ':');
    text::lemma_find_pair_is(t, ':', ':', 0);
    lemma_colon_is_no_ipv4(t);
    lemma_mapped_tail(v);
    assert(t.skip(2) =~= seq!['f', 'f', 'f', 'f'] + seq![':'] + q);
    let g = seq![0xffffnat, v / 0x1_0000, v % 0x1_0000];
    assert(addr::groups(t.take(0), false) == Some(Seq::<nat>::empty()));
    let whole = Seq::<nat>::empty() + addr::zeros(5) + g;
    lemma_mapped_segments(bits);
    assert(whole =~= seq![0nat, 0, 0, 0, 0, 0xffff, v / 0x1_0000, v % 0x1_0000]);
}

/// A mapped address is made of the segment of ones and the two halves of
/// the IPv4 address.
proof fn lemma_mapped_segments(bits: nat)
    requires
        addr::is_mapped(bits),
    ensures
        addr::from_segments(
            seq![
                0nat,
                0,
                0,
                0,
                0,
                0xffff,
                bits % 0x1_0000_0000 / 0x1_0000,
                bits % 0x1_0000_0000 % 0x1_0000,
            ],
        ) == bits,
{
}

/// The text of an IPv6 address is read back as the address, also that of
/// an IPv4 address mapped into IPv6.
pub proof fn ipv6_text_reads_back(bits: nat)
    requires
        bits <= u128::MAX,
    ensures
        addr::ipv6_value(addr::ipv6_text(bits)) == Some(bits),
        addr::ipv4_value(addr::ipv6_text(bits)) is None,
{
    if addr::is_mapped(bits) {
        lemma_mapped_ipv6_text(bits);
    } else {
        lemma_plain_ipv6_text(bits);
    }
}

/// The text of an address of either family is read back as the address.
pub proof fn text_reads_back(a: IpAddr)
    ensures
        addr::ip_value(a.text()) == Some(a),
{
    match a {
        IpAddr::V4(v) => {
            ipv4_text_reads_back(v.bits as nat);
        },
        IpAddr::V6(v) => {
            ipv6_text_reads_back(v.bits as nat);
        },
    }
}

/// Different addresses have different texts.
pub proof fn texts_differ(a: IpAddr, b: IpAddr)
    requires
        a != b,
    ensures
        a.text() != b.text(),
{
    text_reads_back(a);
    text_reads_back(b);
}

// ---------------------------------------------------------------------
// What the texts are
// ---------------------------------------------------------------------

/// An IPv4 address comes before every IPv6 address; of two IPv4 addresses the
/// first octet that differs decides.
pub proof fn first_octet_that_differs_decides(a: Ipv4Addr, b: Ipv4Addr, c: Ipv6Addr)
    ensures
        IpAddr::V4(a).before(IpAddr::V6(c)),
        !IpAddr::V6(c).before(IpAddr::V4(a)),
        ({
            let x = addr::octets(a.bits as nat);
            let y = addr::octets(b.bits as nat);
            IpAddr::V4(a).before(IpAddr::V4(b)) <==> {
                ||| x[0] < y[0]
                ||| x[0] == y[0] && x[1] < y[1]
                ||| x[0] == y[0] && x[1] == y[1] && x[2] < y[2]
                ||| x[0] == y[0] && x[1] == y[1] && x[2] == y[2] && x[3] < y[3]
            }
        }),
{
    octets_make_the_address(a.bits as nat);
    octets_make_the_address(b.bits as nat);
}

/// Of two IPv6 addresses the larger number is the later one: the first
/// segment that differs decides.
pub proof fn first_segment_that_differs_decides(a: Ipv6Addr, b: Ipv6Addr, k: int)
    requires
        0 <= k < 8,
        forall|i: int|
            0 <= i < k ==> #[trigger] addr::segments(a.bits as nat)[i] == addr::segments(
                b.bits as nat,
            )[i],
        addr::segments(a.bits as nat)[k] < addr::segments(b.bits as nat)[k],
    ensures
        IpAddr::V6(a).before(IpAddr::V6(b)),
        !IpAddr::V6(b).before(IpAddr::V6(a)),
{
    let x = addr::segments(a.bits as nat);
    let y = addr::segments(b.bits as nat);
    segments_make_the_address(a.bits as nat);
    segments_make_the_address(b.bits as nat);
    assert(x[0] < 0x1_0000 && x[1] < 0x1_0000 && x[2] < 0x1_0000 && x[3] < 0x1_0000 && x[4]
        < 0x1_0000 && x[5] < 0x1_0000 && x[6] < 0x1_0000 && x[7] < 0x1_0000);
    assert(k > 0 ==> x[0] == y[0]);
    assert(k > 1 ==> x[1] == y[1]);
    assert(k > 2 ==> x[2] == y[2]);
    assert(k > 3 ==> x[3] == y[3]);
    assert(k > 4 ==> x[4] == y[4]);
    assert(k > 5 ==> x[5] == y[5]);
    assert(k > 6 ==> x[6] == y[6]);
}

/// The text of an IPv4 address is its four octets in decimal, the top one
/// first, with dots between them.
pub proof fn ipv4_text_is_dotted(a: nat, b: nat, c: nat, d: nat)
    requires
        a < 256,
        b < 256,
        c < 256,
        d < 256,
    ensures
        addr::ipv4_text(a * 0x100_0000 + b * 0x1_0000 + c * 0x100 + d) == text::decimal(a) + seq![
            '.',
        ] + text::decimal(b) + seq!['.'] + text::decimal(c) + seq!['.'] + text::decimal(d),
{
    let bits = a * 0x100_0000 + b * 0x1_0000 + c * 0x100 + d;
    octets_are_those_it_is_made_of(a, b, c, d);
    let parts = addr::octets(bits).map_values(|o: nat| text::decimal(o));
    lemma_join_four(parts, seq!['.']);
}

/// An IPv4 address has the octets that it is made of.
pub proof fn octets_are_those_it_is_made_of(a: nat, b: nat, c: nat, d: nat)
    requires
        a < 256,
        b < 256,
        c < 256,
        d < 256,
    ensures
        addr::octets(a * 0x100_0000 + b * 0x1_0000 + c * 0x100 + d) == seq![a, b, c, d],
{
    let v = a * 0x100_0000 + b * 0x1_0000 + c * 0x100 + d;
    assert(v / 0x100_0000 == a);
    assert(v / 0x1_0000 == a * 256 + b);
    assert(v / 0x100 == a * 0x1_0000 + b * 0x100 + c);
    assert((a * 256 + b) % 256 == b);
    assert((a * 0x1_0000 + b * 0x100 + c) % 256 == c);
    assert(addr::octets(v) =~= seq![a, b, c, d]);
}

/// Four parts, joined.
proof fn lemma_join_four(p: Seq<Seq<char>>, sep: Seq<char>)
    requires
        p.len() == 4,
    ensures
        text::join(p, sep) == p[0] + sep + p[1] + sep + p[2] + sep + p[3],
{
    reveal_with_fuel(text::join, 5);
    assert(p.drop_last().drop_last().drop_last()[0] == p[0]);
}

/// Digits without a zero in front are the decimal text of their value.
proof fn lemma_digits_are_decimal(s: Seq<char>, v: nat)
    requires
        s.len() > 0,
        text::digits_value(s, 10) == Some(v),
        s[0] == '0' ==> s.len() == 1,
    ensures
        s == text::decimal(v),
        s[0] != '0' ==> v > 0,
    decreases s.len(),
{
    let t = s.drop_last();
    let d = text::digit_value(s.last(), 10)->0;
    assert(text::digit(d) == s.last()) by {
        lemma_digit_of_value(s.last());
    }
    if s.len() == 1 {
        assert(t =~= seq![]);
        assert(s =~= seq![text::digit(d)]);
        assert(v == d);
    } else {
        let u = text::digits_value(t, 10)->0;
        assert(t[0] == s[0]);
        lemma_digits_are_decimal(t, u);
        assert(v == u * 10 + d);
        assert(d < 10);
        assert(v / 10 == u && v % 10 == d);
        assert(s =~= t.push(text::digit(d)));
    }
}

/// A decimal digit is the digit for its value.
proof fn lemma_digit_of_value(c: char)
    requires
        text::digit_value(c, 10) is Some,
    ensures
        text::digit(text::digit_value(c, 10)->0) == c,
        c != '0' ==> text::digit_value(c, 10)->0 > 0,
{
}

/// Parts that a text was split into are the text again when joined.
pub proof fn split_parts_join(s: Seq<char>, sep: char)
    ensures
        text::join(text::split(s, sep), seq![sep]) == s,
    decreases s.len(),
{
    text::lemma_find(s, sep);
    let n = text::find(s, sep);
    if n < s.len() {
        let rest = s.skip(n + 1);
        split_parts_join(rest, sep);
        let parts = text::split(s, sep);
        text::lemma_split_len(rest, sep);
        text_laws::lemma_join_front(parts, seq![sep]);
        assert(parts.drop_first() =~= text::split(rest, sep));
        assert(s.take(n) + seq![sep] + rest =~= s);
    }
}

/// A text is an IPv4 address exactly if it is the text of that address: there
/// is no other way to write one.
pub proof fn ipv4_has_one_text(t: Seq<char>, bits: nat)
    requires
        bits < 0x1_0000_0000,
    ensures
        addr::ipv4_value(t) == Some(bits) <==> t == addr::ipv4_text(bits),
        addr::ipv4_value(t) is Some ==> addr::ipv4_value(t)->0 < 0x1_0000_0000,
{
    ipv4_text_reads_back(bits);
    if addr::ipv4_value(t) is Some {
        let p = text::split(t, '.');
        let a = addr::octet_value(p[0])->0;
        let b = addr::octet_value(p[1])->0;
        let c = addr::octet_value(p[2])->0;
        let d = addr::octet_value(p[3])->0;
        lemma_digits_are_decimal(p[0], a);
        lemma_digits_are_decimal(p[1], b);
        lemma_digits_are_decimal(p[2], c);
        lemma_digits_are_decimal(p[3], d);
        ipv4_text_is_dotted(a, b, c, d);
        split_parts_join(t, '.');
        lemma_join_four(p, seq!['.']);
        assert(addr::ipv4_value(t) == Some(a * 0x100_0000 + b * 0x1_0000 + c * 0x100 + d));
    }
}

/// A text is an address of one family at most, and of the family it is read
/// as.
pub proof fn address_is_of_one_family(t: Seq<char>, a: Ipv4Addr, b: Ipv6Addr)
    ensures
        addr::ipv4_value(t) is Some ==> addr::ipv6_value(t) is None,
        addr::ip_value(t) == Some(IpAddr::V4(a)) <==> addr::ipv4_value(t) == Some(a.bits as nat),
        addr::ip_value(t) is Some <==> addr::ipv4_value(t) is Some || addr::ipv6_value(t) is Some,
        addr::ipv6_value(t) is Some ==> (addr::ip_value(t) == Some(IpAddr::V6(b))
            <==> addr::ipv6_value(t)->0 as u128 == b.bits),
{
    ipv4_has_one_text(t, a.bits as nat);
    if addr::ipv4_value(t) is Some {
        let v = addr::ipv4_value(t)->0;
        ipv4_has_one_text(t, v);
        lemma_ipv4_text_has_no_colon(v);
        text::lemma_find_pair_is(t, ':', ':', t.len() as int);
        text_laws::separator_parts_a_text(t, ':', seq![]);
        let parts = text::split(t, ':');
        assert(parts.last() == t);
        assert(parts.drop_last() =~= seq![]);
        assert(addr::segment_values(parts.drop_last()) == Some(Seq::<nat>::empty())) by {
            assert(parts.drop_last().map_values(|p: Seq<char>| addr::segment_value(p)->0) =~= seq![]);
        }
        assert(addr::groups(t, true)->0.len() == 2);
    }
}

/// A segment is one to four hexadecimal digits, small or large.
pub proof fn segment_is_up_to_four_digits(p: Seq<char>)
    ensures
        addr::segment_value(p) is Some <==> 1 <= p.len() <= 4 && text_laws::all_digits(p, 16),
        addr::segment_value(p) is Some ==> addr::segment_value(p) == text::digits_value(p, 16),
{
    text_laws::lemma_value_of_digits(p, 16);
}

/// Whether all are texts of segments.
pub open spec fn all_segments(parts: Seq<Seq<char>>) -> bool {
    forall|i: int| 0 <= i < parts.len() ==> addr::segment_value(#[trigger] parts[i]) is Some
}

/// What segments are worth.
pub open spec fn values_of(parts: Seq<Seq<char>>) -> Seq<nat> {
    parts.map_values(|p: Seq<char>| text::digits_value(p, 16)->0)
}

/// Texts of segments hold neither dots nor colons, and are not empty.
proof fn lemma_segments_hold_no_mark(parts: Seq<Seq<char>>)
    requires
        all_segments(parts),
    ensures
        text_laws::none_has(parts, ':'),
        text_laws::none_has(parts, '.'),
        forall|i: int| 0 <= i < parts.len() ==> (#[trigger] parts[i]).len() > 0,
{
    assert forall|i: int| 0 <= i < parts.len() implies (#[trigger] parts[i]).len() > 0
        && text_laws::all_digits(parts[i], 16) by {
        assert(addr::segment_value(parts[i]) is Some);
        segment_is_up_to_four_digits(parts[i]);
    }
    assert forall|i: int, k: int| 0 <= i < parts.len() && 0 <= k < parts[i].len() implies
        #[trigger] parts[i][k] != ':' by {
        assert(parts[i].len() > 0);
        lemma_digits_hold_no_mark(parts[i], 16);
    }
    assert forall|i: int, k: int| 0 <= i < parts.len() && 0 <= k < parts[i].len() implies
        #[trigger] parts[i][k] != '.' by {
        assert(parts[i].len() > 0);
        lemma_digits_hold_no_mark(parts[i], 16);
    }
}

/// Segments with colons between them are read as they are.
proof fn lemma_segments_are_read(parts: Seq<Seq<char>>, dotted: bool)
    requires
        all_segments(parts),
    ensures
        addr::groups(text::join(parts, seq![':']), dotted) == Some(values_of(parts)),
{
    let s = text::join(parts, seq![':']);
    lemma_segments_hold_no_mark(parts);
    if parts.len() == 0 {
        assert(values_of(parts) =~= seq![]);
    } else {
        lemma_joined_is_plain(parts);
        text_laws::joined_parts_split(parts, ':');
        let last = parts.last();
        assert forall|k: int| 0 <= k < last.len() implies #[trigger] last[k] != '.' by {
            assert(parts[parts.len() - 1][k] != '.');
        }
        lemma_no_dot_is_no_ipv4(last);
        assert forall|i: int| 0 <= i < parts.len() implies addr::segment_value(#[trigger] parts[i])
            == Some(values_of(parts)[i]) by {
            assert(addr::segment_value(parts[i]) is Some);
        }
        assert(parts.map_values(|p: Seq<char>| addr::segment_value(p)->0) =~= values_of(parts));
    }
}

/// Segments with colons between them never show two colons in a row.
proof fn lemma_joined_is_plain(parts: Seq<Seq<char>>)
    requires
        all_segments(parts),
    ensures
        is_plain(text::join(parts, seq![':'])),
        parts.len() > 0 ==> text::join(parts, seq![':']).len() > 0,
    decreases parts.len(),
{
    let s = text::join(parts, seq![':']);
    lemma_segments_hold_no_mark(parts);
    if parts.len() == 1 {
        assert(s == parts[0]);
        assert forall|k: int| 0 <= k < s.len() implies #[trigger] s[k] != ':' by {
            assert(parts[0][k] != ':');
        }
        assert(s[s.len() - 1] != ':');
    } else if parts.len() > 1 {
        let front = parts.drop_last();
        assert forall|i: int| 0 <= i < front.len() implies addr::segment_value(
            #[trigger] front[i],
        ) is Some by {
            assert(front[i] == parts[i]);
            assert(addr::segment_value(parts[i]) is Some);
        }
        lemma_joined_is_plain(front);
        let a = text::join(front, seq![':']);
        let z = parts[parts.len() - 1];
        assert(z.len() > 0);
        assert forall|k: int| 0 <= k < z.len() implies #[trigger] z[k] != ':' by {
            assert(parts[parts.len() - 1][k] != ':');
        }
        assert(s == a + seq![':'] + z);
        let n = a.len() as int;
        assert forall|i: int| 0 <= i && i + 1 < s.len() implies !(#[trigger] s[i] == ':' && s[i + 1]
            == ':') by {
            if i + 1 < n {
                assert(s[i] == a[i] && s[i + 1] == a[i + 1]);
            } else if i + 1 == n {
                assert(s[i] == a[i]);
            } else if i == n {
                assert(s[i + 1] == z[0]);
            } else {
                assert(s[i] == z[i - n - 1]);
            }
        }
        assert(s[0] == a[0]);
        assert(s.last() == z.last());
        assert(z[z.len() - 1] != ':');
    }
}

/// Eight segments with colons between them are an IPv6 address, the first of
/// them on top; fewer or more are none.
pub proof fn eight_segments_are_an_address(parts: Seq<Seq<char>>)
    requires
        all_segments(parts),
    ensures
        parts.len() != 8 ==> addr::ipv6_value(text::join(parts, seq![':'])) is None,
        parts.len() == 8 ==> {
            let g = values_of(parts);
            addr::ipv6_value(text::join(parts, seq![':'])) == Some(
                ((((((g[0] * 0x1_0000 + g[1]) * 0x1_0000 + g[2]) * 0x1_0000 + g[3]) * 0x1_0000
                    + g[4]) * 0x1_0000 + g[5]) * 0x1_0000 + g[6]) * 0x1_0000 + g[7],
            )
        },
{
    let t = text::join(parts, seq![':']);
    lemma_joined_is_plain(parts);
    lemma_segments_are_read(parts, true);
    text::lemma_find_pair_is(t, ':', ':', t.len() as int);
}

/// Two colons stand for the zeros that are missing between the segments in
/// front of them and those behind; there must be at least one.
pub proof fn two_colons_stand_for_zeros(head: Seq<Seq<char>>, tail: Seq<Seq<char>>)
    requires
        all_segments(head),
        all_segments(tail),
    ensures
        ({
            let t = text::join(head, seq![':']) + seq![':', ':'] + text::join(tail, seq![':']);
            let n = head.len() + tail.len();
            &&& n > 7 ==> addr::ipv6_value(t) is None
            &&& n <= 7 ==> addr::ipv6_value(t) == Some(
                addr::from_segments(
                    values_of(head) + Seq::new((8 - n) as nat, |i: int| 0nat) + values_of(tail),
                ),
            )
        }),
{
    let h = text::join(head, seq![':']);
    let l = text::join(tail, seq![':']);
    let t = h + seq![':', ':'] + l;
    let p = h.len() as int;
    lemma_joined_is_plain(head);
    lemma_segments_are_read(head, false);
    lemma_segments_are_read(tail, true);
    assert(t[p] == ':' && t[p + 1] == ':');
    assert forall|i: int| 0 <= i < p && i + 1 < t.len() implies !(#[trigger] t[i] == ':' && t[i + 1]
        == ':') by {
        assert(t[i] == h[i]);
        if i + 1 < p {
            assert(t[i + 1] == h[i + 1]);
        }
    }
    text::lemma_find_pair_is(t, ':', ':', p);
    assert(t.take(p) =~= h);
    assert(t.skip(p + 2) =~= l);
    let n = head.len() + tail.len();
    if n <= 7 {
        assert(addr::zeros((8 - n) as nat) =~= Seq::new((8 - n) as nat, |i: int| 0nat));
    }
}

/// The last four octets of an IPv6 address may be written as an IPv4 address,
/// behind segments and a colon.
pub proof fn ipv4_may_stand_at_the_end(parts: Seq<Seq<char>>, v: nat)
    requires
        parts.len() > 0,
        all_segments(parts),
        v < 0x1_0000_0000,
    ensures
        addr::groups(text::join(parts, seq![':']) + seq![':'] + addr::ipv4_text(v), true) == Some(
            values_of(parts) + seq![v / 0x1_0000, v % 0x1_0000],
        ),
        addr::groups(
            text::join(parts, seq![':']) + seq![':'] + addr::ipv4_text(v),
            false,
        ) is None,
{
    let q = addr::ipv4_text(v);
    let all = parts.push(q);
    let t = text::join(parts, seq![':']) + seq![':'] + q;
    assert(all.drop_last() =~= parts);
    assert(text::join(all, seq![':']) == t);
    ipv4_text_reads_back(v);
    lemma_ipv4_text_has_no_colon(v);
    lemma_segments_hold_no_mark(parts);
    assert forall|i: int, k: int| 0 <= i < all.len() && 0 <= k < all[i].len() implies
        #[trigger] all[i][k] != ':' by {
        if i < parts.len() {
            assert(parts[i][k] != ':');
        } else {
            assert(q[k] != ':');
        }
    }
    text_laws::joined_parts_split(all, ':');
    assert forall|i: int| 0 <= i < parts.len() implies addr::segment_value(#[trigger] parts[i])
        == Some(values_of(parts)[i]) by {
        assert(addr::segment_value(parts[i]) is Some);
    }
    assert(parts.map_values(|p: Seq<char>| addr::segment_value(p)->0) =~= values_of(parts));
    assert(addr::segment_value(q) is None) by {
        lemma_dotted_is_no_segment(v);
    }
    assert(addr::segment_value(all[all.len() - 1]) is None);
}

/// The text of an IPv4 address is no segment.
proof fn lemma_dotted_is_no_segment(v: nat)
    requires
        v < 0x1_0000_0000,
    ensures
        addr::segment_value(addr::ipv4_text(v)) is None,
{
    let q = addr::ipv4_text(v);
    segment_is_up_to_four_digits(q);
    if text_laws::all_digits(q, 16) {
        lemma_digits_hold_no_mark(q, 16);
        lemma_no_dot_is_no_ipv4(q);
        ipv4_text_reads_back(v);
    }
}

/// A run of zeros ends at a segment that is not zero, or at the end.
proof fn lemma_run_is(g: Seq<nat>, at: int, len: nat)
    requires
        0 <= at,
        at + len <= g.len(),
        forall|i: int| at <= i < at + len ==> #[trigger] g[i] == 0,
        at + len < g.len() ==> g[at + len as int] != 0,
    ensures
        addr::zero_run(g, at) == len,
    decreases len,
{
    if len > 0 {
        assert(g[at] == 0);
        lemma_run_is(g, at + 1, (len - 1) as nat);
    }
}

/// The longest run is the first of those that no other is longer than.
proof fn lemma_longest_is_first(g: Seq<nat>, n: nat)
    ensures
        0 <= addr::longest_run(g, n) <= n,
        forall|j: int|
            0 <= j <= n ==> #[trigger] addr::zero_run(g, j) <= addr::zero_run(
                g,
                addr::longest_run(g, n),
            ),
        forall|j: int|
            0 <= j < addr::longest_run(g, n) ==> #[trigger] addr::zero_run(g, j) < addr::zero_run(
                g,
                addr::longest_run(g, n),
            ),
    decreases n,
{
    if n > 0 {
        lemma_longest_is_first(g, (n - 1) as nat);
    }
}

/// The text of an IPv6 address that is no mapped IPv4 address, and in which
/// no two segments in a row are zero, is its eight segments in hexadecimal,
/// with colons between them.
pub proof fn segments_are_written_out(bits: nat)
    requires
        bits <= u128::MAX,
        bits / 0x1_0000_0000 != 0xffff,
        forall|i: int, j: int|
            0 <= i < 8 && j == i + 1 && j < 8 ==> !(#[trigger] addr::segments(bits)[i] == 0
                && #[trigger] addr::segments(bits)[j] == 0),
    ensures
        addr::ipv6_text(bits) == text::join(
            addr::segments(bits).map_values(|s: nat| text::hex(s)),
            seq![':'],
        ),
{
    let g = addr::segments(bits);
    let at = addr::longest_run(g, 7);
    lemma_longest_run(g, 7);
    lemma_zero_run(g, at);
    if addr::zero_run(g, at) > 1 {
        let j = at + 1;
        assert(g[at] == 0 && g[j] == 0);
    }
}

/// Otherwise the longest run of two or more zeros, the first of them if there
/// are several, is written as two colons.
pub proof fn longest_run_is_two_colons(bits: nat, at: int, len: nat)
    requires
        bits <= u128::MAX,
        bits / 0x1_0000_0000 != 0xffff,
        0 <= at,
        len >= 2,
        at + len <= 8,
        forall|i: int| at <= i < at + len ==> #[trigger] addr::segments(bits)[i] == 0,
        at + len < 8 ==> addr::segments(bits)[at + len as int] != 0,
        forall|j: int, n: nat|
            0 <= j && j + n <= 8 && #[trigger] is_zeros(addr::segments(bits), j, n) ==> n <= len && (
            j < at ==> n < len),
    ensures
        addr::ipv6_text(bits) == text::join(
            addr::segments(bits).take(at).map_values(|s: nat| text::hex(s)),
            seq![':'],
        ) + seq![':', ':'] + text::join(
            addr::segments(bits).skip(at + len).map_values(|s: nat| text::hex(s)),
            seq![':'],
        ),
{
    let g = addr::segments(bits);
    let best = addr::longest_run(g, 7);
    lemma_longest_is_first(g, 7);
    lemma_run_is(g, at, len);
    lemma_zero_run(g, best);
    assert(is_zeros(g, best, addr::zero_run(g, best)));
    assert(addr::zero_run(g, at) <= addr::zero_run(g, best));
    if best > at {
        assert(addr::zero_run(g, at) < addr::zero_run(g, best));
    }
    assert(best == at);
    reveal_strlit("::");
    assert("::"@ =~= seq![':', ':']);
}

/// Whether there are this many zeros in a row from there on.
pub open spec fn is_zeros(g: Seq<nat>, at: int, n: nat) -> bool {
    forall|i: int| at <= i < at + n ==> #[trigger] g[i] == 0
}

/// The text of an IPv4 address that is mapped into IPv6 shows it with dots.
pub proof fn mapped_address_is_dotted(v: nat)
    requires
        v < 0x1_0000_0000,
    ensures
        addr::ipv6_text(0xffff_0000_0000 + v) == seq![':', ':', 'f', 'f', 'f', 'f', ':']
            + addr::ipv4_text(v),
{
    let bits = 0xffff_0000_0000 + v;
    assert(bits / 0x1_0000_0000 == 0xffff && bits % 0x1_0000_0000 == v);
    reveal_strlit("::ffff:");
    assert("::ffff:"@ =~= seq![':', ':', 'f', 'f', 'f', 'f', ':']);
}

/// The text of an address is that of its family.
pub proof fn address_text_is_that_of_its_family(a: Ipv4Addr, b: Ipv6Addr)
    ensures
        IpAddr::V4(a).text() == addr::ipv4_text(a.bits as nat),
        IpAddr::V6(b).text() == addr::ipv6_text(b.bits as nat),
{
}

/// A number below a unit does not count towards the units.
proof fn lemma_top(a: nat, x: nat, b: nat, y: nat, unit: nat)
    by (nonlinear_arith)
    requires
        x < unit,
        y < unit,
        a * unit + x == b * unit + y,
    ensures
        a == b,
        x == y,
{
}

/// Two rows of segments that make the same address are the same.
proof fn lemma_same_segments(g: Seq<nat>, s: Seq<nat>)
    requires
        g.len() == 8,
        s.len() == 8,
        are_segments(g),
        are_segments(s),
        addr::from_segments(g) == addr::from_segments(s),
    ensures
        g == s,
{
    assert(g[0] < 0x1_0000 && g[1] < 0x1_0000 && g[2] < 0x1_0000 && g[3] < 0x1_0000 && g[4]
        < 0x1_0000 && g[5] < 0x1_0000 && g[6] < 0x1_0000 && g[7] < 0x1_0000);
    assert(s[0] < 0x1_0000 && s[1] < 0x1_0000 && s[2] < 0x1_0000 && s[3] < 0x1_0000 && s[4]
        < 0x1_0000 && s[5] < 0x1_0000 && s[6] < 0x1_0000 && s[7] < 0x1_0000);
    let x6 = g[6] * 0x1_0000 + g[7];
    let x5 = g[5] * 0x1_0000_0000 + x6;
    let x4 = g[4] * 0x1_0000_0000_0000 + x5;
    let x3 = g[3] * 0x1_0000_0000_0000_0000 + x4;
    let x2 = g[2] * 0x1_0000_0000_0000_0000_0000 + x3;
    let x1 = g[1] * 0x1_0000_0000_0000_0000_0000_0000 + x2;
    let y6 = s[6] * 0x1_0000 + s[7];
    let y5 = s[5] * 0x1_0000_0000 + y6;
    let y4 = s[4] * 0x1_0000_0000_0000 + y5;
    let y3 = s[3] * 0x1_0000_0000_0000_0000 + y4;
    let y2 = s[2] * 0x1_0000_0000_0000_0000_0000 + y3;
    let y1 = s[1] * 0x1_0000_0000_0000_0000_0000_0000 + y2;
    lemma_top(g[0], x1, s[0], y1, 0x1_0000_0000_0000_0000_0000_0000_0000);
    lemma_top(g[1], x2, s[1], y2, 0x1_0000_0000_0000_0000_0000_0000);
    lemma_top(g[2], x3, s[2], y3, 0x1_0000_0000_0000_0000_0000);
    lemma_top(g[3], x4, s[3], y4, 0x1_0000_0000_0000_0000);
    lemma_top(g[4], x5, s[4], y5, 0x1_0000_0000_0000);
    lemma_top(g[5], x6, s[5], y6, 0x1_0000_0000);
    lemma_top(g[6], g[7], s[6], s[7], 0x1_0000);
    assert(g =~= s);
}

/// An address is made of its segments, the first on top, and of no others.
pub proof fn segments_are_those_it_is_made_of(g: Seq<nat>)
    requires
        g.len() == 8,
        forall|i: int| 0 <= i < 8 ==> #[trigger] g[i] < 0x1_0000,
    ensures
        addr::from_segments(g) <= u128::MAX,
        addr::segments(addr::from_segments(g)) == g,
        addr::from_segments(g) == ((((((g[0] * 0x1_0000 + g[1]) * 0x1_0000 + g[2]) * 0x1_0000
            + g[3]) * 0x1_0000 + g[4]) * 0x1_0000 + g[5]) * 0x1_0000 + g[6]) * 0x1_0000 + g[7],
{
    assert(g[0] < 0x1_0000 && g[1] < 0x1_0000 && g[2] < 0x1_0000 && g[3] < 0x1_0000 && g[4]
        < 0x1_0000 && g[5] < 0x1_0000 && g[6] < 0x1_0000 && g[7] < 0x1_0000);
    let v = addr::from_segments(g);
    assert(v <= u128::MAX);
    segments_make_the_address(v);
    lemma_same_segments(g, addr::segments(v));
}

// ---------------------------------------------------------------------
// The forms of an IPv6 address
// ---------------------------------------------------------------------

/// Segments, and an IPv4 address behind them where there is one, with colons
/// between all of them.
pub open spec fn end_text(parts: Seq<Seq<char>>, v4: Option<nat>) -> Seq<char> {
    match v4 {
        Some(v) => if parts.len() == 0 {
            addr::ipv4_text(v)
        } else {
            text::join(parts, seq![':']) + seq![':'] + addr::ipv4_text(v)
        },
        None => text::join(parts, seq![':']),
    }
}

/// What these are worth: an IPv4 address is worth two segments.
pub open spec fn end_values(parts: Seq<Seq<char>>, v4: Option<nat>) -> Seq<nat> {
    match v4 {
        Some(v) => values_of(parts) + seq![v / 0x1_0000, v % 0x1_0000],
        None => values_of(parts),
    }
}

/// Segments with an IPv4 address behind them are read as they are.
proof fn lemma_end_is_read(parts: Seq<Seq<char>>, v4: Option<nat>)
    requires
        all_segments(parts),
        v4 matches Some(v) ==> v < 0x1_0000_0000,
    ensures
        addr::groups(end_text(parts, v4), true) == Some(end_values(parts, v4)),
        end_text(parts, v4).len() > 0 ==> is_plain(end_text(parts, v4)),
        parts.len() > 0 || v4 is Some ==> end_text(parts, v4).len() > 0,
        parts.len() == 0 && v4 is None ==> end_text(parts, v4).len() == 0,
{
    match v4 {
        None => {
            lemma_segments_are_read(parts, true);
            lemma_joined_is_plain(parts);
        },
        Some(v) => {
            let q = addr::ipv4_text(v);
            ipv4_text_reads_back(v);
            lemma_ipv4_text_has_no_colon(v);
            if parts.len() == 0 {
                text_laws::separator_parts_a_text(q, ':', seq![]);
                assert(seq![q].drop_last() =~= seq![]);
                assert(seq![q].last() == q);
                assert(addr::segment_values(seq![]) == Some(Seq::<nat>::empty())) by {
                    let none = Seq::<Seq<char>>::empty();
                    assert(none.map_values(|p: Seq<char>| addr::segment_value(p)->0) =~= seq![]);
                }
                assert(values_of(parts) =~= seq![]);
                assert(q[q.len() - 1] != ':');
            } else {
                ipv4_may_stand_at_the_end(parts, v);
                lemma_joined_is_plain(parts);
                lemma_plain_and_more(text::join(parts, seq![':']), q);
            }
        },
    }
}

/// A text without colons behind a colon adds no two colons in a row.
proof fn lemma_plain_and_more(a: Seq<char>, q: Seq<char>)
    requires
        is_plain(a),
        a.len() > 0,
        q.len() > 0,
        forall|k: int| 0 <= k < q.len() ==> #[trigger] q[k] != ':',
    ensures
        is_plain(a + seq![':'] + q),
{
    let s = a + seq![':'] + q;
    let n = a.len() as int;
    assert forall|i: int| 0 <= i && i + 1 < s.len() implies !(#[trigger] s[i] == ':' && s[i + 1]
        == ':') by {
        if i + 1 < n {
            assert(s[i] == a[i] && s[i + 1] == a[i + 1]);
        } else if i + 1 == n {
            assert(s[i] == a[i]);
        } else if i == n {
            assert(s[i + 1] == q[0]);
        } else {
            assert(s[i] == q[i - n - 1]);
        }
    }
    assert(s[0] == a[0]);
    assert(s.last() == q[q.len() - 1]);
}

/// Without two colons in a row, a text of segments is an IPv6 address exactly
/// if there are eight of them, where an IPv4 address at the end counts as two.
pub proof fn full_form_is_read(parts: Seq<Seq<char>>, v4: Option<nat>)
    requires
        all_segments(parts),
        v4 matches Some(v) ==> v < 0x1_0000_0000,
    ensures
        addr::ipv6_value(end_text(parts, v4)) == if end_values(parts, v4).len() == 8 {
            Some(addr::from_segments(end_values(parts, v4)))
        } else {
            None
        },
{
    let t = end_text(parts, v4);
    lemma_end_is_read(parts, v4);
    text::lemma_find_pair_is(t, ':', ':', t.len() as int);
}

/// With two colons in a row, it is one exactly if there are seven at most, and
/// the two colons stand for the zeros that are missing.
pub proof fn short_form_is_read(head: Seq<Seq<char>>, tail: Seq<Seq<char>>, v4: Option<nat>)
    requires
        all_segments(head),
        all_segments(tail),
        v4 matches Some(v) ==> v < 0x1_0000_0000,
    ensures
        ({
            let t = text::join(head, seq![':']) + seq![':', ':'] + end_text(tail, v4);
            let front = values_of(head);
            let back = end_values(tail, v4);
            addr::ipv6_value(t) == if front.len() + back.len() <= 7 {
                Some(
                    addr::from_segments(
                        front + Seq::new((8 - front.len() - back.len()) as nat, |i: int| 0nat)
                            + back,
                    ),
                )
            } else {
                None
            }
        }),
{
    let h = text::join(head, seq![':']);
    let l = end_text(tail, v4);
    let t = h + seq![':', ':'] + l;
    let p = h.len() as int;
    lemma_joined_is_plain(head);
    lemma_segments_are_read(head, false);
    lemma_end_is_read(tail, v4);
    assert(t[p] == ':' && t[p + 1] == ':');
    assert forall|i: int| 0 <= i < p && i + 1 < t.len() implies !(#[trigger] t[i] == ':' && t[i + 1]
        == ':') by {
        assert(t[i] == h[i]);
        if i + 1 < p {
            assert(t[i + 1] == h[i + 1]);
        }
    }
    text::lemma_find_pair_is(t, ':', ':', p);
    assert(t.take(p) =~= h);
    assert(t.skip(p + 2) =~= l);
    let front = values_of(head);
    let back = end_values(tail, v4);
    if front.len() + back.len() <= 7 {
        let k = (8 - front.len() - back.len()) as nat;
        assert(addr::zeros(k) =~= Seq::new(k, |i: int| 0nat));
    }
}

/// What is read as segments is segments, perhaps with an IPv4 address behind
/// them.
proof fn lemma_groups_form(u: Seq<char>, dotted: bool) -> (r: (Seq<Seq<char>>, Option<nat>))
    requires
        addr::groups(u, dotted) is Some,
    ensures
        all_segments(r.0),
        r.1 matches Some(v) ==> v < 0x1_0000_0000,
        u == end_text(r.0, r.1),
        !dotted ==> r.1 is None,
{
    let parts = text::split(u, ':');
    split_parts_join(u, ':');
    text::lemma_split_len(u, ':');
    if u.len() == 0 {
        assert(text::join(Seq::<Seq<char>>::empty(), seq![':']) =~= u);
        (Seq::empty(), None)
    } else if dotted && addr::ipv4_value(parts.last()) is Some {
        let v = addr::ipv4_value(parts.last())->0;
        let front = parts.drop_last();
        ipv4_has_one_text(parts.last(), 0);
        ipv4_has_one_text(parts.last(), v);
        assert(all_segments(front));
        if front.len() == 0 {
            assert(text::join(parts, seq![':']) == parts.last());
        }
        (front, Some(v))
    } else {
        assert(all_segments(parts));
        (parts, None)
    }
}

/// Every IPv6 address is in one of the two forms.
pub proof fn address_has_a_form(t: Seq<char>) -> (r: (
    Option<Seq<Seq<char>>>,
    Seq<Seq<char>>,
    Option<nat>,
))
    requires
        addr::ipv6_value(t) is Some,
    ensures
        all_segments(r.1),
        r.2 matches Some(v) ==> v < 0x1_0000_0000,
        r.0 matches Some(head) ==> all_segments(head) && t == text::join(head, seq![':']) + seq![
            ':',
            ':',
        ] + end_text(r.1, r.2),
        r.0 is None ==> t == end_text(r.1, r.2),
{
    let p = text::find_pair(t, ':', ':');
    text::lemma_find_pair(t, ':', ':');
    if p < t.len() {
        let (head, none) = lemma_groups_form(t.take(p), false);
        let (tail, v4) = lemma_groups_form(t.skip(p + 2), true);
        assert(t =~= t.take(p) + seq![':', ':'] + t.skip(p + 2));
        (Some(head), tail, v4)
    } else {
        let (parts, v4) = lemma_groups_form(t, true);
        (None, parts, v4)
    }
}

} // verus!
