//! IP addresses: their order, their text, and reading them from text.

use crate::text;
use vstd::prelude::*;
use vstd::slice::*;
use vstd::string::*;

verus! {

/// An IPv4 address as one number, the first octet the most significant.
#[derive(Debug, Clone, Copy, PartialEq, Eq, Hash, PartialOrd, Ord, Structural)]
pub struct Ipv4Addr {
    pub bits: u32,
}

/// An IPv6 address as one number, the first segment the most significant.
#[derive(Debug, Clone, Copy, PartialEq, Eq, Hash, PartialOrd, Ord, Structural)]
pub struct Ipv6Addr {
    pub bits: u128,
}

/// An address of either family.
#[derive(Debug, Clone, Copy, PartialEq, Eq, Hash, PartialOrd, Ord, Structural)]
pub enum IpAddr {
    V4(Ipv4Addr),
    V6(Ipv6Addr),
}

// ---------------------------------------------------------------------
// Meanings
// ---------------------------------------------------------------------

/// The four octets of an IPv4 address.
pub open spec fn octets(bits: nat) -> Seq<nat> {
    seq![bits / 0x100_0000, bits / 0x1_0000 % 256, bits / 0x100 % 256, bits % 256]
}

/// The IPv4 address with these four octets.
pub open spec fn from_octets(o: Seq<nat>) -> nat {
    o[0] * 0x100_0000 + o[1] * 0x1_0000 + o[2] * 0x100 + o[3]
}

/// The eight segments of an IPv6 address.
pub open spec fn segments(bits: nat) -> Seq<nat> {
    seq![
        bits / 0x1_0000_0000_0000_0000_0000_0000_0000,
        bits / 0x1_0000_0000_0000_0000_0000_0000 % 0x1_0000,
        bits / 0x1_0000_0000_0000_0000_0000 % 0x1_0000,
        bits / 0x1_0000_0000_0000_0000 % 0x1_0000,
        bits / 0x1_0000_0000_0000 % 0x1_0000,
        bits / 0x1_0000_0000 % 0x1_0000,
        bits / 0x1_0000 % 0x1_0000,
        bits % 0x1_0000,
    ]
}

/// The IPv6 address with these eight segments.
pub open spec fn from_segments(g: Seq<nat>) -> nat {
    g[0] * 0x1_0000_0000_0000_0000_0000_0000_0000 + g[1] * 0x1_0000_0000_0000_0000_0000_0000 + g[2]
        * 0x1_0000_0000_0000_0000_0000 + g[3] * 0x1_0000_0000_0000_0000 + g[4] * 0x1_0000_0000_0000
        + g[5] * 0x1_0000_0000 + g[6] * 0x1_0000 + g[7]
}

/// The dotted text of an IPv4 address: its octets in decimal.
pub open spec fn ipv4_text(bits: nat) -> Seq<char> {
    text::join(octets(bits).map_values(|o: nat| text::decimal(o)), seq!['.'])
}

/// The segments in hexadecimal, with colons between them.
pub open spec fn colon_text(g: Seq<nat>) -> Seq<char> {
    text::join(g.map_values(|s: nat| text::hex(s)), seq![':'])
}

/// How many zeros `g` has from place `i` on, up to the next other number.
pub open spec fn zero_run(g: Seq<nat>, i: int) -> nat
    decreases g.len() - i,
{
    if 0 <= i < g.len() && g[i] == 0 {
        1 + zero_run(g, i + 1)
    } else {
        0
    }
}

/// The place, among the first `n + 1`, of the longest run of zeros; the
/// first of them if several are as long.
pub open spec fn longest_run(g: Seq<nat>, n: nat) -> int
    decreases n,
{
    if n == 0 {
        0
    } else {
        let best = longest_run(g, (n - 1) as nat);
        if zero_run(g, n as int) > zero_run(g, best) {
            n as int
        } else {
            best
        }
    }
}

/// Whether the address is an IPv4 address mapped into IPv6.
pub open spec fn is_mapped(bits: nat) -> bool {
    bits / 0x1_0000_0000 == 0xffff
}

/// The text of an IPv6 address. A mapped IPv4 address shows it dotted; of
/// any other the segments are written in hexadecimal, and the first of the
/// longest runs of two or more zero segments is left out between two
/// colons.
pub open spec fn ipv6_text(bits: nat) -> Seq<char> {
    let g = segments(bits);
    let at = longest_run(g, 7);
    let len = zero_run(g, at);
    if is_mapped(bits) {
        "::ffff:"@ + ipv4_text(bits % 0x1_0000_0000)
    } else if len > 1 {
        colon_text(g.take(at)) + "::"@ + colon_text(g.skip(at + len))
    } else {
        colon_text(g)
    }
}

/// The octet that `p` writes in decimal: one to three digits, without a
/// leading zero.
pub open spec fn octet_value(p: Seq<char>) -> Option<nat> {
    match text::digits_value(p, 10) {
        Some(v) => if 1 <= p.len() <= 3 && v <= 255 && (p[0] == '0' ==> p.len() == 1) {
            Some(v)
        } else {
            None
        },
        None => None,
    }
}

/// The IPv4 address that `t` writes: four octets with dots between them.
pub open spec fn ipv4_value(t: Seq<char>) -> Option<nat> {
    let p = text::split(t, '.');
    if p.len() == 4 && octet_value(p[0]) is Some && octet_value(p[1]) is Some && octet_value(
        p[2],
    ) is Some && octet_value(p[3]) is Some {
        Some(from_octets(p.map_values(|o: Seq<char>| octet_value(o)->0)))
    } else {
        None
    }
}

/// The segment that `p` writes in hexadecimal: one to four digits.
pub open spec fn segment_value(p: Seq<char>) -> Option<nat> {
    if 1 <= p.len() <= 4 {
        text::digits_value(p, 16)
    } else {
        None
    }
}

/// The segments that the parts write, if every one of them does.
pub open spec fn segment_values(parts: Seq<Seq<char>>) -> Option<Seq<nat>> {
    if forall|i: int| 0 <= i < parts.len() ==> segment_value(#[trigger] parts[i]) is Some {
        Some(parts.map_values(|p: Seq<char>| segment_value(p)->0))
    } else {
        None
    }
}

/// The segments that `t` writes with colons between them; none if it is
/// empty. Where `dotted` allows it, the last part may be a dotted IPv4
/// address, which stands for two segments.
pub open spec fn groups(t: Seq<char>, dotted: bool) -> Option<Seq<nat>> {
    let parts = text::split(t, ':');
    if t.len() == 0 {
        Some(seq![])
    } else if dotted && ipv4_value(parts.last()) is Some {
        let v4 = ipv4_value(parts.last())->0;
        match segment_values(parts.drop_last()) {
            Some(g) => Some(g + seq![v4 / 0x1_0000, v4 % 0x1_0000]),
            None => None,
        }
    } else {
        segment_values(parts)
    }
}

/// `n` zeros.
pub open spec fn zeros(n: nat) -> Seq<nat> {
    Seq::new(n, |i: int| 0nat)
}

/// The IPv6 address that `t` writes: eight segments, or up to seven with
/// the place of the missing zeros shown by two colons.
pub open spec fn ipv6_value(t: Seq<char>) -> Option<nat> {
    let p = text::find_pair(t, ':', ':');
    if p < t.len() {
        match (groups(t.take(p), false), groups(t.skip(p + 2), true)) {
            (Some(head), Some(tail)) => if head.len() + tail.len() <= 7 {
                Some(from_segments(head + zeros((8 - head.len() - tail.len()) as nat) + tail))
            } else {
                None
            },
            _ => None,
        }
    } else {
        match groups(t, true) {
            Some(g) => if g.len() == 8 {
                Some(from_segments(g))
            } else {
                None
            },
            None => None,
        }
    }
}

/// The address, of either family, that `t` writes.
pub open spec fn ip_value(t: Seq<char>) -> Option<IpAddr> {
    match ipv4_value(t) {
        Some(v) => Some(IpAddr::V4(Ipv4Addr { bits: v as u32 })),
        None => match ipv6_value(t) {
            Some(v) => Some(IpAddr::V6(Ipv6Addr { bits: v as u128 })),
            None => None,
        },
    }
}

impl IpAddr {
    /// The text of the address.
    pub open spec fn text(self) -> Seq<char> {
        match self {
            IpAddr::V4(a) => ipv4_text(a.bits as nat),
            IpAddr::V6(a) => ipv6_text(a.bits as nat),
        }
    }

    /// The order of addresses: every IPv4 address comes before every IPv6
    /// address, and within a family the octets decide, first to last.
    pub open spec fn before(self, other: IpAddr) -> bool {
        match (self, other) {
            (IpAddr::V4(a), IpAddr::V4(b)) => a.bits < b.bits,
            (IpAddr::V4(_), IpAddr::V6(_)) => true,
            (IpAddr::V6(_), IpAddr::V4(_)) => false,
            (IpAddr::V6(a), IpAddr::V6(b)) => a.bits < b.bits,
        }
    }
}

// ---------------------------------------------------------------------
// Executable functions
// ---------------------------------------------------------------------

impl Ipv4Addr {
    /// The address `a.b.c.d`.
    pub fn new(a: u8, b: u8, c: u8, d: u8) -> (r: Ipv4Addr)
        ensures
            r.bits == from_octets(seq![a as nat, b as nat, c as nat, d as nat]),
    {
        Ipv4Addr {
            bits: a as u32 * 0x100_0000 + b as u32 * 0x1_0000 + c as u32 * 0x100 + d as u32,
        }
    }

    /// The address `0.0.0.0`.
    pub fn unspecified() -> (r: Ipv4Addr)
        ensures
            r.bits == 0,
    {
        Ipv4Addr { bits: 0 }
    }

    /// Append the dotted text of the address.
    fn push_text(self, out: &mut String)
        ensures
            final(out)@ == old(out)@ + ipv4_text(self.bits as nat),
    {
        let b = self.bits;
        text::push_decimal(out, (b / 0x100_0000) as u64);
        out.push('.');
        text::push_decimal(out, (b / 0x1_0000 % 256) as u64);
        out.push('.');
        text::push_decimal(out, (b / 0x100 % 256) as u64);
        out.push('.');
        text::push_decimal(out, (b % 256) as u64);
        proof {
            let parts = octets(b as nat).map_values(|o: nat| text::decimal(o));
            let dot = seq!['.'];
            assert(parts.drop_last().drop_last().drop_last() =~= seq![parts[0]]);
            reveal_with_fuel(text::join, 4);
            assert(out@ =~= old(out)@ + (parts[0] + dot + parts[1] + dot + parts[2] + dot
                + parts[3]));
        }
    }
}

impl Ipv6Addr {
    /// The address with these segments.
    pub fn new(a: u16, b: u16, c: u16, d: u16, e: u16, f: u16, g: u16, h: u16) -> (r: Ipv6Addr)
        ensures
            r.bits == from_segments(
                seq![
                    a as nat,
                    b as nat,
                    c as nat,
                    d as nat,
                    e as nat,
                    f as nat,
                    g as nat,
                    h as nat,
                ],
            ),
    {
        Ipv6Addr {
            bits: a as u128 * 0x1_0000_0000_0000_0000_0000_0000_0000 + b as u128
                * 0x1_0000_0000_0000_0000_0000_0000 + c as u128 * 0x1_0000_0000_0000_0000_0000
                + d as u128 * 0x1_0000_0000_0000_0000 + e as u128 * 0x1_0000_0000_0000 + f as u128
                * 0x1_0000_0000 + g as u128 * 0x1_0000 + h as u128,
        }
    }
}

/// The numbers of a sequence of segments.
pub open spec fn numbers(v: Seq<u16>) -> Seq<nat> {
    v.map_values(|s: u16| s as nat)
}

impl Ipv6Addr {
    /// The eight segments of the address.
    fn segments_of(self) -> (r: Vec<u16>)
        ensures
            numbers(r@) == segments(self.bits as nat),
    {
        let b = self.bits;
        let r: Vec<u16> = vec![
            (b / 0x1_0000_0000_0000_0000_0000_0000_0000) as u16,
            (b / 0x1_0000_0000_0000_0000_0000_0000 % 0x1_0000) as u16,
            (b / 0x1_0000_0000_0000_0000_0000 % 0x1_0000) as u16,
            (b / 0x1_0000_0000_0000_0000 % 0x1_0000) as u16,
            (b / 0x1_0000_0000_0000 % 0x1_0000) as u16,
            (b / 0x1_0000_0000 % 0x1_0000) as u16,
            (b / 0x1_0000 % 0x1_0000) as u16,
            (b % 0x1_0000) as u16,
        ];
        assert(numbers(r@) =~= segments(b as nat));
        r
    }

    /// Append the text of the address.
    fn push_text(self, out: &mut String)
        ensures
            final(out)@ == old(out)@ + ipv6_text(self.bits as nat),
    {
        let b = self.bits;
        if b / 0x1_0000_0000 == 0xffff {
            out.append("::ffff:");
            let v4 = Ipv4Addr { bits: (b % 0x1_0000_0000) as u32 };
            v4.push_text(out);
            assert(out@ =~= old(out)@ + ipv6_text(b as nat));
            return ;
        }
        let g = self.segments_of();
        let ghost n = segments(b as nat);
        assert(numbers(g@).len() == 8);
        let mut at: usize = 0;
        let mut len: usize = zero_run_of(&g, 0);
        let mut i: usize = 0;
        while i < 7
            invariant
                g@.len() == 8,
                n == numbers(g@),
                i <= 7,
                at == longest_run(n, i as nat),
                at <= i,
                len == zero_run(n, at as int),
                at + len <= 8,
            decreases 7 - i,
        {
            i += 1;
            let run = zero_run_of(&g, i);
            if run > len {
                at = i;
                len = run;
            }
        }
        if len > 1 {
            push_colon_text(out, slice_subrange(g.as_slice(), 0, at));
            out.append("::");
            push_colon_text(out, slice_subrange(g.as_slice(), at + len, 8));
            proof {
                assert(numbers(g@.subrange(0, at as int)) =~= n.take(at as int));
                assert(numbers(g@.subrange(at + len, 8)) =~= n.skip(at + len));
                assert(out@ =~= old(out)@ + ipv6_text(b as nat));
            }
        } else {
            push_colon_text(out, g.as_slice());
        }
    }
}

/// How many zeros the segments have from place `i` on.
fn zero_run_of(g: &Vec<u16>, i: usize) -> (r: usize)
    requires
        i <= g.len(),
    ensures
        r == zero_run(numbers(g@), i as int),
        i + r <= g.len(),
    decreases g.len() - i,
{
    if i < g.len() && g[i] == 0 {
        1 + zero_run_of(g, i + 1)
    } else {
        0
    }
}

/// Append the segments in hexadecimal, with colons between them.
fn push_colon_text(out: &mut String, g: &[u16])
    ensures
        final(out)@ == old(out)@ + colon_text(numbers(g@)),
{
    let ghost all = numbers(g@).map_values(|s: nat| text::hex(s));
    let mut i: usize = 0;
    proof {
        assert(all.take(0) =~= seq![]);
        assert(out@ =~= old(out)@ + text::join(all.take(0), seq![':']));
    }
    while i < g.len()
        invariant
            i <= g.len(),
            all == numbers(g@).map_values(|s: nat| text::hex(s)),
            out@ == old(out)@ + text::join(all.take(i as int), seq![':']),
        decreases g.len() - i,
    {
        proof {
            assert(all.take(i + 1).drop_last() =~= all.take(i as int));
            assert(all.take(i + 1).last() == text::hex(g@[i as int] as nat));
        }
        if i > 0 {
            out.push(':');
        }
        text::push_hex(out, g[i]);
        proof {
            assert(out@ =~= old(out)@ + text::join(all.take(i + 1), seq![':']));
        }
        i += 1;
    }
    assert(all.take(g@.len() as int) =~= all);
}

/// The octet that the text writes.
fn octet_of(p: &[char]) -> (r: Option<u8>)
    ensures
        match r {
            Some(v) => octet_value(p@) == Some(v as nat),
            None => octet_value(p@) is None,
        },
{
    if p.len() == 0 || p.len() > 3 || p[0] == '+' || (p[0] == '0' && p.len() != 1) {
        proof {
            if p@.len() > 0 && p@[0] == '+' {
                lemma_plus_is_no_digit(p@, 10);
            }
        }
        return None;
    }
    assert(text::drop_plus(p@) == p@);
    match text::unsigned_of(p, 10, 255) {
        Some(v) => Some(v as u8),
        None => None,
    }
}

/// The segment that the text writes.
fn segment_of(p: &[char]) -> (r: Option<u16>)
    ensures
        match r {
            Some(v) => segment_value(p@) == Some(v as nat),
            None => segment_value(p@) is None,
        },
{
    if p.len() == 0 || p.len() > 4 || p[0] == '+' {
        proof {
            if p@.len() > 0 && p@[0] == '+' {
                lemma_plus_is_no_digit(p@, 16);
            }
        }
        return None;
    }
    assert(text::drop_plus(p@) == p@);
    proof {
        if text::digits_value(p@, 16) is Some {
            lemma_segment_bound(p@);
        }
    }
    match text::unsigned_of(p, 16, 0xffff) {
        Some(v) => Some(v as u16),
        None => None,
    }
}

/// A text that starts with a plus sign is no row of digits.
proof fn lemma_plus_is_no_digit(p: Seq<char>, radix: nat)
    requires
        p.len() > 0,
        p[0] == '+',
        radix <= 16,
    ensures
        text::digits_value(p, radix) is None,
    decreases p.len(),
{
    if p.len() > 1 {
        lemma_plus_is_no_digit(p.drop_last(), radix);
    }
}

/// Four hexadecimal digits write a number below two to the sixteenth.
proof fn lemma_segment_bound(p: Seq<char>)
    requires
        p.len() <= 4,
        text::digits_value(p, 16) is Some,
    ensures
        text::digits_value(p, 16)->0 <= 0xffff,
{
    reveal_with_fuel(text::digits_value, 5);
}

/// The IPv4 address that the text writes.
fn ipv4_of(t: &[char]) -> (r: Option<u32>)
    ensures
        match r {
            Some(v) => ipv4_value(t@) == Some(v as nat),
            None => ipv4_value(t@) is None,
        },
{
    let p = text::split_of(t, '.');
    let ghost parts = text::split(t@, '.');
    assert(parts == text::slices(p@));
    assert(parts.len() == p@.len());
    if p.len() != 4 {
        return None;
    }
    assert(parts[0] == p@[0]@ && parts[1] == p@[1]@ && parts[2] == p@[2]@ && parts[3] == p@[3]@);
    match (octet_of(p[0]), octet_of(p[1]), octet_of(p[2]), octet_of(p[3])) {
        (Some(a), Some(b), Some(c), Some(d)) => {
            let v = Ipv4Addr::new(a, b, c, d);
            assert(parts.map_values(|o: Seq<char>| octet_value(o)->0) =~= seq![
                a as nat,
                b as nat,
                c as nat,
                d as nat,
            ]);
            Some(v.bits)
        },
        _ => None,
    }
}

/// The segments that the parts write.
fn segments_in(parts: &[&[char]]) -> (r: Option<Vec<u16>>)
    ensures
        match r {
            Some(v) => segment_values(text::slices(parts@)) == Some(numbers(v@)),
            None => segment_values(text::slices(parts@)) is None,
        },
{
    let mut out: Vec<u16> = Vec::new();
    let ghost all = text::slices(parts@);
    let mut i: usize = 0;
    while i < parts.len()
        invariant
            i <= parts.len(),
            out@.len() == i,
            all == text::slices(parts@),
            forall|k: int|
                0 <= k < i ==> segment_value(#[trigger] all[k]) == Some(out@[k] as nat),
        decreases parts.len() - i,
    {
        assert(all[i as int] == parts@[i as int]@);
        match segment_of(parts[i]) {
            Some(v) => {
                out.push(v);
            },
            None => {
                return None;
            },
        }
        i += 1;
    }
    assert(all.map_values(|p: Seq<char>| segment_value(p)->0) =~= numbers(out@));
    Some(out)
}

/// The segments that the text writes with colons between them.
fn groups_of(t: &[char], dotted: bool) -> (r: Option<Vec<u16>>)
    ensures
        match r {
            Some(v) => groups(t@, dotted) == Some(numbers(v@)),
            None => groups(t@, dotted) is None,
        },
{
    if t.len() == 0 {
        let r: Vec<u16> = Vec::new();
        assert(numbers(r@) =~= seq![]);
        return Some(r);
    }
    let parts = text::split_of(t, ':');
    let ghost all = text::split(t@, ':');
    assert(all == text::slices(parts@));
    proof {
        text::lemma_split_len(t@, ':');
    }
    assert(all.len() == parts@.len());
    let n = parts.len();
    if dotted {
        assert(all.last() == parts@[n - 1]@);
        if let Some(v4) = ipv4_of(parts[n - 1]) {
            let front = slice_subrange(parts.as_slice(), 0, n - 1);
            assert(text::slices(front@) =~= all.drop_last());
            return match segments_in(front) {
                Some(mut g) => {
                    let ghost before = numbers(g@);
                    g.push((v4 / 0x1_0000) as u16);
                    g.push((v4 % 0x1_0000) as u16);
                    assert(numbers(g@) =~= before + seq![
                        v4 as nat / 0x1_0000,
                        v4 as nat % 0x1_0000,
                    ]);
                    Some(g)
                },
                None => None,
            };
        }
    }
    segments_in(parts.as_slice())
}

/// The head, then as many zeros as are missing up to eight segments, then
/// the tail.
fn fill(head: Vec<u16>, tail: &Vec<u16>) -> (r: Vec<u16>)
    requires
        head.len() + tail.len() <= 7,
    ensures
        numbers(r@) == numbers(head@) + zeros((8 - head@.len() - tail@.len()) as nat) + numbers(
            tail@,
        ),
        r@.len() == 8,
{
    let ghost front = numbers(head@);
    let gap: usize = 8 - head.len() - tail.len();
    let mut g = head;
    let mut i: usize = 0;
    assert(numbers(g@) =~= front + zeros(0));
    while i < gap
        invariant
            i <= gap,
            numbers(g@) == front + zeros(i as nat),
        decreases gap - i,
    {
        let ghost before = numbers(g@);
        g.push(0);
        i += 1;
        assert(numbers(g@) =~= before.push(0));
        assert(numbers(g@) =~= front + zeros(i as nat));
    }
    let ghost filled = numbers(g@);
    let ghost back = numbers(tail@);
    let mut k: usize = 0;
    assert(numbers(g@) =~= filled + back.take(0));
    while k < tail.len()
        invariant
            k <= tail.len(),
            back == numbers(tail@),
            numbers(g@) == filled + back.take(k as int),
        decreases tail.len() - k,
    {
        let ghost before = numbers(g@);
        g.push(tail[k]);
        k += 1;
        assert(numbers(g@) =~= before.push(back[k - 1]));
        assert(numbers(g@) =~= filled + back.take(k as int));
    }
    assert(back.take(back.len() as int) =~= back);
    assert(numbers(g@).len() == g@.len());
    g
}

/// The address with these eight segments.
fn whole(g: &Vec<u16>) -> (r: u128)
    requires
        g.len() == 8,
    ensures
        r == from_segments(numbers(g@)),
{
    Ipv6Addr::new(g[0], g[1], g[2], g[3], g[4], g[5], g[6], g[7]).bits
}

/// The IPv6 address that the text writes.
fn ipv6_of(t: &[char]) -> (r: Option<u128>)
    ensures
        match r {
            Some(v) => ipv6_value(t@) == Some(v as nat),
            None => ipv6_value(t@) is None,
        },
{
    let p = text::find_pair_in(t, ':', ':');
    if p < t.len() {
        let head = slice_subrange(t, 0, p);
        let tail = slice_subrange(t, p + 2, t.len());
        assert(head@ =~= t@.take(p as int));
        assert(tail@ =~= t@.skip(p + 2));
        match (groups_of(head, false), groups_of(tail, true)) {
            (Some(h), Some(l)) => {
                if h.len() > 7 || l.len() > 7 - h.len() {
                    return None;
                }
                Some(whole(&fill(h, &l)))
            },
            _ => None,
        }
    } else {
        match groups_of(t, true) {
            Some(g) => {
                if g.len() == 8 {
                    Some(whole(&g))
                } else {
                    None
                }
            },
            None => None,
        }
    }
}

impl IpAddr {
    /// The address, of either family, that the text writes.
    pub fn parse(t: &[char]) -> (r: Option<IpAddr>)
        ensures
            r == ip_value(t@),
    {
        match ipv4_of(t) {
            Some(v) => Some(IpAddr::V4(Ipv4Addr { bits: v })),
            None => match ipv6_of(t) {
                Some(v) => Some(IpAddr::V6(Ipv6Addr { bits: v })),
                None => None,
            },
        }
    }

    /// Append the text of the address.
    pub fn push_text(self, out: &mut String)
        ensures
            final(out)@ == old(out)@ + self.text(),
    {
        match self {
            IpAddr::V4(a) => a.push_text(out),
            IpAddr::V6(a) => a.push_text(out),
        }
    }

    /// The text of the address.
    pub fn to_string(&self) -> (r: String)
        ensures
            r@ == self.text(),
    {
        let mut out = String::new();
        self.push_text(&mut out);
        assert(out@ =~= self.text());
        out
    }

    /// Whether the address comes before the other in the order of addresses.
    pub fn is_before(&self, other: &IpAddr) -> (r: bool)
        ensures
            r == self.before(*other),
    {
        match (self, other) {
            (IpAddr::V4(a), IpAddr::V4(b)) => a.bits < b.bits,
            (IpAddr::V4(_), IpAddr::V6(_)) => true,
            (IpAddr::V6(_), IpAddr::V4(_)) => false,
            (IpAddr::V6(a), IpAddr::V6(b)) => a.bits < b.bits,
        }
    }
}

} // verus!
