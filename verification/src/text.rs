//! Text as sequences of characters: splitting, trimming, joining, and
//! reading and writing unsigned numbers.
//!
//! The specification functions here give the meaning of every text that
//! the rest of the library reads or produces; each executable function is
//! proved to compute its specification exactly.

use vstd::prelude::*;
use vstd::slice::*;
use vstd::string::*;

verus! {

/// `String::push` appends one character to the end of the string and
/// leaves what was there as it is.
pub assume_specification[ String::push ](s: &mut String, c: char)
    ensures
        final(s)@ == old(s)@.push(c),
;

// ---------------------------------------------------------------------
// Meanings
// ---------------------------------------------------------------------

/// The characters with the Unicode property `White_Space`.
pub open spec fn is_white(c: char) -> bool {
    ||| '\u{9}' <= c <= '\u{d}'
    ||| c == '\u{20}'
    ||| c == '\u{85}'
    ||| c == '\u{a0}'
    ||| c == '\u{1680}'
    ||| '\u{2000}' <= c <= '\u{200a}'
    ||| c == '\u{2028}'
    ||| c == '\u{2029}'
    ||| c == '\u{202f}'
    ||| c == '\u{205f}'
    ||| c == '\u{3000}'
}

/// The index of the first `c` in `s`, or the length of `s` if there is none.
pub open spec fn find(s: Seq<char>, c: char) -> int
    decreases s.len(),
{
    if s.len() == 0 || s[0] == c {
        0
    } else {
        1 + find(s.drop_first(), c)
    }
}

/// The index of the last `c` in `s`, or -1 if there is none.
pub open spec fn find_last(s: Seq<char>, c: char) -> int
    decreases s.len(),
{
    if s.len() == 0 {
        -1
    } else if s.last() == c {
        s.len() - 1
    } else {
        find_last(s.drop_last(), c)
    }
}

/// The index of the first `a` directly followed by `b` in `s`, or the
/// length of `s` if there is none.
pub open spec fn find_pair(s: Seq<char>, a: char, b: char) -> int
    decreases s.len(),
{
    if s.len() < 2 {
        s.len() as int
    } else if s[0] == a && s[1] == b {
        0
    } else {
        1 + find_pair(s.drop_first(), a, b)
    }
}

/// The number of white-space characters that `s` starts with.
pub open spec fn white_len(s: Seq<char>) -> nat
    decreases s.len(),
{
    if s.len() == 0 || !is_white(s[0]) {
        0
    } else {
        1 + white_len(s.drop_first())
    }
}

/// The number of characters other than white space that `s` starts with.
pub open spec fn word_len(s: Seq<char>) -> nat
    decreases s.len(),
{
    if s.len() == 0 || is_white(s[0]) {
        0
    } else {
        1 + word_len(s.drop_first())
    }
}

/// `s` without the white space at its end.
pub open spec fn trim_end(s: Seq<char>) -> Seq<char>
    decreases s.len(),
{
    if s.len() > 0 && is_white(s.last()) {
        trim_end(s.drop_last())
    } else {
        s
    }
}

/// `s` without the white space at its two ends.
pub open spec fn trim(s: Seq<char>) -> Seq<char> {
    trim_end(s.skip(white_len(s) as int))
}

/// The words of `s`: its maximal runs of characters that are not white
/// space, in order.
pub open spec fn words(s: Seq<char>) -> Seq<Seq<char>>
    decreases s.len(),
{
    if s.len() == 0 {
        seq![]
    } else if is_white(s[0]) {
        words(s.drop_first())
    } else {
        proof {
            lemma_word_len(s);
        }
        seq![s.take(word_len(s) as int)] + words(s.skip(word_len(s) as int))
    }
}

/// `s` without one carriage return at its end.
pub open spec fn drop_cr(s: Seq<char>) -> Seq<char> {
    if s.len() > 0 && s.last() == '\r' {
        s.drop_last()
    } else {
        s
    }
}

/// The lines of `s`. A line ends in a line feed or in a carriage return
/// and a line feed, neither of which belongs to it; the last line need
/// not have an ending.
pub open spec fn lines(s: Seq<char>) -> Seq<Seq<char>>
    decreases s.len(),
{
    let n = find(s, '\n');
    if s.len() == 0 {
        seq![]
    } else if 0 <= n < s.len() {
        seq![drop_cr(s.take(n))] + lines(s.skip(n + 1))
    } else {
        seq![s]
    }
}

/// The parts of `s` between its separators: one more than there are
/// separators.
pub open spec fn split(s: Seq<char>, sep: char) -> Seq<Seq<char>>
    decreases s.len(),
{
    let n = find(s, sep);
    if 0 <= n < s.len() {
        seq![s.take(n)] + split(s.skip(n + 1), sep)
    } else {
        seq![s]
    }
}

/// The parts, with the separator between each two of them.
pub open spec fn join(parts: Seq<Seq<char>>, sep: Seq<char>) -> Seq<char>
    decreases parts.len(),
{
    if parts.len() == 0 {
        seq![]
    } else if parts.len() == 1 {
        parts[0]
    } else {
        join(parts.drop_last(), sep) + sep + parts.last()
    }
}

/// `n` copies of `c`.
pub open spec fn repeat(c: char, n: nat) -> Seq<char> {
    Seq::new(n, |i: int| c)
}

/// The digit for `d`, with lower-case letters for ten and above.
pub open spec fn digit(d: nat) -> char {
    if d < 10 {
        (48 + d) as char
    } else {
        (87 + d) as char
    }
}

/// `n` in decimal, without leading zeros.
pub open spec fn decimal(n: nat) -> Seq<char>
    decreases n,
{
    if n < 10 {
        seq![digit(n)]
    } else {
        decimal(n / 10).push(digit(n % 10))
    }
}

/// `n` in lower-case hexadecimal, without leading zeros.
pub open spec fn hex(n: nat) -> Seq<char>
    decreases n,
{
    if n < 16 {
        seq![digit(n)]
    } else {
        hex(n / 16).push(digit(n % 16))
    }
}

/// `n` in decimal, with zeros in front up to `width` digits.
pub open spec fn padded(n: nat, width: nat) -> Seq<char> {
    let d = decimal(n);
    repeat('0', if d.len() < width { (width - d.len()) as nat } else { 0 }) + d
}

/// What `c` stands for as a digit of base `radix` (at most sixteen), in
/// either case of letters.
pub open spec fn digit_value(c: char, radix: nat) -> Option<nat> {
    let v: int = if '0' <= c <= '9' {
        c as int - 48
    } else if 'a' <= c <= 'f' {
        c as int - 87
    } else if 'A' <= c <= 'F' {
        c as int - 55
    } else {
        16
    };
    if v < radix {
        Some(v as nat)
    } else {
        None
    }
}

/// The number that the digits `s` of base `radix` write, if they are all
/// digits; nothing written is zero.
pub open spec fn digits_value(s: Seq<char>, radix: nat) -> Option<nat>
    decreases s.len(),
{
    if s.len() == 0 {
        Some(0)
    } else {
        match (digits_value(s.drop_last(), radix), digit_value(s.last(), radix)) {
            (Some(v), Some(d)) => Some(v * radix + d),
            _ => None,
        }
    }
}

/// `s` without one plus sign in front.
pub open spec fn drop_plus(s: Seq<char>) -> Seq<char> {
    if s.len() > 0 && s[0] == '+' {
        s.drop_first()
    } else {
        s
    }
}

/// The number at most `max` that `s` writes in base `radix`: one or more
/// digits, with an optional plus sign in front.
pub open spec fn unsigned(s: Seq<char>, radix: nat, max: nat) -> Option<nat> {
    let body = drop_plus(s);
    match digits_value(body, radix) {
        Some(v) => if body.len() > 0 && v <= max {
            Some(v)
        } else {
            None
        },
        None => None,
    }
}

/// The texts of a sequence of strings.
pub open spec fn texts(v: Seq<String>) -> Seq<Seq<char>> {
    v.map_values(|s: String| s@)
}

/// The texts of a sequence of character slices.
pub open spec fn slices(v: Seq<&[char]>) -> Seq<Seq<char>> {
    v.map_values(|s: &[char]| s@)
}

// ---------------------------------------------------------------------
// Facts about the meanings
// ---------------------------------------------------------------------

/// `find` gives the first place of the character, if it has one.
pub proof fn lemma_find(s: Seq<char>, c: char)
    ensures
        0 <= find(s, c) <= s.len(),
        forall|i: int| 0 <= i < find(s, c) ==> s[i] != c,
        find(s, c) < s.len() ==> s[find(s, c)] == c,
    decreases s.len(),
{
    if s.len() == 0 || s[0] == c {
    } else {
        let t = s.drop_first();
        lemma_find(t, c);
        assert forall|i: int| 0 <= i < find(s, c) implies s[i] != c by {
            if i > 0 {
                assert(s[i] == t[i - 1]);
            }
        }
    }
}

/// The first place of a character is the only one with these properties.
pub proof fn lemma_find_is(s: Seq<char>, c: char, n: int)
    requires
        0 <= n <= s.len(),
        forall|i: int| 0 <= i < n ==> s[i] != c,
        n < s.len() ==> s[n] == c,
    ensures
        find(s, c) == n,
{
    lemma_find(s, c);
    let m = find(s, c);
    if m < n {
        assert(s[m] != c);
    } else if n < m {
        assert(s[n] != c);
    }
}

/// `find_last` gives the last place of the character, if it has one.
pub proof fn lemma_find_last(s: Seq<char>, c: char)
    ensures
        -1 <= find_last(s, c) < s.len(),
        forall|i: int| find_last(s, c) < i < s.len() ==> s[i] != c,
        find_last(s, c) >= 0 ==> s[find_last(s, c)] == c,
    decreases s.len(),
{
    if s.len() == 0 || s.last() == c {
    } else {
        let t = s.drop_last();
        lemma_find_last(t, c);
        assert forall|i: int| find_last(s, c) < i < s.len() implies s[i] != c by {
            if i < s.len() - 1 {
                assert(s[i] == t[i]);
            }
        }
    }
}

/// `find_pair` gives the first place of the pair, if it has one.
pub proof fn lemma_find_pair(s: Seq<char>, a: char, b: char)
    ensures
        0 <= find_pair(s, a, b) <= s.len(),
        find_pair(s, a, b) < s.len() ==> find_pair(s, a, b) + 1 < s.len(),
        forall|i: int|
            0 <= i < find_pair(s, a, b) && i + 1 < s.len() ==> !(#[trigger] s[i] == a && s[i + 1]
                == b),
        find_pair(s, a, b) < s.len() ==> s[find_pair(s, a, b)] == a && s[find_pair(s, a, b) + 1]
            == b,
    decreases s.len(),
{
    if s.len() < 2 || (s[0] == a && s[1] == b) {
    } else {
        let t = s.drop_first();
        lemma_find_pair(t, a, b);
        assert forall|i: int| 0 <= i < find_pair(s, a, b) && i + 1 < s.len() implies !(
        #[trigger] s[i] == a && s[i + 1] == b) by {
            if i > 0 {
                assert(s[i] == t[i - 1]);
                assert(s[i + 1] == t[i]);
            }
        }
    }
}

/// The first place of a pair is the only one with these properties.
pub proof fn lemma_find_pair_is(s: Seq<char>, a: char, b: char, n: int)
    requires
        0 <= n <= s.len(),
        forall|i: int| 0 <= i < n && i + 1 < s.len() ==> !(#[trigger] s[i] == a && s[i + 1] == b),
        n < s.len() ==> n + 1 < s.len() && s[n] == a && s[n + 1] == b,
    ensures
        find_pair(s, a, b) == n,
{
    lemma_find_pair(s, a, b);
    let m = find_pair(s, a, b);
    if m < n {
        assert(s[m] == a);
    } else if n < m {
        assert(s[n] == a);
    }
}

/// A text has at least one part.
pub proof fn lemma_split_len(s: Seq<char>, sep: char)
    ensures
        split(s, sep).len() >= 1,
{
}

/// A word is no longer than the text, consists of no white space, and
/// ends at white space or at the end of the text.
pub proof fn lemma_word_len(s: Seq<char>)
    ensures
        word_len(s) <= s.len(),
        forall|i: int| 0 <= i < word_len(s) ==> !is_white(#[trigger] s[i]),
        word_len(s) < s.len() ==> is_white(s[word_len(s) as int]),
        s.len() > 0 && !is_white(s[0]) ==> word_len(s) > 0,
    decreases s.len(),
{
    if s.len() > 0 && !is_white(s[0]) {
        let t = s.drop_first();
        lemma_word_len(t);
        assert forall|i: int| 0 <= i < word_len(s) implies !is_white(#[trigger] s[i]) by {
            if i > 0 {
                assert(s[i] == t[i - 1]);
            }
        }
    }
}

/// The leading white space is no longer than the text and ends at a
/// character that is none.
pub proof fn lemma_white_len(s: Seq<char>)
    ensures
        white_len(s) <= s.len(),
        forall|i: int| 0 <= i < white_len(s) ==> is_white(#[trigger] s[i]),
        white_len(s) < s.len() ==> !is_white(s[white_len(s) as int]),
    decreases s.len(),
{
    if s.len() > 0 && is_white(s[0]) {
        let t = s.drop_first();
        lemma_white_len(t);
        assert forall|i: int| 0 <= i < white_len(s) implies is_white(#[trigger] s[i]) by {
            if i > 0 {
                assert(s[i] == t[i - 1]);
            }
        }
    }
}

/// The length of a word is the only one with these properties.
proof fn lemma_word_len_is(s: Seq<char>, n: int)
    requires
        0 <= n <= s.len(),
        forall|i: int| 0 <= i < n ==> !is_white(#[trigger] s[i]),
        n < s.len() ==> is_white(s[n]),
    ensures
        word_len(s) == n,
{
    lemma_word_len(s);
    let m = word_len(s) as int;
    if m < n {
        assert(!is_white(s[m]));
    } else if n < m {
        assert(!is_white(s[n]));
    }
}

/// The length of leading white space is the only one with these
/// properties.
pub proof fn lemma_white_len_is(s: Seq<char>, n: int)
    requires
        0 <= n <= s.len(),
        forall|i: int| 0 <= i < n ==> is_white(#[trigger] s[i]),
        n < s.len() ==> !is_white(s[n]),
    ensures
        white_len(s) == n,
{
    lemma_white_len(s);
    let m = white_len(s) as int;
    if m < n {
        assert(is_white(s[m]));
    } else if n < m {
        assert(is_white(s[n]));
    }
}

/// Trimming the end leaves the part up to the last character that is not
/// white space.
pub proof fn lemma_trim_end_is(s: Seq<char>, n: int)
    requires
        0 <= n <= s.len(),
        forall|i: int| n <= i < s.len() ==> is_white(#[trigger] s[i]),
        n > 0 ==> !is_white(s[n - 1]),
    ensures
        trim_end(s) == s.take(n),
    decreases s.len(),
{
    if s.len() == n {
        assert(s.take(n) =~= s);
    } else {
        assert(is_white(s.last()));
        lemma_trim_end_is(s.drop_last(), n);
        assert(s.drop_last().take(n) =~= s.take(n));
    }
}

/// Digits in front add no less than nothing: the value of more digits is
/// at least that of the first ones.
proof fn lemma_digits_grow(s: Seq<char>, n: int, radix: nat)
    requires
        0 <= n <= s.len(),
        radix >= 1,
        digits_value(s, radix) is Some,
    ensures
        digits_value(s.take(n), radix) is Some,
        digits_value(s.take(n), radix)->0 <= digits_value(s, radix)->0,
    decreases s.len() - n,
{
    if n == s.len() {
        assert(s.take(n) =~= s);
    } else {
        let t = s.drop_last();
        lemma_digits_grow(t, n, radix);
        assert(t.take(n) =~= s.take(n));
        let v = digits_value(t, radix)->0;
        assert(v * radix >= v) by (nonlinear_arith)
            requires
                radix >= 1,
        ;
    }
}

// ---------------------------------------------------------------------
// Executable functions
// ---------------------------------------------------------------------

/// The characters of a string, in order.
pub fn chars_of(s: &str) -> (r: Vec<char>)
    ensures
        r@ == s@,
{
    let mut out: Vec<char> = Vec::new();
    for c in it: s.chars()
        invariant
            it.seq() == s@,
            out@ == s@.take(it.index()),
    {
        assert(s@.take(it.index() + 1) =~= s@.take(it.index()).push(c));
        out.push(c);
    }
    assert(s@.take(s@.len() as int) =~= s@);
    out
}

/// The string made of the given characters.
pub fn string_of(v: &[char]) -> (r: String)
    ensures
        r@ == v@,
{
    let mut out = String::new();
    let mut i: usize = 0;
    while i < v.len()
        invariant
            i <= v.len(),
            out@ == v@.take(i as int),
        decreases v.len() - i,
    {
        assert(v@.take(i + 1) =~= v@.take(i as int).push(v@[i as int]));
        out.push(v[i]);
        i += 1;
    }
    assert(v@.take(v@.len() as int) =~= v@);
    out
}

/// Whether the characters are those of the string.
pub fn is_text(v: &[char], s: &str) -> (r: bool)
    ensures
        r == (v@ == s@),
{
    let w = chars_of(s);
    if v.len() != w.len() {
        return false;
    }
    let mut i: usize = 0;
    while i < v.len()
        invariant
            i <= v.len(),
            v@.len() == w@.len(),
            w@ == s@,
            forall|k: int| 0 <= k < i ==> v@[k] == w@[k],
        decreases v.len() - i,
    {
        if v[i] != w[i] {
            return false;
        }
        i += 1;
    }
    assert(v@ =~= s@);
    true
}

/// Whether two strings have the same text.
pub fn same_text(a: &str, b: &str) -> (r: bool)
    ensures
        r == (a@ == b@),
{
    let v = chars_of(a);
    is_text(v.as_slice(), b)
}

/// Whether the character is white space.
pub fn white(c: char) -> (r: bool)
    ensures
        r == is_white(c),
{
    ('\u{9}' <= c && c <= '\u{d}') || c == '\u{20}' || c == '\u{85}' || c == '\u{a0}' || c
        == '\u{1680}' || ('\u{2000}' <= c && c <= '\u{200a}') || c == '\u{2028}' || c == '\u{2029}'
        || c == '\u{202f}' || c == '\u{205f}' || c == '\u{3000}'
}

/// The place of the first `c`, or the length of the text.
pub fn find_in(s: &[char], c: char) -> (r: usize)
    ensures
        r == find(s@, c),
        r <= s.len(),
{
    let mut i: usize = 0;
    while i < s.len() && s[i] != c
        invariant
            i <= s.len(),
            forall|k: int| 0 <= k < i ==> s@[k] != c,
        decreases s.len() - i,
    {
        i += 1;
    }
    proof {
        lemma_find_is(s@, c, i as int);
    }
    i
}

/// The place of the last `c`, if there is one.
pub fn find_last_in(s: &[char], c: char) -> (r: Option<usize>)
    ensures
        match r {
            Some(n) => n == find_last(s@, c) && n < s.len(),
            None => find_last(s@, c) == -1,
        },
{
    let mut i: usize = s.len();
    assert(s@.take(i as int) =~= s@);
    while i > 0
        invariant
            i <= s.len(),
            find_last(s@, c) == find_last(s@.take(i as int), c),
        decreases i,
    {
        proof {
            assert(s@.take(i as int).drop_last() =~= s@.take(i - 1));
        }
        i -= 1;
        if s[i] == c {
            return Some(i);
        }
    }
    None
}

/// The place of the first `a` directly followed by `b`, or the length of
/// the text.
pub fn find_pair_in(s: &[char], a: char, b: char) -> (r: usize)
    ensures
        r == find_pair(s@, a, b),
        r <= s.len(),
        r < s.len() ==> r + 1 < s.len(),
{
    let mut i: usize = 0;
    while i < s.len()
        invariant
            i <= s.len(),
            forall|k: int|
                0 <= k < i && k + 1 < s@.len() ==> !(#[trigger] s@[k] == a && s@[k + 1] == b),
        decreases s.len() - i,
    {
        if s.len() - i >= 2 && s[i] == a && s[i + 1] == b {
            proof {
                lemma_find_pair_is(s@, a, b, i as int);
            }
            return i;
        }
        i += 1;
    }
    proof {
        lemma_find_pair_is(s@, a, b, i as int);
    }
    i
}

/// The text without the white space at its end.
pub fn trim_end_of(s: &[char]) -> (r: &[char])
    ensures
        r@ == trim_end(s@),
{
    let mut n: usize = s.len();
    while n > 0 && white(s[n - 1])
        invariant
            n <= s.len(),
            forall|i: int| n <= i < s@.len() ==> is_white(#[trigger] s@[i]),
        decreases n,
    {
        n -= 1;
    }
    proof {
        lemma_trim_end_is(s@, n as int);
        assert(s@.subrange(0, n as int) =~= s@.take(n as int));
    }
    slice_subrange(s, 0, n)
}

/// The text without the white space at its two ends.
pub fn trim_of(s: &[char]) -> (r: &[char])
    ensures
        r@ == trim(s@),
{
    let mut n: usize = 0;
    while n < s.len() && white(s[n])
        invariant
            n <= s.len(),
            forall|i: int| 0 <= i < n ==> is_white(#[trigger] s@[i]),
        decreases s.len() - n,
    {
        n += 1;
    }
    proof {
        lemma_white_len_is(s@, n as int);
        assert(s@.subrange(n as int, s@.len() as int) =~= s@.skip(n as int));
    }
    trim_end_of(slice_subrange(s, n, s.len()))
}

/// The words of the text.
pub fn words_of(s: &[char]) -> (r: Vec<&[char]>)
    ensures
        slices(r@) == words(s@),
{
    let mut out: Vec<&[char]> = Vec::new();
    let mut i: usize = 0;
    assert(s@.skip(0) =~= s@);
    assert(slices(out@) + words(s@) =~= words(s@));
    while i < s.len()
        invariant
            i <= s.len(),
            slices(out@) + words(s@.skip(i as int)) == words(s@),
        decreases s.len() - i,
    {
        let ghost rest = s@.skip(i as int);
        if white(s[i]) {
            proof {
                assert(rest.drop_first() =~= s@.skip(i + 1));
            }
            i += 1;
        } else {
            let mut j: usize = i + 1;
            while j < s.len() && !white(s[j])
                invariant
                    i < j <= s.len(),
                    forall|k: int| i <= k < j ==> !is_white(#[trigger] s@[k]),
                decreases s.len() - j,
            {
                j += 1;
            }
            proof {
                lemma_word_len_is(rest, j - i);
                assert(rest.take(j - i) =~= s@.subrange(i as int, j as int));
                assert(rest.skip(j - i) =~= s@.skip(j as int));
            }
            let ghost before = slices(out@);
            let word = slice_subrange(s, i, j);
            out.push(word);
            proof {
                assert(slices(out@) =~= before.push(word@));
                assert(before + (seq![word@] + words(s@.skip(j as int))) =~= before.push(word@)
                    + words(s@.skip(j as int)));
            }
            i = j;
        }
    }
    proof {
        assert(slices(out@) + words(s@.skip(i as int)) =~= slices(out@));
    }
    out
}

/// The lines of the text.
pub fn lines_of(s: &[char]) -> (r: Vec<&[char]>)
    ensures
        slices(r@) == lines(s@),
{
    let mut out: Vec<&[char]> = Vec::new();
    let mut i: usize = 0;
    assert(s@.skip(0) =~= s@);
    assert(slices(out@) + lines(s@) =~= lines(s@));
    while i < s.len()
        invariant
            i <= s.len(),
            slices(out@) + lines(s@.skip(i as int)) == lines(s@),
        decreases s.len() - i,
    {
        let ghost rest = s@.skip(i as int);
        let tail = slice_subrange(s, i, s.len());
        assert(tail@ =~= rest);
        let n = find_in(tail, '\n');
        let ghost before = slices(out@);
        if n < tail.len() {
            let line = if n > 0 && tail[n - 1] == '\r' {
                slice_subrange(tail, 0, n - 1)
            } else {
                slice_subrange(tail, 0, n)
            };
            assert(line@ =~= drop_cr(rest.take(n as int)));
            assert(rest.skip(n + 1) =~= s@.skip(i + n + 1));
            out.push(line);
            i = i + n + 1;
            proof {
                assert(slices(out@) =~= before.push(line@));
                assert(before + (seq![line@] + lines(s@.skip(i as int))) =~= before.push(line@)
                    + lines(s@.skip(i as int)));
            }
        } else {
            out.push(tail);
            i = s.len();
            proof {
                assert(slices(out@) =~= before.push(tail@));
                assert(before + seq![rest] =~= before.push(rest));
                assert(slices(out@) + lines(s@.skip(i as int)) =~= slices(out@));
            }
        }
    }
    proof {
        assert(slices(out@) + lines(s@.skip(i as int)) =~= slices(out@));
    }
    out
}

/// The parts of the text between its separators.
pub fn split_of(s: &[char], sep: char) -> (r: Vec<&[char]>)
    ensures
        slices(r@) == split(s@, sep),
{
    let mut out: Vec<&[char]> = Vec::new();
    let mut i: usize = 0;
    assert(s@.skip(0) =~= s@);
    assert(slices(out@) + split(s@, sep) =~= split(s@, sep));
    loop
        invariant
            i <= s.len(),
            slices(out@) + split(s@.skip(i as int), sep) == split(s@, sep),
        decreases s.len() - i,
    {
        let ghost rest = s@.skip(i as int);
        let tail = slice_subrange(s, i, s.len());
        assert(tail@ =~= rest);
        let n = find_in(tail, sep);
        let ghost before = slices(out@);
        if n < tail.len() {
            let part = slice_subrange(tail, 0, n);
            assert(part@ =~= rest.take(n as int));
            assert(rest.skip(n + 1) =~= s@.skip(i + n + 1));
            out.push(part);
            i = i + n + 1;
            proof {
                assert(slices(out@) =~= before.push(part@));
                assert(before + (seq![part@] + split(s@.skip(i as int), sep)) =~= before.push(part@)
                    + split(s@.skip(i as int), sep));
            }
        } else {
            out.push(tail);
            proof {
                assert(slices(out@) =~= before.push(tail@));
                assert(before + seq![rest] =~= before.push(rest));
            }
            return out;
        }
    }
}

/// The strings, with the separator between each two of them.
pub fn join_of(parts: &[String], sep: &str) -> (r: String)
    ensures
        r@ == join(texts(parts@), sep@),
{
    let mut out = String::new();
    let mut i: usize = 0;
    let ghost all = texts(parts@);
    assert(all.take(0) =~= seq![]);
    while i < parts.len()
        invariant
            i <= parts.len(),
            all == texts(parts@),
            out@ == join(all.take(i as int), sep@),
        decreases parts.len() - i,
    {
        proof {
            assert(all.take(i + 1).drop_last() =~= all.take(i as int));
            assert(all.take(i + 1).last() == parts@[i as int]@);
        }
        if i > 0 {
            out.append(sep);
        } else {
            assert(out@ + parts@[0]@ =~= parts@[0]@);
        }
        out.append(parts[i].as_str());
        i += 1;
    }
    assert(all.take(parts@.len() as int) =~= all);
    out
}

/// The digit for `d`.
fn digit_char(d: u8) -> (r: char)
    requires
        d < 16,
    ensures
        r == digit(d as nat),
{
    if d < 10 {
        (48 + d) as char
    } else {
        (87 + d) as char
    }
}

/// Append `n` in decimal.
pub fn push_decimal(out: &mut String, n: u64)
    ensures
        final(out)@ == old(out)@ + decimal(n as nat),
    decreases n,
{
    if n >= 10 {
        push_decimal(out, n / 10);
    }
    out.push(digit_char((n % 10) as u8));
    assert(out@ =~= old(out)@ + decimal(n as nat));
}

/// `n` in decimal.
pub fn decimal_of(n: u64) -> (r: String)
    ensures
        r@ == decimal(n as nat),
{
    let mut out = String::new();
    push_decimal(&mut out, n);
    assert(out@ =~= decimal(n as nat));
    out
}

/// Append `n` in hexadecimal.
pub fn push_hex(out: &mut String, n: u16)
    ensures
        final(out)@ == old(out)@ + hex(n as nat),
    decreases n,
{
    if n >= 16 {
        push_hex(out, n / 16);
    }
    out.push(digit_char((n % 16) as u8));
    assert(out@ =~= old(out)@ + hex(n as nat));
}

/// Append `n` copies of `c`.
pub fn push_repeat(out: &mut String, c: char, n: usize)
    ensures
        final(out)@ == old(out)@ + repeat(c, n as nat),
{
    let mut i: usize = 0;
    assert(out@ =~= old(out)@ + repeat(c, 0));
    while i < n
        invariant
            i <= n,
            out@ == old(out)@ + repeat(c, i as nat),
        decreases n - i,
    {
        out.push(c);
        i += 1;
        assert(out@ =~= old(out)@ + repeat(c, i as nat));
    }
}

/// Append `n` in decimal, with zeros in front up to `width` digits.
pub fn push_padded(out: &mut String, n: u64, width: usize)
    ensures
        final(out)@ == old(out)@ + padded(n as nat, width as nat),
{
    let d = decimal_of(n);
    let len = d.as_str().unicode_len();
    if len < width {
        push_repeat(out, '0', width - len);
    }
    out.append(d.as_str());
    assert(out@ =~= old(out)@ + padded(n as nat, width as nat));
}

/// What `c` stands for as a digit of base `radix`.
fn digit_of(c: char, radix: u8) -> (r: Option<u8>)
    requires
        radix <= 16,
    ensures
        match r {
            Some(d) => digit_value(c, radix as nat) == Some(d as nat) && d < radix,
            None => digit_value(c, radix as nat) is None,
        },
{
    let v: u32 = if '0' <= c && c <= '9' {
        c as u32 - 48
    } else if 'a' <= c && c <= 'f' {
        c as u32 - 87
    } else if 'A' <= c && c <= 'F' {
        c as u32 - 55
    } else {
        16
    };
    if v < radix as u32 {
        Some(v as u8)
    } else {
        None
    }
}

/// The number at most `max` that the text writes in base `radix`.
pub fn unsigned_of(s: &[char], radix: u8, max: u64) -> (r: Option<u64>)
    requires
        2 <= radix <= 16,
    ensures
        match r {
            Some(v) => unsigned(s@, radix as nat, max as nat) == Some(v as nat),
            None => unsigned(s@, radix as nat, max as nat) is None,
        },
        r matches Some(v) ==> v <= max,
{
    let start: usize = if s.len() > 0 && s[0] == '+' {
        1
    } else {
        0
    };
    let ghost body = drop_plus(s@);
    assert(body =~= s@.skip(start as int));
    if start == s.len() {
        return None;
    }
    let mut i: usize = start;
    let mut acc: u64 = 0;
    assert(body.take(0) =~= seq![]);
    while i < s.len()
        invariant
            start <= i <= s.len(),
            start <= 1,
            2 <= radix <= 16,
            body == drop_plus(s@),
            body == s@.skip(start as int),
            acc <= max,
            digits_value(body.take(i - start), radix as nat) == Some(acc as nat),
        decreases s.len() - i,
    {
        let ghost k = i - start;
        proof {
            assert(body.take(k + 1).drop_last() =~= body.take(k));
            assert(body.take(k + 1).last() == s@[i as int]);
        }
        match digit_of(s[i], radix) {
            None => {
                proof {
                    if digits_value(body, radix as nat) is Some {
                        lemma_digits_grow(body, k + 1, radix as nat);
                    }
                }
                return None;
            },
            Some(d) => {
                assert(acc * radix <= u64::MAX * 16) by (nonlinear_arith)
                    requires
                        acc <= u64::MAX,
                        radix <= 16,
                ;
                assert(0 <= acc * radix) by (nonlinear_arith);
                let next: u128 = acc as u128 * radix as u128 + d as u128;
                if next > max as u128 {
                    proof {
                        if digits_value(body, radix as nat) is Some {
                            lemma_digits_grow(body, k + 1, radix as nat);
                        }
                    }
                    return None;
                }
                acc = next as u64;
                i += 1;
            },
        }
    }
    assert(body.take(body.len() as int) =~= body);
    Some(acc)
}

} // verus!
