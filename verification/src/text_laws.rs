//! Laws of texts: what is written is read back.

use crate::text;
use vstd::arithmetic::power::*;
use vstd::prelude::*;

verus! {

// ---------------------------------------------------------------------
// Numbers
// ---------------------------------------------------------------------

/// Whether every character is a digit of base `radix`.
pub open spec fn all_digits(s: Seq<char>, radix: nat) -> bool {
    forall|i: int| 0 <= i < s.len() ==> text::digit_value(#[trigger] s[i], radix) is Some
}

/// Digits that write a number are all digits.
pub proof fn lemma_value_of_digits(s: Seq<char>, radix: nat)
    ensures
        text::digits_value(s, radix) is Some <==> all_digits(s, radix),
    decreases s.len(),
{
    if s.len() > 0 {
        let t = s.drop_last();
        lemma_value_of_digits(t, radix);
        if all_digits(s, radix) {
            assert(text::digit_value(s[s.len() - 1], radix) is Some);
            assert forall|i: int| 0 <= i < t.len() implies text::digit_value(
                #[trigger] t[i],
                radix,
            ) is Some by {
                assert(t[i] == s[i]);
            }
        }
        if text::digits_value(s, radix) is Some {
            assert forall|i: int| 0 <= i < s.len() implies text::digit_value(
                #[trigger] s[i],
                radix,
            ) is Some by {
                if i < t.len() {
                    assert(t[i] == s[i]);
                }
            }
        }
    }
}

/// A number written in decimal is read back.
pub proof fn decimal_reads_back(n: nat, max: nat)
    requires
        n <= max,
    ensures
        text::unsigned(text::decimal(n), 10, max) == Some(n),
        text::digits_value(text::decimal(n), 10) == Some(n),
        all_digits(text::decimal(n), 10),
        text::decimal(n).len() > 0,
{
    lemma_decimal(n);
    lemma_value_of_digits(text::decimal(n), 10);
    assert(text::digit_value(text::decimal(n)[0], 10) is Some);
    assert(text::drop_plus(text::decimal(n)) == text::decimal(n));
}

/// The digits of a number write it.
proof fn lemma_decimal(n: nat)
    ensures
        text::digits_value(text::decimal(n), 10) == Some(n),
        text::decimal(n).len() > 0,
    decreases n,
{
    let s = text::decimal(n);
    if n < 10 {
        assert(s.drop_last() =~= seq![]);
        assert(text::digits_value(s.drop_last(), 10) == Some(0nat));
        assert(s.last() == text::digit(n));
    } else {
        lemma_decimal(n / 10);
        assert(s.drop_last() =~= text::decimal(n / 10));
        assert(s.last() == text::digit(n % 10));
    }
}

/// A number in decimal has no zero in front, but for zero itself.
pub proof fn lemma_decimal_front(n: nat)
    ensures
        text::decimal(n)[0] == '0' ==> n == 0,
        text::decimal(n).len() > 0,
    decreases n,
{
    if n >= 10 {
        lemma_decimal_front(n / 10);
        assert(text::decimal(n)[0] == text::decimal(n / 10)[0]);
    }
}

/// A number below 256 has at most three decimal digits.
pub proof fn lemma_decimal_short(n: nat)
    requires
        n < 256,
    ensures
        1 <= text::decimal(n).len() <= 3,
{
    reveal_with_fuel(text::decimal, 4);
}

/// A number written in hexadecimal is read back.
pub proof fn hex_reads_back(n: nat, max: nat)
    requires
        n <= max,
    ensures
        text::unsigned(text::hex(n), 16, max) == Some(n),
        text::digits_value(text::hex(n), 16) == Some(n),
        all_digits(text::hex(n), 16),
        text::hex(n).len() > 0,
{
    lemma_hex(n);
    lemma_value_of_digits(text::hex(n), 16);
    assert(text::digit_value(text::hex(n)[0], 16) is Some);
    assert(text::drop_plus(text::hex(n)) == text::hex(n));
}

/// The hexadecimal digits of a number write it.
proof fn lemma_hex(n: nat)
    ensures
        text::digits_value(text::hex(n), 16) == Some(n),
        text::hex(n).len() > 0,
    decreases n,
{
    let s = text::hex(n);
    if n < 16 {
        assert(s.drop_last() =~= seq![]);
        assert(text::digits_value(s.drop_last(), 16) == Some(0nat));
        assert(s.last() == text::digit(n));
    } else {
        lemma_hex(n / 16);
        assert(s.drop_last() =~= text::hex(n / 16));
        assert(s.last() == text::digit(n % 16));
    }
}

/// A number below two to the sixteenth has at most four hexadecimal digits.
pub proof fn lemma_hex_short(n: nat)
    requires
        n < 0x1_0000,
    ensures
        1 <= text::hex(n).len() <= 4,
{
    reveal_with_fuel(text::hex, 5);
}

/// Different numbers have different texts.
pub proof fn decimals_differ(m: nat, n: nat)
    requires
        m != n,
    ensures
        text::decimal(m) != text::decimal(n),
{
    lemma_decimal(m);
    lemma_decimal(n);
}

// ---------------------------------------------------------------------
// Parts
// ---------------------------------------------------------------------

/// Whether the character occurs in none of the parts.
pub open spec fn none_has(parts: Seq<Seq<char>>, c: char) -> bool {
    forall|i: int, k: int|
        0 <= i < parts.len() && 0 <= k < parts[i].len() ==> #[trigger] parts[i][k] != c
}

/// Parts can be joined from the front as well as from the back.
pub proof fn lemma_join_front(parts: Seq<Seq<char>>, sep: Seq<char>)
    requires
        parts.len() >= 2,
    ensures
        text::join(parts, sep) == parts[0] + sep + text::join(parts.drop_first(), sep),
    decreases parts.len(),
{
    let front = parts.drop_last();
    let back = parts.drop_first();
    if parts.len() == 2 {
        assert(front.len() == 1 && front[0] == parts[0]);
        assert(back.len() == 1 && back[0] == parts[1]);
        assert(text::join(front, sep) == parts[0]);
        assert(text::join(back, sep) == parts[1]);
    } else {
        lemma_join_front(front, sep);
        assert(front.drop_first() =~= back.drop_last());
        assert(back.last() == parts.last());
        assert(text::join(parts, sep) =~= parts[0] + sep + text::join(back, sep));
    }
}

/// What stands in front of the first separator is the first part.
proof fn lemma_find_front(p: Seq<char>, c: char, rest: Seq<char>)
    requires
        forall|k: int| 0 <= k < p.len() ==> #[trigger] p[k] != c,
    ensures
        text::find(p + seq![c] + rest, c) == p.len(),
        (p + seq![c] + rest).take(p.len() as int) == p,
        (p + seq![c] + rest).skip(p.len() as int + 1) == rest,
{
    let s = p + seq![c] + rest;
    assert forall|i: int| 0 <= i < p.len() implies s[i] != c by {
        assert(s[i] == p[i]);
    }
    assert(s[p.len() as int] == c);
    text::lemma_find_is(s, c, p.len() as int);
    assert(s.take(p.len() as int) =~= p);
    assert(s.skip(p.len() as int + 1) =~= rest);
}

/// Parts that were joined are split again, where no part holds the
/// separator.
pub proof fn joined_parts_split(parts: Seq<Seq<char>>, sep: char)
    requires
        parts.len() >= 1,
        none_has(parts, sep),
    ensures
        text::split(text::join(parts, seq![sep]), sep) == parts,
    decreases parts.len(),
{
    let s = text::join(parts, seq![sep]);
    let p = parts[0];
    assert forall|k: int| 0 <= k < p.len() implies #[trigger] p[k] != sep by {
        assert(parts[0][k] != sep);
    }
    if parts.len() == 1 {
        text::lemma_find_is(s, sep, s.len() as int);
        assert(seq![p] =~= parts);
    } else {
        let rest = parts.drop_first();
        lemma_join_front(parts, seq![sep]);
        lemma_find_front(p, sep, text::join(rest, seq![sep]));
        assert forall|i: int, k: int| 0 <= i < rest.len() && 0 <= k < rest[i].len() implies
            #[trigger] rest[i][k] != sep by {
            assert(parts[i + 1][k] != sep);
        }
        joined_parts_split(rest, sep);
        assert(seq![p] + rest =~= parts);
    }
}

/// Lines that were joined by line feeds are the lines of the text, where
/// none of them holds a line feed or ends in a carriage return, and the
/// last of them is not empty.
pub proof fn joined_lines_part(parts: Seq<Seq<char>>)
    requires
        parts.len() >= 1,
        none_has(parts, '\n'),
        forall|i: int|
            0 <= i < parts.len() ==> (#[trigger] parts[i]).len() == 0 || parts[i].last() != '\r',
        parts.last().len() > 0,
    ensures
        text::lines(text::join(parts, seq!['\n'])) == parts,
    decreases parts.len(),
{
    let s = text::join(parts, seq!['\n']);
    let p = parts[0];
    assert forall|k: int| 0 <= k < p.len() implies #[trigger] p[k] != '\n' by {
        assert(parts[0][k] != '\n');
    }
    if parts.len() == 1 {
        text::lemma_find_is(s, '\n', s.len() as int);
        assert(seq![p] =~= parts);
    } else {
        let rest = parts.drop_first();
        lemma_join_front(parts, seq!['\n']);
        lemma_find_front(p, '\n', text::join(rest, seq!['\n']));
        assert forall|i: int, k: int| 0 <= i < rest.len() && 0 <= k < rest[i].len() implies
            #[trigger] rest[i][k] != '\n' by {
            assert(parts[i + 1][k] != '\n');
        }
        assert forall|i: int| 0 <= i < rest.len() implies (#[trigger] rest[i]).len() == 0
            || rest[i].last() != '\r' by {
            assert(rest[i] == parts[i + 1]);
        }
        assert(rest.last() == parts.last());
        joined_lines_part(rest);
        assert(text::drop_cr(p) == p);
        assert(seq![p] + rest =~= parts);
    }
}

// ---------------------------------------------------------------------
// Words
// ---------------------------------------------------------------------

/// Whether the text is one word: not empty, and without white space.
pub open spec fn is_word(w: Seq<char>) -> bool {
    w.len() > 0 && forall|i: int| 0 <= i < w.len() ==> !text::is_white(#[trigger] w[i])
}

/// A word at the end, or in front of white space, is the first word.
proof fn lemma_word_front(w: Seq<char>, rest: Seq<char>)
    requires
        is_word(w),
        rest.len() > 0 ==> text::is_white(rest[0]),
    ensures
        text::words(w + rest) == seq![w] + text::words(rest),
{
    let s = w + rest;
    assert(s[0] == w[0]);
    assert(!text::is_white(w[0]));
    text::lemma_word_len(s);
    let n = text::word_len(s) as int;
    if n < w.len() {
        assert(s[n] == w[n]);
        assert(!text::is_white(w[n]));
    } else if n > w.len() {
        assert(!text::is_white(s[w.len() as int]));
        assert(s[w.len() as int] == rest[0]);
    }
    assert(n == w.len());
    assert(s.take(n) =~= w);
    assert(s.skip(n) =~= rest);
}

/// Words that were joined by spaces are the words of the text.
pub proof fn joined_words_part(words: Seq<Seq<char>>)
    requires
        forall|i: int| 0 <= i < words.len() ==> is_word(#[trigger] words[i]),
    ensures
        text::words(text::join(words, seq![' '])) == words,
    decreases words.len(),
{
    let space = seq![' '];
    let s = text::join(words, space);
    if words.len() == 0 {
        assert(text::words(s) =~= words);
    } else if words.len() == 1 {
        assert(is_word(words[0]));
        lemma_word_front(words[0], seq![]);
        assert(words[0] + Seq::<char>::empty() =~= s);
        assert(seq![words[0]] + text::words(seq![]) =~= words);
    } else {
        let rest = words.drop_first();
        let tail = text::join(rest, space);
        assert(is_word(words[0]));
        lemma_join_front(words, space);
        assert(s =~= words[0] + (space + tail));
        lemma_word_front(words[0], space + tail);
        assert((space + tail).drop_first() =~= tail);
        assert(text::words(space + tail) == text::words(tail));
        assert forall|i: int| 0 <= i < rest.len() implies is_word(#[trigger] rest[i]) by {
            assert(rest[i] == words[i + 1]);
        }
        joined_words_part(rest);
        assert(seq![words[0]] + rest =~= words);
    }
}

// ---------------------------------------------------------------------
// White space, words and lines
// ---------------------------------------------------------------------

/// The white space of a text: tab to carriage return, the space, the next
/// line, the two spaces that do not break, and the spaces and separators of
/// Unicode; nothing else.
pub proof fn white_space_is_known(c: char)
    ensures
        text::is_white(c) <==> seq![
            0x9u32, 0xa, 0xb, 0xc, 0xd, 0x20, 0x85, 0xa0, 0x1680, 0x2000, 0x2001, 0x2002, 0x2003,
            0x2004, 0x2005, 0x2006, 0x2007, 0x2008, 0x2009, 0x200a, 0x2028, 0x2029, 0x202f, 0x205f,
            0x3000,
        ].contains(c as u32),
{
    let all = seq![
        0x9u32, 0xa, 0xb, 0xc, 0xd, 0x20, 0x85, 0xa0, 0x1680, 0x2000, 0x2001, 0x2002, 0x2003,
        0x2004, 0x2005, 0x2006, 0x2007, 0x2008, 0x2009, 0x200a, 0x2028, 0x2029, 0x202f, 0x205f,
        0x3000,
    ];
    let n = c as u32;
    if text::is_white(c) {
        let i: int = if n <= 0xd {
            n - 9
        } else if n == 0x20 {
            5
        } else if n == 0x85 {
            6
        } else if n == 0xa0 {
            7
        } else if n == 0x1680 {
            8
        } else if n <= 0x200a {
            n - 0x2000 + 9
        } else if n == 0x2028 {
            20
        } else if n == 0x2029 {
            21
        } else if n == 0x202f {
            22
        } else if n == 0x205f {
            23
        } else {
            24
        };
        assert(all[i] == n);
    }
    if all.contains(n) {
        let i = choose|i: int| 0 <= i < all.len() && all[i] == n;
        assert(text::is_white(c));
    }
}

/// White space between two texts parts their words.
pub proof fn white_space_parts_words(a: Seq<char>, c: char, b: Seq<char>)
    requires
        text::is_white(c),
    ensures
        text::words(a + seq![c] + b) == text::words(a) + text::words(b),
    decreases a.len(),
{
    let s = a + seq![c] + b;
    if a.len() == 0 {
        assert(s[0] == c);
        assert(s.drop_first() =~= b);
        assert(text::words(a) + text::words(b) =~= text::words(b));
    } else if text::is_white(a[0]) {
        assert(s[0] == a[0]);
        assert(s.drop_first() =~= a.drop_first() + seq![c] + b);
        white_space_parts_words(a.drop_first(), c, b);
    } else {
        text::lemma_word_len(a);
        let n = text::word_len(a) as int;
        let w = a.take(n);
        let rest = a.skip(n);
        assert(is_word(w)) by {
            assert forall|i: int| 0 <= i < w.len() implies !text::is_white(#[trigger] w[i]) by {
                assert(w[i] == a[i]);
            }
        }
        assert(s =~= w + (rest + seq![c] + b));
        assert((rest + seq![c] + b)[0] == if rest.len() > 0 {
            rest[0]
        } else {
            c
        });
        lemma_word_front(w, rest + seq![c] + b);
        white_space_parts_words(rest, c, b);
        assert(seq![w] + (text::words(rest) + text::words(b)) =~= text::words(a) + text::words(b));
    }
}

/// A text without white space is one word, unless it is empty.
pub proof fn unbroken_text_is_a_word(w: Seq<char>)
    requires
        is_word(w),
    ensures
        text::words(w) == seq![w],
        text::words(seq![]) == Seq::<Seq<char>>::empty(),
{
    lemma_word_front(w, seq![]);
    assert(w + Seq::<char>::empty() =~= w);
    assert(seq![w] + text::words(seq![]) =~= seq![w]);
}

/// Every word of a text is one: not empty, and without white space.
pub proof fn words_are_words(s: Seq<char>)
    ensures
        forall|i: int| 0 <= i < text::words(s).len() ==> is_word(#[trigger] text::words(s)[i]),
    decreases s.len(),
{
    if s.len() > 0 {
        if text::is_white(s[0]) {
            words_are_words(s.drop_first());
            assert(text::words(s) == text::words(s.drop_first()));
            assert forall|i: int| 0 <= i < text::words(s).len() implies is_word(
                #[trigger] text::words(s)[i],
            ) by {
                assert(is_word(text::words(s.drop_first())[i]));
            }
        } else {
            text::lemma_word_len(s);
            let n = text::word_len(s) as int;
            let w = s.take(n);
            assert forall|i: int| 0 <= i < w.len() implies !text::is_white(#[trigger] w[i]) by {
                assert(w[i] == s[i]);
            }
            let rest = text::words(s.skip(n));
            words_are_words(s.skip(n));
            assert(is_word(w));
            assert forall|i: int| 0 <= i < text::words(s).len() implies is_word(
                #[trigger] text::words(s)[i],
            ) by {
                if i > 0 {
                    assert(text::words(s)[i] == rest[i - 1]);
                }
            }
        }
    }
}

/// Whether there is nothing but white space.
pub open spec fn all_white(s: Seq<char>) -> bool {
    forall|i: int| 0 <= i < s.len() ==> text::is_white(#[trigger] s[i])
}

/// Trimming takes the white space off both ends, and no more.
pub proof fn trimming_takes_white_space_off(l: Seq<char>, t: Seq<char>, r: Seq<char>)
    requires
        all_white(l),
        all_white(r),
        t.len() > 0 ==> !text::is_white(t[0]) && !text::is_white(t.last()),
    ensures
        text::trim(l + t + r) == t,
{
    let s = l + t + r;
    if t.len() == 0 {
        assert forall|i: int| 0 <= i < s.len() implies text::is_white(#[trigger] s[i]) by {
            if i < l.len() {
                assert(s[i] == l[i]);
            } else {
                assert(s[i] == r[i - l.len()]);
            }
        }
        text::lemma_white_len_is(s, s.len() as int);
        assert(s.skip(s.len() as int) =~= t);
    } else {
        let n = l.len() as int;
        assert forall|i: int| 0 <= i < n implies text::is_white(#[trigger] s[i]) by {
            assert(s[i] == l[i]);
        }
        assert(s[n] == t[0]);
        text::lemma_white_len_is(s, n);
        let u = s.skip(n);
        assert(u =~= t + r);
        assert forall|i: int| t.len() <= i < u.len() implies text::is_white(#[trigger] u[i]) by {
            assert(u[i] == r[i - t.len()]);
        }
        assert(u[t.len() - 1] == t.last());
        text::lemma_trim_end_is(u, t.len() as int);
        assert(u.take(t.len() as int) =~= t);
    }
}

/// Every text is what is left of it when trimmed, with white space around.
pub proof fn lemma_trim_parts(s: Seq<char>) -> (r: (Seq<char>, Seq<char>))
    ensures
        all_white(r.0),
        all_white(r.1),
        s == r.0 + text::trim(s) + r.1,
        text::trim(s).len() > 0 ==> !text::is_white(text::trim(s)[0]) && !text::is_white(
            text::trim(s).last(),
        ),
{
    text::lemma_white_len(s);
    let n = text::white_len(s) as int;
    let u = s.skip(n);
    let m = lemma_trim_end_len(u);
    let t = u.take(m);
    let l = s.take(n);
    let r = u.skip(m);
    assert forall|i: int| 0 <= i < l.len() implies text::is_white(#[trigger] l[i]) by {
        assert(l[i] == s[i]);
    }
    assert forall|i: int| 0 <= i < r.len() implies text::is_white(#[trigger] r[i]) by {
        assert(r[i] == u[i + m]);
    }
    assert(s =~= l + t + r);
    if t.len() > 0 {
        assert(t[0] == s[n]);
    }
    (l, r)
}

/// How much is left of a text when its end is trimmed.
proof fn lemma_trim_end_len(s: Seq<char>) -> (n: int)
    ensures
        0 <= n <= s.len(),
        text::trim_end(s) == s.take(n),
        forall|i: int| n <= i < s.len() ==> text::is_white(#[trigger] s[i]),
        n > 0 ==> !text::is_white(s[n - 1]),
    decreases s.len(),
{
    if s.len() > 0 && text::is_white(s.last()) {
        let t = s.drop_last();
        let n = lemma_trim_end_len(t);
        assert(t.take(n) =~= s.take(n));
        assert forall|i: int| n <= i < s.len() implies text::is_white(#[trigger] s[i]) by {
            if i < t.len() {
                assert(t[i] == s[i]);
            }
        }
        n
    } else {
        assert(s.take(s.len() as int) =~= s);
        s.len() as int
    }
}

/// White space in front adds no word.
proof fn lemma_white_front(l: Seq<char>, s: Seq<char>)
    requires
        all_white(l),
    ensures
        text::words(l + s) == text::words(s),
    decreases l.len(),
{
    if l.len() == 0 {
        assert(l + s =~= s);
    } else {
        let t = l.drop_first();
        assert(text::is_white(l[0]));
        assert forall|i: int| 0 <= i < t.len() implies text::is_white(#[trigger] t[i]) by {
            assert(t[i] == l[i + 1]);
        }
        lemma_white_front(t, s);
        assert((l + s).drop_first() =~= t + s);
    }
}

/// White space at the end adds no word.
proof fn lemma_white_back(s: Seq<char>, r: Seq<char>)
    requires
        all_white(r),
    ensures
        text::words(s + r) == text::words(s),
    decreases r.len(),
{
    if r.len() == 0 {
        assert(s + r =~= s);
    } else {
        let c = r.last();
        let t = r.drop_last();
        assert(text::is_white(r[r.len() - 1]));
        assert forall|i: int| 0 <= i < t.len() implies text::is_white(#[trigger] t[i]) by {
            assert(t[i] == r[i]);
        }
        lemma_white_back(s, t);
        assert(s + r =~= (s + t) + seq![c] + Seq::<char>::empty());
        white_space_parts_words(s + t, c, seq![]);
        assert(text::words(s + t) + text::words(seq![]) =~= text::words(s + t));
    }
}

/// A text has the same words when it is trimmed.
pub proof fn trimming_keeps_the_words(s: Seq<char>)
    ensures
        text::words(text::trim(s)) == text::words(s),
{
    let (l, r) = lemma_trim_parts(s);
    let t = text::trim(s);
    assert(s =~= l + (t + r));
    lemma_white_front(l, t + r);
    lemma_white_back(t, r);
}

/// A text has no words exactly if there is nothing left when it is trimmed,
/// which is the case exactly if it is all white space.
pub proof fn blank_text_has_no_words(s: Seq<char>)
    ensures
        text::words(s).len() == 0 <==> all_white(s),
        text::trim(s).len() == 0 <==> all_white(s),
{
    let (l, r) = lemma_trim_parts(s);
    let t = text::trim(s);
    trimming_keeps_the_words(s);
    if t.len() == 0 {
        assert forall|i: int| 0 <= i < s.len() implies text::is_white(#[trigger] s[i]) by {
            if i < l.len() {
                assert(s[i] == l[i]);
            } else {
                assert(s[i] == r[i - l.len()]);
            }
        }
    } else {
        assert(s[l.len() as int] == t[0]);
    }
}

/// A line that is ended by a line feed is the first line, without the
/// carriage return that may stand in front of the line feed.
pub proof fn line_feed_ends_a_line(line: Seq<char>, rest: Seq<char>)
    requires
        forall|k: int| 0 <= k < line.len() ==> #[trigger] line[k] != '\n',
    ensures
        line.len() == 0 || line.last() != '\r' ==> text::lines(line + seq!['\n'] + rest) == seq![
            line,
        ] + text::lines(rest),
        text::lines(line + seq!['\r', '\n'] + rest) == seq![line] + text::lines(rest),
{
    let t = line.push('\r');
    assert forall|k: int| 0 <= k < t.len() implies #[trigger] t[k] != '\n' by {
        if k < line.len() {
            assert(t[k] == line[k]);
        }
    }
    lemma_find_front(line, '\n', rest);
    lemma_find_front(t, '\n', rest);
    assert(t + seq!['\n'] + rest =~= line + seq!['\r', '\n'] + rest);
    assert(t.drop_last() =~= line);
}

/// What follows the last line feed is a line, unless it is empty.
pub proof fn rest_is_a_line(line: Seq<char>)
    requires
        forall|k: int| 0 <= k < line.len() ==> #[trigger] line[k] != '\n',
    ensures
        line.len() > 0 ==> text::lines(line) == seq![line],
        line.len() == 0 ==> text::lines(line) == Seq::<Seq<char>>::empty(),
{
    text::lemma_find_is(line, '\n', line.len() as int);
}

/// A separator parts a text.
pub proof fn separator_parts_a_text(part: Seq<char>, sep: char, rest: Seq<char>)
    requires
        forall|k: int| 0 <= k < part.len() ==> #[trigger] part[k] != sep,
    ensures
        text::split(part + seq![sep] + rest, sep) == seq![part] + text::split(rest, sep),
        text::split(part, sep) == seq![part],
{
    lemma_find_front(part, sep, rest);
    text::lemma_find_is(part, sep, part.len() as int);
}

/// Joining puts the separator between every two parts, and nowhere else.
pub proof fn separator_stands_between_parts(
    part: Seq<char>,
    rest: Seq<Seq<char>>,
    sep: Seq<char>,
)
    ensures
        text::join(seq![part], sep) == part,
        rest.len() > 0 ==> text::join(seq![part] + rest, sep) == part + sep + text::join(rest, sep),
        text::join(seq![], sep) == Seq::<char>::empty(),
{
    if rest.len() > 0 {
        let all = seq![part] + rest;
        lemma_join_front(all, sep);
        assert(all.drop_first() =~= rest);
    }
}

// ---------------------------------------------------------------------
// Digits
// ---------------------------------------------------------------------

/// The digits are the ten figures and the first six letters, which are
/// written small and read small or large.
pub proof fn digits_are_known(d: nat, c: char, radix: nat)
    requires
        d < 16,
        radix <= 16,
    ensures
        text::digit(d) == seq![
            '0', '1', '2', '3', '4', '5', '6', '7', '8', '9', 'a', 'b', 'c', 'd', 'e', 'f',
        ][d as int],
        text::digit_value(c, radix) == Some(d) <==> d < radix && (c == seq![
            '0', '1', '2', '3', '4', '5', '6', '7', '8', '9', 'a', 'b', 'c', 'd', 'e', 'f',
        ][d as int] || c == seq![
            '0', '1', '2', '3', '4', '5', '6', '7', '8', '9', 'A', 'B', 'C', 'D', 'E', 'F',
        ][d as int]),
{
}

/// A digit is worth less than the base.
pub proof fn digits_are_below_the_base(c: char, radix: nat)
    requires
        radix <= 16,
    ensures
        text::digit_value(c, radix) matches Some(d) ==> d < radix,
{
}

/// Digits are worth their place: those in front as often as there are
/// numbers of the digits behind them.
pub proof fn digits_are_worth_their_place(a: Seq<char>, b: Seq<char>, radix: nat)
    requires
        all_digits(a, radix),
        all_digits(b, radix),
    ensures
        text::digits_value(a + b, radix) is Some,
        text::digits_value(a + b, radix)->0 == text::digits_value(a, radix)->0 * pow(
            radix as int,
            b.len(),
        ) + text::digits_value(b, radix)->0,
    decreases b.len(),
{
    lemma_value_of_digits(a, radix);
    lemma_value_of_digits(b, radix);
    let x = text::digits_value(a, radix)->0 as int;
    if b.len() == 0 {
        assert(a + b =~= a);
        lemma_pow0(radix as int);
        assert(x * 1 == x);
    } else {
        let c = b.drop_last();
        assert(text::digit_value(b[b.len() - 1], radix) is Some);
        assert forall|i: int| 0 <= i < c.len() implies text::digit_value(
            #[trigger] c[i],
            radix,
        ) is Some by {
            assert(c[i] == b[i]);
        }
        digits_are_worth_their_place(a, c, radix);
        assert((a + b).drop_last() =~= a + c);
        assert((a + b).last() == b.last());
        let p = pow(radix as int, c.len());
        let y = text::digits_value(c, radix)->0 as int;
        let r = radix as int;
        reveal(pow);
        assert(pow(r, b.len()) == r * p);
        assert((x * p + y) * r == x * (r * p) + y * r) by (nonlinear_arith);
    }
}

/// The value of one digit, and of none.
pub proof fn one_digit_is_its_value(c: char, radix: nat)
    ensures
        text::digits_value(seq![c], radix) == text::digit_value(c, radix),
        text::digits_value(seq![], radix) == Some(0nat),
{
    let s = seq![c];
    assert(s.drop_last() =~= seq![]);
    assert(text::digits_value(s.drop_last(), radix) == Some(0nat));
    assert(s.last() == c);
    assert(0 * radix == 0) by (nonlinear_arith);
}

/// A number is read exactly from digits, with or without a plus in front,
/// whose value is not too large.
pub proof fn numbers_are_digits(s: Seq<char>, radix: nat, max: nat)
    requires
        radix <= 16,
    ensures
        s.len() > 0 && all_digits(s, radix) ==> text::unsigned(s, radix, max) == (
        if text::digits_value(s, radix)->0 <= max {
            text::digits_value(s, radix)
        } else {
            None
        }) && text::unsigned(seq!['+'] + s, radix, max) == text::unsigned(s, radix, max),
        s.len() > 0 && s[0] != '+' && !all_digits(s, radix) ==> text::unsigned(
            s,
            radix,
            max,
        ) is None,
        !all_digits(s, radix) ==> text::unsigned(seq!['+'] + s, radix, max) is None,
        text::unsigned(seq![], radix, max) is None,
        text::unsigned(seq!['+'], radix, max) is None,
{
    lemma_value_of_digits(s, radix);
    assert((seq!['+'] + s).drop_first() =~= s);
    assert(seq!['+'].drop_first() =~= seq![]);
    if s.len() > 0 && all_digits(s, radix) {
        assert(text::digit_value(s[0], radix) is Some);
        assert(s[0] != '+');
    }
}

/// A number in hexadecimal is written in small letters, with no zero in
/// front but for zero itself.
pub proof fn hex_is_plain(n: nat)
    ensures
        text::hex(n).len() > 0,
        text::hex(n)[0] == '0' ==> n == 0,
        forall|i: int|
            0 <= i < text::hex(n).len() ==> '0' <= #[trigger] text::hex(n)[i] <= '9' || 'a'
                <= text::hex(n)[i] <= 'f',
    decreases n,
{
    if n >= 16 {
        hex_is_plain(n / 16);
        assert(text::hex(n)[0] == text::hex(n / 16)[0]);
        assert forall|i: int| 0 <= i < text::hex(n).len() implies '0' <= #[trigger] text::hex(n)[i]
            <= '9' || 'a' <= text::hex(n)[i] <= 'f' by {
            if i < text::hex(n / 16).len() {
                assert(text::hex(n)[i] == text::hex(n / 16)[i]);
            }
        }
    }
}

/// A padded number is as wide as asked for, or as wide as the number is;
/// it is all digits, and reads as the number.
pub proof fn padding_keeps_the_number(n: nat, width: nat)
    ensures
        text::padded(n, width).len() == if text::decimal(n).len() < width {
            width
        } else {
            text::decimal(n).len()
        },
        all_digits(text::padded(n, width), 10),
        text::digits_value(text::padded(n, width), 10) == Some(n),
{
    let d = text::decimal(n);
    let k: nat = if d.len() < width {
        (width - d.len()) as nat
    } else {
        0
    };
    let z = text::repeat('0', k);
    decimal_reads_back(n, n);
    assert forall|i: int| 0 <= i < z.len() implies text::digit_value(
        #[trigger] z[i],
        10,
    ) is Some by {
        assert(z[i] == '0');
    }
    lemma_zeros_are_nothing(k);
    digits_are_worth_their_place(z, d, 10);
    assert(0 * pow(10, d.len()) == 0) by (nonlinear_arith);
    lemma_value_of_digits(z + d, 10);
}

/// Zeros are worth nothing.
proof fn lemma_zeros_are_nothing(k: nat)
    ensures
        text::digits_value(text::repeat('0', k), 10) == Some(0nat),
    decreases k,
{
    let z = text::repeat('0', k);
    if k > 0 {
        lemma_zeros_are_nothing((k - 1) as nat);
        assert(z.drop_last() =~= text::repeat('0', (k - 1) as nat));
        assert(z.last() == '0');
    }
}

/// A row of strings or of slices reads as the texts in it, in order.
pub proof fn texts_keep_the_row(v: Seq<String>, w: Seq<&[char]>)
    ensures
        text::texts(v).len() == v.len(),
        forall|i: int| 0 <= i < v.len() ==> #[trigger] text::texts(v)[i] == v[i]@,
        text::slices(w).len() == w.len(),
        forall|i: int| 0 <= i < w.len() ==> #[trigger] text::slices(w)[i] == w[i]@,
{
}

} // verus!
