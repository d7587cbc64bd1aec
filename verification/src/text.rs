//! Character-level groundwork for the scanner and the diagnostic formatter.
//!
//! Source text is modelled as a sequence of Unicode scalar values
//! (`Seq<char>`), while spans are measured in bytes of the UTF-8 encoding.
//! `byte_offset` bridges the two: it gives the byte offset of a character
//! index as the sum of the UTF-8 lengths of the characters before it.

use vstd::prelude::*;

verus! {

/// The number of bytes of the UTF-8 encoding of a character, by the
/// standard width table over its scalar value.
pub open spec fn utf8_len(c: char) -> int {
    if (c as u32) < 0x80 {
        1
    } else if (c as u32) < 0x800 {
        2
    } else if (c as u32) < 0x10000 {
        3
    } else {
        4
    }
}

/// Executable form of `utf8_len`.
pub fn char_utf8_len(c: char) -> (n: usize)
    ensures
        n == utf8_len(c),
{
    let u = c as u32;
    if u < 0x80 {
        1
    } else if u < 0x800 {
        2
    } else if u < 0x10000 {
        3
    } else {
        4
    }
}

/// The byte offset of character index `i` in the UTF-8 encoding of `s`:
/// the sum of the UTF-8 lengths of the first `i` characters.
pub open spec fn byte_offset(s: Seq<char>, i: int) -> int
    decreases i,
{
    if i <= 0 {
        0
    } else {
        byte_offset(s, i - 1) + utf8_len(s[i - 1])
    }
}

/// The byte length of the whole of `s` under UTF-8.
pub open spec fn total_bytes(s: Seq<char>) -> int {
    byte_offset(s, s.len() as int)
}

/// A byte offset is a character boundary when some character index maps
/// to it.
pub open spec fn is_boundary(s: Seq<char>, b: int) -> bool {
    exists|i: int| 0 <= i <= s.len() && byte_offset(s, i) == b
}

/// The character index at byte offset `b`; meaningful when `b` is a
/// boundary, and then unique.
pub open spec fn char_index_of(s: Seq<char>, b: int) -> int {
    choose|i: int| 0 <= i <= s.len() && byte_offset(s, i) == b
}

pub proof fn lemma_byte_offset_mono(s: Seq<char>, i: int, j: int)
    requires
        0 <= i <= j,
    ensures
        byte_offset(s, i) <= byte_offset(s, j),
        i < j ==> byte_offset(s, i) < byte_offset(s, j),
    decreases j,
{
    if i < j {
        lemma_byte_offset_mono(s, i, j - 1);
    }
}

pub proof fn lemma_byte_offset_ge_index(s: Seq<char>, i: int)
    requires
        0 <= i,
    ensures
        byte_offset(s, i) >= i,
    decreases i,
{
    if i > 0 {
        lemma_byte_offset_ge_index(s, i - 1);
    }
}

/// Two character indices with the same byte offset are equal.
pub proof fn lemma_boundary_unique(s: Seq<char>, i: int, j: int)
    requires
        0 <= i <= s.len(),
        0 <= j <= s.len(),
        byte_offset(s, i) == byte_offset(s, j),
    ensures
        i == j,
{
    if i < j {
        lemma_byte_offset_mono(s, i, j);
    }
    if j < i {
        lemma_byte_offset_mono(s, j, i);
    }
}

/// Whether a character counts as whitespace for the scanner; stands for
/// the result of `char::is_whitespace`.
pub uninterp spec fn is_whitespace_char(c: char) -> bool;

/// Relies on `char::is_whitespace`: true exactly for the characters with
/// the Unicode `White_Space` property, a function of the character alone.
#[verifier::external_body]
pub fn char_is_whitespace(c: char) -> (r: bool)
    ensures
        r == is_whitespace_char(c),
{
    c.is_whitespace()
}

/// Whether a character counts as alphabetic for the scanner; stands for
/// the result of `char::is_alphabetic`.
pub uninterp spec fn is_alphabetic_char(c: char) -> bool;

/// Relies on `char::is_alphabetic`: true exactly for the characters with
/// the Unicode `Alphabetic` property, a function of the character alone.
#[verifier::external_body]
pub fn char_is_alphabetic(c: char) -> (r: bool)
    ensures
        r == is_alphabetic_char(c),
{
    c.is_alphabetic()
}

/// Relies on `str::chars`: the characters of the string, in order; and on
/// the UTF-8 representation of `str`: the byte length (`str::len`) is the
/// sum of the characters' `char::len_utf8` widths, and no allocation
/// exceeds `isize::MAX` bytes.
#[verifier::external_body]
pub fn str_chars(s: &str) -> (r: Vec<char>)
    ensures
        r@ == s@,
        2 * total_bytes(r@) <= usize::MAX as int,
{
    s.chars().collect()
}

/// Relies on `String: FromIterator<char>`: collecting characters yields
/// the string of exactly those characters.
#[verifier::external_body]
pub fn chars_to_string(v: &Vec<char>) -> (r: String)
    ensures
        r@ == v@,
{
    v.iter().map(|c: &char| *c).collect()
}

/// Append every character of `add` to `out`.
pub fn push_all(out: &mut Vec<char>, add: &Vec<char>)
    ensures
        final(out)@ == old(out)@ + add@,
{
    let ghost out0 = out@;
    let mut k: usize = 0;
    while k < add.len()
        invariant
            k <= add@.len(),
            out@ == out0 + add@.take(k as int),
        decreases add@.len() - k,
    {
        out.push(add[k]);
        proof {
            assert(add@.take(k + 1) =~= add@.take(k as int).push(add@[k as int]));
        }
        k += 1;
    }
    proof {
        assert(add@.take(add@.len() as int) =~= add@);
    }
}

/// The characters of `chars` from index `from` (inclusive) to `to`
/// (exclusive), as a fresh vector.
pub fn collect_range(chars: &Vec<char>, from: usize, to: usize) -> (r: Vec<char>)
    requires
        from <= to <= chars@.len(),
    ensures
        r@ == chars@.subrange(from as int, to as int),
{
    let mut r: Vec<char> = Vec::new();
    let mut k: usize = from;
    while k < to
        invariant
            from <= k <= to <= chars@.len(),
            r@ == chars@.subrange(from as int, k as int),
        decreases to - k,
    {
        r.push(chars[k]);
        proof {
            assert(chars@.subrange(from as int, k + 1) =~= chars@.subrange(
                from as int,
                k as int,
            ).push(chars@[k as int]));
        }
        k += 1;
    }
    r
}

/// `n` copies of the character `c`.
pub open spec fn repeat_char(c: char, n: int) -> Seq<char> {
    Seq::new(n as nat, |i: int| c)
}

/// Append `n` copies of `c` to `out`.
pub fn push_repeat(out: &mut Vec<char>, c: char, n: usize)
    ensures
        final(out)@ == old(out)@ + repeat_char(c, n as int),
{
    let ghost out0 = out@;
    let mut k: usize = 0;
    while k < n
        invariant
            k <= n,
            out@ == out0 + repeat_char(c, k as int),
        decreases n - k,
    {
        out.push(c);
        proof {
            assert(repeat_char(c, k + 1) =~= repeat_char(c, k as int).push(c));
        }
        k += 1;
    }
}

/// The decimal digit character for a value below ten.
pub open spec fn digit_char(d: int) -> char {
    if d == 0 {
        '0'
    } else if d == 1 {
        '1'
    } else if d == 2 {
        '2'
    } else if d == 3 {
        '3'
    } else if d == 4 {
        '4'
    } else if d == 5 {
        '5'
    } else if d == 6 {
        '6'
    } else if d == 7 {
        '7'
    } else if d == 8 {
        '8'
    } else {
        '9'
    }
}

/// The decimal rendering of a nonnegative number, most significant digit
/// first, with no leading zeros (a lone `0` for zero).
pub open spec fn dec_seq(n: int) -> Seq<char>
    decreases n,
{
    if n < 10 {
        seq![digit_char(n)]
    } else {
        dec_seq(n / 10).push(digit_char(n % 10))
    }
}

fn digit_char_exec(d: usize) -> (c: char)
    requires
        d < 10,
    ensures
        c == digit_char(d as int),
{
    if d == 0 {
        '0'
    } else if d == 1 {
        '1'
    } else if d == 2 {
        '2'
    } else if d == 3 {
        '3'
    } else if d == 4 {
        '4'
    } else if d == 5 {
        '5'
    } else if d == 6 {
        '6'
    } else if d == 7 {
        '7'
    } else if d == 8 {
        '8'
    } else {
        '9'
    }
}

/// Append the decimal rendering of `n` to `out`.
pub fn push_decimal(out: &mut Vec<char>, n: usize)
    ensures
        final(out)@ == old(out)@ + dec_seq(n as int),
    decreases n,
{
    if n < 10 {
        let c = digit_char_exec(n);
        out.push(c);
        proof {
            assert(old(out)@.push(c) =~= old(out)@ + dec_seq(n as int));
        }
    } else {
        push_decimal(out, n / 10);
        let c = digit_char_exec(n % 10);
        out.push(c);
        proof {
            assert((old(out)@ + dec_seq(n as int / 10)).push(c) =~= old(out)@ + dec_seq(
                n as int,
            ));
        }
    }
}

} // verus!
