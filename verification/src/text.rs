//! Character positions and byte offsets in UTF-8 text.
//!
//! Contracts speak of a text as its sequence of characters; spans count bytes.
//! This module relates the two and holds the few string operations the
//! tokenizer is built from.

use vstd::prelude::*;
use vstd::string::*;
use vstd::utf8::*;

verus! {

/// Number of bytes that `c` takes in UTF-8.
pub open spec fn char_width(c: char) -> nat {
    encode_scalar(c as u32).len()
}

/// Number of bytes that the first `i` characters of `s` take in UTF-8: the
/// byte offset at which character `i` begins.
pub open spec fn byte_offset(s: Seq<char>, i: int) -> nat {
    encode_utf8(s.take(i)).len()
}

/// The characters encoded by bytes `start..end` of the UTF-8 form of `s`.
pub open spec fn byte_slice(s: Seq<char>, start: int, end: int) -> Seq<char> {
    decode_utf8(encode_utf8(s).subrange(start, end))
}

/// The character at index `i`, if there is one.
pub open spec fn char_at(s: Seq<char>, i: int) -> Option<char> {
    if 0 <= i < s.len() {
        Some(s[i])
    } else {
        None
    }
}

/// The value of a run of decimal digits, most significant first.
pub open spec fn decimal_value(digits: Seq<char>) -> nat
    decreases digits.len(),
{
    if digits.len() == 0 {
        0
    } else {
        (decimal_value(digits.drop_last()) * 10 + (digits.last() as u32 - '0' as u32)) as nat
    }
}

/// Whether `c` is one of the digits `0` to `9`.
pub open spec fn is_decimal_digit(c: char) -> bool {
    '0' <= c <= '9'
}

/// Whether `s` holds decimal digits only.
pub open spec fn all_decimal_digits(s: Seq<char>) -> bool {
    forall|i: int| 0 <= i < s.len() ==> is_decimal_digit(#[trigger] s[i])
}

/// What [`parse_decimal`] returns for the text `s`.
pub open spec fn parsed_decimal(s: Seq<char>) -> Option<i64> {
    if s.len() > 0 && all_decimal_digits(s) && decimal_value(s) <= i64::MAX {
        Some(decimal_value(s) as i64)
    } else {
        None
    }
}

/// A character takes from one to four bytes.
pub proof fn lemma_char_width_bounds(c: char)
    ensures
        1 <= char_width(c) <= 4,
{
}

/// The encoding of two texts joined is their encodings joined.
pub proof fn lemma_encode_utf8_concat(a: Seq<char>, b: Seq<char>)
    ensures
        encode_utf8(a + b) == encode_utf8(a) + encode_utf8(b),
    decreases a.len(),
{
    if a.len() == 0 {
        assert(a + b =~= b);
        assert(encode_utf8(a) + encode_utf8(b) =~= encode_utf8(b));
    } else {
        assert((a + b).drop_first() =~= a.drop_first() + b);
        lemma_encode_utf8_concat(a.drop_first(), b);
        assert(encode_utf8(a + b) =~= encode_utf8(a) + encode_utf8(b));
    }
}

/// A text of one character is encoded as that character is.
pub proof fn lemma_encode_utf8_single(c: char)
    ensures
        encode_utf8(seq![c]) == encode_scalar(c as u32),
{
    assert(seq![c].drop_first() =~= Seq::<char>::empty());
    assert(encode_utf8(seq![c]) =~= encode_scalar(c as u32)) by {
        reveal_with_fuel(encode_utf8, 2);
    }
}

/// Stepping over one character moves the byte offset by that character's width.
pub proof fn lemma_byte_offset_step(s: Seq<char>, i: int)
    requires
        0 <= i < s.len(),
    ensures
        byte_offset(s, i + 1) == byte_offset(s, i) + char_width(s[i]),
{
    assert(s.take(i + 1) =~= s.take(i) + seq![s[i]]);
    lemma_encode_utf8_concat(s.take(i), seq![s[i]]);
    lemma_encode_utf8_single(s[i]);
}

/// Byte offsets grow by at least one byte per character.
pub proof fn lemma_byte_offset_grows(s: Seq<char>, i: int, j: int)
    requires
        0 <= i <= j <= s.len(),
    ensures
        byte_offset(s, i) + (j - i) <= byte_offset(s, j),
    decreases j - i,
{
    if i < j {
        lemma_byte_offset_step(s, i);
        lemma_char_width_bounds(s[i]);
        lemma_byte_offset_grows(s, i + 1, j);
    }
}

/// Byte offsets start at zero, grow by at least one byte per character, and
/// end at the length of the encoded text.
pub proof fn lemma_byte_offset_order(s: Seq<char>, i: int, j: int)
    requires
        0 <= i <= j <= s.len(),
    ensures
        byte_offset(s, 0) == 0,
        byte_offset(s, i) + (j - i) <= byte_offset(s, j),
        byte_offset(s, j) <= encode_utf8(s).len(),
        byte_offset(s, s.len() as int) == encode_utf8(s).len(),
{
    assert(s.take(s.len() as int) =~= s);
    assert(s.take(0) =~= Seq::<char>::empty());
    lemma_byte_offset_grows(s, i, j);
    lemma_byte_offset_grows(s, j, s.len() as int);
}

/// Every character index sits on a character boundary of the encoded text.
pub proof fn lemma_byte_offset_is_boundary(s: Seq<char>, i: int)
    requires
        0 <= i <= s.len(),
    ensures
        is_char_boundary(encode_utf8(s), byte_offset(s, i) as int),
    decreases i,
{
    broadcast use encode_utf8_valid_utf8;

    let bytes = encode_utf8(s);
    if i == 0 {
        assert(s.take(0) =~= Seq::<char>::empty());
    } else {
        let tail = s.drop_first();
        encode_utf8_first_scalar(s);
        assert(pop_first_scalar(bytes) =~= encode_utf8(tail));
        assert(s.take(i) =~= seq![s[0]] + tail.take(i - 1));
        lemma_encode_utf8_concat(seq![s[0]], tail.take(i - 1));
        lemma_encode_utf8_single(s[0]);
        lemma_char_width_bounds(s[0]);
        lemma_byte_offset_order(s, i, i);
        lemma_byte_offset_is_boundary(tail, i - 1);
        assert(byte_offset(s, i) - length_of_first_scalar(bytes) == byte_offset(tail, i - 1));
    }
}

/// Cutting the encoded text at the byte offsets of two character indices
/// gives the characters between those indices.
pub proof fn lemma_byte_slice_at_offsets(s: Seq<char>, i: int, j: int)
    requires
        0 <= i <= j <= s.len(),
    ensures
        encode_utf8(s).subrange(byte_offset(s, i) as int, byte_offset(s, j) as int) == encode_utf8(
            s.subrange(i, j),
        ),
        byte_slice(s, byte_offset(s, i) as int, byte_offset(s, j) as int) == s.subrange(i, j),
{
    broadcast use encode_utf8_decode_utf8;

    let head = s.take(i);
    let mid = s.subrange(i, j);
    let tail = s.skip(j);
    assert(s.take(j) =~= head + mid);
    assert(s =~= s.take(j) + tail);
    lemma_encode_utf8_concat(head, mid);
    lemma_encode_utf8_concat(s.take(j), tail);
    assert(encode_utf8(s).subrange(byte_offset(s, i) as int, byte_offset(s, j) as int)
        =~= encode_utf8(mid));
}

/// Two texts with the same encoding are the same text.
pub proof fn lemma_same_bytes_same_text(a: Seq<char>, b: Seq<char>)
    requires
        encode_utf8(a) == encode_utf8(b),
    ensures
        a == b,
{
    broadcast use encode_utf8_decode_utf8;

    assert(decode_utf8(encode_utf8(a)) == a);
    assert(decode_utf8(encode_utf8(b)) == b);
}

/// Dropping trailing digits never makes the value larger.
pub proof fn lemma_decimal_value_prefix(digits: Seq<char>, k: int)
    requires
        0 <= k <= digits.len(),
        all_decimal_digits(digits),
    ensures
        decimal_value(digits.take(k)) <= decimal_value(digits),
    decreases digits.len() - k,
{
    if k == digits.len() {
        assert(digits.take(k) =~= digits);
    } else {
        let longer = digits.take(k + 1);
        assert(longer.drop_last() =~= digits.take(k));
        assert(is_decimal_digit(digits[k]));
        assert(longer.last() == digits[k]);
        lemma_decimal_value_prefix(digits, k + 1);
    }
}

/// Number of bytes that `c` takes in UTF-8, from 1 to 4.
pub fn len_utf8(c: char) -> (w: usize)
    ensures
        w == char_width(c),
        1 <= w <= 4,
{
    let v: u32 = c as u32;
    if v < 0x80 {
        1
    } else if v < 0x800 {
        2
    } else if v < 0x10000 {
        3
    } else {
        4
    }
}

/// Splits a text into its first character and what follows it.
pub fn split_first<'a>(s: &'a str) -> (r: Option<(char, &'a str)>)
    ensures
        s@.len() == 0 ==> r is None,
        s@.len() > 0 ==> (r matches Some((c, rest)) && c == s@[0] && rest@ == s@.drop_first()),
{
    broadcast use group_utf8_lib;

    let mut it = s.chars();
    match it.next() {
        None => None,
        Some(c) => {
            let w = len_utf8(c);
            proof {
                encode_utf8_first_scalar(s@);
                reveal_with_fuel(is_char_boundary, 2);
            }
            let (_, rest) = s.split_at(w);
            proof {
                assert(rest.spec_bytes() =~= encode_utf8(s@.drop_first()));
                lemma_same_bytes_same_text(rest@, s@.drop_first());
            }
            Some((c, rest))
        },
    }
}

/// The part of `src` that bytes `start..end` hold, or `None` where the range
/// is reversed, runs past the end, or cuts a character in two.
pub fn slice<'a>(src: &'a str, start: usize, end: usize) -> (r: Option<&'a str>)
    ensures
        r is Some <==> start <= end <= encode_utf8(src@).len() && is_char_boundary(
            encode_utf8(src@),
            start as int,
        ) && is_char_boundary(encode_utf8(src@), end as int),
        r matches Some(part) ==> part@ == byte_slice(src@, start as int, end as int),
{
    broadcast use group_utf8_lib;

    let bytes = src.as_bytes();
    if start > end || end > bytes.len() {
        return None;
    }
    if !src.is_char_boundary(start) || !src.is_char_boundary(end) {
        return None;
    }
    let (head, _) = src.split_at(end);
    proof {
        if start < end {
            is_char_boundary_iff_not_is_continuation_byte(src.spec_bytes(), start as int);
            is_char_boundary_iff_not_is_continuation_byte(head.spec_bytes(), start as int);
        } else {
            is_char_boundary_start_end_of_seq(head.spec_bytes());
        }
    }
    let (_, part) = head.split_at(start);
    proof {
        assert(part.spec_bytes() =~= encode_utf8(src@).subrange(start as int, end as int));
    }
    Some(part)
}

/// Whether two texts hold the same characters.
pub fn same_text(a: &str, b: &str) -> (r: bool)
    ensures
        r == (a@ == b@),
{
    let x = a.as_bytes();
    let y = b.as_bytes();
    if x.len() != y.len() {
        return false;
    }
    let mut i: usize = 0;
    while i < x.len()
        invariant
            0 <= i <= x.len(),
            x.len() == y.len(),
            x@ == encode_utf8(a@),
            y@ == encode_utf8(b@),
            forall|k: int| 0 <= k < i ==> x@[k] == y@[k],
        decreases x.len() - i,
    {
        if x[i] != y[i] {
            return false;
        }
        i = i + 1;
    }
    proof {
        assert(x@ =~= y@);
        lemma_same_bytes_same_text(a@, b@);
    }
    true
}

/// Reads a run of decimal digits as a number.
///
/// Gives `Some` exactly for a non-empty text of the digits `0` to `9` whose
/// value fits an `i64`.
pub fn parse_decimal(s: &str) -> (r: Option<i64>)
    ensures
        r == parsed_decimal(s@),
{
    let mut rest = s;
    let mut acc: i64 = 0;
    let ghost mut done: int = 0;
    if let None = split_first(s) {
        return None;
    }
    loop
        invariant
            0 <= done <= s@.len(),
            s@.len() > 0,
            rest@ == s@.skip(done),
            all_decimal_digits(s@.take(done)),
            acc == decimal_value(s@.take(done)),
        decreases rest@.len(),
    {
        match split_first(rest) {
            None => {
                proof {
                    assert(s@.take(done) =~= s@);
                }
                return Some(acc);
            },
            Some((c, tail)) => {
                proof {
                    assert(c == s@[done]);
                    assert(tail@ =~= s@.skip(done + 1));
                }
                if !(c >= '0' && c <= '9') {
                    return None;
                }
                let d: i64 = (c as u32 - '0' as u32) as i64;
                proof {
                    let longer = s@.take(done + 1);
                    assert(longer.drop_last() =~= s@.take(done));
                    assert(longer.last() == c);
                    assert forall|i: int| 0 <= i < longer.len() implies is_decimal_digit(
                        #[trigger] longer[i],
                    ) by {
                        if i < done {
                            assert(longer[i] == s@.take(done)[i]);
                        }
                    }
                }
                if acc > (i64::MAX - d) / 10 {
                    proof {
                        if all_decimal_digits(s@) {
                            lemma_decimal_value_prefix(s@, done + 1);
                        }
                    }
                    return None;
                }
                acc = acc * 10 + d;
                rest = tail;
                proof {
                    done = done + 1;
                }
            },
        }
    }
}

} // verus!
