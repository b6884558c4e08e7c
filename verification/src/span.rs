//! Byte positions of characters inside UTF-8 text.
//!
//! A `&str` is viewed as its sequence of characters, while slicing and the
//! offsets that callers see are counted in bytes. This module relates the two:
//! the byte offset of the `k`-th character is the encoded length of the first
//! `k` characters.

use vstd::prelude::*;
use vstd::string::StringSliceAdditionalSpecFns;
use vstd::utf8::*;

verus! {

/// Number of bytes in the UTF-8 encoding of `s`.
pub open spec fn byte_len(s: Seq<char>) -> nat {
    encode_utf8(s).len()
}

/// Byte position at which the character with index `k` starts in the encoding
/// of `s` (for `k == s.len()`: the position just behind the last character).
pub open spec fn byte_offset(s: Seq<char>, k: int) -> nat {
    byte_len(s.take(k))
}

/// Encoding distributes over concatenation.
pub proof fn lemma_encode_concat(a: Seq<char>, b: Seq<char>)
    ensures
        encode_utf8(a + b) == encode_utf8(a) + encode_utf8(b),
    decreases a.len(),
{
    if a.len() == 0 {
        assert(a + b =~= b);
        assert(encode_utf8(a) + encode_utf8(b) =~= encode_utf8(b));
    } else {
        assert((a + b).drop_first() =~= a.drop_first() + b);
        lemma_encode_concat(a.drop_first(), b);
        assert(encode_utf8(a + b) =~= encode_utf8(a) + encode_utf8(b));
    }
}

/// Every character takes between one and four bytes.
pub proof fn lemma_scalar_width(c: char)
    ensures
        1 <= encode_scalar(c as u32).len() <= 4,
{
}

/// Appending one character moves the end of the text by that character's width.
pub proof fn lemma_byte_offset_step(s: Seq<char>, k: int)
    requires
        0 <= k < s.len(),
    ensures
        byte_offset(s, k + 1) == byte_offset(s, k) + encode_scalar(s[k] as u32).len(),
{
    let one = seq![s[k]];
    assert(s.take(k + 1) =~= s.take(k) + one);
    lemma_encode_concat(s.take(k), one);
    assert(one.drop_first() =~= Seq::<char>::empty());
    reveal_with_fuel(encode_utf8, 2);
    assert(encode_utf8(one) =~= encode_scalar(s[k] as u32));
}

/// Byte offsets grow with the character index and end at the text's length.
pub proof fn lemma_byte_offset_monotone(s: Seq<char>, i: int, j: int)
    requires
        0 <= i <= j <= s.len(),
    ensures
        byte_offset(s, i) + (j - i) <= byte_offset(s, j),
        byte_offset(s, j) <= byte_len(s),
    decreases j - i,
{
    if i < j {
        lemma_byte_offset_monotone(s, i, j - 1);
        lemma_byte_offset_step(s, j - 1);
        lemma_scalar_width(s[j - 1]);
    }
    assert(s =~= s.take(j) + s.skip(j));
    lemma_encode_concat(s.take(j), s.skip(j));
}

/// The bytes between two character positions encode the characters between them.
pub proof fn lemma_encode_subrange(s: Seq<char>, i: int, j: int)
    requires
        0 <= i <= j <= s.len(),
    ensures
        byte_offset(s, i) <= byte_offset(s, j) <= byte_len(s),
        encode_utf8(s).subrange(byte_offset(s, i) as int, byte_offset(s, j) as int)
            == encode_utf8(s.subrange(i, j)),
{
    lemma_byte_offset_monotone(s, i, j);
    let a = s.take(i);
    let m = s.subrange(i, j);
    let z = s.skip(j);
    assert(s.take(j) =~= a + m);
    assert(s =~= s.take(j) + z);
    lemma_encode_concat(a, m);
    lemma_encode_concat(s.take(j), z);
    assert(encode_utf8(s).subrange(byte_offset(s, i) as int, byte_offset(s, j) as int)
        =~= encode_utf8(m));
}

/// The start of every character is a character boundary of the encoded text.
pub proof fn lemma_offset_is_boundary(s: Seq<char>, k: int)
    requires
        0 <= k <= s.len(),
    ensures
        is_char_boundary(encode_utf8(s), byte_offset(s, k) as int),
    decreases k,
{
    broadcast use encode_utf8_valid_utf8;

    let bytes = encode_utf8(s);
    if k == 0 {
        assert(s.take(0) =~= Seq::<char>::empty());
    } else {
        let rest = s.drop_first();
        encode_utf8_first_scalar(s);
        lemma_scalar_width(s[0]);
        assert(pop_first_scalar(bytes) =~= encode_utf8(rest));
        lemma_offset_is_boundary(rest, k - 1);
        let one = seq![s[0]];
        assert(s.take(k) =~= one + rest.take(k - 1));
        lemma_encode_concat(one, rest.take(k - 1));
        assert(one.drop_first() =~= Seq::<char>::empty());
        reveal_with_fuel(encode_utf8, 2);
        assert(encode_utf8(one) =~= encode_scalar(s[0] as u32));
        assert(byte_offset(s, k) == length_of_first_scalar(bytes) + byte_offset(rest, k - 1));
        lemma_byte_offset_monotone(s, 0, k);
    }
}

/// Number of bytes that `c` takes in UTF-8.
pub fn char_width(c: char) -> (w: usize)
    ensures
        w == encode_scalar(c as u32).len(),
        1 <= w <= 4,
{
    let u: u32 = c as u32;
    if u < 0x80 {
        1
    } else if u < 0x800 {
        2
    } else if u < 0x10000 {
        3
    } else {
        4
    }
}

/// The part of `text` between the byte positions `from` and `to`, which are
/// the starts of the characters with index `i` and `j`.
pub(crate) fn slice<'a>(
    text: &'a str,
    from: usize,
    to: usize,
    Ghost(i): Ghost<int>,
    Ghost(j): Ghost<int>,
) -> (part: &'a str)
    requires
        0 <= i <= j <= text@.len(),
        from == byte_offset(text@, i),
        to == byte_offset(text@, j),
    ensures
        part@ == text@.subrange(i, j),
{
    broadcast use {encode_utf8_decode_utf8, encode_utf8_valid_utf8};

    proof {
        lemma_offset_is_boundary(text@, j);
        lemma_encode_subrange(text@, 0, j);
        assert(text@.take(0) =~= Seq::<char>::empty());
    }
    let (head, _) = text.split_at(to);
    proof {
        assert(text@.subrange(0, j) =~= text@.take(j));
        assert(encode_utf8(head@) == encode_utf8(text@.take(j)));
        assert(decode_utf8(encode_utf8(head@)) == head@);
        assert(decode_utf8(encode_utf8(text@.take(j))) == text@.take(j));
        assert(head@ == text@.take(j));
        assert(head@.take(i) =~= text@.take(i));
        lemma_offset_is_boundary(head@, i);
        lemma_encode_subrange(head@, i, j);
        assert(head@.take(j) =~= head@);
    }
    let (_, part) = head.split_at(from);
    proof {
        assert(encode_utf8(part@) == encode_utf8(head@.subrange(i, j)));
        assert(decode_utf8(encode_utf8(part@)) == part@);
        assert(decode_utf8(encode_utf8(head@.subrange(i, j))) == head@.subrange(i, j));
        assert(head@.subrange(i, j) =~= text@.subrange(i, j));
    }
    part
}

} // verus!
