//! The model of a text: where each rune starts in bytes, on which line and in
//! which column.

use vstd::prelude::*;
use vstd::utf8::*;

verus! {

/// Number of bytes in the UTF-8 encoding of the rune `c`.
pub open spec fn rune_width(c: char) -> nat {
    encode_scalar(c as u32).len()
}

/// Byte offset of the rune at index `i` of `s` (the length of the encoding
/// of the first `i` runes).
pub open spec fn byte_offset(s: Seq<char>, i: int) -> nat {
    encode_utf8(s.take(i)).len()
}

/// 1-based line of the rune at index `i` of `s`: one more than the number of
/// line feeds before it.
pub open spec fn line_at(s: Seq<char>, i: int) -> nat
    decreases i,
{
    if i <= 0 {
        1
    } else if s[i - 1] == '\n' {
        line_at(s, i - 1) + 1
    } else {
        line_at(s, i - 1)
    }
}

/// 1-based column of the rune at index `i` of `s`: counting restarts at 1
/// right after each line feed.
pub open spec fn col_at(s: Seq<char>, i: int) -> nat
    decreases i,
{
    if i <= 0 {
        1
    } else if s[i - 1] == '\n' {
        1
    } else {
        col_at(s, i - 1) + 1
    }
}

/// The number of bytes that `c` takes in UTF-8.
pub(crate) fn utf8_width(c: char) -> (r: usize)
    ensures
        r == rune_width(c),
        1 <= r <= 4,
{
    let v = c as u32;
    if v <= 0x7f {
        1
    } else if v <= 0x7ff {
        2
    } else if v <= 0xffff {
        3
    } else {
        4
    }
}

/// The encoding of a concatenation is the concatenation of the encodings.
pub proof fn lemma_encode_concat(a: Seq<char>, b: Seq<char>)
    ensures
        encode_utf8(a + b) == encode_utf8(a) + encode_utf8(b),
    decreases a.len(),
{
    if a.len() == 0 {
        assert(a + b =~= b);
        assert(encode_utf8(a) + encode_utf8(b) =~= encode_utf8(b));
    } else {
        assert((a + b).drop_first() =~= a.drop_first() + b);
        lemma_encode_concat(a.drop_first(), b);
        assert(encode_utf8(a + b) =~= encode_utf8(a) + encode_utf8(b));
    }
}

/// A single rune encodes as its scalar encoding.
pub proof fn lemma_encode_single(c: char)
    ensures
        encode_utf8(seq![c]) == encode_scalar(c as u32),
{
    reveal_with_fuel(encode_utf8, 2);
    assert(seq![c].drop_first() =~= Seq::<char>::empty());
    assert(encode_scalar(c as u32) + Seq::<u8>::empty() =~= encode_scalar(c as u32));
}

/// Stepping over one rune moves the byte offset by that rune's width.
pub proof fn lemma_byte_offset_step(s: Seq<char>, i: int)
    requires
        0 <= i < s.len(),
    ensures
        byte_offset(s, i + 1) == byte_offset(s, i) + rune_width(s[i]),
{
    assert(s.take(i + 1) =~= s.take(i) + seq![s[i]]);
    lemma_encode_concat(s.take(i), seq![s[i]]);
    lemma_encode_single(s[i]);
}

/// The encoding of `s` splits at the byte offset of any rune index into the
/// encodings of the two parts.
pub proof fn lemma_encode_split(s: Seq<char>, i: int)
    requires
        0 <= i <= s.len(),
    ensures
        encode_utf8(s) == encode_utf8(s.take(i)) + encode_utf8(s.skip(i)),
        encode_utf8(s).subrange(0, byte_offset(s, i) as int) == encode_utf8(s.take(i)),
        encode_utf8(s).subrange(byte_offset(s, i) as int, encode_utf8(s).len() as int)
            == encode_utf8(s.skip(i)),
        byte_offset(s, i) <= encode_utf8(s).len(),
{
    assert(s =~= s.take(i) + s.skip(i));
    lemma_encode_concat(s.take(i), s.skip(i));
    let e = encode_utf8(s);
    assert(e.subrange(0, byte_offset(s, i) as int) =~= encode_utf8(s.take(i)));
    assert(e.subrange(byte_offset(s, i) as int, e.len() as int) =~= encode_utf8(s.skip(i)));
}

/// Every rune takes at least one byte.
pub proof fn lemma_encode_len(s: Seq<char>)
    ensures
        s.len() <= encode_utf8(s).len(),
    decreases s.len(),
{
    if s.len() > 0 {
        lemma_encode_len(s.drop_first());
    }
}

/// The byte offset of a rune index is a character boundary of the encoding.
pub proof fn lemma_boundary(s: Seq<char>, i: int)
    requires
        0 <= i <= s.len(),
    ensures
        is_char_boundary(encode_utf8(s), byte_offset(s, i) as int),
    decreases s.len(),
{
    encode_utf8_valid_utf8(s);
    if i == 0 {
        assert(s.take(0) =~= Seq::<char>::empty());
    } else {
        let e = encode_utf8(s);
        let t = s.drop_first();
        encode_utf8_first_scalar(s);
        encode_utf8_valid_utf8(s);
        encode_utf8_valid_utf8(t);
        assert(pop_first_scalar(e) =~= encode_utf8(t));
        lemma_boundary(t, i - 1);
        assert(s.take(i) =~= seq![s[0]] + t.take(i - 1));
        lemma_encode_concat(seq![s[0]], t.take(i - 1));
        lemma_encode_single(s[0]);
        lemma_encode_split(s, i);
        assert(byte_offset(s, i) - length_of_first_scalar(e) == byte_offset(t, i - 1));
        assert(byte_offset(s, i) > 0);
        assert(is_char_boundary(pop_first_scalar(e), byte_offset(t, i - 1) as int));
        assert(is_char_boundary(e, byte_offset(s, i) as int));
    }
}

/// Lines and columns never run ahead of the rune index.
pub proof fn lemma_line_col_bound(s: Seq<char>, i: int)
    requires
        0 <= i,
    ensures
        1 <= line_at(s, i) <= i + 1,
        1 <= col_at(s, i) <= i + 1,
    decreases i,
{
    if i > 0 {
        lemma_line_col_bound(s, i - 1);
    }
}

/// Length of the run of runes of `s` that belong to `set`, from index `i`.
pub open spec fn run_len(s: Seq<char>, i: int, set: Seq<char>) -> nat
    decreases s.len() - i,
{
    if 0 <= i < s.len() && set.contains(s[i]) {
        1 + run_len(s, i + 1, set)
    } else {
        0
    }
}

/// Later rune indices have larger byte offsets.
pub proof fn lemma_byte_offset_grows(s: Seq<char>, i: int, j: int)
    requires
        0 <= i <= j <= s.len(),
    ensures
        byte_offset(s, i) + (j - i) <= byte_offset(s, j),
    decreases j - i,
{
    if i < j {
        lemma_byte_offset_grows(s, i, j - 1);
        lemma_byte_offset_step(s, j - 1);
    }
}

} // verus!
