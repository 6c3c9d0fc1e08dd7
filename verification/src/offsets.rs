//! Character offsets and byte offsets in UTF-8 text.
//!
//! Text is modelled as a sequence of characters; its bytes are the UTF-8
//! encoding of that sequence. This module relates positions counted in
//! characters to positions counted in bytes.

use vstd::prelude::*;
use vstd::string::*;
use vstd::utf8::*;

verus! {

/// The number of bytes that the first `k` characters of `s` occupy in UTF-8:
/// the byte offset at which character `k` starts.
pub open spec fn byte_offset(s: Seq<char>, k: int) -> int {
    encode_utf8(s.take(k)).len() as int
}

/// The number of bytes that one character occupies in UTF-8.
pub open spec fn char_width(c: char) -> int {
    encode_scalar(c as u32).len() as int
}

/// Every character occupies between one and four bytes.
pub proof fn lemma_char_width_bounds(c: char)
    ensures
        1 <= char_width(c) <= 4,
{
}

/// Encoding distributes over concatenation.
pub proof fn lemma_encode_concat(a: Seq<char>, b: Seq<char>)
    ensures
        encode_utf8(a + b) == encode_utf8(a) + encode_utf8(b),
    decreases a.len(),
{
    if a.len() == 0 {
        assert(a + b =~= b);
        assert(encode_utf8(a) + encode_utf8(b) =~= encode_utf8(b));
    } else {
        lemma_encode_concat(a.drop_first(), b);
        assert((a + b).drop_first() =~= a.drop_first() + b);
        assert(encode_utf8(a + b) =~= encode_utf8(a) + encode_utf8(b));
    }
}

/// Appending one character adds its width to the encoded length.
pub proof fn lemma_encode_push(s: Seq<char>, c: char)
    ensures
        encode_utf8(s.push(c)) == encode_utf8(s) + encode_scalar(c as u32),
{
    lemma_encode_concat(s, seq![c]);
    assert(s.push(c) =~= s + seq![c]);
    assert(seq![c].drop_first() =~= Seq::<char>::empty());
    reveal_with_fuel(encode_utf8, 2);
    assert(encode_utf8(seq![c]) =~= encode_scalar(c as u32));
}

/// The text's bytes split at a character's byte offset into the encodings of
/// the characters before it and of those from it on.
pub proof fn lemma_encode_split(s: Seq<char>, k: int)
    requires
        0 <= k <= s.len(),
    ensures
        0 <= byte_offset(s, k) <= encode_utf8(s).len(),
        encode_utf8(s).subrange(0, byte_offset(s, k)) == encode_utf8(s.take(k)),
        encode_utf8(s).subrange(byte_offset(s, k), encode_utf8(s).len() as int) == encode_utf8(
            s.skip(k),
        ),
{
    lemma_encode_concat(s.take(k), s.skip(k));
    assert(s =~= s.take(k) + s.skip(k));
    let whole = encode_utf8(s.take(k)) + encode_utf8(s.skip(k));
    assert(whole.subrange(0, byte_offset(s, k)) =~= encode_utf8(s.take(k)));
    assert(whole.subrange(byte_offset(s, k), whole.len() as int) =~= encode_utf8(s.skip(k)));
}

/// The byte offset of the next character is this character's offset plus
/// its width.
pub proof fn lemma_byte_offset_step(s: Seq<char>, k: int)
    requires
        0 <= k < s.len(),
    ensures
        byte_offset(s, k + 1) == byte_offset(s, k) + char_width(s[k]),
{
    lemma_encode_push(s.take(k), s[k]);
    assert(s.take(k + 1) =~= s.take(k).push(s[k]));
}

/// Byte offsets grow with character offsets, by at least one byte per
/// character.
pub proof fn lemma_byte_offset_monotone(s: Seq<char>, i: int, j: int)
    requires
        0 <= i <= j <= s.len(),
    ensures
        byte_offset(s, j) - byte_offset(s, i) >= j - i,
    decreases j - i,
{
    if i < j {
        lemma_byte_offset_monotone(s, i, j - 1);
        lemma_byte_offset_step(s, j - 1);
        lemma_char_width_bounds(s[j - 1]);
    }
}

/// Offset zero is byte zero, and the offset of the end is the byte length.
pub proof fn lemma_byte_offset_ends(s: Seq<char>)
    ensures
        byte_offset(s, 0) == 0,
        byte_offset(s, s.len() as int) == encode_utf8(s).len(),
{
    assert(s.take(0) =~= Seq::<char>::empty());
    assert(s.take(s.len() as int) =~= s);
}

/// The byte offset of a character is a character boundary of the encoding.
pub proof fn lemma_byte_offset_is_boundary(s: Seq<char>, k: int)
    requires
        0 <= k <= s.len(),
    ensures
        is_char_boundary(encode_utf8(s), byte_offset(s, k)),
    decreases k,
{
    broadcast use encode_utf8_valid_utf8;

    if k > 0 {
        let bytes = encode_utf8(s);
        let rest = s.drop_first();
        encode_utf8_first_scalar(s);
        assert(pop_first_scalar(bytes) =~= encode_utf8(rest));
        lemma_byte_offset_is_boundary(rest, k - 1);
        lemma_encode_concat(seq![s[0]], rest.take(k - 1));
        assert(s.take(k) =~= seq![s[0]] + rest.take(k - 1));
        lemma_encode_push(Seq::<char>::empty(), s[0]);
        assert(Seq::<char>::empty().push(s[0]) =~= seq![s[0]]);
        assert(byte_offset(s, k) == char_width(s[0]) + byte_offset(rest, k - 1));
        lemma_char_width_bounds(s[0]);
        lemma_encode_split(s, k);
    } else {
        lemma_byte_offset_ends(s);
    }
}

/// Slicing the encoding between the byte offsets of two characters gives the
/// encoding of the characters between them.
pub proof fn lemma_slice_between_offsets(s: Seq<char>, i: int, j: int)
    requires
        0 <= i <= j <= s.len(),
    ensures
        0 <= byte_offset(s, i) <= byte_offset(s, j) <= encode_utf8(s).len(),
        is_char_boundary(encode_utf8(s), byte_offset(s, i)),
        is_char_boundary(encode_utf8(s), byte_offset(s, j)),
        encode_utf8(s).subrange(byte_offset(s, i), byte_offset(s, j)) == encode_utf8(
            s.subrange(i, j),
        ),
{
    lemma_byte_offset_monotone(s, i, j);
    lemma_byte_offset_is_boundary(s, i);
    lemma_byte_offset_is_boundary(s, j);
    lemma_encode_split(s, j);
    let head = s.take(j);
    lemma_encode_split(head, i);
    assert(head.take(i) =~= s.take(i));
    assert(head.skip(i) =~= s.subrange(i, j));
    assert(encode_utf8(s).subrange(byte_offset(s, i), byte_offset(s, j)) =~= encode_utf8(
        head,
    ).subrange(byte_offset(head, i), encode_utf8(head).len() as int));
}

/// A string's characters are determined by its bytes.
pub proof fn lemma_same_bytes_same_chars(a: Seq<char>, b: Seq<char>)
    requires
        encode_utf8(a) == encode_utf8(b),
    ensures
        a == b,
{
    encode_utf8_decode_utf8(a);
    encode_utf8_decode_utf8(b);
}

/// The length of `s` in bytes.
pub fn byte_len(s: &str) -> (n: usize)
    ensures
        n == encode_utf8(s@).len(),
        n == byte_offset(s@, s@.len() as int),
        (n == 0) == (s@.len() == 0),
{
    proof {
        lemma_byte_offset_ends(s@);
        lemma_byte_offset_monotone(s@, 0, s@.len() as int);
    }
    s.as_bytes().len()
}

/// The part of `s` between two byte offsets that are the offsets of
/// characters `i` and `j`.
pub(crate) fn slice_between<'a>(
    s: &'a str,
    from: usize,
    to: usize,
    Ghost(i): Ghost<int>,
    Ghost(j): Ghost<int>,
) -> (piece: &'a str)
    requires
        0 <= i <= j <= s@.len(),
        from == byte_offset(s@, i),
        to == byte_offset(s@, j),
    ensures
        piece@ == s@.subrange(i, j),
{
    proof {
        lemma_slice_between_offsets(s@, i, j);
        lemma_encode_split(s@, j);
    }
    let (head, _) = s.split_at(to);
    proof {
        lemma_same_bytes_same_chars(head@, s@.take(j));
        assert(head@.take(i) =~= s@.take(i));
        lemma_slice_between_offsets(head@, i, j);
        lemma_encode_split(head@, i);
    }
    let (_, piece) = head.split_at(from);
    proof {
        lemma_same_bytes_same_chars(piece@, head@.skip(i));
        assert(head@.skip(i) =~= s@.subrange(i, j));
    }
    piece
}

} // verus!
