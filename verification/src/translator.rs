//! Forward-only translation of character offsets into byte offsets.

use crate::offsets::{
    byte_offset, char_width, lemma_byte_offset_ends, lemma_byte_offset_monotone,
    lemma_byte_offset_step, lemma_char_width_bounds, lemma_encode_split,
};
use vstd::prelude::*;
use vstd::string::*;
use vstd::utf8::*;

verus! {

/// A cursor over a borrowed string that remembers the last character offset
/// it was asked for together with the byte offset of that character, so that
/// a run of non-decreasing queries scans the string once.
pub struct IndexTranslator<'a> {
    data: &'a str,
    byte_idx: usize,
    char_idx: usize,
}

/// The number of bytes of the character whose encoding starts with `lead`.
fn width_of_lead(lead: u8) -> (w: usize)
    ensures
        1 <= w <= 4,
        is_leading_byte_width_1(lead) ==> w == 1,
        is_leading_byte_width_2(lead) ==> w == 2,
        is_leading_byte_width_3(lead) ==> w == 3,
        is_leading_byte_width_4(lead) ==> w == 4,
{
    if lead < 0x80 {
        1
    } else if lead < 0xe0 {
        2
    } else if lead < 0xf0 {
        3
    } else {
        4
    }
}

/// At the byte offset of character `k`, the encoding holds the leading byte
/// of that character, and the whole character fits.
proof fn lemma_lead_at_offset(s: Seq<char>, k: int)
    requires
        0 <= k < s.len(),
    ensures
        byte_offset(s, k) + char_width(s[k]) <= encode_utf8(s).len(),
        ({
            let lead = encode_utf8(s)[byte_offset(s, k)];
            &&& char_width(s[k]) == 1 ==> is_leading_byte_width_1(lead)
            &&& char_width(s[k]) == 2 ==> is_leading_byte_width_2(lead)
            &&& char_width(s[k]) == 3 ==> is_leading_byte_width_3(lead)
            &&& char_width(s[k]) == 4 ==> is_leading_byte_width_4(lead)
        }),
{
    let tail = s.skip(k);
    lemma_encode_split(s, k);
    lemma_byte_offset_step(s, k);
    lemma_byte_offset_monotone(s, k + 1, s.len() as int);
    lemma_byte_offset_ends(s);
    encode_utf8_first_scalar(tail);
    lemma_char_width_bounds(s[k]);
    assert(tail[0] == s[k]);
    assert(encode_utf8(tail)[0] == encode_utf8(s)[byte_offset(s, k)]);
}

impl<'a> IndexTranslator<'a> {
    /// The text that the cursor runs over.
    pub closed spec fn text(&self) -> Seq<char> {
        self.data@
    }

    /// The character offset of the cursor: the last offset translated.
    pub closed spec fn spec_char_idx(&self) -> int {
        self.char_idx as int
    }

    /// The byte offset of the cursor.
    pub closed spec fn spec_byte_idx(&self) -> int {
        self.byte_idx as int
    }

    /// The cursor stands inside the text, and its two offsets name the same
    /// place.
    pub open spec fn wf(&self) -> bool {
        &&& 0 <= self.spec_char_idx() <= self.text().len()
        &&& self.spec_byte_idx() == byte_offset(self.text(), self.spec_char_idx())
    }

    /// A cursor at the start of `data`.
    pub fn new(data: &'a str) -> (t: IndexTranslator<'a>)
        ensures
            t.wf(),
            t.text() == data@,
            t.spec_char_idx() == 0,
            t.spec_byte_idx() == 0,
    {
        proof {
            lemma_byte_offset_ends(data@);
        }
        IndexTranslator { data, byte_idx: 0, char_idx: 0 }
    }

    /// The character offset of the cursor.
    pub fn char_idx(&self) -> (c: usize)
        ensures
            c == self.spec_char_idx(),
    {
        self.char_idx
    }

    /// The byte offset of the cursor.
    pub fn byte_idx(&self) -> (b: usize)
        ensures
            b == self.spec_byte_idx(),
    {
        self.byte_idx
    }

    /// The byte offset at which character `char_idx` starts, or `None` when
    /// the text has fewer than `char_idx` characters. A translated offset
    /// moves the cursor there; a failed query leaves it where it was.
    pub fn next_byte_idx_for_char_idx(&mut self, char_idx: usize) -> (r: Option<usize>)
        requires
            old(self).wf(),
            char_idx >= old(self).spec_char_idx(),
        ensures
            final(self).wf(),
            final(self).text() == old(self).text(),
            match r {
                Some(b) => {
                    &&& char_idx <= old(self).text().len()
                    &&& b == byte_offset(old(self).text(), char_idx as int)
                    &&& final(self).spec_char_idx() == char_idx
                    &&& final(self).spec_byte_idx() == b
                },
                None => char_idx > old(self).text().len() && *final(self) == *old(self),
            },
    {
        let bytes = self.data.as_bytes();
        let mut b: usize = self.byte_idx;
        let mut c: usize = self.char_idx;
        proof {
            lemma_byte_offset_ends(self.data@);
            lemma_byte_offset_monotone(self.data@, c as int, self.data@.len() as int);
        }
        while c < char_idx && b < bytes.len()
            invariant
                bytes@ == encode_utf8(self.data@),
                self.char_idx <= c <= char_idx,
                c <= self.data@.len(),
                b == byte_offset(self.data@, c as int),
                b <= bytes.len(),
            decreases char_idx - c,
        {
            proof {
                lemma_byte_offset_ends(self.data@);
                assert(c < self.data@.len());
                lemma_lead_at_offset(self.data@, c as int);
                lemma_byte_offset_step(self.data@, c as int);
                lemma_char_width_bounds(self.data@[c as int]);
            }
            let w = width_of_lead(bytes[b]);
            b = b + w;
            c = c + 1;
        }
        if c == char_idx {
            self.byte_idx = b;
            self.char_idx = c;
            Some(b)
        } else {
            proof {
                lemma_byte_offset_ends(self.data@);
                lemma_byte_offset_monotone(self.data@, c as int, self.data@.len() as int);
            }
            None
        }
    }
}

} // verus!
