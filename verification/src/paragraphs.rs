//! Plain text as a sequence of paragraphs: the pieces between blank lines.

use crate::offsets::{
    byte_len, byte_offset, char_width, lemma_byte_offset_ends, lemma_byte_offset_monotone,
    lemma_byte_offset_step, slice_between,
};
use vstd::prelude::*;
use vstd::string::*;

verus! {

/// The texts of the paragraphs.
pub open spec fn texts(paragraphs: Seq<&str>) -> Seq<Seq<char>> {
    Seq::new(paragraphs.len(), |p: int| paragraphs[p]@)
}

/// Whether a blank line, two newlines in a row, starts at offset `k`.
pub open spec fn blank_at(s: Seq<char>, k: int) -> bool {
    0 <= k && k + 1 < s.len() && s[k] == '\n' && s[k + 1] == '\n'
}

/// The offset of the first blank line of `s`; -1 when it has none.
pub open spec fn first_blank(s: Seq<char>) -> int
    decreases s.len(),
{
    if s.len() < 2 {
        -1
    } else if s[0] == '\n' && s[1] == '\n' {
        0
    } else {
        let rest = first_blank(s.drop_first());
        if rest < 0 {
            -1
        } else {
            rest + 1
        }
    }
}

/// The paragraphs of `s`: the text before its first blank line, and the
/// paragraphs of the text after that line. Text without a blank line is one
/// paragraph.
pub open spec fn split_blank(s: Seq<char>) -> Seq<Seq<char>>
    decreases s.len(),
{
    let k = first_blank(s);
    if 0 <= k && k + 2 <= s.len() {
        seq![s.take(k)] + split_blank(s.skip(k + 2))
    } else {
        seq![s]
    }
}

/// The first blank line is the blank line that no other precedes.
pub proof fn lemma_first_blank(s: Seq<char>, k: int)
    requires
        forall|i: int| 0 <= i < k ==> !blank_at(s, i),
        blank_at(s, k) || k + 1 >= s.len(),
    ensures
        first_blank(s) == if blank_at(s, k) {
            k
        } else {
            -1
        },
    decreases s.len(),
{
    if s.len() >= 2 && !(s[0] == '\n' && s[1] == '\n') {
        let rest = s.drop_first();
        assert forall|i: int| 0 <= i < k - 1 implies !blank_at(rest, i) by {
            assert(!blank_at(s, i + 1));
        }
        assert(!blank_at(s, 0));
        if blank_at(s, k) {
            assert(blank_at(rest, k - 1));
        }
        lemma_first_blank(rest, k - 1);
    } else if s.len() >= 2 {
        assert(blank_at(s, 0));
    }
}

/// The number of bytes that `c` occupies in UTF-8.
fn utf8_width(c: char) -> (w: usize)
    ensures
        w == char_width(c),
{
    if c <= '\u{7f}' {
        1
    } else if c <= '\u{7ff}' {
        2
    } else if c <= '\u{ffff}' {
        3
    } else {
        4
    }
}

/// The paragraphs of `plain`, in order.
pub fn split_paragraphs(plain: &str) -> (paragraphs: Vec<&str>)
    ensures
        texts(paragraphs@) == split_blank(plain@),
{
    let ghost s = plain@;
    let total = byte_len(plain);
    let mut paragraphs: Vec<&str> = Vec::new();
    let mut from: usize = 0;
    let ghost mut start: int = 0;
    let mut at: usize = 0;
    let mut pending = false;
    let ghost mut done: Seq<Seq<char>> = Seq::empty();
    proof {
        lemma_byte_offset_ends(s);
        assert(s.skip(0) =~= s);
        assert(done + split_blank(s.skip(0)) =~= split_blank(s));
    }
    for c in it: plain.chars()
        invariant
            it.seq() == s,
            s == plain@,
            total == byte_offset(s, s.len() as int),
            0 <= start <= it.index() <= s.len(),
            at == byte_offset(s, it.index() as int),
            from == byte_offset(s, start),
            pending == (it.index() > start && s[it.index() - 1] == '\n'),
            forall|k: int| start <= k && k + 1 < it.index() ==> !blank_at(s, k),
            paragraphs@.len() == done.len(),
            forall|i: int| 0 <= i < paragraphs@.len() ==> (#[trigger] paragraphs@[i])@ == done[i],
            split_blank(s) == done + split_blank(s.skip(start)),
    {
        let ghost i = it.index() as int;
        proof {
            lemma_byte_offset_step(s, i);
            lemma_byte_offset_monotone(s, i + 1, s.len() as int);
        }
        let w = utf8_width(c);
        if c == '\n' && pending {
            proof {
                lemma_byte_offset_step(s, i - 1);
                lemma_byte_offset_monotone(s, start, i - 1);
            }
            let piece = slice_between(plain, from, at - 1, Ghost(start), Ghost(i - 1));
            paragraphs.push(piece);
            proof {
                let tail = s.skip(start);
                assert forall|k: int| 0 <= k < i - 1 - start implies !blank_at(tail, k) by {
                    assert(!blank_at(s, start + k));
                }
                assert(blank_at(tail, i - 1 - start));
                lemma_first_blank(tail, i - 1 - start);
                assert(tail.take(i - 1 - start) =~= s.subrange(start, i - 1));
                assert(tail.skip(i + 1 - start) =~= s.skip(i + 1));
                assert(done.push(piece@) + split_blank(s.skip(i + 1)) =~= done + split_blank(tail));
                done = done.push(piece@);
                start = i + 1;
            }
            from = at + w;
            pending = false;
        } else {
            pending = c == '\n';
        }
        at = at + w;
    }
    let last = slice_between(plain, from, total, Ghost(start), Ghost(s.len() as int));
    paragraphs.push(last);
    proof {
        let tail = s.skip(start);
        assert forall|k: int| 0 <= k < tail.len() - 1 implies !blank_at(tail, k) by {
            assert(!blank_at(s, start + k));
        }
        lemma_first_blank(tail, tail.len() - 1);
        assert(s.subrange(start, s.len() as int) =~= tail);
        assert(split_blank(s) =~= done.push(tail));
        assert(texts(paragraphs@) =~= split_blank(s));
    }
    paragraphs
}

/// Text with these paragraphs: each of them, and a newline after each.
pub open spec fn lined(paragraphs: Seq<Seq<char>>) -> Seq<char>
    decreases paragraphs.len(),
{
    if paragraphs.len() == 0 {
        Seq::empty()
    } else {
        lined(paragraphs.drop_last()) + paragraphs.last() + seq!['\n']
    }
}

/// Text with these paragraphs, a newline after each.
pub fn line_paragraphs(paragraphs: &Vec<&str>) -> (plain: String)
    ensures
        plain@ == lined(texts(paragraphs@)),
{
    let ghost pars = texts(paragraphs@);
    let mut plain = String::new();
    let mut i: usize = 0;
    proof {
        assert(pars.take(0) =~= Seq::<Seq<char>>::empty());
    }
    while i < paragraphs.len()
        invariant
            0 <= i <= paragraphs@.len(),
            pars == texts(paragraphs@),
            plain@ == lined(pars.take(i as int)),
        decreases paragraphs.len() - i,
    {
        proof {
            reveal_strlit("\n");
            assert("\n"@ =~= seq!['\n']);
            assert(pars.take(i + 1).drop_last() =~= pars.take(i as int));
            assert(pars.take(i + 1).last() == pars[i as int]);
        }
        plain.append(paragraphs[i]);
        plain.append("\n");
        i = i + 1;
    }
    proof {
        assert(pars.take(pars.len() as int) =~= pars);
    }
    plain
}

} // verus!
