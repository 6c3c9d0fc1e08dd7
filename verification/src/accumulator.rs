//! The text normalizer: a state machine that collapses white space and
//! the breaks that markup implies into single separators, and records where
//! paragraphs start.

use crate::offsets::{
    byte_len, byte_offset, lemma_byte_offset_monotone, lemma_byte_offset_step, slice_between,
};
use crate::paragraphs::texts;
use crate::strings::{clear_string, push_char};
use vstd::prelude::*;
use vstd::string::*;

verus! {

/// What the normalizer has pending between the content it has written and
/// the content that comes next.
#[derive(Clone, Copy, PartialEq, Eq, Structural, Debug)]
pub enum AccState {
    /// Inside a run of content: nothing is pending.
    Word,
    /// A single space is pending.
    Space,
    /// A table-cell separator is pending.
    CellSep,
    /// A line break is pending; a second one makes it a paragraph boundary.
    Break,
    /// A paragraph boundary is pending.
    Para,
}

/// The normalizer as a mathematical value.
pub struct Normalized {
    /// The characters written so far.
    pub text: Seq<char>,
    /// For each paragraph after the first, the character offset at which it
    /// starts.
    pub starts: Seq<int>,
    /// The pending separator.
    pub state: AccState,
}

/// Whether `c` is white space: the characters that Unicode gives the
/// property White_Space.
pub open spec fn is_whitespace(c: char) -> bool {
    ||| '\u{9}' <= c <= '\u{d}'
    ||| c == ' '
    ||| c == '\u{85}'
    ||| c == '\u{a0}'
    ||| c == '\u{1680}'
    ||| '\u{2000}' <= c <= '\u{200a}'
    ||| c == '\u{2028}'
    ||| c == '\u{2029}'
    ||| c == '\u{202f}'
    ||| c == '\u{205f}'
    ||| c == '\u{3000}'
}

/// The characters of a table-cell separator.
pub open spec fn cell_separator() -> Seq<char> {
    seq![' ', '|', ' ']
}

/// The normalizer before any input: nothing written, and a paragraph
/// boundary pending, so that leading white space and breaks are dropped.
pub open spec fn initial() -> Normalized {
    Normalized { text: Seq::empty(), starts: Seq::empty(), state: AccState::Para }
}

/// The normalizer after the pending separator has been written, ready for
/// content. A pending paragraph boundary writes a newline and records the
/// offset after it as the start of a paragraph; so does the boundary that
/// is pending before any input.
pub open spec fn flushed(m: Normalized) -> Normalized {
    match m.state {
        AccState::Word => m,
        AccState::Space => Normalized { text: m.text.push(' '), state: AccState::Word, ..m },
        AccState::CellSep => Normalized {
            text: m.text + cell_separator(),
            state: AccState::Word,
            ..m
        },
        AccState::Break => Normalized { text: m.text.push('\n'), state: AccState::Word, ..m },
        AccState::Para => Normalized {
            text: m.text.push('\n'),
            starts: m.starts.push(m.text.len() as int + 1),
            state: AccState::Word,
        },
    }
}

/// The normalizer after one character of input.
pub open spec fn pushed(m: Normalized, c: char) -> Normalized {
    if c == '\n' {
        match m.state {
            AccState::Break | AccState::Para => Normalized { state: AccState::Para, ..m },
            _ => Normalized { state: AccState::Break, ..m },
        }
    } else if is_whitespace(c) {
        match m.state {
            AccState::Word => Normalized { state: AccState::Space, ..m },
            _ => m,
        }
    } else {
        Normalized { text: flushed(m).text.push(c), ..flushed(m) }
    }
}

/// The normalizer after the characters of `s`, one after the other.
pub open spec fn fed(m: Normalized, s: Seq<char>) -> Normalized
    decreases s.len(),
{
    if s.len() == 0 {
        m
    } else {
        pushed(fed(m, s.drop_last()), s.last())
    }
}

/// The normalizer after the literal text `s`: the pending separator, then
/// `s` as it stands, be it empty.
pub open spec fn pushed_raw(m: Normalized, s: Seq<char>) -> Normalized {
    Normalized { text: flushed(m).text + s, ..flushed(m) }
}

/// The normalizer after a cell-separator signal.
pub open spec fn cell_ended(m: Normalized) -> Normalized {
    match m.state {
        AccState::Para => m,
        _ => Normalized { state: AccState::CellSep, ..m },
    }
}

/// The normalizer after a break signal.
pub open spec fn broken(m: Normalized) -> Normalized {
    match m.state {
        AccState::Para => m,
        _ => Normalized { state: AccState::Break, ..m },
    }
}

/// Where paragraph `i` ends, as a character offset: before the newline that
/// precedes the next recorded start, or at the end of the text.
pub open spec fn paragraph_end(m: Normalized, i: int) -> int {
    if i + 1 < m.starts.len() {
        m.starts[i + 1] - 1
    } else {
        m.text.len() as int
    }
}

/// The paragraphs of the text: one for each recorded start, from that start
/// to the end of the paragraph. Text without a recorded start is one
/// paragraph.
pub open spec fn paragraphs(m: Normalized) -> Seq<Seq<char>> {
    if m.starts.len() == 0 {
        seq![m.text]
    } else {
        Seq::new(m.starts.len(), |i: int| m.text.subrange(m.starts[i], paragraph_end(m, i)))
    }
}

/// Every recorded start follows a newline, lies in the text, and exceeds
/// the one before it.
pub open spec fn starts_ordered(m: Normalized) -> bool {
    &&& forall|i: int|
        0 <= i < m.starts.len() ==> 0 < #[trigger] m.starts[i] <= m.text.len() && m.text[m.starts[i]
            - 1] == '\n'
    &&& forall|i: int, j: int|
        0 <= i < j < m.starts.len() ==> #[trigger] m.starts[i] < #[trigger] m.starts[j]
}

/// Text in which white space only separates: every white-space character is
/// a single space or a single newline with content on both sides.
pub open spec fn collapsed(s: Seq<char>) -> bool {
    forall|i: int|
        0 <= i < s.len() && is_whitespace(#[trigger] s[i]) ==> {
            &&& s[i] == ' ' || s[i] == '\n'
            &&& 0 < i < s.len() - 1
            &&& !is_whitespace(s[i - 1])
            &&& !is_whitespace(s[i + 1])
        }
}

/// Text in which no separator stands twice in a row, and none at the end:
/// every white-space character is a space or a newline, and content
/// follows it.
pub open spec fn separated(s: Seq<char>) -> bool {
    forall|i: int|
        0 <= i < s.len() && is_whitespace(#[trigger] s[i]) ==> {
            &&& s[i] == ' ' || s[i] == '\n'
            &&& i + 1 < s.len()
            &&& !is_whitespace(s[i + 1])
        }
}

/// The normalizer holds separated text.
pub open spec fn tidy(m: Normalized) -> bool {
    separated(m.text)
}

/// The normalizer `b` holds what `a` holds, and after it what was written
/// since.
pub open spec fn extends(a: Normalized, b: Normalized) -> bool {
    a.text.is_prefix_of(b.text) && a.starts.is_prefix_of(b.starts)
}

/// A normalizer that extends one that extends a third extends the third.
pub proof fn lemma_extends_transitive(a: Normalized, b: Normalized, c: Normalized)
    requires
        extends(a, b),
        extends(b, c),
    ensures
        extends(a, c),
{
    assert(a.text =~= c.text.subrange(0, a.text.len() as int)) by {
        assert(a.text =~= b.text.subrange(0, a.text.len() as int));
        assert(b.text =~= c.text.subrange(0, b.text.len() as int));
    }
    assert(a.starts =~= c.starts.subrange(0, a.starts.len() as int)) by {
        assert(a.starts =~= b.starts.subrange(0, a.starts.len() as int));
        assert(b.starts =~= c.starts.subrange(0, b.starts.len() as int));
    }
}

/// The text only grows: one character of input, literal text and the two
/// signals leave what was written, and the recorded starts, in place.
pub proof fn lemma_operations_extend(m: Normalized, c: char, s: Seq<char>)
    ensures
        extends(m, m),
        extends(m, flushed(m)),
        extends(m, pushed(m, c)),
        extends(m, pushed_raw(m, s)),
        extends(m, cell_ended(m)),
        extends(m, broken(m)),
{
    assert(m.text =~= m.text.subrange(0, m.text.len() as int));
    assert(m.starts =~= m.starts.subrange(0, m.starts.len() as int));
    let f = flushed(m);
    assert(m.text =~= f.text.subrange(0, m.text.len() as int));
    assert(m.starts =~= f.starts.subrange(0, m.starts.len() as int));
    assert(m.text =~= f.text.push(c).subrange(0, m.text.len() as int));
    assert(m.text =~= (f.text + s).subrange(0, m.text.len() as int));
}

/// The text only grows under any run of input.
pub proof fn lemma_fed_extends(m: Normalized, s: Seq<char>)
    ensures
        extends(m, fed(m, s)),
    decreases s.len(),
{
    if s.len() == 0 {
        lemma_operations_extend(m, ' ', s);
    } else {
        let before = fed(m, s.drop_last());
        lemma_fed_extends(m, s.drop_last());
        lemma_operations_extend(before, s.last(), s);
        lemma_extends_transitive(m, before, fed(m, s));
    }
}

/// One character of input keeps the normalizer tidy: no separator is
/// written twice in a row, and none at the end.
pub proof fn lemma_pushed_keeps_tidy(m: Normalized, c: char)
    requires
        tidy(m),
    ensures
        tidy(pushed(m, c)),
{
    if c != '\n' && !is_whitespace(c) {
        let t = pushed(m, c).text;
        let n = m.text.len() as int;
        assert forall|i: int| 0 <= i < t.len() && is_whitespace(#[trigger] t[i]) implies {
            &&& t[i] == ' ' || t[i] == '\n'
            &&& i + 1 < t.len()
            &&& !is_whitespace(t[i + 1])
        } by {
            if i < n {
                assert(t[i] == m.text[i]);
                assert(i + 1 < n);
                assert(t[i + 1] == m.text[i + 1]);
            }
        }
    }
}

/// Any run of input keeps the normalizer tidy.
pub proof fn lemma_fed_keeps_tidy(m: Normalized, s: Seq<char>)
    requires
        tidy(m),
    ensures
        tidy(fed(m, s)),
    decreases s.len(),
{
    if s.len() > 0 {
        lemma_fed_keeps_tidy(m, s.drop_last());
        lemma_pushed_keeps_tidy(fed(m, s.drop_last()), s.last());
    }
}

/// Literal text keeps the normalizer tidy when it is itself separated and
/// starts with content.
pub proof fn lemma_pushed_raw_keeps_tidy(m: Normalized, s: Seq<char>)
    requires
        tidy(m),
        separated(s),
        s.len() > 0,
        !is_whitespace(s[0]),
    ensures
        tidy(pushed_raw(m, s)),
{
    let t = pushed_raw(m, s).text;
    let n = m.text.len() as int;
    let k = flushed(m).text.len() as int;
    assert forall|i: int| 0 <= i < t.len() && is_whitespace(#[trigger] t[i]) implies {
        &&& t[i] == ' ' || t[i] == '\n'
        &&& i + 1 < t.len()
        &&& !is_whitespace(t[i + 1])
    } by {
        if i < n {
            assert(t[i] == m.text[i]);
            assert(i + 1 < n);
            assert(t[i + 1] == m.text[i + 1]);
        } else if i < k {
            assert(t[k] == s[0]);
        } else {
            assert(t[i] == s[i - k]);
            assert(i - k + 1 < s.len());
            assert(t[i + 1] == s[i - k + 1]);
        }
    }
}

/// The two signals keep the normalizer tidy, and a normalizer is tidy
/// before any input.
pub proof fn lemma_signals_keep_tidy(m: Normalized)
    requires
        tidy(m),
    ensures
        tidy(cell_ended(m)),
        tidy(broken(m)),
        tidy(initial()),
{
}

/// What a normalizer holds, before any other input, after the first `k`
/// characters of collapsed text: a newline and those characters, short of a
/// separator that is pending, with the one paragraph starting after the
/// newline.
proof fn lemma_fed_prefix(s: Seq<char>, k: int)
    requires
        collapsed(s),
        0 <= k <= s.len(),
    ensures
        fed(initial(), s.take(k)) == if k == 0 {
            initial()
        } else if s[k - 1] == '\n' {
            Normalized {
                text: seq!['\n'] + s.take(k - 1),
                starts: seq![1int],
                state: AccState::Break,
            }
        } else if s[k - 1] == ' ' {
            Normalized {
                text: seq!['\n'] + s.take(k - 1),
                starts: seq![1int],
                state: AccState::Space,
            }
        } else {
            Normalized { text: seq!['\n'] + s.take(k), starts: seq![1int], state: AccState::Word }
        },
    decreases k,
{
    if k == 0 {
        assert(s.take(0) =~= Seq::<char>::empty());
    } else {
        lemma_fed_prefix(s, k - 1);
        let c = s[k - 1];
        let lead = seq!['\n'];
        assert(s.take(k).drop_last() =~= s.take(k - 1));
        assert(s.take(k).last() == c);
        let before = fed(initial(), s.take(k - 1));
        let after = pushed(before, c);
        assert(fed(initial(), s.take(k)) == after);
        if c == '\n' || is_whitespace(c) {
            assert(is_whitespace(s[k - 1]));
            assert(k - 1 > 0);
            assert(!is_whitespace(s[k - 2]));
            assert(before.state == AccState::Word);
        } else if k - 1 == 0 {
            assert(Seq::<char>::empty().push('\n').push(c) =~= lead + s.take(k));
            assert(Seq::<int>::empty().push(1int) =~= seq![1int]);
        } else if is_whitespace(s[k - 2]) {
            assert((lead + s.take(k - 2)).push(s[k - 2]).push(c) =~= lead + s.take(k));
            assert(k - 2 > 0);
        } else {
            assert((lead + s.take(k - 1)).push(c) =~= lead + s.take(k));
        }
    }
}

/// Normalizing is idempotent: collapsed text fed to a normalizer before any
/// other input is written as it stands, after the newline that opens the
/// text, and is the one paragraph.
pub proof fn lemma_collapsed_is_fixed(s: Seq<char>)
    requires
        collapsed(s),
    ensures
        s.len() > 0 ==> fed(initial(), s).text == seq!['\n'] + s && fed(initial(), s).starts
            == seq![1int],
        s.len() == 0 ==> fed(initial(), s) == initial(),
        paragraphs(fed(initial(), s)) == seq![s],
{
    lemma_fed_prefix(s, s.len() as int);
    assert(s.take(s.len() as int) =~= s);
    let m = fed(initial(), s);
    if s.len() > 0 {
        assert(!is_whitespace(s[s.len() - 1]));
        assert(m.text == seq!['\n'] + s);
        assert(m.starts == seq![1int]);
        assert(m.starts.len() == 1 && m.starts[0] == 1);
        assert(paragraph_end(m, 0) == m.text.len());
        assert(m.text.subrange(1, m.text.len() as int) =~= s);
        assert(paragraphs(m)[0] == s);
        assert(paragraphs(m) =~= seq![s]);
    } else {
        assert(m.text =~= s);
        assert(paragraphs(m) =~= seq![s]);
    }
}

/// Whether `c` is white space. It is what `is_whitespace` says.
pub fn is_whitespace_char(c: char) -> (r: bool)
    ensures
        r == is_whitespace(c),
{
    ('\u{9}' <= c && c <= '\u{d}') || c == ' ' || c == '\u{85}' || c == '\u{a0}' || c
        == '\u{1680}' || ('\u{2000}' <= c && c <= '\u{200a}') || c == '\u{2028}' || c
        == '\u{2029}' || c == '\u{202f}' || c == '\u{205f}' || c == '\u{3000}'
}

/// The text normalizer.
pub struct TextAccumulator {
    paras: Vec<usize>,
    data: String,
    state: AccState,
    starts: Ghost<Seq<int>>,
}

impl View for TextAccumulator {
    type V = Normalized;

    closed spec fn view(&self) -> Normalized {
        Normalized { text: self.data@, starts: self.starts@, state: self.state }
    }
}

impl TextAccumulator {
    /// The recorded paragraph starts as byte offsets into the text.
    pub closed spec fn byte_starts(&self) -> Seq<usize> {
        self.paras@
    }

    /// The recorded starts are ordered, and the byte offsets held are those
    /// of the recorded character offsets.
    pub open spec fn wf(&self) -> bool {
        &&& starts_ordered(self@)
        &&& self.byte_starts().len() == self@.starts.len()
        &&& forall|i: int|
            0 <= i < self@.starts.len() ==> #[trigger] self.byte_starts()[i] == byte_offset(
                self@.text,
                self@.starts[i],
            )
        &&& forall|i: int, j: int|
            0 <= i < j < self.byte_starts().len() ==> #[trigger] self.byte_starts()[i]
                < #[trigger] self.byte_starts()[j]
    }

    /// A normalizer before any input.
    pub fn new() -> (acc: TextAccumulator)
        ensures
            acc.wf(),
            acc@ == initial(),
    {
        TextAccumulator {
            paras: Vec::new(),
            data: String::new(),
            state: AccState::Para,
            starts: Ghost(Seq::empty()),
        }
    }

    /// Writes the pending separator.
    fn flush(&mut self)
        requires
            old(self).wf(),
        ensures
            final(self).wf(),
            final(self)@ == flushed(old(self)@),
    {
        let ghost before = self@;
        match self.state {
            AccState::Word => {},
            AccState::Space => {
                push_char(&mut self.data, ' ');
            },
            AccState::CellSep => {
                proof {
                    reveal_strlit(" | ");
                }
                self.data.append(" | ");
                assert(" | "@ =~= cell_separator());
            },
            AccState::Break => {
                push_char(&mut self.data, '\n');
            },
            AccState::Para => {
                push_char(&mut self.data, '\n');
                let at = byte_len(self.data.as_str());
                self.paras.push(at);
                proof {
                    self.starts = Ghost(self.starts@.push(before.text.len() as int + 1));
                }
            },
        }
        self.state = AccState::Word;
        proof {
            let after = self@;
            assert forall|i: int| 0 <= i < before.starts.len() implies byte_offset(
                after.text,
                before.starts[i],
            ) == byte_offset(before.text, before.starts[i]) by {
                assert(after.text.take(before.starts[i]) =~= before.text.take(before.starts[i]));
            }
            assert forall|i: int, j: int|
                0 <= i < j < self.byte_starts().len() implies self.byte_starts()[i]
                < self.byte_starts()[j] by {
                if j == before.starts.len() {
                    lemma_byte_offset_monotone(after.text, after.starts[i], after.starts[j]);
                }
            }
            assert(after == flushed(before));
        }
    }

    /// Takes one character of input: a newline makes a break pending, or a
    /// paragraph boundary if a break already is; other white space makes a
    /// space pending after content; anything else is content, written after
    /// the pending separator.
    pub fn push(&mut self, c: char)
        requires
            old(self).wf(),
        ensures
            final(self).wf(),
            final(self)@ == pushed(old(self)@, c),
    {
        if c == '\n' {
            match self.state {
                AccState::Break => {
                    self.state = AccState::Para;
                },
                AccState::Para => {},
                _ => {
                    self.state = AccState::Break;
                },
            }
        } else if is_whitespace_char(c) {
            match self.state {
                AccState::Word => {
                    self.state = AccState::Space;
                },
                _ => {},
            }
        } else {
            self.flush();
            let ghost before = self@;
            push_char(&mut self.data, c);
            proof {
                assert forall|i: int| 0 <= i < before.starts.len() implies byte_offset(
                    self@.text,
                    before.starts[i],
                ) == byte_offset(before.text, before.starts[i]) by {
                    assert(self@.text.take(before.starts[i]) =~= before.text.take(
                        before.starts[i],
                    ));
                }
            }
        }
    }

    /// Takes the characters of `s` one after the other.
    pub fn push_str(&mut self, s: &str)
        requires
            old(self).wf(),
        ensures
            final(self).wf(),
            final(self)@ == fed(old(self)@, s@),
    {
        for c in it: s.chars()
            invariant
                it.seq() == s@,
                self.wf(),
                self@ == fed(old(self)@, s@.take(it.index() as int)),
        {
            self.push(c);
            proof {
                let next = s@.take(it.index() + 1);
                assert(next.drop_last() =~= s@.take(it.index() as int));
            }
        }
        proof {
            assert(s@.take(s@.len() as int) =~= s@);
        }
    }

    /// Writes the pending separator and then `s` as it stands, with no
    /// character of it looked at.
    pub fn push_raw(&mut self, s: &str)
        requires
            old(self).wf(),
        ensures
            final(self).wf(),
            final(self)@ == pushed_raw(old(self)@, s@),
    {
        self.flush();
        let ghost before = self@;
        self.data.append(s);
        proof {
            assert forall|i: int| 0 <= i < before.starts.len() implies byte_offset(
                self@.text,
                before.starts[i],
            ) == byte_offset(before.text, before.starts[i]) by {
                assert(self@.text.take(before.starts[i]) =~= before.text.take(before.starts[i]));
            }
        }
    }

    /// Makes a cell separator pending, unless a paragraph boundary is.
    pub fn push_cell_sep(&mut self)
        requires
            old(self).wf(),
        ensures
            final(self).wf(),
            final(self)@ == cell_ended(old(self)@),
    {
        match self.state {
            AccState::Para => {},
            _ => {
                self.state = AccState::CellSep;
            },
        }
    }

    /// Makes a line break pending, unless a paragraph boundary is.
    pub fn push_break(&mut self)
        requires
            old(self).wf(),
        ensures
            final(self).wf(),
            final(self)@ == broken(old(self)@),
    {
        match self.state {
            AccState::Para => {},
            _ => {
                self.state = AccState::Break;
            },
        }
    }

    /// Forgets all input: the normalizer is as it was when made.
    pub fn clear(&mut self)
        ensures
            final(self).wf(),
            final(self)@ == initial(),
    {
        clear_string(&mut self.data);
        self.paras.clear();
        self.state = AccState::Para;
        proof {
            self.starts = Ghost(Seq::empty());
        }
    }

    /// The text written so far.
    pub fn text(&self) -> (t: &str)
        ensures
            t@ == self@.text,
    {
        self.data.as_str()
    }

    /// The length in bytes of the text written so far.
    pub fn len(&self) -> (n: usize)
        ensures
            n == byte_offset(self@.text, self@.text.len() as int),
    {
        byte_len(self.data.as_str())
    }

    /// The pending separator.
    pub fn state(&self) -> (s: AccState)
        ensures
            s == self@.state,
    {
        self.state
    }

    /// The byte offsets at which the paragraphs after the first start.
    pub fn offsets(&self) -> (starts: &Vec<usize>)
        ensures
            starts@ == self.byte_starts(),
    {
        &self.paras
    }

    /// The paragraphs of the text, in order.
    pub fn splits(&self) -> (pieces: Vec<&str>)
        requires
            self.wf(),
        ensures
            texts(pieces@) == paragraphs(self@),
    {
        let whole = self.data.as_str();
        let count = self.paras.len();
        let mut pieces: Vec<&str> = Vec::new();
        if count == 0 {
            pieces.push(whole);
            proof {
                assert(texts(pieces@) =~= paragraphs(self@));
            }
            return pieces;
        }
        let mut from: usize = self.paras[0];
        let mut i: usize = 0;
        while i + 1 < count
            invariant
                self.wf(),
                whole@ == self@.text,
                count == self@.starts.len(),
                0 <= i < count,
                from == self.byte_starts()[i as int],
                pieces@.len() == i,
                forall|k: int| 0 <= k < i ==> (#[trigger] pieces@[k])@ == paragraphs(self@)[k],
            decreases count - i,
        {
            let next = self.paras[i + 1];
            proof {
                let at = self@.starts[i + 1];
                assert(self.byte_starts()[i + 1] == byte_offset(self@.text, at));
                assert(self.byte_starts()[i as int] == byte_offset(
                    self@.text,
                    self@.starts[i as int],
                ));
                assert(self@.starts[i as int] < at);
                lemma_byte_offset_step(self@.text, at - 1);
            }
            let piece = slice_between(
                whole,
                from,
                next - 1,
                Ghost(self@.starts[i as int]),
                Ghost(paragraph_end(self@, i as int)),
            );
            pieces.push(piece);
            from = next;
            i = i + 1;
        }
        proof {
            assert(self.byte_starts()[i as int] == byte_offset(self@.text, self@.starts[i as int]));
            assert(0 < self@.starts[i as int] <= self@.text.len());
        }
        let last = slice_between(
            whole,
            from,
            byte_len(whole),
            Ghost(self@.starts[i as int]),
            Ghost(paragraph_end(self@, i as int)),
        );
        pieces.push(last);
        proof {
            assert(texts(pieces@) =~= paragraphs(self@));
        }
        pieces
    }
}

} // verus!
