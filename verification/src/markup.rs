//! Scanning tag-delimited markup into the normalizer.
//!
//! The markup is read by `quick_xml`, event by event. What each event does
//! to the normalizer is decided here: line-oriented tags become breaks,
//! table cells become cell separators, character data becomes text, and
//! character data that holds escaped markup is scanned in its turn.

use crate::accumulator::{
    broken, cell_ended, extends, fed, initial, is_whitespace, lemma_extends_transitive,
    lemma_fed_extends, lemma_fed_keeps_tidy, lemma_operations_extend, lemma_pushed_keeps_tidy,
    lemma_pushed_raw_keeps_tidy, lemma_signals_keep_tidy, paragraphs, pushed, pushed_raw,
    separated, tidy, Normalized, TextAccumulator,
};
use crate::bytes::{same_bytes, starts_with};
use crate::offsets::{byte_len, byte_offset};
use crate::paragraphs::{line_paragraphs, lined};
use quick_xml::events::Event;
use quick_xml::Reader;
use std::borrow::Cow;
use vstd::prelude::*;
use vstd::string::*;
use vstd::utf8::*;

verus! {

/// One event of markup, as a mathematical value.
pub enum Token {
    /// Character data, as it stands in the markup.
    Text(Seq<u8>),
    /// An opening tag, by its name.
    Start(Seq<u8>),
    /// A closing tag, by its name.
    End(Seq<u8>),
    /// Markup that carries no text and no break.
    Other,
    /// Markup that the reader could not read.
    Malformed,
    /// The end of the markup.
    Eof,
}

/// One event of markup.
#[derive(Debug)]
pub enum MarkupEvent {
    /// Character data, as it stands in the markup.
    Text(Vec<u8>),
    /// An opening tag, by its name.
    Start(Vec<u8>),
    /// A closing tag, by its name.
    End(Vec<u8>),
    /// Markup that carries no text and no break.
    Other,
    /// Markup that the reader could not read.
    Malformed,
    /// The end of the markup.
    Eof,
}

impl View for MarkupEvent {
    type V = Token;

    open spec fn view(&self) -> Token {
        match self {
            MarkupEvent::Text(raw) => Token::Text(raw@),
            MarkupEvent::Start(name) => Token::Start(name@),
            MarkupEvent::End(name) => Token::End(name@),
            MarkupEvent::Other => Token::Other,
            MarkupEvent::Malformed => Token::Malformed,
            MarkupEvent::Eof => Token::Eof,
        }
    }
}

/// Character data after its escapes have been resolved, as a mathematical
/// value.
pub enum Resolved {
    /// The data holds no escape.
    Plain,
    /// The data with each escape replaced by what it stands for.
    Unescaped(Seq<u8>),
    /// The data holds an escape that stands for nothing.
    Malformed,
}

/// Character data after its escapes have been resolved.
#[derive(Debug)]
pub enum Unescaped {
    /// The data holds no escape.
    Plain,
    /// The data with each escape replaced by what it stands for.
    Unescaped(Vec<u8>),
    /// The data holds an escape that stands for nothing.
    Malformed,
}

impl View for Unescaped {
    type V = Resolved;

    open spec fn view(&self) -> Resolved {
        match self {
            Unescaped::Plain => Resolved::Plain,
            Unescaped::Unescaped(bytes) => Resolved::Unescaped(bytes@),
            Unescaped::Malformed => Resolved::Malformed,
        }
    }
}

/// What a tag means to the normalizer.
#[derive(Debug, Clone, Copy, PartialEq, Eq, Structural)]
pub enum Tag {
    /// `br`: a line break where it opens.
    LineBreak,
    /// `tr`: a line break where it opens and where it closes.
    Row,
    /// `p` and `title`: a newline where it opens and where it closes.
    Block,
    /// `div`: as a block, but nothing inside a table cell.
    Division,
    /// `html`: between its two tags, text is normalized character by
    /// character.
    Html,
    /// `td`: a table cell, with a cell separator where it closes.
    Cell,
    /// Any other tag: nothing.
    Other,
}

/// The scanner between two events.
pub struct Scan {
    /// The normalizer.
    pub acc: Normalized,
    /// Whether an `html` element is open.
    pub in_html: bool,
    /// Whether a table cell is open.
    pub in_cell: bool,
}

/// A `quick_xml::Reader` over a string. The reader's own type is declared
/// with a bound on a trait of std's input and output, which proofs cannot
/// speak of; so it is held here, and proofs see of it only the events that
/// it has yet to report.
#[verifier::external_body]
pub struct MarkupReader<'a> {
    reader: Reader<&'a [u8]>,
}

/// The events that a reader reports for markup with these bytes, from its
/// start to its end, the end itself not counted. Markup that the reader
/// cannot read is the last event.
pub uninterp spec fn markup_events(input: Seq<u8>) -> Seq<Token>;

/// The events that `reader` has yet to report, the end of the markup not
/// counted.
pub uninterp spec fn unread(reader: MarkupReader<'_>) -> Seq<Token>;

/// What resolving the escapes of character data with these bytes gives.
pub uninterp spec fn resolved(raw: Seq<u8>) -> Resolved;

/// `Reader::from_str`, then `Reader::check_end_names` with `false`: a
/// reader at the start of `input` that lets a closing tag stand whatever
/// tag is open.
#[verifier::external_body]
fn open_reader<'a>(input: &'a str) -> (reader: MarkupReader<'a>)
    ensures
        unread(reader) == markup_events(encode_utf8(input@)),
{
    let mut reader = Reader::from_str(input);
    reader.check_end_names(false);
    MarkupReader { reader }
}

/// `Reader::read_event`: the next event of the markup, which is then no
/// longer to come; the end of the markup when no event is left, and from
/// then on. Of a tag the event keeps the name, of character data the bytes
/// as they stand in the markup.
#[verifier::external_body]
fn next_event(reader: &mut MarkupReader<'_>) -> (event: MarkupEvent)
    ensures
        (event@ is Eof) == (unread(*old(reader)).len() == 0),
        unread(*old(reader)).len() == 0 ==> unread(*final(reader)).len() == 0,
        unread(*old(reader)).len() > 0 ==> event@ == unread(*old(reader))[0] && unread(
            *final(reader),
        ) == unread(*old(reader)).drop_first(),
{
    let mut buf = Vec::new();
    match reader.reader.read_event(&mut buf) {
        Ok(Event::Text(t)) => MarkupEvent::Text(t.to_vec()),
        Ok(Event::Start(e)) => MarkupEvent::Start(e.name().to_vec()),
        Ok(Event::End(e)) => MarkupEvent::End(e.name().to_vec()),
        Ok(Event::Eof) => MarkupEvent::Eof,
        Ok(_) => MarkupEvent::Other,
        Err(_) => MarkupEvent::Malformed,
    }
}

/// `quick_xml::escape::unescape`: the data with its escapes resolved. The
/// function hands back the bytes it was given when they hold no escape, new
/// bytes when they hold some, and an error when one stands for nothing.
#[verifier::external_body]
fn unescape(raw: &[u8]) -> (r: Unescaped)
    ensures
        r@ == resolved(raw@),
{
    match quick_xml::escape::unescape(raw) {
        Ok(Cow::Borrowed(_)) => Unescaped::Plain,
        Ok(Cow::Owned(bytes)) => Unescaped::Unescaped(bytes),
        Err(_) => Unescaped::Malformed,
    }
}

/// `Reader::decode`: the bytes as text, when they are UTF-8. A reader that
/// was built without other encodings decodes alike whatever it reads.
#[verifier::external_body]
fn decode<'b>(bytes: &'b [u8]) -> (text: Option<&'b str>)
    ensures
        match text {
            Some(s) => valid_utf8(bytes@) && encode_utf8(s@) == bytes@,
            None => !valid_utf8(bytes@),
        },
{
    Reader::from_str("").decode(bytes).ok()
}

/// Whether `name` is the word `word`, byte for byte.
pub open spec fn is_word(name: Seq<u8>, word: Seq<char>) -> bool {
    name == encode_utf8(word)
}

/// What the tag called `name` means. A name counts in lower case and in
/// upper case, not in a mixture.
pub open spec fn tag_kind(name: Seq<u8>) -> Tag {
    if is_word(name, "br"@) || is_word(name, "BR"@) {
        Tag::LineBreak
    } else if is_word(name, "tr"@) || is_word(name, "TR"@) {
        Tag::Row
    } else if is_word(name, "p"@) || is_word(name, "P"@) || is_word(name, "title"@) || is_word(
        name,
        "TITLE"@,
    ) {
        Tag::Block
    } else if is_word(name, "div"@) || is_word(name, "DIV"@) {
        Tag::Division
    } else if is_word(name, "html"@) || is_word(name, "HTML"@) {
        Tag::Html
    } else if is_word(name, "td"@) || is_word(name, "TD"@) {
        Tag::Cell
    } else {
        Tag::Other
    }
}

/// The scanner after a tag of this kind has opened.
pub open spec fn tag_opened(st: Scan, kind: Tag) -> Scan {
    match kind {
        Tag::LineBreak | Tag::Row => Scan { acc: broken(st.acc), ..st },
        Tag::Block => Scan { acc: pushed(st.acc, '\n'), ..st },
        Tag::Division => if st.in_cell {
            st
        } else {
            Scan { acc: pushed(st.acc, '\n'), ..st }
        },
        Tag::Html => Scan { in_html: true, ..st },
        Tag::Cell => Scan { in_cell: true, ..st },
        Tag::Other => st,
    }
}

/// The scanner after a tag of this kind has closed.
pub open spec fn tag_closed(st: Scan, kind: Tag) -> Scan {
    match kind {
        Tag::LineBreak => st,
        Tag::Row => Scan { acc: broken(st.acc), ..st },
        Tag::Block => Scan { acc: pushed(st.acc, '\n'), ..st },
        Tag::Division => if st.in_cell {
            st
        } else {
            Scan { acc: pushed(st.acc, '\n'), ..st }
        },
        Tag::Html => Scan { in_html: false, ..st },
        Tag::Cell => Scan { acc: cell_ended(st.acc), in_cell: false, ..st },
        Tag::Other => st,
    }
}

/// The normalizer after a run of text: white space, the text, white space.
/// Inside `html` the text is normalized character by character; elsewhere
/// it is written as it stands.
pub open spec fn text_read(m: Normalized, in_html: bool, text: Seq<char>) -> Normalized {
    let led = pushed(m, ' ');
    let body = if in_html {
        fed(led, text)
    } else {
        pushed_raw(led, text)
    };
    pushed(body, ' ')
}

/// Whether character data starts as a uuencoded payload does.
pub open spec fn is_payload(raw: Seq<u8>) -> bool {
    encode_utf8("\nbegin 644 "@).is_prefix_of(raw)
}

/// The normalizer after the markup with bytes `input`: the scanner, made
/// anew, after all the events of the markup, and then a newline.
pub open spec fn parsed(m: Normalized, input: Seq<u8>) -> Normalized
    decreases input.len(), 2nat, 0nat,
{
    pushed(
        scanned(
            Scan { acc: m, in_html: false, in_cell: false },
            markup_events(input),
            input.len(),
        ).acc,
        '\n',
    )
}

/// The scanner after the events, one after the other. `limit` is the
/// length of the markup that the events come from.
pub open spec fn scanned(st: Scan, events: Seq<Token>, limit: nat) -> Scan
    decreases limit, 1nat, events.len(),
{
    if events.len() == 0 {
        st
    } else {
        let before = scanned(st, events.drop_last(), limit);
        match events.last() {
            Token::Text(raw) => Scan {
                acc: text_scanned(before.acc, before.in_html, raw, limit),
                ..before
            },
            Token::Start(name) => tag_opened(before, tag_kind(name)),
            Token::End(name) => tag_closed(before, tag_kind(name)),
            _ => before,
        }
    }
}

/// The normalizer after character data. A uuencoded payload is passed
/// over; other data is taken with its escapes resolved.
pub open spec fn text_scanned(m: Normalized, in_html: bool, raw: Seq<u8>, limit: nat) -> Normalized
    decreases limit, 0nat, 1nat,
{
    if is_payload(raw) {
        m
    } else {
        text_resolved(m, in_html, raw, resolved(raw), limit)
    }
}

/// The normalizer after character data whose escapes resolve to `outcome`.
/// An escape that stands for nothing and bytes that are no text are passed
/// over. Data without escapes is text. Data with escapes may hold markup of
/// its own: resolved, it is scanned as markup when it is shorter than the
/// markup it was found in, and is text when it is not.
pub open spec fn text_resolved(
    m: Normalized,
    in_html: bool,
    raw: Seq<u8>,
    outcome: Resolved,
    limit: nat,
) -> Normalized
    decreases limit, 0nat, 0nat,
{
    match outcome {
        Resolved::Malformed => m,
        Resolved::Plain => if valid_utf8(raw) {
            text_read(m, in_html, decode_utf8(raw))
        } else {
            m
        },
        Resolved::Unescaped(bytes) => if !valid_utf8(bytes) {
            m
        } else if bytes.len() < limit {
            parsed(m, bytes)
        } else {
            text_read(m, in_html, decode_utf8(bytes))
        },
    }
}

/// A count as the machine holds it: the count itself, or the largest
/// number that fits when the count is larger.
pub open spec fn capped(n: nat) -> usize {
    if n > usize::MAX {
        usize::MAX
    } else {
        n as usize
    }
}

/// The number of fragments that the scanner passes over in the markup with
/// bytes `input`: markup that the reader cannot read, payloads, character
/// data with an escape that stands for nothing, and bytes that are no text.
pub open spec fn skipped(input: Seq<u8>) -> nat
    decreases input.len(), 2nat, 0nat,
{
    events_skipped(markup_events(input), input.len())
}

/// The number of fragments passed over among the events.
pub open spec fn events_skipped(events: Seq<Token>, limit: nat) -> nat
    decreases limit, 1nat, events.len(),
{
    if events.len() == 0 {
        0
    } else {
        events_skipped(events.drop_last(), limit) + match events.last() {
            Token::Text(raw) => text_skipped(raw, limit),
            Token::Malformed => 1,
            _ => 0,
        }
    }
}

/// The number of fragments passed over in character data.
pub open spec fn text_skipped(raw: Seq<u8>, limit: nat) -> nat
    decreases limit, 0nat, 1nat,
{
    if is_payload(raw) {
        1
    } else {
        resolved_skipped(raw, resolved(raw), limit)
    }
}

/// The number of fragments passed over in character data whose escapes
/// resolve to `outcome`.
pub open spec fn resolved_skipped(raw: Seq<u8>, outcome: Resolved, limit: nat) -> nat
    decreases limit, 0nat, 0nat,
{
    match outcome {
        Resolved::Malformed => 1,
        Resolved::Plain => if valid_utf8(raw) {
            0
        } else {
            1
        },
        Resolved::Unescaped(bytes) => if !valid_utf8(bytes) {
            1
        } else if bytes.len() < limit {
            skipped(bytes)
        } else {
            0
        },
    }
}

/// Tags keep the normalizer tidy, and so does text: inside `html` any
/// text, elsewhere text that is itself separated and starts with content.
pub proof fn lemma_steps_keep_tidy(st: Scan, kind: Tag, text: Seq<char>)
    requires
        tidy(st.acc),
    ensures
        tidy(tag_opened(st, kind).acc),
        tidy(tag_closed(st, kind).acc),
        tidy(text_read(st.acc, true, text)),
        separated(text) && text.len() > 0 && !is_whitespace(text[0]) ==> tidy(
            text_read(st.acc, false, text),
        ),
{
    let led = pushed(st.acc, ' ');
    lemma_signals_keep_tidy(st.acc);
    lemma_pushed_keeps_tidy(st.acc, '\n');
    lemma_pushed_keeps_tidy(st.acc, ' ');
    lemma_fed_keeps_tidy(led, text);
    lemma_pushed_keeps_tidy(fed(led, text), ' ');
    if separated(text) && text.len() > 0 && !is_whitespace(text[0]) {
        lemma_pushed_raw_keeps_tidy(led, text);
        lemma_pushed_keeps_tidy(pushed_raw(led, text), ' ');
    }
}

/// A run of text only adds to what the normalizer holds.
pub proof fn lemma_text_read_extends(m: Normalized, in_html: bool, text: Seq<char>)
    ensures
        extends(m, text_read(m, in_html, text)),
{
    let led = pushed(m, ' ');
    let body = if in_html {
        fed(led, text)
    } else {
        pushed_raw(led, text)
    };
    lemma_operations_extend(m, ' ', text);
    lemma_operations_extend(led, ' ', text);
    lemma_fed_extends(led, text);
    lemma_operations_extend(body, ' ', text);
    lemma_extends_transitive(m, led, body);
    lemma_extends_transitive(m, body, pushed(body, ' '));
}

/// Scanning markup only adds to what the normalizer holds, whatever the
/// markup.
pub proof fn lemma_parsed_extends(m: Normalized, input: Seq<u8>)
    ensures
        extends(m, parsed(m, input)),
    decreases input.len(), 2nat, 0nat,
{
    let start = Scan { acc: m, in_html: false, in_cell: false };
    let end = scanned(start, markup_events(input), input.len());
    lemma_scanned_extends(start, markup_events(input), input.len());
    lemma_operations_extend(end.acc, '\n', Seq::empty());
    lemma_extends_transitive(m, end.acc, parsed(m, input));
}

/// Events only add to what the normalizer holds.
pub proof fn lemma_scanned_extends(st: Scan, events: Seq<Token>, limit: nat)
    ensures
        extends(st.acc, scanned(st, events, limit).acc),
    decreases limit, 1nat, events.len(),
{
    if events.len() == 0 {
        lemma_operations_extend(st.acc, ' ', Seq::empty());
    } else {
        let before = scanned(st, events.drop_last(), limit);
        let after = scanned(st, events, limit);
        lemma_scanned_extends(st, events.drop_last(), limit);
        lemma_operations_extend(before.acc, '\n', Seq::empty());
        match events.last() {
            Token::Text(raw) => {
                lemma_text_scanned_extends(before.acc, before.in_html, raw, limit);
            },
            _ => {},
        }
        lemma_extends_transitive(st.acc, before.acc, after.acc);
    }
}

/// Character data only adds to what the normalizer holds, whatever its
/// escapes resolve to.
pub proof fn lemma_text_resolved_extends(
    m: Normalized,
    in_html: bool,
    raw: Seq<u8>,
    outcome: Resolved,
    limit: nat,
)
    ensures
        extends(m, text_resolved(m, in_html, raw, outcome, limit)),
    decreases limit, 0nat, 0nat,
{
    lemma_operations_extend(m, ' ', Seq::empty());
    match outcome {
        Resolved::Malformed => {},
        Resolved::Plain => {
            if valid_utf8(raw) {
                lemma_text_read_extends(m, in_html, decode_utf8(raw));
            }
        },
        Resolved::Unescaped(bytes) => {
            if !valid_utf8(bytes) {
            } else if bytes.len() < limit {
                lemma_parsed_extends(m, bytes);
            } else {
                lemma_text_read_extends(m, in_html, decode_utf8(bytes));
            }
        },
    }
}

/// Character data only adds to what the normalizer holds.
pub proof fn lemma_text_scanned_extends(m: Normalized, in_html: bool, raw: Seq<u8>, limit: nat)
    ensures
        extends(m, text_scanned(m, in_html, raw, limit)),
    decreases limit, 0nat, 1nat,
{
    lemma_operations_extend(m, ' ', Seq::empty());
    if !is_payload(raw) {
        lemma_text_resolved_extends(m, in_html, raw, resolved(raw), limit);
    }
}

/// The scanner's two flags.
#[derive(Debug, Clone, Copy, PartialEq, Eq, Structural)]
pub struct Flags {
    /// Whether an `html` element is open.
    pub in_html: bool,
    /// Whether a table cell is open.
    pub in_cell: bool,
}

/// The scanner that a normalizer and two flags make.
pub open spec fn scan_of(acc: TextAccumulator, flags: Flags) -> Scan {
    Scan { acc: acc@, in_html: flags.in_html, in_cell: flags.in_cell }
}

/// Whether `name` is the word `word`.
fn named(name: &[u8], word: &str) -> (r: bool)
    ensures
        r == is_word(name@, word@),
{
    same_bytes(name, word.as_bytes())
}

/// What the tag called `name` means.
pub fn classify_tag(name: &[u8]) -> (kind: Tag)
    ensures
        kind == tag_kind(name@),
{
    if named(name, "br") || named(name, "BR") {
        Tag::LineBreak
    } else if named(name, "tr") || named(name, "TR") {
        Tag::Row
    } else if named(name, "p") || named(name, "P") || named(name, "title") || named(
        name,
        "TITLE",
    ) {
        Tag::Block
    } else if named(name, "div") || named(name, "DIV") {
        Tag::Division
    } else if named(name, "html") || named(name, "HTML") {
        Tag::Html
    } else if named(name, "td") || named(name, "TD") {
        Tag::Cell
    } else {
        Tag::Other
    }
}

/// Takes the opening of a tag of this kind.
pub fn open_tag(acc: &mut TextAccumulator, flags: &mut Flags, kind: Tag)
    requires
        old(acc).wf(),
    ensures
        final(acc).wf(),
        scan_of(*final(acc), *final(flags)) == tag_opened(scan_of(*old(acc), *old(flags)), kind),
{
    match kind {
        Tag::LineBreak | Tag::Row => {
            acc.push_break();
        },
        Tag::Block => {
            acc.push('\n');
        },
        Tag::Division => {
            if !flags.in_cell {
                acc.push('\n');
            }
        },
        Tag::Html => {
            flags.in_html = true;
        },
        Tag::Cell => {
            flags.in_cell = true;
        },
        Tag::Other => {},
    }
}

/// Takes the closing of a tag of this kind.
pub fn close_tag(acc: &mut TextAccumulator, flags: &mut Flags, kind: Tag)
    requires
        old(acc).wf(),
    ensures
        final(acc).wf(),
        scan_of(*final(acc), *final(flags)) == tag_closed(scan_of(*old(acc), *old(flags)), kind),
{
    match kind {
        Tag::LineBreak => {},
        Tag::Row => {
            acc.push_break();
        },
        Tag::Block => {
            acc.push('\n');
        },
        Tag::Division => {
            if !flags.in_cell {
                acc.push('\n');
            }
        },
        Tag::Html => {
            flags.in_html = false;
        },
        Tag::Cell => {
            flags.in_cell = false;
            acc.push_cell_sep();
        },
        Tag::Other => {},
    }
}

/// Takes a run of text: white space, the text, white space.
pub fn read_text(acc: &mut TextAccumulator, in_html: bool, text: &str)
    requires
        old(acc).wf(),
    ensures
        final(acc).wf(),
        final(acc)@ == text_read(old(acc)@, in_html, text@),
{
    acc.push(' ');
    if in_html {
        acc.push_str(text);
    } else {
        acc.push_raw(text);
    }
    acc.push(' ');
}

/// Takes character data whose escapes resolve to `outcome`, and says how
/// many fragments it passed over. `limit` is the length in bytes of the
/// markup that the data was found in.
pub fn resolve_text(
    acc: &mut TextAccumulator,
    in_html: bool,
    raw: &[u8],
    outcome: &Unescaped,
    limit: usize,
) -> (passed: usize)
    requires
        old(acc).wf(),
    ensures
        final(acc).wf(),
        final(acc)@ == text_resolved(old(acc)@, in_html, raw@, outcome@, limit as nat),
        passed == capped(resolved_skipped(raw@, outcome@, limit as nat)),
    decreases limit, 0nat,
{
    broadcast use encode_utf8_decode_utf8;

    match outcome {
        Unescaped::Malformed => 1,
        Unescaped::Plain => {
            match decode(raw) {
                Some(text) => {
                    read_text(acc, in_html, text);
                    0
                },
                None => 1,
            }
        },
        Unescaped::Unescaped(bytes) => {
            match decode(bytes.as_slice()) {
                Some(text) => {
                    if byte_len(text) < limit {
                        parse_quick_xml(text, acc)
                    } else {
                        read_text(acc, in_html, text);
                        0
                    }
                },
                None => 1,
            }
        },
    }
}

/// Takes character data as it stands in the markup, and says how many
/// fragments it passed over. `limit` is the length in bytes of the markup
/// that the data was found in.
pub fn scan_text(acc: &mut TextAccumulator, in_html: bool, raw: &[u8], limit: usize) -> (passed:
    usize)
    requires
        old(acc).wf(),
    ensures
        final(acc).wf(),
        final(acc)@ == text_scanned(old(acc)@, in_html, raw@, limit as nat),
        passed == capped(text_skipped(raw@, limit as nat)),
    decreases limit, 1nat,
{
    if starts_with(raw, "\nbegin 644 ".as_bytes()) {
        1
    } else {
        let outcome = unescape(raw);
        resolve_text(acc, in_html, raw, &outcome, limit)
    }
}

/// Scans the markup `input` into the normalizer: every event of the markup
/// in turn, and a newline at the end. Says how many fragments of the markup
/// it passed over.
pub fn parse_quick_xml(input: &str, accumulator: &mut TextAccumulator) -> (passed: usize)
    requires
        old(accumulator).wf(),
    ensures
        final(accumulator).wf(),
        final(accumulator)@ == parsed(old(accumulator)@, encode_utf8(input@)),
        passed == capped(skipped(encode_utf8(input@))),
    decreases encode_utf8(input@).len(), 2nat,
{
    let ghost bytes = encode_utf8(input@);
    let ghost start = Scan { acc: accumulator@, in_html: false, in_cell: false };
    let limit = byte_len(input);
    let mut reader = open_reader(input);
    let mut flags = Flags { in_html: false, in_cell: false };
    let mut passed: usize = 0;
    let ghost mut done: Seq<Token> = Seq::empty();
    proof {
        assert(done + unread(reader) =~= markup_events(bytes));
    }
    loop
        invariant
            accumulator.wf(),
            limit == bytes.len(),
            bytes == encode_utf8(input@),
            done + unread(reader) == markup_events(bytes),
            scan_of(*accumulator, flags) == scanned(start, done, limit as nat),
            passed == capped(events_skipped(done, limit as nat)),
        ensures
            accumulator.wf(),
            scan_of(*accumulator, flags) == scanned(start, markup_events(bytes), limit as nat),
            passed == capped(events_skipped(markup_events(bytes), limit as nat)),
        decreases unread(reader).len(),
    {
        let ghost rest = unread(reader);
        let event = next_event(&mut reader);
        proof {
            if rest.len() > 0 {
                assert(done.push(event@).drop_last() =~= done);
                assert(done.push(event@) + rest.drop_first() =~= done + rest);
            } else {
                assert(done + rest =~= done);
            }
        }
        let more: usize = match &event {
            MarkupEvent::Eof => {
                break ;
            },
            MarkupEvent::Text(raw) => scan_text(accumulator, flags.in_html, raw.as_slice(), limit),
            MarkupEvent::Start(name) => {
                open_tag(accumulator, &mut flags, classify_tag(name.as_slice()));
                0
            },
            MarkupEvent::End(name) => {
                close_tag(accumulator, &mut flags, classify_tag(name.as_slice()));
                0
            },
            MarkupEvent::Malformed => 1,
            MarkupEvent::Other => 0,
        };
        passed = passed.saturating_add(more);
        proof {
            done = done.push(event@);
        }
    }
    accumulator.push('\n');
    passed
}

/// What normalizing one document gives.
#[derive(Debug)]
pub struct Cleaned {
    /// The plain text: each paragraph, and a newline after each.
    pub text: String,
    /// The length in bytes of the text that the normalizer holds; zero when
    /// the document has no content.
    pub bytes: usize,
    /// The number of fragments of the markup that were passed over.
    pub passed: usize,
}

/// Normalizes the markup `input` with a normalizer made anew: the plain
/// text of its paragraphs, the length of what the normalizer holds, and
/// the number of fragments passed over.
pub fn normalize_markup(input: &str) -> (r: Cleaned)
    ensures
        r.text@ == lined(paragraphs(parsed(initial(), encode_utf8(input@)))),
        r.bytes == byte_offset(
            parsed(initial(), encode_utf8(input@)).text,
            parsed(initial(), encode_utf8(input@)).text.len() as int,
        ),
        r.passed == capped(skipped(encode_utf8(input@))),
{
    let mut accumulator = TextAccumulator::new();
    let passed = parse_quick_xml(input, &mut accumulator);
    let pieces = accumulator.splits();
    let text = line_paragraphs(&pieces);
    let bytes = accumulator.len();
    Cleaned { text, bytes, passed }
}

} // verus!
