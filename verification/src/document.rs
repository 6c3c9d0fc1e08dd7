//! Whole documents: the faults that spans can have, the paragraphs one
//! after the other, and the page around them.

use crate::overlay::{paragraph_spans, render_paragraph, rendered_paragraph, spans_fit, Match, Span};
use crate::paragraphs::{split_blank, split_paragraphs, texts};
use vstd::prelude::*;
use vstd::string::*;

verus! {

/// Why spans cannot be laid over a text.
#[derive(Debug, Clone, Copy, PartialEq, Eq, Structural)]
pub enum RenderError {
    /// A source has no list of spans for one of the paragraphs.
    MissingParagraph,
    /// A span ends where it starts, or before.
    EmptySpan,
    /// A span ends after the last character of its paragraph.
    SpanOutOfText,
}

/// Every source has a list of spans for each of `n` paragraphs.
pub open spec fn covers<'a>(matches: Seq<Vec<Vec<Match<'a>>>>, n: nat) -> bool {
    forall|s: int| 0 <= s < matches.len() ==> (#[trigger] matches[s])@.len() >= n
}

/// Every span ends after it starts.
pub open spec fn spans_nonempty(spans: Seq<Seq<Span>>) -> bool {
    forall|s: int, j: int|
        0 <= s < spans.len() && 0 <= j < spans[s].len() ==> (#[trigger] spans[s][j]).start
            < spans[s][j].end
}

/// Every span ends in a text of `n` characters.
pub open spec fn spans_within(spans: Seq<Seq<Span>>, n: nat) -> bool {
    forall|s: int, j: int|
        0 <= s < spans.len() && 0 <= j < spans[s].len() ==> (#[trigger] spans[s][j]).end <= n
}

/// What is wrong with the spans, if anything: a missing list comes before
/// an empty span, and an empty span before one that leaves its paragraph.
pub open spec fn fault<'a>(paragraphs: Seq<Seq<char>>, matches: Seq<Vec<Vec<Match<'a>>>>) -> Option<
    RenderError,
> {
    if !covers(matches, paragraphs.len()) {
        Some(RenderError::MissingParagraph)
    } else if exists|p: int|
        0 <= p < paragraphs.len() && !spans_nonempty(#[trigger] paragraph_spans(matches, p)) {
        Some(RenderError::EmptySpan)
    } else if exists|p: int|
        0 <= p < paragraphs.len() && !spans_within(
            #[trigger] paragraph_spans(matches, p),
            paragraphs[p].len(),
        ) {
        Some(RenderError::SpanOutOfText)
    } else {
        None
    }
}

/// The markup of the first `n` paragraphs, one after the other.
pub open spec fn rendered<'a>(
    paragraphs: Seq<Seq<char>>,
    matches: Seq<Vec<Vec<Match<'a>>>>,
    n: int,
) -> Seq<char>
    decreases n,
{
    if n <= 0 {
        Seq::empty()
    } else {
        rendered(paragraphs, matches, n - 1) + rendered_paragraph(
            paragraphs[n - 1],
            paragraph_spans(matches, n - 1),
        )
    }
}

/// Whether every source has a list of spans for each of `n` paragraphs.
fn lists_cover(matches: &[Vec<Vec<Match<'_>>>], n: usize) -> (ok: bool)
    ensures
        ok == covers(matches@, n as nat),
{
    let mut s: usize = 0;
    while s < matches.len()
        invariant
            0 <= s <= matches@.len(),
            forall|t: int| 0 <= t < s ==> (#[trigger] matches@[t])@.len() >= n,
        decreases matches.len() - s,
    {
        if matches[s].len() < n {
            return false;
        }
        s = s + 1;
    }
    true
}

/// Whether every span of paragraph `p` ends after it starts.
fn all_nonempty(matches: &[Vec<Vec<Match<'_>>>], p: usize) -> (ok: bool)
    requires
        forall|s: int| 0 <= s < matches@.len() ==> p < (#[trigger] matches@[s])@.len(),
    ensures
        ok == spans_nonempty(paragraph_spans(matches@, p as int)),
{
    let ghost spans = paragraph_spans(matches@, p as int);
    let mut s: usize = 0;
    while s < matches.len()
        invariant
            0 <= s <= matches@.len(),
            spans == paragraph_spans(matches@, p as int),
            forall|t: int| 0 <= t < matches@.len() ==> p < (#[trigger] matches@[t])@.len(),
            forall|t: int, j: int|
                0 <= t < s && 0 <= j < spans[t].len() ==> (#[trigger] spans[t][j]).start
                    < spans[t][j].end,
        decreases matches.len() - s,
    {
        let list = &matches[s][p];
        let mut j: usize = 0;
        while j < list.len()
            invariant
                0 <= j <= list@.len(),
                0 <= s < matches@.len(),
                spans == paragraph_spans(matches@, p as int),
                p < matches@[s as int]@.len(),
                *list == matches@[s as int]@[p as int],
                forall|i: int|
                    0 <= i < j ==> (#[trigger] spans[s as int][i]).start < spans[s as int][i].end,
            decreases list.len() - j,
        {
            let m = &list[j];
            if m.span.1 <= m.span.0 {
                proof {
                    assert(spans[s as int][j as int] == m@);
                }
                return false;
            }
            proof {
                assert(spans[s as int][j as int] == m@);
            }
            j = j + 1;
        }
        s = s + 1;
    }
    true
}

/// Whether every span of paragraph `p` ends in a text of `n` characters.
fn all_within(matches: &[Vec<Vec<Match<'_>>>], p: usize, n: usize) -> (ok: bool)
    requires
        forall|s: int| 0 <= s < matches@.len() ==> p < (#[trigger] matches@[s])@.len(),
    ensures
        ok == spans_within(paragraph_spans(matches@, p as int), n as nat),
{
    let ghost spans = paragraph_spans(matches@, p as int);
    let mut s: usize = 0;
    while s < matches.len()
        invariant
            0 <= s <= matches@.len(),
            spans == paragraph_spans(matches@, p as int),
            forall|t: int| 0 <= t < matches@.len() ==> p < (#[trigger] matches@[t])@.len(),
            forall|t: int, j: int|
                0 <= t < s && 0 <= j < spans[t].len() ==> (#[trigger] spans[t][j]).end <= n,
        decreases matches.len() - s,
    {
        let list = &matches[s][p];
        let mut j: usize = 0;
        while j < list.len()
            invariant
                0 <= j <= list@.len(),
                0 <= s < matches@.len(),
                spans == paragraph_spans(matches@, p as int),
                p < matches@[s as int]@.len(),
                *list == matches@[s as int]@[p as int],
                forall|i: int| 0 <= i < j ==> (#[trigger] spans[s as int][i]).end <= n,
            decreases list.len() - j,
        {
            let m = &list[j];
            if m.span.1 > n {
                proof {
                    assert(spans[s as int][j as int] == m@);
                }
                return false;
            }
            proof {
                assert(spans[s as int][j as int] == m@);
            }
            j = j + 1;
        }
        s = s + 1;
    }
    true
}

/// What is wrong with the spans, if anything.
pub fn find_fault(paragraphs: &Vec<&str>, matches: &[Vec<Vec<Match<'_>>>]) -> (r: Option<
    RenderError,
>)
    ensures
        r == fault(texts(paragraphs@), matches@),
{
    let ghost pars = texts(paragraphs@);
    if !lists_cover(matches, paragraphs.len()) {
        return Some(RenderError::MissingParagraph);
    }
    let mut p: usize = 0;
    while p < paragraphs.len()
        invariant
            0 <= p <= paragraphs@.len(),
            pars == texts(paragraphs@),
            covers(matches@, paragraphs@.len()),
            forall|q: int| 0 <= q < p ==> spans_nonempty(#[trigger] paragraph_spans(matches@, q)),
        decreases paragraphs.len() - p,
    {
        if !all_nonempty(matches, p) {
            return Some(RenderError::EmptySpan);
        }
        p = p + 1;
    }
    let mut p: usize = 0;
    while p < paragraphs.len()
        invariant
            0 <= p <= paragraphs@.len(),
            pars == texts(paragraphs@),
            covers(matches@, paragraphs@.len()),
            forall|q: int|
                0 <= q < paragraphs@.len() ==> spans_nonempty(
                    #[trigger] paragraph_spans(matches@, q),
                ),
            forall|q: int|
                0 <= q < p ==> spans_within(#[trigger] paragraph_spans(matches@, q), pars[q].len()),
        decreases paragraphs.len() - p,
    {
        let n = paragraphs[p].unicode_len();
        if !all_within(matches, p, n) {
            return Some(RenderError::SpanOutOfText);
        }
        p = p + 1;
    }
    None
}

/// Writes the markup of the paragraphs at the end of `out`, or says what
/// is wrong with the spans and leaves `out` as it is.
pub fn merge_paragraphs(
    paragraphs: &Vec<&str>,
    matches: &[Vec<Vec<Match<'_>>>],
    out: &mut String,
) -> (r: Result<(), RenderError>)
    ensures
        match fault(texts(paragraphs@), matches@) {
            Some(e) => r == Err::<(), RenderError>(e) && final(out)@ == old(out)@,
            None => r.is_ok() && final(out)@ == old(out)@ + rendered(
                texts(paragraphs@),
                matches@,
                paragraphs@.len() as int,
            ),
        },
{
    let ghost pars = texts(paragraphs@);
    match find_fault(paragraphs, matches) {
        Some(e) => {
            return Err(e);
        },
        None => {},
    }
    let mut p: usize = 0;
    proof {
        assert(old(out)@ + rendered(pars, matches@, 0) =~= old(out)@);
    }
    while p < paragraphs.len()
        invariant
            0 <= p <= paragraphs@.len(),
            pars == texts(paragraphs@),
            fault(pars, matches@).is_none(),
            out@ == old(out)@ + rendered(pars, matches@, p as int),
        decreases paragraphs.len() - p,
    {
        proof {
            let spans = paragraph_spans(matches@, p as int);
            assert(spans_nonempty(spans));
            assert(spans_within(spans, pars[p as int].len()));
            assert(spans_fit(spans, paragraphs@[p as int]@.len()));
        }
        render_paragraph(paragraphs[p], matches, p, out);
        proof {
            assert(out@ =~= old(out)@ + rendered(pars, matches@, p + 1));
        }
        p = p + 1;
    }
    Ok(())
}

/// Writes the markup of `plain`, whose paragraphs blank lines divide, at
/// the end of `out`, or says what is wrong with the spans and leaves `out`
/// as it is.
pub fn merge(plain: &str, matches: &[Vec<Vec<Match<'_>>>], out: &mut String) -> (r: Result<
    (),
    RenderError,
>)
    ensures
        match fault(split_blank(plain@), matches@) {
            Some(e) => r == Err::<(), RenderError>(e) && final(out)@ == old(out)@,
            None => r.is_ok() && final(out)@ == old(out)@ + rendered(
                split_blank(plain@),
                matches@,
                split_blank(plain@).len() as int,
            ),
        },
{
    let paragraphs = split_paragraphs(plain);
    proof {
        assert(texts(paragraphs@) =~= split_blank(plain@));
    }
    merge_paragraphs(&paragraphs, matches, out)
}

/// What stands before the paragraphs in a page: the head, with one
/// background colour for each set of up to three sources, and the start of
/// the body.
pub const HEAD: &'static str = r###"<html>
  <head>
    <meta charset="UTF-8">
    <style type="text/css">
span.i1 {
    background-color: rgba(200,0,0,0.2);
}
span.i2 {
    background-color: rgba(0,0,200,0.2);
}
span.i3 {
    background-color: rgba(0,200,0,0.2);
}
span.i1.i2 {
    background-color: rgba(150,0,150,0.2);
}
span.i1.i3 {
    background-color: rgba(150,150,0,0.2);
}
span.i2.i3 {
    background-color: rgba(0,150,150,0.2);
}
span.i1.i2.i3 {
    background-color: rgba(0,0,0,0.2);
}

div.label::before {
    content: attr(input) ":";
}
div.label::after {
    content: " ";
}
div.label {
    position: relative;
    display: inline;
    font-size: 67%;
}
    </style>
  </head>
  <body>
"###;

/// What stands after the paragraphs in a page.
pub const TAIL: &'static str = r###"
  </body>
</html>
"###;

/// The page that shows `plain` with the spans laid over it: the head, the
/// markup of the paragraphs, and the tail.
pub fn render_document(plain: &str, matches: &[Vec<Vec<Match<'_>>>]) -> (r: Result<
    String,
    RenderError,
>)
    ensures
        match fault(split_blank(plain@), matches@) {
            Some(e) => r == Err::<String, RenderError>(e),
            None => r.is_ok() && r.unwrap()@ == HEAD@ + rendered(
                split_blank(plain@),
                matches@,
                split_blank(plain@).len() as int,
            ) + TAIL@,
        },
{
    let mut out = String::new();
    out.append(HEAD);
    match merge(plain, matches, &mut out) {
        Ok(()) => {
            out.append(TAIL);
            proof {
                assert(out@ =~= HEAD@ + rendered(
                    split_blank(plain@),
                    matches@,
                    split_blank(plain@).len() as int,
                ) + TAIL@);
            }
            Ok(out)
        },
        Err(e) => Err(e),
    }
}

} // verus!
