//! The order of spans: by start, then by end, then by label, then by
//! matched text, the two texts byte by byte.

use crate::bytes::{
    bytes_before, bytes_lt, lemma_bytes_lt_irreflexive, lemma_bytes_lt_total,
    lemma_bytes_lt_transitive, same_bytes,
};
use crate::offsets::lemma_same_bytes_same_chars;
use crate::overlay::{list_spans, Match, Span};
use std::borrow::Cow;
use vstd::prelude::*;
use vstd::string::*;
use vstd::utf8::*;

verus! {

/// Whether text `a` comes before text `b`, by their bytes.
pub open spec fn text_lt(a: Seq<char>, b: Seq<char>) -> bool {
    bytes_lt(encode_utf8(a), encode_utf8(b))
}

/// Whether span `a` comes before span `b`.
pub open spec fn span_lt(a: Span, b: Span) -> bool {
    ||| a.start < b.start
    ||| a.start == b.start && a.end < b.end
    ||| a.start == b.start && a.end == b.end && text_lt(a.label, b.label)
    ||| a.start == b.start && a.end == b.end && a.label == b.label && text_lt(a.text, b.text)
}

/// How many of the first `n` spans of the list come before `x`.
pub open spec fn smaller(list: Seq<Span>, n: int, x: Span) -> nat
    decreases n,
{
    if n <= 0 {
        0
    } else {
        smaller(list, n - 1, x) + if span_lt(list[n - 1], x) {
            1nat
        } else {
            0nat
        }
    }
}

/// The rank of span `j` among the spans of its list: how many of them come
/// before it. Spans that are the same have the same rank.
pub open spec fn rank(list: Seq<Span>, j: int) -> nat {
    smaller(list, list.len() as int, list[j])
}

/// No span comes before itself.
pub proof fn lemma_span_lt_irreflexive(a: Span)
    ensures
        !span_lt(a, a),
{
    lemma_bytes_lt_irreflexive(encode_utf8(a.label));
    lemma_bytes_lt_irreflexive(encode_utf8(a.text));
}

/// A span that comes before one that comes before a third comes before the
/// third.
pub proof fn lemma_span_lt_transitive(a: Span, b: Span, c: Span)
    requires
        span_lt(a, b),
        span_lt(b, c),
    ensures
        span_lt(a, c),
{
    if text_lt(a.label, b.label) && text_lt(b.label, c.label) {
        lemma_bytes_lt_transitive(
            encode_utf8(a.label),
            encode_utf8(b.label),
            encode_utf8(c.label),
        );
    }
    if text_lt(a.text, b.text) && text_lt(b.text, c.text) {
        lemma_bytes_lt_transitive(encode_utf8(a.text), encode_utf8(b.text), encode_utf8(c.text));
    }
}

/// Of two different spans one comes before the other.
pub proof fn lemma_span_lt_total(a: Span, b: Span)
    ensures
        a == b || span_lt(a, b) || span_lt(b, a),
{
    lemma_bytes_lt_total(encode_utf8(a.label), encode_utf8(b.label));
    lemma_bytes_lt_total(encode_utf8(a.text), encode_utf8(b.text));
    if encode_utf8(a.label) == encode_utf8(b.label) {
        lemma_same_bytes_same_chars(a.label, b.label);
    }
    if encode_utf8(a.text) == encode_utf8(b.text) {
        lemma_same_bytes_same_chars(a.text, b.text);
    }
}

/// No more than `n` of the first `n` spans come before a span.
pub proof fn lemma_smaller_bound(list: Seq<Span>, n: int, x: Span)
    requires
        0 <= n,
    ensures
        smaller(list, n, x) <= n,
    decreases n,
{
    if n > 0 {
        lemma_smaller_bound(list, n - 1, x);
    }
}

/// What comes before a span comes before every span after it.
proof fn lemma_smaller_grows(list: Seq<Span>, n: int, x: Span, y: Span)
    requires
        span_lt(x, y),
    ensures
        smaller(list, n, x) <= smaller(list, n, y),
    decreases n,
{
    if n > 0 {
        lemma_smaller_grows(list, n - 1, x, y);
        if span_lt(list[n - 1], x) {
            lemma_span_lt_transitive(list[n - 1], x, y);
        }
    }
}

/// A span of the list is itself one more that comes before every span
/// after it.
proof fn lemma_smaller_counts(list: Seq<Span>, n: int, i: int, y: Span)
    requires
        0 <= i < n,
        span_lt(list[i], y),
    ensures
        smaller(list, n, list[i]) < smaller(list, n, y),
    decreases n,
{
    let x = list[i];
    if n - 1 == i {
        lemma_smaller_grows(list, n - 1, x, y);
        lemma_span_lt_irreflexive(x);
    } else {
        lemma_smaller_counts(list, n - 1, i, y);
        if span_lt(list[n - 1], x) {
            lemma_span_lt_transitive(list[n - 1], x, y);
        }
    }
}

/// Ranks order as the spans do: a span comes before another of its list
/// when its rank is the smaller.
pub proof fn lemma_rank_orders(list: Seq<Span>, i: int, j: int)
    requires
        0 <= i < list.len(),
        0 <= j < list.len(),
    ensures
        span_lt(list[i], list[j]) <==> rank(list, i) < rank(list, j),
{
    let n = list.len() as int;
    lemma_span_lt_total(list[i], list[j]);
    if span_lt(list[i], list[j]) {
        lemma_smaller_counts(list, n, i, list[j]);
    } else if span_lt(list[j], list[i]) {
        lemma_smaller_counts(list, n, j, list[i]);
    }
}

/// Whether text `a` comes before text `b`.
fn text_before(a: &str, b: &str) -> (r: bool)
    ensures
        r == text_lt(a@, b@),
{
    bytes_before(a.as_bytes(), b.as_bytes())
}

/// Whether the two texts are the same.
fn same_text(a: &str, b: &str) -> (r: bool)
    ensures
        r == (a@ == b@),
{
    proof {
        if encode_utf8(a@) == encode_utf8(b@) {
            lemma_same_bytes_same_chars(a@, b@);
        }
    }
    same_bytes(a.as_bytes(), b.as_bytes())
}

/// The text that the source matched.
pub fn matched_text<'b>(m: &'b Match<'_>) -> (t: &'b str)
    ensures
        t@ == m@.text,
{
    match &m.text {
        Cow::Borrowed(b) => b,
        Cow::Owned(o) => o.as_str(),
    }
}

/// Whether span `a` comes before span `b`.
pub fn span_before(a: &Match<'_>, b: &Match<'_>) -> (r: bool)
    ensures
        r == span_lt(a@, b@),
{
    if a.span.0 != b.span.0 {
        a.span.0 < b.span.0
    } else if a.span.1 != b.span.1 {
        a.span.1 < b.span.1
    } else if !same_text(a.label, b.label) {
        text_before(a.label, b.label)
    } else {
        proof {
            lemma_bytes_lt_irreflexive(encode_utf8(a@.label));
        }
        text_before(matched_text(a), matched_text(b))
    }
}

/// The rank of each span of the list.
pub fn ranks(list: &Vec<Match<'_>>) -> (r: Vec<usize>)
    ensures
        r@.len() == list@.len(),
        forall|j: int| 0 <= j < list@.len() ==> #[trigger] r@[j] == rank(list_spans(list@), j),
{
    let ghost spans = list_spans(list@);
    let mut r: Vec<usize> = Vec::new();
    let mut j: usize = 0;
    while j < list.len()
        invariant
            0 <= j <= list@.len(),
            spans == list_spans(list@),
            r@.len() == j,
            forall|k: int| 0 <= k < j ==> #[trigger] r@[k] == rank(spans, k),
        decreases list.len() - j,
    {
        let mut count: usize = 0;
        let mut i: usize = 0;
        while i < list.len()
            invariant
                0 <= i <= list@.len(),
                0 <= j < list@.len(),
                spans == list_spans(list@),
                count == smaller(spans, i as int, spans[j as int]),
                count <= i,
            decreases list.len() - i,
        {
            if span_before(&list[i], &list[j]) {
                count = count + 1;
            }
            i = i + 1;
        }
        r.push(count);
        j = j + 1;
    }
    r
}

} // verus!
