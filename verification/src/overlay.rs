//! The span overlay renderer: several sources' labelled spans over one
//! text, rendered as markup with nested highlight regions.

use crate::decimal::{decimal, push_decimal};
use crate::offsets::{byte_len, slice_between};
use crate::order::{lemma_smaller_bound, matched_text, rank, ranks};
use crate::translator::IndexTranslator;
use itertools::Itertools;
use std::borrow::Cow;
use vstd::prelude::*;
use vstd::relations::{sorted_by, total_ordering};
use vstd::seq_lib::lemma_sorted_unique;
use vstd::string::*;

verus! {

/// A labelled span of characters in one paragraph, as an annotation source
/// reports it.
#[derive(Debug, PartialOrd, Ord, PartialEq, Eq)]
pub struct Match<'a> {
    /// The character offsets at which the span starts and ends.
    pub span: (usize, usize),
    /// The label that the source gave the span.
    pub label: &'a str,
    /// The text that the source matched.
    pub text: Cow<'a, str>,
}

/// A span as a mathematical value.
pub struct Span {
    /// The character offset at which the span starts.
    pub start: usize,
    /// The character offset before which the span ends.
    pub end: usize,
    /// The label.
    pub label: Seq<char>,
    /// The matched text.
    pub text: Seq<char>,
}

impl<'a> View for Match<'a> {
    type V = Span;

    open spec fn view(&self) -> Span {
        Span { start: self.span.0, end: self.span.1, label: self.label@, text: self.text@ }
    }
}

/// The spans of one source's list.
pub open spec fn list_spans<'a>(list: Seq<Match<'a>>) -> Seq<Span> {
    Seq::new(list.len(), |j: int| list[j]@)
}

/// The spans that each source reports for paragraph `p`: one list per
/// source, in the order of the sources.
pub open spec fn paragraph_spans<'a>(matches: Seq<Vec<Vec<Match<'a>>>>, p: int) -> Seq<
    Seq<Span>,
> {
    Seq::new(matches.len(), |s: int| list_spans(matches[s]@[p]@))
}

/// A boundary of a span: the character offset, whether the span ends
/// there, the source, the span's rank among the spans of the source's list,
/// and its place in that list.
pub type Event = (usize, bool, usize, usize, usize);

/// The order of events: by offset, starts before ends, then by source, then
/// as the spans themselves are ordered, and between spans that are the same
/// by place in the list.
pub open spec fn event_le(a: Event, b: Event) -> bool {
    ||| a.0 < b.0
    ||| a.0 == b.0 && !a.1 && b.1
    ||| a.0 == b.0 && a.1 == b.1 && a.2 < b.2
    ||| a.0 == b.0 && a.1 == b.1 && a.2 == b.2 && a.3 < b.3
    ||| a.0 == b.0 && a.1 == b.1 && a.2 == b.2 && a.3 == b.3 && a.4 <= b.4
}

/// The two boundaries of each span of one source, in the order of the list.
pub open spec fn stream(list: Seq<Span>, source: usize) -> Seq<Event> {
    Seq::new(
        2 * list.len(),
        |k: int|
            if k % 2 == 0 {
                (list[k / 2].start, false, source, rank(list, k / 2) as usize, (k / 2) as usize)
            } else {
                (list[k / 2].end, true, source, rank(list, k / 2) as usize, (k / 2) as usize)
            },
    )
}

/// The streams one after the other.
pub open spec fn joined(streams: Seq<Seq<Event>>) -> Seq<Event>
    decreases streams.len(),
{
    if streams.len() == 0 {
        Seq::empty()
    } else {
        joined(streams.drop_last()) + streams.last()
    }
}

/// The boundaries of all spans of all sources.
pub open spec fn all_events(spans: Seq<Seq<Span>>) -> Seq<Event> {
    joined(Seq::new(spans.len(), |s: int| stream(spans[s], s as usize)))
}

/// The order of events as a relation.
pub open spec fn event_order() -> spec_fn(Event, Event) -> bool {
    |a: Event, b: Event| event_le(a, b)
}

/// The boundaries of all spans in the order of the sweep.
pub open spec fn timeline(spans: Seq<Seq<Span>>) -> Seq<Event> {
    all_events(spans).sort_by(event_order())
}

/// The number of sources and the length of each list fit the machine's
/// integers, as those of lists in memory do.
pub open spec fn sized(spans: Seq<Seq<Span>>) -> bool {
    &&& spans.len() <= usize::MAX
    &&& forall|s: int| 0 <= s < spans.len() ==> (#[trigger] spans[s]).len() <= usize::MAX
}

/// Every span has characters and lies in a text of `n` characters.
pub open spec fn spans_fit(spans: Seq<Seq<Span>>, n: nat) -> bool {
    forall|s: int, j: int|
        0 <= s < spans.len() && 0 <= j < spans[s].len() ==> (#[trigger] spans[s][j]).start
            < spans[s][j].end <= n
}

/// The events in runs of one offset each: an event joins the run before it
/// when it has that run's offset, and starts a run when it has not.
pub open spec fn grouped(events: Seq<Event>) -> Seq<Seq<Event>>
    decreases events.len(),
{
    if events.len() == 0 {
        Seq::empty()
    } else {
        let before = grouped(events.drop_last());
        let e = events.last();
        if before.len() > 0 && before.last().len() > 0 && before.last().last().0 == e.0 {
            before.drop_last().push(before.last().push(e))
        } else {
            before.push(seq![e])
        }
    }
}

/// Whether `e` is a boundary of a span of `spans`.
pub open spec fn genuine(spans: Seq<Seq<Span>>, e: Event) -> bool {
    &&& e.2 < spans.len()
    &&& e.4 < spans[e.2 as int].len()
    &&& e.3 == rank(spans[e.2 as int], e.4 as int)
    &&& e.0 == if e.1 {
        spans[e.2 as int][e.4 as int].end
    } else {
        spans[e.2 as int][e.4 as int].start
    }
}

/// The flags after each event of `group` has flipped the flag of its
/// source.
pub open spec fn toggled(active: Seq<bool>, group: Seq<Event>) -> Seq<bool>
    decreases group.len(),
{
    if group.len() == 0 {
        active
    } else {
        let before = toggled(active, group.drop_last());
        let s = group.last().2 as int;
        if s < before.len() {
            before.update(s, !before[s])
        } else {
            before
        }
    }
}

/// The label element of a span of source `source`.
pub open spec fn label_element(source: usize, span: Span) -> Seq<char> {
    "<div class=\"label\" input=\""@ + decimal((source + 1) as nat) + "\" title=\""@ + span.text
        + "\">"@ + span.label + "</div>"@
}

/// The label elements of the spans that start in `group`, in the order of
/// the group.
pub open spec fn labels(spans: Seq<Seq<Span>>, group: Seq<Event>) -> Seq<char>
    decreases group.len(),
{
    if group.len() == 0 {
        Seq::empty()
    } else {
        let e = group.last();
        let before = labels(spans, group.drop_last());
        if !e.1 && genuine(spans, e) {
            before + label_element(e.2, spans[e.2 as int][e.4 as int])
        } else {
            before
        }
    }
}

/// Whether any source is active.
pub open spec fn any_active(active: Seq<bool>) -> bool {
    exists|s: int| 0 <= s < active.len() && #[trigger] active[s]
}

/// The class tokens of the active sources, in the order of the sources,
/// with one space between two tokens. The token of the first source is
/// `i1`.
pub open spec fn class_list(active: Seq<bool>) -> Seq<char>
    decreases active.len(),
{
    if active.len() == 0 {
        Seq::empty()
    } else if !active.last() {
        class_list(active.drop_last())
    } else if any_active(active.drop_last()) {
        class_list(active.drop_last()) + " "@ + "i"@ + decimal(active.len())
    } else {
        "i"@ + decimal(active.len())
    }
}

/// The tag that opens a highlight region for the active sources; nothing
/// when none is active.
pub open spec fn region_start(active: Seq<bool>) -> Seq<char> {
    if any_active(active) {
        "<span class=\""@ + class_list(active) + "\">"@
    } else {
        Seq::empty()
    }
}

/// The tag that closes the highlight region of the active sources; nothing
/// when none is active.
pub open spec fn region_end(active: Seq<bool>) -> Seq<char> {
    if any_active(active) {
        "</span>"@
    } else {
        Seq::empty()
    }
}

/// The sweep over one paragraph, between two groups of events.
pub struct Sweep {
    /// The markup written so far.
    pub out: Seq<char>,
    /// The character offset up to which the text has been written.
    pub last: int,
    /// For each source, whether the sweep stands inside a span of it.
    pub active: Seq<bool>,
}

/// The sweep before the first group: nothing written, no source active.
pub open spec fn sweep_start(sources: nat) -> Sweep {
    Sweep { out: Seq::empty(), last: 0, active: Seq::new(sources, |s: int| false) }
}

/// The sweep after one more group: the text up to the group's offset, the
/// end of the open region, the labels of the spans that start here, and a
/// new region for the sources that are active from here on.
pub open spec fn sweep_step(
    text: Seq<char>,
    spans: Seq<Seq<Span>>,
    st: Sweep,
    group: Seq<Event>,
) -> Sweep {
    let pos = group[0].0 as int;
    let after = toggled(st.active, group);
    Sweep {
        out: st.out + text.subrange(st.last, pos) + region_end(st.active) + labels(spans, group)
            + region_start(after),
        last: pos,
        active: after,
    }
}

/// The sweep after the first `n` groups.
pub open spec fn swept(
    text: Seq<char>,
    spans: Seq<Seq<Span>>,
    groups: Seq<Seq<Event>>,
    n: int,
) -> Sweep
    decreases n,
{
    if n <= 0 {
        sweep_start(spans.len())
    } else {
        sweep_step(text, spans, swept(text, spans, groups, n - 1), groups[n - 1])
    }
}

/// The markup of one paragraph: the sweep over the groups of its timeline,
/// the text after the last group, and the end of a region still open,
/// inside a paragraph element.
pub open spec fn rendered_paragraph(text: Seq<char>, spans: Seq<Seq<Span>>) -> Seq<char> {
    let groups = grouped(timeline(spans));
    let st = swept(text, spans, groups, groups.len() as int);
    "<p>"@ + st.out + text.subrange(st.last, text.len() as int) + region_end(st.active) + "</p>\n"@
}

/// `Itertools::kmerge`: the items of all the streams, each as often as the
/// streams hold it.
#[verifier::external_body]
fn merge_streams(streams: Vec<Vec<Event>>) -> (merged: Vec<Event>)
    ensures
        merged@.to_multiset() == joined(
            Seq::new(streams@.len(), |s: int| streams@[s]@),
        ).to_multiset(),
{
    streams.into_iter().kmerge().collect()
}

/// `Itertools::sorted`: the same items in ascending order. Tuples are
/// ordered field by field, and `false` comes before `true`.
#[verifier::external_body]
fn sort_events(events: Vec<Event>) -> (sorted: Vec<Event>)
    ensures
        sorted@.to_multiset() == events@.to_multiset(),
        forall|i: int, j: int| 0 <= i <= j < sorted@.len() ==> event_le(sorted@[i], sorted@[j]),
{
    events.into_iter().sorted().collect()
}

/// `Itertools::group_by` with the offset as key: the runs of consecutive
/// events with one offset, each with that offset.
#[verifier::external_body]
fn group_by_offset(events: Vec<Event>) -> (groups: Vec<(usize, Vec<Event>)>)
    ensures
        groups@.len() == grouped(events@).len(),
        forall|g: int|
            0 <= g < groups@.len() ==> (#[trigger] groups@[g]).1@ == grouped(events@)[g]
                && groups@[g].0 == grouped(events@)[g][0].0,
{
    let by_offset = events.into_iter().group_by(|e| e.0);
    by_offset.into_iter().map(|(offset, run)| (offset, run.collect())).collect()
}

/// The order of events is total.
pub proof fn lemma_event_order_total()
    ensures
        total_ordering(event_order()),
{
    assert forall|x: Event, y: Event|
        #[trigger] event_order()(x, y) && #[trigger] event_order()(y, x) implies x == y by {
        assert(x.0 == y.0 && x.1 == y.1 && x.2 == y.2 && x.3 == y.3 && x.4 == y.4);
    }
}

/// Each event of joined streams is an event of one of the streams.
pub proof fn lemma_joined_member(streams: Seq<Seq<Event>>, k: int) -> (at: (int, int))
    requires
        0 <= k < joined(streams).len(),
    ensures
        0 <= at.0 < streams.len(),
        0 <= at.1 < streams[at.0].len(),
        joined(streams)[k] == streams[at.0][at.1],
    decreases streams.len(),
{
    let head = joined(streams.drop_last());
    if k < head.len() {
        let at = lemma_joined_member(streams.drop_last(), k);
        at
    } else {
        (streams.len() - 1, k - head.len())
    }
}

/// Each of the boundaries of all spans is a boundary of a span.
pub proof fn lemma_all_events_genuine(spans: Seq<Seq<Span>>)
    requires
        sized(spans),
    ensures
        forall|k: int|
            0 <= k < all_events(spans).len() ==> genuine(spans, #[trigger] all_events(spans)[k]),
{
    let streams = Seq::new(spans.len(), |s: int| stream(spans[s], s as usize));
    assert forall|k: int| 0 <= k < all_events(spans).len() implies genuine(
        spans,
        #[trigger] all_events(spans)[k],
    ) by {
        let at = lemma_joined_member(streams, k);
        assert(spans[at.0].len() <= usize::MAX);
        lemma_smaller_bound(spans[at.0], spans[at.0].len() as int, spans[at.0][at.1 / 2]);
    }
}

/// The timeline holds the boundaries of all spans and nothing else, in
/// order.
pub proof fn lemma_timeline_genuine(spans: Seq<Seq<Span>>)
    requires
        sized(spans),
    ensures
        sorted_by(timeline(spans), event_order()),
        timeline(spans).to_multiset() == all_events(spans).to_multiset(),
        forall|k: int|
            0 <= k < timeline(spans).len() ==> genuine(spans, #[trigger] timeline(spans)[k]),
{
    broadcast use vstd::seq_lib::group_to_multiset_ensures;

    lemma_event_order_total();
    all_events(spans).lemma_sort_by_ensures(event_order());
    lemma_all_events_genuine(spans);
    assert forall|k: int| 0 <= k < timeline(spans).len() implies genuine(
        spans,
        #[trigger] timeline(spans)[k],
    ) by {
        let e = timeline(spans)[k];
        assert(timeline(spans).contains(e));
        assert(all_events(spans).contains(e));
    }
}

/// The runs of events in order: no run is empty, each holds events of one
/// offset, each of its events is one of the events grouped, and the
/// offsets of the runs grow.
pub proof fn lemma_grouped_runs(events: Seq<Event>)
    requires
        sorted_by(events, event_order()),
    ensures
        events.len() > 0 ==> grouped(events).len() > 0 && grouped(events).last().last()
            == events.last(),
        forall|g: int| 0 <= g < grouped(events).len() ==> (#[trigger] grouped(events)[g]).len() > 0,
        forall|g: int, k: int|
            0 <= g < grouped(events).len() && 0 <= k < grouped(events)[g].len() ==> events.contains(
                #[trigger] grouped(events)[g][k],
            ) && grouped(events)[g][k].0 == grouped(events)[g][0].0,
        forall|g: int, h: int|
            0 <= g < h < grouped(events).len() ==> (#[trigger] grouped(events)[g])[0].0 < (
            #[trigger] grouped(events)[h])[0].0,
    decreases events.len(),
{
    if events.len() > 0 {
        let front = events.drop_last();
        let e = events.last();
        lemma_grouped_runs(front);
        let before = grouped(front);
        let after = grouped(events);
        assert forall|x: Event| front.contains(x) implies events.contains(x) by {
            let i = choose|i: int| 0 <= i < front.len() && front[i] == x;
            assert(events[i] == x);
        }
        assert(events.contains(e)) by {
            assert(events[events.len() - 1] == e);
        }
        if front.len() > 0 {
            assert(event_order()(events[front.len() - 1], events[events.len() - 1]));
            assert(front.last() == events[front.len() - 1]);
        }
        assert forall|g: int, k: int|
            0 <= g < after.len() && 0 <= k < after[g].len() implies events.contains(
            #[trigger] after[g][k],
        ) && after[g][k].0 == after[g][0].0 by {
            if g < after.len() - 1 {
                assert(after[g] == before[g]);
            } else if before.len() > 0 && before.last().last().0 == e.0 {
                if k < before.last().len() {
                    assert(after[g][k] == before.last()[k]);
                }
            }
        }
        assert forall|g: int, h: int| 0 <= g < h < after.len() implies (#[trigger] after[g])[0].0
            < (#[trigger] after[h])[0].0 by {
            if h < after.len() - 1 {
                assert(after[g] == before[g]);
                assert(after[h] == before[h]);
            } else if before.len() > 0 && before.last().last().0 == e.0 {
                assert(after[g] == before[g]);
                assert(after[h][0] == before.last()[0]);
            } else {
                assert(after[g] == before[g]);
                assert(before.last().last().0 == before.last()[0].0);
                if g < before.len() - 1 {
                    assert(before[g][0].0 < before[before.len() - 1][0].0);
                }
            }
        }
    }
}

/// The two boundaries of each span of `list`, in the order of the list.
fn source_stream(list: &Vec<Match<'_>>, source: usize) -> (events: Vec<Event>)
    ensures
        events@ == stream(list_spans(list@), source),
{
    let order = ranks(list);
    let mut events: Vec<Event> = Vec::new();
    let mut j: usize = 0;
    while j < list.len()
        invariant
            0 <= j <= list.len(),
            order@.len() == list@.len(),
            forall|k: int|
                0 <= k < list@.len() ==> #[trigger] order@[k] == rank(list_spans(list@), k),
            events@.len() == 2 * j,
            forall|k: int|
                0 <= k < 2 * j ==> #[trigger] events@[k] == stream(list_spans(list@), source)[k],
        decreases list.len() - j,
    {
        let m = &list[j];
        events.push((m.span.0, false, source, order[j], j));
        events.push((m.span.1, true, source, order[j], j));
        j = j + 1;
    }
    proof {
        assert(events@ =~= stream(list_spans(list@), source));
    }
    events
}

/// The boundaries of the spans of paragraph `p` in the order of the sweep.
fn paragraph_timeline(matches: &[Vec<Vec<Match<'_>>>], p: usize) -> (events: Vec<Event>)
    requires
        forall|s: int| 0 <= s < matches@.len() ==> p < (#[trigger] matches@[s])@.len(),
    ensures
        events@ == timeline(paragraph_spans(matches@, p as int)),
{
    let ghost spans = paragraph_spans(matches@, p as int);
    let mut streams: Vec<Vec<Event>> = Vec::new();
    let mut s: usize = 0;
    while s < matches.len()
        invariant
            0 <= s <= matches@.len(),
            spans == paragraph_spans(matches@, p as int),
            forall|t: int| 0 <= t < matches@.len() ==> p < (#[trigger] matches@[t])@.len(),
            streams@.len() == s,
            forall|t: int| 0 <= t < s ==> (#[trigger] streams@[t])@ == stream(spans[t], t as usize),
        decreases matches.len() - s,
    {
        let events = source_stream(&matches[s][p], s);
        streams.push(events);
        s = s + 1;
    }
    let merged = merge_streams(streams);
    let sorted = sort_events(merged);
    proof {
        assert(Seq::new(streams@.len(), |t: int| streams@[t]@) =~= Seq::new(
            spans.len(),
            |t: int| stream(spans[t], t as usize),
        ));
        lemma_event_order_total();
        all_events(spans).lemma_sort_by_ensures(event_order());
        assert(sorted_by(sorted@, event_order()));
        lemma_sorted_unique(sorted@, timeline(spans), event_order());
    }
    sorted
}

/// Whether any source is active.
fn any_flag(active: &Vec<bool>) -> (r: bool)
    ensures
        r == any_active(active@),
{
    let mut s: usize = 0;
    while s < active.len()
        invariant
            0 <= s <= active.len(),
            forall|t: int| 0 <= t < s ==> !active@[t],
        decreases active.len() - s,
    {
        if active[s] {
            return true;
        }
        s = s + 1;
    }
    false
}

/// Writes the class tokens of the active sources at the end of `out`.
fn push_class_list(out: &mut String, active: &Vec<bool>)
    ensures
        final(out)@ == old(out)@ + class_list(active@),
{
    let mut s: usize = 0;
    let mut first = true;
    proof {
        assert(active@.take(0) =~= Seq::<bool>::empty());
        assert(old(out)@ + Seq::<char>::empty() =~= old(out)@);
    }
    while s < active.len()
        invariant
            0 <= s <= active.len(),
            first == !any_active(active@.take(s as int)),
            out@ == old(out)@ + class_list(active@.take(s as int)),
        decreases active.len() - s,
    {
        let ghost head = active@.take(s as int);
        let ghost next = active@.take(s + 1);
        proof {
            assert(next.drop_last() =~= head);
            assert(next.last() == active@[s as int]);
        }
        if active[s] {
            if !first {
                out.append(" ");
            }
            out.append("i");
            push_decimal(out, s + 1);
            first = false;
            proof {
                assert(next[s as int]);
                if any_active(head) {
                    assert(out@ =~= old(out)@ + (class_list(head) + " "@ + "i"@ + decimal(
                        next.len(),
                    )));
                } else {
                    assert(class_list(head).len() == 0) by {
                        lemma_class_list_of_none(head);
                    }
                    assert(out@ =~= old(out)@ + ("i"@ + decimal(next.len())));
                }
            }
        } else {
            proof {
                if any_active(next) {
                    let t = choose|t: int| 0 <= t < next.len() && next[t];
                    assert(head[t]);
                }
                if any_active(head) {
                    let t = choose|t: int| 0 <= t < head.len() && head[t];
                    assert(next[t]);
                }
            }
        }
        s = s + 1;
    }
    proof {
        assert(active@.take(active@.len() as int) =~= active@);
    }
}

/// With no source active there are no class tokens.
proof fn lemma_class_list_of_none(active: Seq<bool>)
    requires
        !any_active(active),
    ensures
        class_list(active).len() == 0,
    decreases active.len(),
{
    if active.len() > 0 {
        assert(!active[active.len() - 1]);
        assert forall|t: int| 0 <= t < active.drop_last().len() implies !active.drop_last()[t] by {
            assert(!active[t]);
        }
        lemma_class_list_of_none(active.drop_last());
    }
}

/// Writes the label element of span `m` of source `source` at the end of
/// `out`.
fn push_label(out: &mut String, source: usize, m: &Match<'_>)
    requires
        source < usize::MAX,
    ensures
        final(out)@ == old(out)@ + label_element(source, m@),
{
    out.append("<div class=\"label\" input=\"");
    push_decimal(out, source + 1);
    out.append("\" title=\"");
    out.append(matched_text(m));
    out.append("\">");
    out.append(m.label);
    out.append("</div>");
    proof {
        assert(out@ =~= old(out)@ + label_element(source, m@));
    }
}

/// Writes the markup of paragraph `p` at the end of `out`.
pub fn render_paragraph(
    paragraph: &str,
    matches: &[Vec<Vec<Match<'_>>>],
    p: usize,
    out: &mut String,
)
    requires
        forall|s: int| 0 <= s < matches@.len() ==> p < (#[trigger] matches@[s])@.len(),
        spans_fit(paragraph_spans(matches@, p as int), paragraph@.len()),
    ensures
        final(out)@ == old(out)@ + rendered_paragraph(
            paragraph@,
            paragraph_spans(matches@, p as int),
        ),
{
    let ghost text = paragraph@;
    let ghost spans = paragraph_spans(matches@, p as int);
    let events = paragraph_timeline(matches, p);
    let groups = group_by_offset(events);
    let ghost runs = grouped(timeline(spans));
    proof {
        assert(spans.len() == matches.len());
        assert forall|t: int| 0 <= t < spans.len() implies (#[trigger] spans[t]).len()
            <= usize::MAX by {
            assert(spans[t].len() == matches@[t]@[p as int].len());
        }
        lemma_timeline_genuine(spans);
        lemma_grouped_runs(timeline(spans));
    }
    let mut active: Vec<bool> = Vec::new();
    let mut s: usize = 0;
    while s < matches.len()
        invariant
            0 <= s <= matches@.len(),
            active@ == Seq::new(s as nat, |t: int| false),
        decreases matches.len() - s,
    {
        active.push(false);
        proof {
            assert(active@ =~= Seq::new((s + 1) as nat, |t: int| false));
        }
        s = s + 1;
    }
    let mut translator = IndexTranslator::new(paragraph);
    let mut last: usize = 0;
    out.append("<p>");
    let mut g: usize = 0;
    proof {
        assert(out@ =~= old(out)@ + "<p>"@ + swept(text, spans, runs, 0).out);
    }
    while g < groups.len()
        invariant
            0 <= g <= groups@.len(),
            text == paragraph@,
            spans == paragraph_spans(matches@, p as int),
            runs == grouped(timeline(spans)),
            forall|t: int| 0 <= t < matches@.len() ==> p < (#[trigger] matches@[t])@.len(),
            spans_fit(spans, text.len()),
            forall|k: int|
                0 <= k < timeline(spans).len() ==> genuine(spans, #[trigger] timeline(spans)[k]),
            forall|h: int| 0 <= h < runs.len() ==> (#[trigger] runs[h]).len() > 0,
            forall|h: int, k: int|
                0 <= h < runs.len() && 0 <= k < runs[h].len() ==> timeline(spans).contains(
                    #[trigger] runs[h][k],
                ),
            forall|h: int, i: int|
                0 <= h < i < runs.len() ==> (#[trigger] runs[h])[0].0 < (#[trigger] runs[i])[0].0,
            groups@.len() == runs.len(),
            forall|h: int|
                0 <= h < groups@.len() ==> (#[trigger] groups@[h]).1@ == runs[h] && groups@[h].0
                    == runs[h][0].0,
            translator.wf(),
            translator.text() == text,
            translator.spec_char_idx() == swept(text, spans, runs, g as int).last,
            translator.spec_byte_idx() == last,
            g > 0 ==> swept(text, spans, runs, g as int).last == runs[g - 1][0].0,
            active@ == swept(text, spans, runs, g as int).active,
            active@.len() == matches@.len(),
            out@ == old(out)@ + "<p>"@ + swept(text, spans, runs, g as int).out,
        decreases groups.len() - g,
    {
        let ghost st = swept(text, spans, runs, g as int);
        let char_idx = groups[g].0;
        let group = &groups[g].1;
        proof {
            let first = runs[g as int][0];
            assert(timeline(spans).contains(first));
            assert(genuine(spans, first));
            assert(spans[first.2 as int][first.4 as int].end <= text.len());
            if g > 0 {
                assert(runs[g - 1][0].0 < runs[g as int][0].0);
            }
        }
        let pos = translator.next_byte_idx_for_char_idx(char_idx).unwrap();
        let piece = slice_between(paragraph, last, pos, Ghost(st.last), Ghost(char_idx as int));
        out.append(piece);
        if any_flag(&active) {
            out.append("</span>");
        }
        let ghost base = out@;
        let ghost before = active@;
        proof {
            assert(base =~= old(out)@ + "<p>"@ + (st.out + text.subrange(st.last, char_idx as int)
                + region_end(st.active)));
        }
        let mut k: usize = 0;
        proof {
            assert(group@.take(0) =~= Seq::<Event>::empty());
            assert(base + Seq::<char>::empty() =~= base);
        }
        while k < group.len()
            invariant
                0 <= k <= group@.len(),
                group@ == runs[g as int],
                0 <= g < runs.len(),
                spans == paragraph_spans(matches@, p as int),
                forall|t: int| 0 <= t < matches@.len() ==> p < (#[trigger] matches@[t])@.len(),
                forall|i: int|
                    0 <= i < timeline(spans).len() ==> genuine(
                        spans,
                        #[trigger] timeline(spans)[i],
                    ),
                forall|i: int|
                    0 <= i < runs[g as int].len() ==> timeline(spans).contains(
                        #[trigger] runs[g as int][i],
                    ),
                active@.len() == matches@.len(),
                active@ == toggled(before, group@.take(k as int)),
                out@ == base + labels(spans, group@.take(k as int)),
            decreases group.len() - k,
        {
            let e = group[k];
            let ghost head = group@.take(k as int);
            let ghost next = group@.take(k + 1);
            proof {
                assert(next.drop_last() =~= head);
                assert(next.last() == e);
                assert(timeline(spans).contains(runs[g as int][k as int]));
                assert(genuine(spans, e));
            }
            if !e.1 {
                let m = &matches[e.2][p][e.4];
                push_label(out, e.2, m);
                proof {
                    assert(m@ == spans[e.2 as int][e.4 as int]);
                    assert(out@ =~= base + (labels(spans, head) + label_element(e.2, m@)));
                }
            }
            let flag = active[e.2];
            active.set(e.2, !flag);
            k = k + 1;
        }
        proof {
            assert(group@.take(group@.len() as int) =~= group@);
        }
        if any_flag(&active) {
            out.append("<span class=\"");
            push_class_list(out, &active);
            out.append("\">");
        }
        proof {
            let after = sweep_step(text, spans, st, runs[g as int]);
            assert(swept(text, spans, runs, g + 1) == after);
            assert(out@ =~= old(out)@ + "<p>"@ + after.out);
        }
        last = pos;
        g = g + 1;
    }
    let ghost st = swept(text, spans, runs, runs.len() as int);
    proof {
        if g > 0 {
            let first = runs[g - 1][0];
            assert(timeline(spans).contains(first));
            assert(genuine(spans, first));
            assert(spans[first.2 as int][first.4 as int].end <= text.len());
        }
    }
    let rest = slice_between(
        paragraph,
        last,
        byte_len(paragraph),
        Ghost(st.last),
        Ghost(text.len() as int),
    );
    out.append(rest);
    if any_flag(&active) {
        out.append("</span>");
    }
    out.append("</p>\n");
    proof {
        assert(out@ =~= old(out)@ + rendered_paragraph(text, spans));
    }
}

} // verus!
