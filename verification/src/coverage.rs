//! What the sweep's flags mean: the region that holds a character names
//! the sources whose spans hold that character.

use crate::overlay::{
    all_events, any_active, grouped, joined, lemma_grouped_runs, lemma_joined_member,
    lemma_timeline_genuine, region_end, rendered_paragraph, sized, stream, sweep_start, swept,
    timeline, toggled, Event, Span,
};
use vstd::prelude::*;

verus! {

/// Whether the span holds character `c`.
pub open spec fn holds(span: Span, c: int) -> bool {
    span.start <= c < span.end
}

/// Whether a span of the list holds character `c`.
pub open spec fn covered(list: Seq<Span>, c: int) -> bool {
    exists|j: int| 0 <= j < list.len() && holds(#[trigger] list[j], c)
}

/// Whether an odd number of spans of the list hold character `c`.
pub open spec fn odd_cover(list: Seq<Span>, c: int) -> bool
    decreases list.len(),
{
    if list.len() == 0 {
        false
    } else {
        odd_cover(list.drop_last(), c) != holds(list.last(), c)
    }
}

/// No two spans of the list share a character.
pub open spec fn apart(list: Seq<Span>) -> bool {
    forall|i: int, j: int|
        0 <= i < list.len() && 0 <= j < list.len() && i != j ==> (#[trigger] list[i]).end <= (
        #[trigger] list[j]).start || list[j].end <= list[i].start
}

/// Every span of the list ends after it starts.
pub open spec fn all_nonempty(list: Seq<Span>) -> bool {
    forall|j: int| 0 <= j < list.len() ==> (#[trigger] list[j]).start < list[j].end
}

/// Whether an odd number of the events are boundaries of source `s` at or
/// before character `c`.
pub open spec fn flips(events: Seq<Event>, s: int, c: int) -> bool
    decreases events.len(),
{
    if events.len() == 0 {
        false
    } else {
        flips(events.drop_last(), s, c) != (events.last().2 == s && events.last().0 <= c)
    }
}

/// The number of groups that the sweep has passed when it stands at
/// character `c`: those with an offset of at most `c`.
pub open spec fn groups_upto(groups: Seq<Seq<Event>>, c: int) -> int
    decreases groups.len(),
{
    if groups.len() == 0 {
        0
    } else if groups.last()[0].0 <= c {
        groups.len() as int
    } else {
        groups_upto(groups.drop_last(), c)
    }
}

/// The flags of the region that holds character `c`: those that the sweep
/// has after the last group at or before `c`.
pub open spec fn active_at(text: Seq<char>, spans: Seq<Seq<Span>>, c: int) -> Seq<bool> {
    let groups = grouped(timeline(spans));
    swept(text, spans, groups, groups_upto(groups, c)).active
}

proof fn lemma_toggled_len(active: Seq<bool>, group: Seq<Event>)
    ensures
        toggled(active, group).len() == active.len(),
    decreases group.len(),
{
    if group.len() > 0 {
        lemma_toggled_len(active, group.drop_last());
    }
}

proof fn lemma_toggled_add(active: Seq<bool>, x: Seq<Event>, y: Seq<Event>)
    ensures
        toggled(active, x + y) == toggled(toggled(active, x), y),
    decreases y.len(),
{
    if y.len() == 0 {
        assert(x + y =~= x);
    } else {
        lemma_toggled_add(active, x, y.drop_last());
        assert((x + y).drop_last() =~= x + y.drop_last());
    }
}

proof fn lemma_toggled_flips(active: Seq<bool>, x: Seq<Event>, s: int, c: int)
    requires
        0 <= s < active.len(),
        forall|k: int| 0 <= k < x.len() ==> (#[trigger] x[k]).0 <= c,
    ensures
        toggled(active, x)[s] == (active[s] != flips(x, s, c)),
    decreases x.len(),
{
    if x.len() > 0 {
        let front = x.drop_last();
        assert forall|k: int| 0 <= k < front.len() implies (#[trigger] front[k]).0 <= c by {
            assert(front[k] == x[k]);
        }
        lemma_toggled_flips(active, front, s, c);
        lemma_toggled_len(active, front);
        assert(x[x.len() - 1].0 <= c);
    }
}

proof fn lemma_flips_add(x: Seq<Event>, y: Seq<Event>, s: int, c: int)
    ensures
        flips(x + y, s, c) == (flips(x, s, c) != flips(y, s, c)),
    decreases y.len(),
{
    if y.len() == 0 {
        assert(x + y =~= x);
    } else {
        lemma_flips_add(x, y.drop_last(), s, c);
        assert((x + y).drop_last() =~= x + y.drop_last());
    }
}

proof fn lemma_flips_none(x: Seq<Event>, s: int, c: int)
    requires
        forall|k: int| 0 <= k < x.len() ==> !((#[trigger] x[k]).2 == s && x[k].0 <= c),
    ensures
        !flips(x, s, c),
    decreases x.len(),
{
    if x.len() > 0 {
        let front = x.drop_last();
        assert forall|k: int| 0 <= k < front.len() implies !((#[trigger] front[k]).2 == s
            && front[k].0 <= c) by {
            assert(front[k] == x[k]);
        }
        lemma_flips_none(front, s, c);
        assert(!(x[x.len() - 1].2 == s && x[x.len() - 1].0 <= c));
    }
}

proof fn lemma_flips_remove(x: Seq<Event>, i: int, s: int, c: int)
    requires
        0 <= i < x.len(),
    ensures
        flips(x, s, c) == (flips(x.remove(i), s, c) != (x[i].2 == s && x[i].0 <= c)),
    decreases x.len(),
{
    if i == x.len() - 1 {
        assert(x.remove(i) =~= x.drop_last());
    } else {
        lemma_flips_remove(x.drop_last(), i, s, c);
        assert(x.remove(i).drop_last() =~= x.drop_last().remove(i));
        assert(x.remove(i).last() == x.last());
    }
}

/// The order of the events does not matter to `flips`.
proof fn lemma_flips_permuted(x: Seq<Event>, y: Seq<Event>, s: int, c: int)
    requires
        x.to_multiset() == y.to_multiset(),
    ensures
        flips(x, s, c) == flips(y, s, c),
    decreases x.len(),
{
    broadcast use vstd::seq_lib::group_to_multiset_ensures;

    x.to_multiset_ensures();
    y.to_multiset_ensures();
    assert(x.len() == y.len());
    if x.len() > 0 {
        let e = x.last();
        assert(x.contains(e)) by {
            assert(x[x.len() - 1] == e);
        }
        assert(y.to_multiset().count(e) > 0);
        assert(y.contains(e));
        let i = choose|i: int| 0 <= i < y.len() && y[i] == e;
        assert(x.remove(x.len() - 1) =~= x.drop_last());
        assert(x.drop_last().to_multiset() =~= y.remove(i).to_multiset());
        lemma_flips_permuted(x.drop_last(), y.remove(i), s, c);
        lemma_flips_remove(y, i, s, c);
    }
}

proof fn lemma_flips_stream_prefix(list: Seq<Span>, t: usize, s: int, c: int, j: int)
    requires
        all_nonempty(list),
        0 <= j <= list.len(),
    ensures
        flips(stream(list, t).take(2 * j), s, c) == (t == s && odd_cover(list.take(j), c)),
    decreases j,
{
    let whole = stream(list, t).take(2 * j);
    if j == 0 {
        assert(whole.len() == 0);
        assert(list.take(0).len() == 0);
    } else {
        lemma_flips_stream_prefix(list, t, s, c, j - 1);
        let opened = whole.drop_last();
        let last = list[j - 1];
        assert(list.take(j).drop_last() =~= list.take(j - 1));
        assert(list.take(j).last() == last);
        assert(whole.last() == stream(list, t)[2 * j - 1]);
        assert(opened.last() == stream(list, t)[2 * j - 2]);
        assert(whole.last().0 == last.end && whole.last().2 == t);
        assert(opened.last().0 == last.start && opened.last().2 == t);
        assert(opened.drop_last() =~= stream(list, t).take(2 * (j - 1)));
        assert(last.start < last.end);
        assert(flips(whole, s, c) == (flips(opened, s, c) != (whole.last().2 == s && whole.last().0
            <= c)));
        assert(flips(opened, s, c) == (flips(opened.drop_last(), s, c) != (opened.last().2 == s
            && opened.last().0 <= c)));
    }
}

proof fn lemma_flips_stream(list: Seq<Span>, t: usize, s: int, c: int)
    requires
        all_nonempty(list),
    ensures
        flips(stream(list, t), s, c) == (t == s && odd_cover(list, c)),
{
    lemma_flips_stream_prefix(list, t, s, c, list.len() as int);
    assert(stream(list, t).take(2 * (list.len() as int)) =~= stream(list, t));
    assert(list.take(list.len() as int) =~= list);
}

proof fn lemma_flips_streams(spans: Seq<Seq<Span>>, n: int, s: int, c: int)
    requires
        0 <= n <= spans.len(),
        sized(spans),
        forall|t: int| 0 <= t < spans.len() ==> all_nonempty(#[trigger] spans[t]),
        0 <= s,
    ensures
        flips(joined(Seq::new(n as nat, |t: int| stream(spans[t], t as usize))), s, c) == (s < n
            && odd_cover(spans[s], c)),
    decreases n,
{
    let streams = Seq::new(n as nat, |t: int| stream(spans[t], t as usize));
    if n > 0 {
        let front = Seq::new((n - 1) as nat, |t: int| stream(spans[t], t as usize));
        assert(streams.drop_last() =~= front);
        lemma_flips_streams(spans, n - 1, s, c);
        lemma_flips_add(joined(front), streams.last(), s, c);
        lemma_flips_stream(spans[n - 1], (n - 1) as usize, s, c);
    }
}

proof fn lemma_joined_push(streams: Seq<Seq<Event>>, last: Seq<Event>)
    ensures
        joined(streams.push(last)) == joined(streams) + last,
{
    assert(streams.push(last).drop_last() =~= streams);
}

proof fn lemma_joined_split(streams: Seq<Seq<Event>>, g: int)
    requires
        0 <= g <= streams.len(),
    ensures
        joined(streams) == joined(streams.take(g)) + joined(streams.skip(g)),
    decreases streams.len() - g,
{
    if g == streams.len() {
        assert(streams.take(g) =~= streams);
        assert(streams.skip(g) =~= Seq::<Seq<Event>>::empty());
        assert(joined(streams) + Seq::<Event>::empty() =~= joined(streams));
    } else {
        lemma_joined_split(streams, g + 1);
        assert(streams.take(g + 1).drop_last() =~= streams.take(g));
        assert(streams.take(g + 1).last() == streams[g]);
        lemma_joined_front(streams.skip(g));
        assert(streams.skip(g).drop_first() =~= streams.skip(g + 1));
        assert(joined(streams.take(g)) + (streams[g] + joined(streams.skip(g + 1))) =~= joined(
            streams.take(g),
        ) + streams[g] + joined(streams.skip(g + 1)));
    }
}

proof fn lemma_joined_front(streams: Seq<Seq<Event>>)
    requires
        streams.len() > 0,
    ensures
        joined(streams) == streams[0] + joined(streams.drop_first()),
    decreases streams.len(),
{
    if streams.len() == 1 {
        assert(streams.drop_last() =~= Seq::<Seq<Event>>::empty());
        assert(streams.drop_first() =~= Seq::<Seq<Event>>::empty());
        assert(Seq::<Event>::empty() + streams[0] =~= streams[0] + Seq::<Event>::empty());
    } else {
        lemma_joined_front(streams.drop_last());
        assert(streams.drop_last().drop_first() =~= streams.drop_first().drop_last());
        assert(streams.drop_first().last() == streams.last());
        assert(streams[0] + joined(streams.drop_first().drop_last()) + streams.last()
            =~= streams[0] + (joined(streams.drop_first().drop_last()) + streams.last()));
    }
}

/// The runs, one after the other, are the events.
pub proof fn lemma_grouped_joined(events: Seq<Event>)
    ensures
        joined(grouped(events)) == events,
    decreases events.len(),
{
    if events.len() > 0 {
        let front = events.drop_last();
        let e = events.last();
        lemma_grouped_joined(front);
        let before = grouped(front);
        if before.len() > 0 && before.last().len() > 0 && before.last().last().0 == e.0 {
            lemma_joined_push(before.drop_last(), before.last().push(e));
            lemma_joined_push(before.drop_last(), before.last());
            assert(before.drop_last().push(before.last()) =~= before);
            assert(joined(before.drop_last()) + before.last().push(e) =~= (joined(
                before.drop_last(),
            ) + before.last()).push(e));
            assert(front.push(e) =~= events);
        } else {
            lemma_joined_push(before, seq![e]);
            assert(front + seq![e] =~= events);
        }
    }
}

proof fn lemma_groups_upto(groups: Seq<Seq<Event>>, c: int)
    requires
        forall|g: int, h: int|
            0 <= g < h < groups.len() ==> (#[trigger] groups[g])[0].0 < (#[trigger] groups[h])[0].0,
    ensures
        0 <= groups_upto(groups, c) <= groups.len(),
        forall|g: int| 0 <= g < groups_upto(groups, c) ==> (#[trigger] groups[g])[0].0 <= c,
        forall|g: int|
            groups_upto(groups, c) <= g < groups.len() ==> (#[trigger] groups[g])[0].0 > c,
    decreases groups.len(),
{
    if groups.len() > 0 {
        let front = groups.drop_last();
        assert forall|g: int, h: int| 0 <= g < h < front.len() implies (#[trigger] front[g])[0].0
            < (#[trigger] front[h])[0].0 by {
            assert(front[g] == groups[g]);
            assert(front[h] == groups[h]);
        }
        lemma_groups_upto(front, c);
        if groups.last()[0].0 <= c {
            assert forall|g: int| 0 <= g < groups.len() implies (#[trigger] groups[g])[0].0
                <= c by {
                if g < groups.len() - 1 {
                    assert(groups[g][0].0 < groups[groups.len() - 1][0].0);
                }
            }
        } else {
            assert forall|g: int| 0 <= g < groups_upto(groups, c) implies (
            #[trigger] groups[g])[0].0 <= c by {
                assert(front[g] == groups[g]);
            }
            assert forall|g: int| groups_upto(groups, c) <= g < groups.len() implies (
            #[trigger] groups[g])[0].0 > c by {
                if g < groups.len() - 1 {
                    assert(front[g] == groups[g]);
                }
            }
        }
    }
}

proof fn lemma_swept_flags(text: Seq<char>, spans: Seq<Seq<Span>>, groups: Seq<Seq<Event>>, g: int)
    requires
        0 <= g <= groups.len(),
    ensures
        swept(text, spans, groups, g).active == toggled(
            sweep_start(spans.len()).active,
            joined(groups.take(g)),
        ),
    decreases g,
{
    if g == 0 {
        assert(groups.take(0) =~= Seq::<Seq<Event>>::empty());
    } else {
        lemma_swept_flags(text, spans, groups, g - 1);
        assert(groups.take(g).drop_last() =~= groups.take(g - 1));
        assert(groups.take(g).last() == groups[g - 1]);
        lemma_toggled_add(
            sweep_start(spans.len()).active,
            joined(groups.take(g - 1)),
            groups[g - 1],
        );
    }
}

/// With no two spans sharing a character, an odd number of spans hold a
/// character when one does.
pub proof fn lemma_odd_cover_apart(list: Seq<Span>, c: int)
    requires
        apart(list),
    ensures
        odd_cover(list, c) == covered(list, c),
    decreases list.len(),
{
    if list.len() > 0 {
        let front = list.drop_last();
        let n = list.len() as int;
        assert forall|i: int, j: int|
            0 <= i < front.len() && 0 <= j < front.len() && i != j implies (#[trigger] front[i]).end
            <= (#[trigger] front[j]).start || front[j].end <= front[i].start by {
            assert(front[i] == list[i]);
            assert(front[j] == list[j]);
        }
        lemma_odd_cover_apart(front, c);
        if covered(front, c) {
            let j = choose|j: int| 0 <= j < front.len() && holds(#[trigger] front[j], c);
            assert(front[j] == list[j]);
            assert(holds(list[j], c));
            assert(list[j].end <= list[n - 1].start || list[n - 1].end <= list[j].start);
            assert(!holds(list.last(), c));
        }
        if covered(list, c) {
            let j = choose|j: int| 0 <= j < list.len() && holds(#[trigger] list[j], c);
            if j < n - 1 {
                assert(front[j] == list[j]);
            }
        }
        if holds(list.last(), c) {
            assert(holds(list[n - 1], c));
        }
    }
}

/// Span coverage: the region that holds a character names a source when
/// an odd number of the source's spans hold that character. For a source
/// whose spans share no character, that is when one of its spans holds the
/// character.
pub proof fn lemma_region_names_covering_sources(
    text: Seq<char>,
    spans: Seq<Seq<Span>>,
    s: int,
    c: int,
)
    requires
        sized(spans),
        forall|t: int| 0 <= t < spans.len() ==> all_nonempty(#[trigger] spans[t]),
        0 <= s < spans.len(),
    ensures
        active_at(text, spans, c).len() == spans.len(),
        active_at(text, spans, c)[s] == odd_cover(spans[s], c),
        apart(spans[s]) ==> active_at(text, spans, c)[s] == covered(spans[s], c),
{
    let events = timeline(spans);
    let groups = grouped(events);
    let g = groups_upto(groups, c);
    let start = sweep_start(spans.len()).active;
    lemma_timeline_genuine(spans);
    lemma_grouped_runs(events);
    lemma_groups_upto(groups, c);
    lemma_swept_flags(text, spans, groups, g);
    let early = joined(groups.take(g));
    let late = joined(groups.skip(g));
    lemma_toggled_len(start, early);
    assert forall|k: int| 0 <= k < early.len() implies (#[trigger] early[k]).0 <= c by {
        let at = lemma_joined_member(groups.take(g), k);
        assert(groups.take(g)[at.0] == groups[at.0]);
        assert(groups[at.0][at.1].0 == groups[at.0][0].0);
    }
    assert forall|k: int| 0 <= k < late.len() implies !((#[trigger] late[k]).2 == s && late[k].0
        <= c) by {
        let at = lemma_joined_member(groups.skip(g), k);
        assert(groups.skip(g)[at.0] == groups[g + at.0]);
        assert(groups[g + at.0][at.1].0 == groups[g + at.0][0].0);
    }
    lemma_toggled_flips(start, early, s, c);
    lemma_flips_none(late, s, c);
    lemma_grouped_joined(events);
    lemma_joined_split(groups, g);
    lemma_flips_add(early, late, s, c);
    lemma_flips_permuted(events, all_events(spans), s, c);
    lemma_flips_streams(spans, spans.len() as int, s, c);
    if apart(spans[s]) {
        lemma_odd_cover_apart(spans[s], c);
    }
}

/// No span holds a character that no index can name.
proof fn lemma_nothing_holds_the_last_offset(list: Seq<Span>)
    ensures
        !odd_cover(list, usize::MAX as int),
    decreases list.len(),
{
    if list.len() > 0 {
        lemma_nothing_holds_the_last_offset(list.drop_last());
    }
}

/// The regions of a paragraph are closed one by one: each group of the
/// sweep ends the open region before it starts the next, and after the
/// last group no source is active, so that no region is left open and the
/// paragraph ends with its remaining text.
pub proof fn lemma_regions_close(text: Seq<char>, spans: Seq<Seq<Span>>)
    requires
        sized(spans),
        forall|t: int| 0 <= t < spans.len() ==> all_nonempty(#[trigger] spans[t]),
    ensures
        ({
            let groups = grouped(timeline(spans));
            let st = swept(text, spans, groups, groups.len() as int);
            &&& !any_active(st.active)
            &&& region_end(st.active) == Seq::<char>::empty()
            &&& rendered_paragraph(text, spans) == "<p>"@ + st.out + text.subrange(
                st.last,
                text.len() as int,
            ) + "</p>\n"@
        }),
{
    let groups = grouped(timeline(spans));
    let st = swept(text, spans, groups, groups.len() as int);
    let c = usize::MAX as int;
    lemma_timeline_genuine(spans);
    lemma_grouped_runs(timeline(spans));
    lemma_groups_upto(groups, c);
    if groups.len() > 0 {
        assert(groups.last()[0].0 <= c);
    }
    assert(groups_upto(groups, c) == groups.len());
    lemma_swept_flags(text, spans, groups, groups.len() as int);
    lemma_toggled_len(
        sweep_start(spans.len()).active,
        joined(groups.take(groups.len() as int)),
    );
    assert(st.active.len() == spans.len());
    assert forall|s: int| 0 <= s < st.active.len() implies !#[trigger] st.active[s] by {
        lemma_region_names_covering_sources(text, spans, s, c);
        lemma_nothing_holds_the_last_offset(spans[s]);
    }
    assert(rendered_paragraph(text, spans) =~= "<p>"@ + st.out + text.subrange(
        st.last,
        text.len() as int,
    ) + "</p>\n"@);
}

} // verus!
