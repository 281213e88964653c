use vstd::prelude::*;

use crate::source::{FolderView, SegmentView, SourceView, TrackView};
use crate::timeline::{
    answer, clip_outcome, folder_count, folders_in, join, lens_total, list_outcome, play_len, segments_outcome, span, track_outcome,
    tracks_outcome, window_scan, window_step, ListingView, Outcome, PlayView,
};
use crate::resolve::{probed_list, probed_source, probed_tracks, resolve_outcome, schedule_scan, ResolvedEventView};
use crate::time::MAX_NANOS;

verus! {

/// The sum of the lengths of the plays where all of them have an end; none
/// where one runs to the end of its file.
pub open spec fn known_total(plays: Seq<PlayView>) -> Option<int>
    decreases plays.len(),
{
    if plays.len() == 0 {
        Some(0)
    } else {
        match (known_total(plays.drop_last()), plays.last().end) {
            (Some(sum), Some(e)) => Some(sum + (e - plays.last().start)),
            _ => None,
        }
    }
}

proof fn lemma_known_total_concat(a: Seq<PlayView>, b: Seq<PlayView>)
    ensures
        known_total(a + b) == match (known_total(a), known_total(b)) {
            (Some(x), Some(y)) => Some(x + y),
            _ => None::<int>,
        },
    decreases b.len(),
{
    if b.len() == 0 {
        assert(a + b =~= a);
    } else {
        lemma_known_total_concat(a, b.drop_last());
        assert((a + b).drop_last() =~= a + b.drop_last());
        assert((a + b).last() == b.last());
    }
}

proof fn lemma_lens_total_known(w: Seq<PlayView>)
    ensures
        lens_total(w) matches Some(t) ==> t == known_total(w),
    decreases w.len(),
{
    if w.len() > 0 {
        lemma_lens_total_known(w.drop_last());
        if lens_total(w.drop_last()) == Some(None::<int>) {
            lemma_open_stays_unknown(w.drop_last(), w.last());
        }
    }
}

proof fn lemma_open_stays_unknown(w: Seq<PlayView>, p: PlayView)
    requires
        known_total(w) is None,
    ensures
        known_total(w.push(p)) is None,
{
    assert(w.push(p).drop_last() =~= w);
}

proof fn lemma_join_known(acc: Outcome, next: Outcome)
    requires
        acc matches Outcome::Done(p, t) && t == known_total(p),
        next matches Outcome::Done(p, t) ==> t == known_total(p),
    ensures
        join(acc, next) matches Outcome::Done(p, t) ==> t == known_total(p),
{
    if let (Outcome::Done(a, _), Outcome::Done(b, _)) = (acc, next) {
        lemma_known_total_concat(a, b);
    }
}

proof fn lemma_segments_known(path: Seq<char>, segs: Seq<SegmentView>)
    ensures
        segments_outcome(path, segs) matches Outcome::Done(p, t) ==> t == known_total(p),
    decreases segs.len(),
{
    if segs.len() > 0 {
        lemma_segments_known(path, segs.drop_last());
        if let Outcome::Done(p, Some(_)) = segments_outcome(path, segs.drop_last()) {
            let g = segs.last();
            let q = PlayView { path, start: g.start, end: g.end };
            assert(p.push(q).drop_last() =~= p);
        }
    }
}

proof fn lemma_track_known(t: TrackView)
    ensures
        track_outcome(t) matches Outcome::Done(p, total) ==> total == known_total(p),
{
    if t.segments.len() == 0 {
        let q = PlayView { path: t.path, start: 0, end: t.len };
        assert(seq![q].drop_last() =~= Seq::<PlayView>::empty());
        assert(known_total(Seq::<PlayView>::empty()) == Some(0int));
        assert(seq![q].last() == q);
        assert(known_total(seq![q]) == match t.len {
            Some(e) => Some(e),
            None => None::<int>,
        });
    } else {
        lemma_segments_known(t.path, t.segments);
    }
}

proof fn lemma_tracks_known(ts: Seq<TrackView>)
    ensures
        tracks_outcome(ts) matches Outcome::Done(p, t) ==> t == known_total(p),
    decreases ts.len(),
{
    if ts.len() > 0 {
        lemma_tracks_known(ts.drop_last());
        lemma_track_known(ts.last());
        if tracks_outcome(ts.drop_last()) is Done {
            lemma_join_known(tracks_outcome(ts.drop_last()), track_outcome(ts.last()));
        }
    }
}

/// The total of a flattened source is the sum of the lengths of its plays
/// where every play has an end, and unknown where one runs to the end of its
/// file.
pub proof fn law_total_is_sum_of_plays(s: SourceView, ls: Seq<ListingView>, k: int)
    ensures
        span(s, ls, k) matches Outcome::Done(plays, total) ==> total == known_total(plays),
    decreases s,
{
    match s {
        SourceView::Track(t) => lemma_track_known(t),
        SourceView::List(cs) => lemma_list_known(cs, ls, k),
        SourceView::Folder(_) => {
            if let Ok(ts) = crate::timeline::answer(ls, k) {
                lemma_tracks_known(ts);
            }
        },
        SourceView::Clip(inner, start, end) => {
            law_total_is_sum_of_plays(*inner, ls, k);
            if let Outcome::Done(w, _) = clip_outcome(span(*inner, ls, k), start, end) {
                lemma_lens_total_known(w);
            }
        },
    }
}

proof fn lemma_list_known(cs: Seq<SourceView>, ls: Seq<ListingView>, k: int)
    ensures
        list_outcome(cs, ls, k) matches Outcome::Done(p, t) ==> t == known_total(p),
    decreases cs,
{
    if cs.len() > 0 {
        lemma_list_known(cs.drop_last(), ls, k);
        let kk = k + crate::timeline::folders_in(cs.drop_last());
        law_total_is_sum_of_plays(cs.last(), ls, kk);
        if list_outcome(cs.drop_last(), ls, k) is Done {
            lemma_join_known(list_outcome(cs.drop_last(), ls, k), span(cs.last(), ls, kk));
        }
    } else {
        assert(known_total(Seq::<PlayView>::empty()) == Some(0int));
    }
}

/// Plays whose spans are in range: each starts at or after zero and ends, if
/// it does, at or after its start and within the range of a `Duration`.
pub open spec fn plays_fit(plays: Seq<PlayView>) -> bool {
    forall|i: int|
        0 <= i < plays.len() ==> 0 <= (#[trigger] plays[i]).start && (plays[i].end matches Some(e) ==> plays[i].start
            <= e <= MAX_NANOS)
}

/// How much of a timeline position `x` lies inside the window `[start, end)`.
pub open spec fn clamp(x: int, start: int, end: Option<int>) -> int {
    let hi = match end {
        Some(e) => if x <= e { x } else { e },
        None => x,
    };
    if hi > start {
        hi - start
    } else {
        0
    }
}

proof fn lemma_known_prefix(evs: Seq<PlayView>)
    requires
        evs.len() > 0,
        plays_fit(evs),
        known_total(evs) is Some,
    ensures
        known_total(evs.drop_last()) is Some,
        evs.last().end is Some,
        known_total(evs.drop_last())->0 <= known_total(evs)->0,
        plays_fit(evs.drop_last()),
{
    assert(plays_fit(evs.drop_last())) by {
        assert forall|i: int| 0 <= i < evs.drop_last().len() implies 0 <= (#[trigger] evs.drop_last()[i]).start
            && (evs.drop_last()[i].end matches Some(e) ==> evs.drop_last()[i].start <= e <= MAX_NANOS) by {
            assert(evs.drop_last()[i] == evs[i]);
        }
    }
    assert(evs.last() == evs[evs.len() - 1]);
}

proof fn lemma_fit_push(kept: Seq<PlayView>, p: PlayView)
    requires
        plays_fit(kept),
        0 <= p.start,
        p.end matches Some(e) ==> p.start <= e <= MAX_NANOS,
    ensures
        plays_fit(kept.push(p)),
{
    assert forall|i: int| 0 <= i < kept.push(p).len() implies 0 <= (#[trigger] kept.push(p)[i]).start && (kept.push(
        p,
    )[i].end matches Some(e) ==> kept.push(p)[i].start <= e <= MAX_NANOS) by {
        if i < kept.len() {
            assert(kept.push(p)[i] == kept[i]);
        }
    }
}

proof fn lemma_window_step(kept: Seq<PlayView>, pos: int, ev: PlayView, start: int, end: Option<int>)
    requires
        plays_fit(kept),
        known_total(kept) == Some(clamp(pos, start, end)),
        0 <= pos,
        0 <= ev.start,
        ev.end matches Some(e) && ev.start <= e <= MAX_NANOS && pos + (e - ev.start) <= MAX_NANOS,
        0 <= start,
        end matches Some(e) ==> start <= e,
    ensures
        window_step(kept, pos, ev, start, end) matches Some((k2, p2, past)) && plays_fit(k2) && known_total(k2)
            == Some(clamp(p2, start, end)) && (past ==> (end matches Some(e) && p2 >= e && p2 == pos)) && (!past
            ==> p2 == pos + (ev.end->0 - ev.start)),
{
    let e_l = ev.end->0;
    let len = e_l - ev.start;
    assert(play_len(ev) == Some(Some(len)));
    let cease = pos + len;
    if cease <= start {
    } else if end matches Some(e) && pos >= e {
    } else {
        let lo = if pos >= start { pos } else { start };
        let hi = match end {
            None => cease,
            Some(e) => if cease <= e { cease } else { e },
        };
        if hi > lo {
            let q = PlayView { path: ev.path, start: ev.start + (lo - pos), end: Some(ev.start + (hi - pos)) };
            lemma_fit_push(kept, q);
            assert(kept.push(q).drop_last() =~= kept);
            assert(kept.push(q).last() == q);
            assert(known_total(kept.push(q)) == Some(clamp(pos, start, end) + (hi - lo)));
        }
    }
}

proof fn lemma_window_length(evs: Seq<PlayView>, start: int, end: Option<int>)
    requires
        plays_fit(evs),
        known_total(evs) matches Some(t) && t <= MAX_NANOS,
        0 <= start,
        end matches Some(e) ==> start <= e,
    ensures
        window_scan(evs, start, end) matches Some((kept, pos, past)) && plays_fit(kept) && known_total(kept) == Some(
            clamp(pos, start, end),
        ) && 0 <= pos <= known_total(evs)->0 && (past ==> (end matches Some(e) && pos >= e)) && (!past ==> pos
            == known_total(evs)->0),
    decreases evs.len(),
{
    if evs.len() == 0 {
        assert(known_total(Seq::<PlayView>::empty()) == Some(0int));
    } else {
        lemma_known_prefix(evs);
        let prev = evs.drop_last();
        lemma_window_length(prev, start, end);
        let (kept, pos, past) = window_scan(prev, start, end)->0;
        if !past {
            let ev = evs.last();
            assert(ev == evs[evs.len() - 1]);
            lemma_window_step(kept, pos, ev, start, end);
        }
    }
}

proof fn lemma_lens_total_of_fit(w: Seq<PlayView>)
    requires
        plays_fit(w),
        known_total(w) matches Some(t) && t <= MAX_NANOS,
    ensures
        lens_total(w) == Some(known_total(w)),
    decreases w.len(),
{
    if w.len() > 0 {
        lemma_known_prefix(w);
        lemma_lens_total_of_fit(w.drop_last());
    }
}

/// The length of the part of a timeline of known total `total` inside the
/// window `[start, end)`.
pub open spec fn clip_length(total: int, start: int, end: Option<int>) -> int {
    clamp(total, start, end)
}

/// Clipping a timeline of known total gives the part of it inside the
/// window: its total is the length of the window cut to the timeline, none
/// where the window starts after the timeline ends.
pub proof fn law_clip_length(plays: Seq<PlayView>, total: int, start: int, end: Option<int>)
    requires
        plays_fit(plays),
        known_total(plays) == Some(total),
        total <= MAX_NANOS,
        0 <= start <= MAX_NANOS,
        end matches Some(e) ==> start <= e,
    ensures
        clip_outcome(Outcome::Done(plays, Some(total)), start, end) matches Outcome::Done(w, t) && t == Some(
            clip_length(total, start, end),
        ) && plays_fit(w),
{
    lemma_window_length(plays, start, end);
    let (w, pos, past) = window_scan(plays, start, end)->0;
    lemma_lens_total_of_fit(w);
}

pub open spec fn span_fits(d: int) -> bool {
    0 <= d <= MAX_NANOS
}

pub open spec fn opt_span_fits(d: Option<int>) -> bool {
    d matches Some(x) ==> span_fits(x)
}

/// Every span of a track is in the range of a `Duration`.
pub open spec fn track_fits(t: TrackView) -> bool {
    &&& opt_span_fits(t.len)
    &&& forall|i: int|
        0 <= i < t.segments.len() ==> span_fits((#[trigger] t.segments[i]).start) && opt_span_fits(
            t.segments[i].end,
        )
}

pub open spec fn tracks_fit(ts: Seq<TrackView>) -> bool {
    forall|i: int| 0 <= i < ts.len() ==> track_fits(#[trigger] ts[i])
}

/// Every span of a source is in the range of a `Duration`, as it is for the
/// view of any `Source` built by the constructors of `Duration`.
pub open spec fn source_fits(s: SourceView) -> bool
    decreases s,
{
    match s {
        SourceView::Track(t) => track_fits(t),
        SourceView::Folder(_) => true,
        SourceView::List(cs) => forall|i: int| 0 <= i < cs.len() ==> source_fits(#[trigger] cs[i]),
        SourceView::Clip(inner, start, end) => source_fits(*inner) && span_fits(start) && opt_span_fits(end),
    }
}

/// Every span of the listed tracks is in the range of a `Duration`.
pub open spec fn listings_fit(ls: Seq<ListingView>) -> bool {
    forall|i: int| 0 <= i < ls.len() ==> (#[trigger] ls[i] matches Ok(ts) ==> tracks_fit(ts))
}

/// What an outcome of flattening holds when every span it started from is in
/// range: plays in range and a total in range.
pub open spec fn outcome_fits(o: Outcome) -> bool {
    o matches Outcome::Done(p, t) ==> plays_fit(p) && opt_span_fits(t)
}

proof fn lemma_fit_concat(a: Seq<PlayView>, b: Seq<PlayView>)
    requires
        plays_fit(a),
        plays_fit(b),
    ensures
        plays_fit(a + b),
{
    assert forall|i: int| 0 <= i < (a + b).len() implies 0 <= (#[trigger] (a + b)[i]).start && ((a + b)[i].end matches Some(
        e,
    ) ==> (a + b)[i].start <= e <= MAX_NANOS) by {
        if i < a.len() {
            assert((a + b)[i] == a[i]);
        } else {
            assert((a + b)[i] == b[i - a.len()]);
        }
    }
}

proof fn lemma_join_fits(acc: Outcome, next: Outcome)
    requires
        outcome_fits(acc),
        outcome_fits(next),
    ensures
        outcome_fits(join(acc, next)),
{
    if let (Outcome::Done(a, _), Outcome::Done(b, _)) = (acc, next) {
        lemma_fit_concat(a, b);
    }
}

proof fn lemma_segments_fit(path: Seq<char>, segs: Seq<SegmentView>)
    requires
        forall|i: int| 0 <= i < segs.len() ==> span_fits((#[trigger] segs[i]).start) && opt_span_fits(segs[i].end),
    ensures
        outcome_fits(segments_outcome(path, segs)),
    decreases segs.len(),
{
    if segs.len() > 0 {
        assert forall|i: int| 0 <= i < segs.drop_last().len() implies span_fits((#[trigger] segs.drop_last()[i]).start)
            && opt_span_fits(segs.drop_last()[i].end) by {
            assert(segs.drop_last()[i] == segs[i]);
        }
        lemma_segments_fit(path, segs.drop_last());
        assert(segs.last() == segs[segs.len() - 1]);
        if let Outcome::Done(p, Some(_)) = segments_outcome(path, segs.drop_last()) {
            let g = segs.last();
            if g.end is None || g.end->0 >= g.start {
                lemma_fit_push(p, PlayView { path, start: g.start, end: g.end });
            }
        }
    }
}

proof fn lemma_track_fits(t: TrackView)
    requires
        track_fits(t),
    ensures
        outcome_fits(track_outcome(t)),
{
    if t.segments.len() == 0 {
        lemma_fit_push(Seq::empty(), PlayView { path: t.path, start: 0, end: t.len });
        assert(Seq::<PlayView>::empty().push(PlayView { path: t.path, start: 0, end: t.len }) =~= seq![
            PlayView { path: t.path, start: 0, end: t.len },
        ]);
    } else {
        lemma_segments_fit(t.path, t.segments);
    }
}

proof fn lemma_tracks_fits(ts: Seq<TrackView>)
    requires
        tracks_fit(ts),
    ensures
        outcome_fits(tracks_outcome(ts)),
    decreases ts.len(),
{
    if ts.len() > 0 {
        assert(tracks_fit(ts.drop_last())) by {
            assert forall|i: int| 0 <= i < ts.drop_last().len() implies track_fits(#[trigger] ts.drop_last()[i]) by {
                assert(ts.drop_last()[i] == ts[i]);
            }
        }
        lemma_tracks_fits(ts.drop_last());
        assert(ts.last() == ts[ts.len() - 1]);
        lemma_track_fits(ts.last());
        lemma_join_fits(tracks_outcome(ts.drop_last()), track_outcome(ts.last()));
    }
}

/// Flattening a source whose spans are all in range gives plays and a total
/// in range.
pub proof fn law_flattened_spans_fit(s: SourceView, ls: Seq<ListingView>, k: int)
    requires
        source_fits(s),
        listings_fit(ls),
    ensures
        outcome_fits(span(s, ls, k)),
    decreases s,
{
    match s {
        SourceView::Track(t) => lemma_track_fits(t),
        SourceView::List(cs) => lemma_list_fits(cs, ls, k),
        SourceView::Folder(_) => {
            if let Ok(ts) = crate::timeline::answer(ls, k) {
                if 0 <= k < ls.len() {
                    assert(ls[k] matches Ok(ts) ==> tracks_fit(ts));
                }
                lemma_tracks_fits(ts);
            }
        },
        SourceView::Clip(inner, start, end) => {
            law_flattened_spans_fit(*inner, ls, k);
            law_total_is_sum_of_plays(*inner, ls, k);
            if let Outcome::Done(plays, Some(total)) = span(*inner, ls, k) {
                if end matches Some(e) && start > e {
                } else {
                    law_clip_length(plays, total, start, end);
                    if let Outcome::Done(w, _) = clip_outcome(span(*inner, ls, k), start, end) {
                        lemma_lens_total_known(w);
                    }
                }
            }
        },
    }
}

proof fn lemma_list_fits(cs: Seq<SourceView>, ls: Seq<ListingView>, k: int)
    requires
        forall|i: int| 0 <= i < cs.len() ==> source_fits(#[trigger] cs[i]),
        listings_fit(ls),
    ensures
        outcome_fits(list_outcome(cs, ls, k)),
    decreases cs,
{
    if cs.len() > 0 {
        assert forall|i: int| 0 <= i < cs.drop_last().len() implies source_fits(#[trigger] cs.drop_last()[i]) by {
            assert(cs.drop_last()[i] == cs[i]);
        }
        lemma_list_fits(cs.drop_last(), ls, k);
        assert(cs.last() == cs[cs.len() - 1]);
        let kk = k + crate::timeline::folders_in(cs.drop_last());
        law_flattened_spans_fit(cs.last(), ls, kk);
        lemma_join_fits(list_outcome(cs.drop_last(), ls, k), span(cs.last(), ls, kk));
    } else {
        assert(plays_fit(Seq::<PlayView>::empty()));
    }
}

/// Clipping a source of known total gives the part of it inside the window,
/// of the length of the window cut to the source, wherever the window does
/// not end before it starts.
pub proof fn law_clip_of_source(inner: SourceView, start: int, end: Option<int>, ls: Seq<ListingView>, k: int)
    requires
        source_fits(inner),
        listings_fit(ls),
        span_fits(start),
        opt_span_fits(end),
        end matches Some(e) ==> start <= e,
        span(inner, ls, k) matches Outcome::Done(_, Some(_)),
    ensures
        span(SourceView::Clip(Box::new(inner), start, end), ls, k) matches Outcome::Done(w, Some(t)) && t
            == clip_length(span(inner, ls, k)->Done_1->0, start, end),
{
    law_flattened_spans_fit(inner, ls, k);
    law_total_is_sum_of_plays(inner, ls, k);
    let (plays, total) = (span(inner, ls, k)->Done_0, span(inner, ls, k)->Done_1->0);
    law_clip_length(plays, total, start, end);
}

/// The plays of placed events, in order.
pub open spec fn placed_plays(evs: Seq<ResolvedEventView>) -> Seq<PlayView> {
    evs.map_values(|e: ResolvedEventView| e.play)
}

/// Each event is placed where the plays before it end, every play has an
/// end, and the total is where the last one ends.
pub open spec fn placed_end_to_end(evs: Seq<ResolvedEventView>, total: int) -> bool {
    &&& forall|i: int|
        0 <= i < evs.len() ==> Some((#[trigger] evs[i]).at) == known_total(placed_plays(evs).take(i))
            && evs[i].play.end is Some
    &&& Some(total) == known_total(placed_plays(evs))
}

proof fn lemma_schedule_end_to_end(plays: Seq<PlayView>)
    ensures
        schedule_scan(plays) matches Some(Ok((evs, total))) ==> placed_plays(evs) == plays && placed_end_to_end(
            evs,
            total,
        ),
    decreases plays.len(),
{
    if plays.len() == 0 {
        assert(placed_plays(Seq::<ResolvedEventView>::empty()) =~= Seq::<PlayView>::empty());
        assert(known_total(Seq::<PlayView>::empty()) == Some(0int));
    } else {
        lemma_schedule_end_to_end(plays.drop_last());
        if let Some(Ok((evs, total))) = schedule_scan(plays.drop_last()) {
            if let Some(Some(len)) = play_len(plays.last()) {
                let e = ResolvedEventView { at: total, play: plays.last() };
                let evs2 = evs.push(e);
                assert(placed_plays(evs2) =~= plays.drop_last().push(plays.last()));
                assert(plays.drop_last().push(plays.last()) =~= plays);
                assert forall|i: int| 0 <= i < evs2.len() implies Some((#[trigger] evs2[i]).at) == known_total(
                    placed_plays(evs2).take(i),
                ) && evs2[i].play.end is Some by {
                    if i < evs.len() {
                        assert(evs2[i] == evs[i]);
                        assert(placed_plays(evs2).take(i) =~= placed_plays(evs).take(i));
                    } else {
                        assert(placed_plays(evs2).take(i) =~= placed_plays(evs));
                    }
                }
                assert(plays.drop_last() =~= placed_plays(evs));
            }
        }
    }
}

/// Resolving places the plays of the probed source's timeline, in order,
/// each where the plays before it end: the first at zero, each next one
/// after the length of the one before, and the total where the last one
/// ends, which is the timeline's total.
pub proof fn law_resolved_end_to_end(s: SourceView, ls: Seq<ListingView>, lens: Seq<Option<int>>)
    ensures
        resolve_outcome(s, ls, lens) matches Some(Ok((evs, total))) ==> {
            &&& placed_end_to_end(evs, total)
            &&& probed_source(s, ls, 0, lens, 0) matches Ok(p)
            &&& crate::timeline::flatten_outcome(p, Seq::empty()) matches Outcome::Done(plays, t)
            &&& placed_plays(evs) == plays
            &&& t == Some(total)
        },
{
    if let Ok(p) = probed_source(s, ls, 0, lens, 0) {
        if let Outcome::Done(plays, _) = crate::timeline::flatten_outcome(p, Seq::empty()) {
            lemma_schedule_end_to_end(plays);
            law_total_is_sum_of_plays(p, Seq::empty(), 0);
        }
    }
}

/// The plays of each child, in order, where every child flattens.
pub open spec fn children_plays(cs: Seq<SourceView>, ls: Seq<ListingView>, k: int) -> Option<Seq<PlayView>>
    decreases cs.len(),
{
    if cs.len() == 0 {
        Some(Seq::empty())
    } else {
        match (
            children_plays(cs.drop_last(), ls, k),
            span(cs.last(), ls, k + folders_in(cs.drop_last())),
        ) {
            (Some(before), Outcome::Done(p, _)) => Some(before + p),
            _ => None,
        }
    }
}

/// A list plays each of its children whole, one after another, whether or
/// not a child runs to the end of its file: where the list flattens, its
/// plays are those of its children in order.
pub proof fn law_list_plays_children_in_order(cs: Seq<SourceView>, ls: Seq<ListingView>, k: int)
    ensures
        list_outcome(cs, ls, k) matches Outcome::Done(p, _) ==> children_plays(cs, ls, k) == Some(p),
    decreases cs.len(),
{
    if cs.len() > 0 {
        law_list_plays_children_in_order(cs.drop_last(), ls, k);
    }
}

// ----------------------------------------------------------------------------
// Nesting a list in a list.

/// Appending outcomes with the totals added in the integers: `join` where no
/// sum leaves the range.
spec fn free_join(acc: Outcome, next: Outcome) -> Outcome {
    match acc {
        Outcome::Done(plays, total) => match next {
            Outcome::Done(more, child_total) => Outcome::Done(
                plays + more,
                match (total, child_total) {
                    (Some(a), Some(b)) => Some(a + b),
                    _ => None,
                },
            ),
            other => other,
        },
        other => other,
    }
}

/// Children in order as `list_outcome` takes them, the totals added in the
/// integers.
spec fn free_list(cs: Seq<SourceView>, ls: Seq<ListingView>, k: int) -> Outcome
    decreases cs.len(),
{
    if cs.len() == 0 {
        Outcome::Done(Seq::empty(), Some(0))
    } else {
        free_join(free_list(cs.drop_last(), ls, k), span(cs.last(), ls, k + folders_in(cs.drop_last())))
    }
}

/// `c` is `i`, or a span left the range on the way to it.
spec fn approx(c: Outcome, i: Outcome) -> bool {
    c == i || c is Overflow
}

proof fn lemma_join_approx(c1: Outcome, i1: Outcome, c2: Outcome, i2: Outcome)
    requires
        approx(c1, i1),
        approx(c2, i2),
    ensures
        approx(join(c1, c2), free_join(i1, i2)),
{
    if let Outcome::Done(p, t) = c1 {
        if let Outcome::Done(q, u) = c2 {
            if let (Some(a), Some(b)) = (t, u) {
                assert(a + b <= MAX_NANOS ==> join(c1, c2) == Outcome::Done(p + q, Some(a + b)));
            }
        }
    }
}

proof fn lemma_free_join_assoc(a: Outcome, b: Outcome, c: Outcome)
    ensures
        free_join(free_join(a, b), c) == free_join(a, free_join(b, c)),
{
    if let (Outcome::Done(p, t), Outcome::Done(q, u), Outcome::Done(r, v)) = (a, b, c) {
        assert((p + q) + r =~= p + (q + r));
    }
}

proof fn lemma_free_join_approx(a: Outcome, x: Outcome, y: Outcome, b: Outcome)
    requires
        approx(x, y),
    ensures
        approx(free_join(a, x), free_join(a, y)),
        approx(free_join(x, b), free_join(y, b)),
{
}

proof fn lemma_folders_concat(a: Seq<SourceView>, b: Seq<SourceView>)
    ensures
        folders_in(a + b) == folders_in(a) + folders_in(b),
    decreases b.len(),
{
    if b.len() == 0 {
        assert(a + b =~= a);
    } else {
        lemma_folders_concat(a, b.drop_last());
        assert((a + b).drop_last() =~= a + b.drop_last());
    }
}

proof fn lemma_list_approx(cs: Seq<SourceView>, ls: Seq<ListingView>, k: int)
    ensures
        approx(list_outcome(cs, ls, k), free_list(cs, ls, k)),
    decreases cs.len(),
{
    if cs.len() > 0 {
        lemma_list_approx(cs.drop_last(), ls, k);
        let s = span(cs.last(), ls, k + folders_in(cs.drop_last()));
        lemma_join_approx(list_outcome(cs.drop_last(), ls, k), free_list(cs.drop_last(), ls, k), s, s);
    }
}

proof fn lemma_free_list_concat(a: Seq<SourceView>, b: Seq<SourceView>, ls: Seq<ListingView>, k: int)
    ensures
        free_list(a + b, ls, k) == free_join(free_list(a, ls, k), free_list(b, ls, k + folders_in(a))),
    decreases b.len(),
{
    let fa = free_list(a, ls, k);
    if b.len() == 0 {
        assert(a + b =~= a);
        if let Outcome::Done(p, t) = fa {
            assert(p + Seq::<PlayView>::empty() =~= p);
        }
    } else {
        let b0 = b.drop_last();
        lemma_free_list_concat(a, b0, ls, k);
        assert((a + b).drop_last() =~= a + b0);
        assert((a + b).last() == b.last());
        lemma_folders_concat(a, b0);
        let s = span(b.last(), ls, k + folders_in(a + b0));
        lemma_free_join_assoc(fa, free_list(b0, ls, k + folders_in(a)), s);
    }
}

/// Flattening a list in which one child is itself a list gives what
/// flattening the list with that child's children spliced in its place gives,
/// wherever neither of the two leaves the range of a `Duration`.
pub proof fn law_nested_list_splices(
    cs: Seq<SourceView>,
    ds: Seq<SourceView>,
    es: Seq<SourceView>,
    ls: Seq<ListingView>,
    k: int,
)
    ensures
        ({
            let n = list_outcome(cs + seq![SourceView::List(ds)] + es, ls, k);
            let f = list_outcome(cs + ds + es, ls, k);
            n is Overflow || f is Overflow || n == f
        }),
{
    let inner = seq![SourceView::List(ds)];
    let fc = folders_in(cs);
    // The nested form, split around the inner list.
    lemma_free_list_concat(cs + inner, es, ls, k);
    lemma_free_list_concat(cs, inner, ls, k);
    lemma_folders_concat(cs, inner);
    assert(inner.drop_last() =~= Seq::<SourceView>::empty());
    assert(inner.len() == 1 && inner.last() == SourceView::List(ds));
    assert(folders_in(inner.drop_last()) == 0);
    assert(free_list(inner.drop_last(), ls, k + fc) == Outcome::Done(Seq::<PlayView>::empty(), Some(0int)));
    assert(folder_count(SourceView::List(ds)) == folders_in(ds));
    assert(folders_in(inner) == folders_in(ds));
    let nested_child = list_outcome(ds, ls, k + fc);
    assert(span(inner.last(), ls, k + fc) == nested_child);
    assert(free_list(inner, ls, k + fc) == free_join(Outcome::Done(Seq::empty(), Some(0)), nested_child));
    if let Outcome::Done(q, u) = nested_child {
        assert(Seq::<PlayView>::empty() + q =~= q);
    }
    assert(free_list(inner, ls, k + fc) == nested_child);
    // The flat form, split the same way.
    lemma_free_list_concat(cs + ds, es, ls, k);
    lemma_free_list_concat(cs, ds, ls, k);
    lemma_folders_concat(cs, ds);
    // The inner list is close to its free form, and so are both wholes.
    lemma_list_approx(ds, ls, k + fc);
    let before = free_list(cs, ls, k);
    let after = free_list(es, ls, k + fc + folders_in(ds));
    lemma_free_join_approx(before, nested_child, free_list(ds, ls, k + fc), after);
    lemma_free_join_approx(
        free_join(before, nested_child),
        free_join(before, nested_child),
        free_join(before, free_list(ds, ls, k + fc)),
        after,
    );
    lemma_list_approx(cs + inner + es, ls, k);
    lemma_list_approx(cs + ds + es, ls, k);
}

// ----------------------------------------------------------------------------
// A clip of a clip.

/// What is kept of one play with an end, beginning at `begin` in its
/// timeline, seen through the window `[start, end)`: the play cut to the
/// window, or nothing.
pub open spec fn piece(ev: PlayView, begin: int, start: int, end: Option<int>) -> Seq<PlayView> {
    let cease = begin + (ev.end->0 - ev.start);
    let lo = if begin >= start { begin } else { start };
    let hi = match end {
        None => cease,
        Some(e) => if cease <= e { cease } else { e },
    };
    if hi > lo {
        seq![PlayView { path: ev.path, start: ev.start + (lo - begin), end: Some(ev.start + (hi - begin)) }]
    } else {
        Seq::empty()
    }
}

/// The plays of a timeline whose plays all have an end, each cut to the
/// window `[start, end)` where it meets it.
pub open spec fn windowed(evs: Seq<PlayView>, start: int, end: Option<int>) -> Seq<PlayView>
    decreases evs.len(),
{
    if evs.len() == 0 {
        Seq::empty()
    } else {
        windowed(evs.drop_last(), start, end) + piece(evs.last(), known_total(evs.drop_last())->0, start, end)
    }
}

proof fn lemma_window_is_windowed(evs: Seq<PlayView>, start: int, end: Option<int>)
    requires
        plays_fit(evs),
        known_total(evs) matches Some(t) && t <= MAX_NANOS,
        0 <= start,
        end matches Some(e) ==> start <= e,
    ensures
        window_scan(evs, start, end) matches Some((kept, _, _)) && kept == windowed(evs, start, end),
        known_total(windowed(evs, start, end)) == Some(clamp(known_total(evs)->0, start, end)),
    decreases evs.len(),
{
    lemma_window_length(evs, start, end);
    if evs.len() == 0 {
        assert(known_total(Seq::<PlayView>::empty()) == Some(0int));
    } else {
        lemma_known_prefix(evs);
        let prev = evs.drop_last();
        let ev = evs.last();
        assert(ev == evs[evs.len() - 1]);
        lemma_window_is_windowed(prev, start, end);
        lemma_window_length(prev, start, end);
        let (kept, pos, past) = window_scan(prev, start, end)->0;
        let begin = known_total(prev)->0;
        if past {
            assert(piece(ev, begin, start, end) =~= Seq::<PlayView>::empty());
        } else {
            let len = ev.end->0 - ev.start;
            assert(play_len(ev) == Some(Some(len)));
            assert(pos == begin);
        }
        assert(windowed(evs, start, end) == kept + piece(ev, begin, start, end));
        assert(kept + Seq::<PlayView>::empty() =~= kept);
        if piece(ev, begin, start, end).len() == 1 {
            assert(kept + piece(ev, begin, start, end) =~= kept.push(piece(ev, begin, start, end)[0]));
        }
    }
}

/// The end of the window `[start + c, ..)` that a window `[c, d)` of a clip
/// `[start, end)` amounts to.
pub open spec fn composed_end(start: int, end: Option<int>, d: Option<int>) -> Option<int> {
    match (end, d) {
        (Some(x), Some(y)) => Some(if x <= start + y { x } else { start + y }),
        (Some(x), None) => Some(x),
        (None, Some(y)) => Some(start + y),
        (None, None) => None,
    }
}

proof fn lemma_piece_of_piece(ev: PlayView, begin: int, a: int, b: Option<int>, c: int, d: Option<int>)
    requires
        ev.end matches Some(e) && ev.start <= e,
        0 <= begin,
        0 <= a,
        0 <= c,
    ensures
        piece(ev, begin, a, b).len() == 0 ==> piece(ev, begin, a + c, composed_end(a, b, d)).len() == 0,
        piece(ev, begin, a, b).len() == 1 ==> piece(piece(ev, begin, a, b)[0], clamp(begin, a, b), c, d) == piece(
            ev,
            begin,
            a + c,
            composed_end(a, b, d),
        ),
{
}

proof fn lemma_clip_of_clip_plays(evs: Seq<PlayView>, a: int, b: Option<int>, c: int, d: Option<int>)
    requires
        plays_fit(evs),
        known_total(evs) matches Some(t) && t <= MAX_NANOS,
        0 <= a,
        0 <= c,
        b matches Some(x) ==> a <= x,
    ensures
        windowed(windowed(evs, a, b), c, d) == windowed(evs, a + c, composed_end(a, b, d)),
    decreases evs.len(),
{
    if evs.len() > 0 {
        lemma_known_prefix(evs);
        let prev = evs.drop_last();
        let ev = evs.last();
        assert(ev == evs[evs.len() - 1]);
        lemma_clip_of_clip_plays(prev, a, b, c, d);
        lemma_window_length(prev, a, b);
        let begin = known_total(prev)->0;
        let w1 = windowed(prev, a, b);
        let y = piece(ev, begin, a, b);
        lemma_window_is_windowed(prev, a, b);
        lemma_piece_of_piece(ev, begin, a, b, c, d);
        assert(windowed(evs, a, b) == w1 + y);
        if y.len() == 0 {
            assert(w1 + y =~= w1);
            assert(windowed(evs, a + c, composed_end(a, b, d)) =~= windowed(prev, a + c, composed_end(a, b, d)));
        } else {
            assert(y.len() == 1);
            assert((w1 + y).drop_last() =~= w1);
            assert((w1 + y).last() == y[0]);
        }
    }
}

proof fn lemma_clip_is_windowed(plays: Seq<PlayView>, total: int, start: int, end: Option<int>)
    requires
        plays_fit(plays),
        known_total(plays) == Some(total),
        total <= MAX_NANOS,
        0 <= start,
        start <= match end {
            Some(e) => e,
            None => MAX_NANOS as int,
        },
    ensures
        clip_outcome(Outcome::Done(plays, Some(total)), start, end) == Outcome::Done(
            windowed(plays, start, end),
            Some(clamp(total, start, end)),
        ),
        plays_fit(windowed(plays, start, end)),
        known_total(windowed(plays, start, end)) == Some(clamp(total, start, end)),
        clamp(total, start, end) <= total,
{
    lemma_window_length(plays, start, end);
    lemma_window_is_windowed(plays, start, end);
    lemma_lens_total_of_fit(windowed(plays, start, end));
}

proof fn lemma_clip_of_clip_window(
    plays: Seq<PlayView>,
    total: int,
    a: int,
    b: Option<int>,
    c: int,
    d: Option<int>,
)
    requires
        plays_fit(plays),
        known_total(plays) == Some(total),
        total <= MAX_NANOS,
        span_fits(a),
        opt_span_fits(b),
        span_fits(c),
        opt_span_fits(d),
        d matches Some(y) ==> c <= y,
        b matches Some(x) ==> a + c <= x,
        (b is None && d is None) ==> a + c <= MAX_NANOS,
    ensures
        clip_outcome(clip_outcome(Outcome::Done(plays, Some(total)), a, b), c, d) == clip_outcome(
            Outcome::Done(plays, Some(total)),
            a + c,
            composed_end(a, b, d),
        ),
{
    let e = composed_end(a, b, d);
    lemma_clip_is_windowed(plays, total, a, b);
    let w1 = windowed(plays, a, b);
    let t1 = clamp(total, a, b);
    lemma_clip_is_windowed(w1, t1, c, d);
    lemma_clip_is_windowed(plays, total, a + c, e);
    lemma_clip_of_clip_plays(plays, a, b, c, d);
}

/// A clip of a clip is the clip by the composed window: `[c, d)` of
/// `[a, b)` is `[a + c, b)` cut at `a + d`. It holds wherever the inner
/// source does not run to the end of a file of unknown length (there the two
/// report the clip each was asked for), and the outer window starts inside
/// the inner one (`a + c` not past `b`, nor past the largest `Duration` where
/// neither window has an end; elsewhere the clip of a clip is empty and the
/// composed window is reversed).
pub proof fn law_clip_of_clip(
    inner: SourceView,
    a: int,
    b: Option<int>,
    c: int,
    d: Option<int>,
    ls: Seq<ListingView>,
    k: int,
)
    requires
        source_fits(inner),
        listings_fit(ls),
        span_fits(a),
        opt_span_fits(b),
        span_fits(c),
        opt_span_fits(d),
        d matches Some(y) ==> c <= y,
        b matches Some(x) ==> a + c <= x,
        (b is None && d is None) ==> a + c <= MAX_NANOS,
        !(span(inner, ls, k) matches Outcome::Done(_, None)),
    ensures
        span(
            SourceView::Clip(Box::new(SourceView::Clip(Box::new(inner), a, b)), c, d),
            ls,
            k,
        ) == span(SourceView::Clip(Box::new(inner), a + c, composed_end(a, b, d)), ls, k),
{
    law_flattened_spans_fit(inner, ls, k);
    law_total_is_sum_of_plays(inner, ls, k);
    let first = SourceView::Clip(Box::new(inner), a, b);
    assert(span(first, ls, k) == clip_outcome(span(inner, ls, k), a, b));
    assert(span(SourceView::Clip(Box::new(first), c, d), ls, k) == clip_outcome(span(first, ls, k), c, d));
    if let Outcome::Done(plays, Some(total)) = span(inner, ls, k) {
        lemma_clip_of_clip_window(plays, total, a, b, c, d);
    }
}

proof fn lemma_windowed_whole(evs: Seq<PlayView>)
    requires
        plays_fit(evs),
        known_total(evs) matches Some(t) && t <= MAX_NANOS,
        forall|i: int| 0 <= i < evs.len() ==> ((#[trigger] evs[i]).end matches Some(x) && x > evs[i].start),
    ensures
        windowed(evs, 0, None) == evs,
    decreases evs.len(),
{
    if evs.len() > 0 {
        lemma_known_prefix(evs);
        let prev = evs.drop_last();
        assert forall|i: int| 0 <= i < prev.len() implies ((#[trigger] prev[i]).end matches Some(x) && x
            > prev[i].start) by {
            assert(prev[i] == evs[i]);
        }
        lemma_windowed_whole(prev);
        lemma_window_length(prev, 0, None);
        let ev = evs.last();
        assert(ev == evs[evs.len() - 1]);
        let begin = known_total(prev)->0;
        assert(piece(ev, begin, 0, None) =~= seq![ev]);
        assert(prev + seq![ev] =~= evs);
    }
}

/// A window from zero with no end keeps every play of a timeline of known
/// total whose plays are not empty, unchanged and in order.
pub proof fn law_whole_window_keeps_plays(plays: Seq<PlayView>)
    requires
        plays_fit(plays),
        known_total(plays) matches Some(t) && t <= MAX_NANOS,
        forall|i: int| 0 <= i < plays.len() ==> ((#[trigger] plays[i]).end matches Some(x) && x > plays[i].start),
    ensures
        window_scan(plays, 0, None) matches Some((w, _, _)) && w == plays,
{
    lemma_window_is_windowed(plays, 0, None);
    lemma_windowed_whole(plays);
}

/// `ps` is nothing, or one non-empty part of the play `ev`, of its file.
pub open spec fn part_of(ps: Seq<PlayView>, ev: PlayView) -> bool {
    ps.len() == 0 || (ps.len() == 1 && ps[0].path == ev.path && ev.start <= ps[0].start && (ps[0].end matches Some(
        y,
    ) && ps[0].start < y && (ev.end matches Some(x) && y <= x)))
}

proof fn lemma_known_ends(evs: Seq<PlayView>, i: int)
    requires
        known_total(evs) is Some,
        0 <= i < evs.len(),
    ensures
        evs[i].end is Some,
    decreases evs.len(),
{
    if i < evs.len() - 1 {
        assert(evs.drop_last()[i] == evs[i]);
        lemma_known_ends(evs.drop_last(), i);
    }
}

/// A window of a timeline of known total cuts each play on its own: the
/// plays kept are, in order, the part of each play inside the window
/// (`windowed`), each part non-empty, of the same file, and inside its play.
pub proof fn law_window_cuts_each_play(plays: Seq<PlayView>, start: int, end: Option<int>)
    requires
        plays_fit(plays),
        known_total(plays) matches Some(t) && t <= MAX_NANOS,
        0 <= start,
        end matches Some(e) ==> start <= e,
    ensures
        window_scan(plays, start, end) matches Some((w, _, _)) && w == windowed(plays, start, end),
        forall|i: int|
            0 <= i < plays.len() ==> part_of(
                #[trigger] piece(plays[i], known_total(plays.take(i))->0, start, end),
                plays[i],
            ),
{
    lemma_window_is_windowed(plays, start, end);
    assert forall|i: int| 0 <= i < plays.len() implies part_of(
        #[trigger] piece(plays[i], known_total(plays.take(i))->0, start, end),
        plays[i],
    ) by {
        lemma_known_ends(plays, i);
    }
}

// ----------------------------------------------------------------------------
// Probing twice.

proof fn lemma_probed_tracks_no_folders(ts: Seq<TrackView>, lens: Seq<Option<int>>, j: int)
    ensures
        folders_in(probed_tracks(ts, lens, j)) == 0,
        probed_tracks(ts, lens, j).len() == ts.len(),
    decreases ts.len(),
{
    if ts.len() > 0 {
        lemma_probed_tracks_no_folders(ts.drop_last(), lens, j);
        let vs = probed_tracks(ts, lens, j);
        assert(vs.drop_last() =~= probed_tracks(ts.drop_last(), lens, j));
        assert(vs.last() is Track);
        assert(folder_count(vs.last()) == 0);
        assert(folders_in(vs) == folders_in(vs.drop_last()) + folder_count(vs.last()));
    }
}

proof fn lemma_probed_no_folders(s: SourceView, ls: Seq<ListingView>, k: int, lens: Seq<Option<int>>, j: int)
    ensures
        probed_source(s, ls, k, lens, j) matches Ok(p) ==> folder_count(p) == 0,
    decreases s,
{
    match s {
        SourceView::Folder(_) => {
            if let Ok(ts) = crate::timeline::answer(ls, k) {
                lemma_probed_tracks_no_folders(ts, lens, j);
            }
        },
        SourceView::List(cs) => lemma_probed_list_no_folders(cs, ls, k, lens, j),
        SourceView::Clip(inner, _, _) => lemma_probed_no_folders(*inner, ls, k, lens, j),
        _ => {},
    }
}

proof fn lemma_probed_list_no_folders(cs: Seq<SourceView>, ls: Seq<ListingView>, k: int, lens: Seq<Option<int>>, j: int)
    ensures
        probed_list(cs, ls, k, lens, j) matches Ok(vs) ==> folders_in(vs) == 0 && vs.len() == cs.len(),
    decreases cs,
{
    if cs.len() > 0 {
        let rest = cs.drop_last();
        lemma_probed_list_no_folders(rest, ls, k, lens, j);
        lemma_probed_no_folders(
            cs.last(),
            ls,
            k + folders_in(rest),
            lens,
            j + crate::resolve::unknown_in_list(rest, ls, k).len(),
        );
        if let Ok(vs) = probed_list(cs, ls, k, lens, j) {
            assert(vs.drop_last() =~= probed_list(rest, ls, k, lens, j)->Ok_0);
        }
    }
}

/// No length is known of any track.
pub open spec fn no_lengths(lens: Seq<Option<int>>) -> bool {
    forall|i: int| 0 <= i < lens.len() ==> (#[trigger] lens[i]) is None
}

proof fn lemma_probe_settled(p: SourceView, ls: Seq<ListingView>, k: int, lens: Seq<Option<int>>, j: int)
    requires
        folder_count(p) == 0,
        no_lengths(lens),
    ensures
        probed_source(p, ls, k, lens, j) == Ok::<SourceView, crate::error::ErrorView>(p),
    decreases p,
{
    match p {
        SourceView::List(cs) => lemma_probe_list_settled(cs, ls, k, lens, j),
        SourceView::Clip(inner, _, _) => lemma_probe_settled(*inner, ls, k, lens, j),
        _ => {},
    }
}

proof fn lemma_probe_list_settled(cs: Seq<SourceView>, ls: Seq<ListingView>, k: int, lens: Seq<Option<int>>, j: int)
    requires
        folders_in(cs) == 0,
        no_lengths(lens),
    ensures
        probed_list(cs, ls, k, lens, j) == Ok::<Seq<SourceView>, crate::error::ErrorView>(cs),
    decreases cs,
{
    if cs.len() > 0 {
        let rest = cs.drop_last();
        lemma_probe_list_settled(rest, ls, k, lens, j);
        lemma_probe_settled(
            cs.last(),
            ls,
            k + folders_in(rest),
            lens,
            j + crate::resolve::unknown_in_list(rest, ls, k).len(),
        );
        assert(rest.push(cs.last()) =~= cs);
        let jj = j + crate::resolve::unknown_in_list(rest, ls, k).len();
        assert(probed_source(cs.last(), ls, k + folders_in(rest), lens, jj) == Ok::<
            SourceView,
            crate::error::ErrorView,
        >(cs.last()));
        assert(probed_list(cs, ls, k, lens, j) == Ok::<Seq<SourceView>, crate::error::ErrorView>(
            rest.push(cs.last()),
        ));
    } else {
        assert(cs =~= Seq::<SourceView>::empty());
    }
}

/// Probing a probed source changes nothing where the probe finds no length
/// it did not find before (every track still without one gets none): the
/// probed source has no folders left and every other track keeps its length.
pub proof fn law_probing_twice(
    s: SourceView,
    ls: Seq<ListingView>,
    lens: Seq<Option<int>>,
    ls2: Seq<ListingView>,
    lens2: Seq<Option<int>>,
)
    requires
        no_lengths(lens2),
    ensures
        probed_source(s, ls, 0, lens, 0) matches Ok(p) ==> folder_count(p) == 0 && probed_source(p, ls2, 0, lens2, 0)
            == Ok::<SourceView, crate::error::ErrorView>(p),
{
    lemma_probed_no_folders(s, ls, 0, lens, 0);
    if let Ok(p) = probed_source(s, ls, 0, lens, 0) {
        lemma_probe_settled(p, ls2, 0, lens2, 0);
    }
}

// ----------------------------------------------------------------------------
// Plays that end after they start.

/// Every play starts at or after zero and ends, where it has an end, at or
/// after its start.
pub open spec fn plays_ordered(p: Seq<PlayView>) -> bool {
    forall|i: int| 0 <= i < p.len() ==> 0 <= (#[trigger] p[i]).start && (p[i].end matches Some(e) ==> p[i].start <= e)
}

/// No length or start of a track is below zero, as for the view of any
/// `Track`.
pub open spec fn track_nonneg(t: TrackView) -> bool {
    &&& (t.len matches Some(l) ==> 0 <= l)
    &&& forall|i: int| 0 <= i < t.segments.len() ==> 0 <= (#[trigger] t.segments[i]).start
}

pub open spec fn tracks_nonneg(ts: Seq<TrackView>) -> bool {
    forall|j: int| 0 <= j < ts.len() ==> track_nonneg(#[trigger] ts[j])
}

/// No length or start of a track of a source is below zero, as for the view
/// of any `Source`.
pub open spec fn source_nonneg(s: SourceView) -> bool
    decreases s,
{
    match s {
        SourceView::Track(t) => track_nonneg(t),
        SourceView::Folder(_) => true,
        SourceView::List(cs) => forall|i: int| 0 <= i < cs.len() ==> source_nonneg(#[trigger] cs[i]),
        SourceView::Clip(inner, _, _) => source_nonneg(*inner),
    }
}

/// No listed track has a length or start below zero.
pub open spec fn listings_nonneg(ls: Seq<ListingView>) -> bool {
    forall|i: int| 0 <= i < ls.len() ==> (#[trigger] ls[i] matches Ok(ts) ==> tracks_nonneg(ts))
}

proof fn lemma_ordered_push(kept: Seq<PlayView>, p: PlayView)
    requires
        plays_ordered(kept),
        0 <= p.start,
        p.end matches Some(e) ==> p.start <= e,
    ensures
        plays_ordered(kept.push(p)),
{
    assert forall|i: int| 0 <= i < kept.push(p).len() implies 0 <= (#[trigger] kept.push(p)[i]).start && (kept.push(
        p,
    )[i].end matches Some(e) ==> kept.push(p)[i].start <= e) by {
        if i < kept.len() {
            assert(kept.push(p)[i] == kept[i]);
        }
    }
}

proof fn lemma_ordered_concat(a: Seq<PlayView>, b: Seq<PlayView>)
    requires
        plays_ordered(a),
        plays_ordered(b),
    ensures
        plays_ordered(a + b),
{
    assert forall|i: int| 0 <= i < (a + b).len() implies 0 <= (#[trigger] (a + b)[i]).start && ((a + b)[i].end matches Some(
        e,
    ) ==> (a + b)[i].start <= e) by {
        if i < a.len() {
            assert((a + b)[i] == a[i]);
        } else {
            assert((a + b)[i] == b[i - a.len()]);
        }
    }
}

pub open spec fn outcome_ordered(o: Outcome) -> bool {
    o matches Outcome::Done(p, _) ==> plays_ordered(p)
}

proof fn lemma_join_ordered(acc: Outcome, next: Outcome)
    requires
        outcome_ordered(acc),
        outcome_ordered(next),
    ensures
        outcome_ordered(join(acc, next)),
{
    if let (Outcome::Done(a, _), Outcome::Done(b, _)) = (acc, next) {
        lemma_ordered_concat(a, b);
    }
}

proof fn lemma_segments_ordered(path: Seq<char>, segs: Seq<SegmentView>)
    requires
        forall|i: int| 0 <= i < segs.len() ==> 0 <= (#[trigger] segs[i]).start,
    ensures
        outcome_ordered(segments_outcome(path, segs)),
    decreases segs.len(),
{
    if segs.len() > 0 {
        assert forall|i: int| 0 <= i < segs.drop_last().len() implies 0 <= (#[trigger] segs.drop_last()[i]).start by {
            assert(segs.drop_last()[i] == segs[i]);
        }
        lemma_segments_ordered(path, segs.drop_last());
        assert(segs.last() == segs[segs.len() - 1]);
        if let Outcome::Done(p, Some(_)) = segments_outcome(path, segs.drop_last()) {
            let g = segs.last();
            if g.end is None || g.end->0 >= g.start {
                lemma_ordered_push(p, PlayView { path, start: g.start, end: g.end });
            }
        }
    }
}

proof fn lemma_track_ordered(t: TrackView)
    requires
        track_nonneg(t),
    ensures
        outcome_ordered(track_outcome(t)),
{
    if t.segments.len() == 0 {
        lemma_ordered_push(Seq::empty(), PlayView { path: t.path, start: 0, end: t.len });
        assert(Seq::<PlayView>::empty().push(PlayView { path: t.path, start: 0, end: t.len }) =~= seq![
            PlayView { path: t.path, start: 0, end: t.len },
        ]);
    } else {
        lemma_segments_ordered(t.path, t.segments);
    }
}

proof fn lemma_tracks_ordered(ts: Seq<TrackView>)
    requires
        tracks_nonneg(ts),
    ensures
        outcome_ordered(tracks_outcome(ts)),
    decreases ts.len(),
{
    if ts.len() > 0 {
        assert(tracks_nonneg(ts.drop_last())) by {
            assert forall|i: int| 0 <= i < ts.drop_last().len() implies track_nonneg(#[trigger] ts.drop_last()[i]) by {
                assert(ts.drop_last()[i] == ts[i]);
            }
        }
        lemma_tracks_ordered(ts.drop_last());
        assert(ts.last() == ts[ts.len() - 1]);
        lemma_track_ordered(ts.last());
        lemma_join_ordered(tracks_outcome(ts.drop_last()), track_outcome(ts.last()));
    }
}

proof fn lemma_window_ordered(evs: Seq<PlayView>, start: int, end: Option<int>)
    requires
        plays_ordered(evs),
    ensures
        window_scan(evs, start, end) matches Some((kept, _, _)) ==> plays_ordered(kept),
    decreases evs.len(),
{
    if evs.len() > 0 {
        assert(plays_ordered(evs.drop_last())) by {
            assert forall|i: int| 0 <= i < evs.drop_last().len() implies 0 <= (#[trigger] evs.drop_last()[i]).start
                && (evs.drop_last()[i].end matches Some(e) ==> evs.drop_last()[i].start <= e) by {
                assert(evs.drop_last()[i] == evs[i]);
            }
        }
        lemma_window_ordered(evs.drop_last(), start, end);
        let ev = evs.last();
        assert(ev == evs[evs.len() - 1]);
        if let Some((kept, pos, past)) = window_scan(evs.drop_last(), start, end) {
            if !past {
                if let Some((k2, _, _)) = window_step(kept, pos, ev, start, end) {
                    if k2.len() > kept.len() {
                        assert(k2 == kept.push(k2.last()));
                        lemma_ordered_push(kept, k2.last());
                    } else {
                        assert(k2 == kept);
                    }
                }
            }
        }
    }
}

proof fn lemma_list_ordered(cs: Seq<SourceView>, ls: Seq<ListingView>, k: int)
    requires
        forall|i: int| 0 <= i < cs.len() ==> source_nonneg(#[trigger] cs[i]),
        listings_nonneg(ls),
    ensures
        outcome_ordered(list_outcome(cs, ls, k)),
    decreases cs,
{
    if cs.len() > 0 {
        let rest = cs.drop_last();
        assert forall|i: int| 0 <= i < rest.len() implies source_nonneg(#[trigger] rest[i]) by {
            assert(rest[i] == cs[i]);
        }
        lemma_list_ordered(rest, ls, k);
        assert(cs.last() == cs[cs.len() - 1]);
        law_flattened_plays_ordered(cs.last(), ls, k + folders_in(rest));
        lemma_join_ordered(list_outcome(rest, ls, k), span(cs.last(), ls, k + folders_in(rest)));
    }
}

/// Flattening gives plays that start at or after zero and end, where they
/// have an end, at or after they start, for every source and every answers
/// whose tracks have no length or start below zero (as for the views of any
/// `Source` and `Track`), wherever it gives plays.
pub proof fn law_flattened_plays_ordered(s: SourceView, ls: Seq<ListingView>, k: int)
    requires
        source_nonneg(s),
        listings_nonneg(ls),
    ensures
        outcome_ordered(span(s, ls, k)),
    decreases s,
{
    match s {
        SourceView::Track(t) => lemma_track_ordered(t),
        SourceView::List(cs) => lemma_list_ordered(cs, ls, k),
        SourceView::Folder(_) => {
            if let Ok(ts) = crate::timeline::answer(ls, k) {
                if 0 <= k < ls.len() {
                    assert(ls[k] matches Ok(ts) ==> tracks_nonneg(ts));
                }
                lemma_tracks_ordered(ts);
            }
        },
        SourceView::Clip(inner, start, end) => {
            law_flattened_plays_ordered(*inner, ls, k);
            if let Outcome::Done(plays, _) = span(*inner, ls, k) {
                lemma_window_ordered(plays, start, end);
            }
        },
    }
}

/// The view of any track has no length or start below zero.
pub proof fn lemma_track_view_nonneg(t: crate::source::Track)
    ensures
        track_nonneg(t@),
{
    assert forall|i: int| 0 <= i < t@.segments.len() implies 0 <= (#[trigger] t@.segments[i]).start by {
        assert(t@.segments[i] == t.segments@[i]@);
    }
}

/// The views of any tracks have no length or start below zero.
pub proof fn lemma_tracks_view_nonneg(ts: Seq<crate::source::Track>)
    ensures
        tracks_nonneg(crate::source::tracks_view(ts)),
{
    assert forall|j: int| 0 <= j < ts.len() implies track_nonneg(#[trigger] crate::source::tracks_view(ts)[j]) by {
        lemma_track_view_nonneg(ts[j]);
    }
}

/// The view of any source has no length or start below zero.
pub proof fn lemma_source_view_nonneg(s: crate::source::Source)
    ensures
        source_nonneg(s@),
    decreases s,
{
    match s {
        crate::source::Source::Track(t) => {
            lemma_track_view_nonneg(t);
            assert(track_nonneg(t@));
            assert(s@ == SourceView::Track(t@));
            assert(source_nonneg(SourceView::Track(t@)));
        },
        crate::source::Source::List(l) => {
            lemma_sources_view_nonneg(l.children@);
            assert(s@ == SourceView::List(crate::source::sources_view(l.children@)));
        },
        crate::source::Source::Clip(c) => {
            lemma_source_view_nonneg(*c.inner);
            assert(s@ == SourceView::Clip(Box::new((*c.inner)@), c.start@, crate::time::opt_view(c.end)));
        },
        crate::source::Source::Folder(f) => {
            assert(s@ == SourceView::Folder(f@));
        },
    }
}

proof fn lemma_sources_view_nonneg(s: Seq<crate::source::Source>)
    ensures
        forall|i: int| 0 <= i < crate::source::sources_view(s).len() ==> source_nonneg(
            #[trigger] crate::source::sources_view(s)[i],
        ),
    decreases s,
{
    if s.len() > 0 {
        lemma_sources_view_nonneg(s.drop_last());
        lemma_source_view_nonneg(s.last());
        let v = crate::source::sources_view(s);
        assert forall|i: int| 0 <= i < v.len() implies source_nonneg(#[trigger] v[i]) by {
            if i < v.len() - 1 {
                assert(v[i] == crate::source::sources_view(s.drop_last())[i]);
            } else {
                assert(v[i] == s.last()@);
            }
        }
    }
}

// ----------------------------------------------------------------------------
// Folders.

/// The listed tracks as sources, in listing order.
pub open spec fn track_sources(ts: Seq<TrackView>) -> Seq<SourceView> {
    ts.map_values(|t: TrackView| SourceView::Track(t))
}

proof fn lemma_tracks_as_list(ts: Seq<TrackView>, ls: Seq<ListingView>, k: int)
    ensures
        tracks_outcome(ts) == list_outcome(track_sources(ts), ls, k),
    decreases ts.len(),
{
    if ts.len() > 0 {
        lemma_tracks_as_list(ts.drop_last(), ls, k);
        let cs = track_sources(ts);
        assert(cs.len() == ts.len());
        assert(cs.drop_last() =~= track_sources(ts.drop_last()));
        assert(cs.last() == SourceView::Track(ts.last()));
        let k2 = k + folders_in(cs.drop_last());
        assert(span(cs.last(), ls, k2) == track_outcome(ts.last()));
        assert(list_outcome(cs, ls, k) == join(list_outcome(cs.drop_last(), ls, k), span(cs.last(), ls, k2)));
    } else {
        assert(track_sources(ts) =~= Seq::<SourceView>::empty());
    }
}

/// A folder flattens as the list of the tracks it lists, in listing order,
/// and fails with the error where it cannot be listed: each listed track is
/// played in turn, whatever the tracks before it were.
pub proof fn law_folder_is_list_of_its_tracks(f: FolderView, ls: Seq<ListingView>, k: int)
    ensures
        span(SourceView::Folder(f), ls, k) == match answer(ls, k) {
            Ok(ts) => list_outcome(track_sources(ts), ls, k),
            Err(e) => Outcome::Failed(e),
        },
{
    if let Ok(ts) = answer(ls, k) {
        lemma_tracks_as_list(ts, ls, k);
    }
}

/// The play of a whole track: the file from its start to its length, or to
/// its end where the length is unknown.
pub open spec fn whole_play(t: TrackView) -> PlayView {
    PlayView { path: t.path, start: 0, end: t.len }
}

pub open spec fn whole_plays(ts: Seq<TrackView>) -> Seq<PlayView> {
    ts.map_values(|t: TrackView| whole_play(t))
}

/// The sum of the lengths that the tracks have.
pub open spec fn known_lengths(ts: Seq<TrackView>) -> int
    decreases ts.len(),
{
    if ts.len() == 0 {
        0
    } else {
        known_lengths(ts.drop_last()) + match ts.last().len {
            Some(l) => l,
            None => 0,
        }
    }
}

proof fn lemma_unsegmented_tracks(ts: Seq<TrackView>)
    requires
        forall|i: int| 0 <= i < ts.len() ==> (#[trigger] ts[i]).segments.len() == 0 && (ts[i].len matches Some(l)
            ==> 0 <= l),
        known_lengths(ts) <= MAX_NANOS,
    ensures
        tracks_outcome(ts) == Outcome::Done(whole_plays(ts), known_total(whole_plays(ts))),
        known_total(whole_plays(ts)) matches Some(x) ==> x == known_lengths(ts),
        0 <= known_lengths(ts),
    decreases ts.len(),
{
    if ts.len() == 0 {
        assert(whole_plays(ts) =~= Seq::<PlayView>::empty());
    } else {
        let prev = ts.drop_last();
        let t = ts.last();
        assert(t == ts[ts.len() - 1]);
        assert forall|i: int| 0 <= i < prev.len() implies (#[trigger] prev[i]).segments.len() == 0 && (prev[i].len
            matches Some(l) ==> 0 <= l) by {
            assert(prev[i] == ts[i]);
        }
        lemma_unsegmented_tracks(prev);
        let w = whole_plays(ts);
        assert(w.drop_last() =~= whole_plays(prev));
        assert(w.last() == whole_play(t));
        assert(whole_plays(prev) + seq![whole_play(t)] =~= w);
        assert(track_outcome(t) == Outcome::Done(seq![whole_play(t)], t.len));
    }
}

/// A folder whose tracks are whole files plays every one of them, in listing
/// order, each from its start to its length or, where the length is not
/// known, to its end: a track of unknown length makes the total unknown but
/// never drops a later track. The total is the sum of the lengths where all
/// are known. This holds wherever the known lengths sum within the largest
/// `Duration`, past which flattening reports a span out of range.
pub proof fn law_folder_plays_every_track(f: FolderView, ls: Seq<ListingView>, k: int, ts: Seq<TrackView>)
    requires
        answer(ls, k) == Ok::<Seq<TrackView>, crate::error::ErrorView>(ts),
        forall|i: int| 0 <= i < ts.len() ==> (#[trigger] ts[i]).segments.len() == 0 && (ts[i].len matches Some(l)
            ==> 0 <= l),
        known_lengths(ts) <= MAX_NANOS,
    ensures
        span(SourceView::Folder(f), ls, k) matches Outcome::Done(plays, total) && plays.len() == ts.len() && (forall|
            i: int,
        |
            0 <= i < ts.len() ==> #[trigger] plays[i] == PlayView { path: ts[i].path, start: 0, end: ts[i].len })
            && total == if forall|i: int| 0 <= i < ts.len() ==> (#[trigger] ts[i]).len is Some {
            Some(known_lengths(ts))
        } else {
            None
        },
{
    lemma_unsegmented_tracks(ts);
    lemma_known_total_all(ts);
}

proof fn lemma_known_total_all(ts: Seq<TrackView>)
    ensures
        known_total(whole_plays(ts)) is Some <==> forall|i: int| 0 <= i < ts.len() ==> (#[trigger] ts[i]).len is Some,
    decreases ts.len(),
{
    if ts.len() > 0 {
        let prev = ts.drop_last();
        lemma_known_total_all(prev);
        let w = whole_plays(ts);
        assert(w.drop_last() =~= whole_plays(prev));
        assert(ts.last() == ts[ts.len() - 1]);
        if forall|i: int| 0 <= i < ts.len() ==> (#[trigger] ts[i]).len is Some {
            assert forall|i: int| 0 <= i < prev.len() implies (#[trigger] prev[i]).len is Some by {
                assert(prev[i] == ts[i]);
            }
        }
        if forall|i: int| 0 <= i < prev.len() ==> (#[trigger] prev[i]).len is Some {
            if ts.last().len is Some {
                assert forall|i: int| 0 <= i < ts.len() implies (#[trigger] ts[i]).len is Some by {
                    if i < prev.len() {
                        assert(prev[i] == ts[i]);
                    }
                }
            }
        }
    }
}

} // verus!
