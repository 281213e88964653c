use vstd::prelude::*;

use crate::error::{Error, ErrorView};
use crate::source::{
    segments_view, sources_view, tracks_view, Clip, Folder, FolderView, List, Segment, SegmentView, Source,
    SourceView, Track, TrackView,
};
use crate::laws::{
    known_total, law_flattened_plays_ordered, law_total_is_sum_of_plays, lemma_source_view_nonneg,
    lemma_tracks_view_nonneg, listings_nonneg, plays_ordered, tracks_nonneg,
};
use crate::time::{add_span, opt_view, sub_span, Duration, MAX_NANOS};

verus! {

/// A flat sequence of plays, with their total length where every play has a
/// known length.
#[derive(Debug)]
pub struct Timeline {
    pub events: Vec<Event>,
    pub total: Option<Duration>,
}

/// One entry of a timeline.
#[derive(Debug)]
pub struct Event {
    pub play: Playable,
}

/// A part of a file: from `start` up to `end`, or to the end of the file.
#[derive(Debug, Clone)]
pub struct Playable {
    pub path: String,
    pub start: Duration,
    pub end: Option<Duration>,
}

/// Lists the tracks of a folder.
pub trait Resolver {
    /// Whether `listing` is an answer this resolver may give for `folder`.
    /// Nothing is claimed of a resolver that does not say: a resolver whose
    /// answers are known states them here.
    closed spec fn answered(&self, folder: FolderView, listing: ListingView) -> bool {
        true
    }

    fn list(&self, folder: &Folder) -> (r: Result<Vec<Track>, Error>)
        ensures
            self.answered(folder@, listing_view(r)),
    ;
}

/// What a resolver answered for one folder.
pub type Listing = Result<Vec<Track>, Error>;

// ----------------------------------------------------------------------------
// The model.

pub struct PlayView {
    pub path: Seq<char>,
    pub start: int,
    pub end: Option<int>,
}

impl View for Playable {
    type V = PlayView;

    open spec fn view(&self) -> PlayView {
        PlayView { path: self.path@, start: self.start@, end: opt_view(self.end) }
    }
}

pub open spec fn plays_view(events: Seq<Event>) -> Seq<PlayView> {
    events.map_values(|e: Event| e.play@)
}

/// The result of flattening: the plays and their total, an error, or a span
/// that left the range of a `Duration` (a length below zero or a sum above
/// the largest `Duration`).
pub enum Outcome {
    Done(Seq<PlayView>, Option<int>),
    Failed(ErrorView),
    Overflow,
}

pub type ListingView = Result<Seq<TrackView>, ErrorView>;

pub open spec fn listing_view(l: Listing) -> ListingView {
    match l {
        Ok(tracks) => Ok(tracks_view(tracks@)),
        Err(e) => Err(e@),
    }
}

pub open spec fn listings_view(ls: Seq<Listing>) -> Seq<ListingView> {
    ls.map_values(|l: Listing| listing_view(l))
}

/// The answer for the `k`-th folder visited; a folder past the given answers
/// lists no tracks.
pub open spec fn answer(ls: Seq<ListingView>, k: int) -> ListingView {
    if 0 <= k < ls.len() {
        ls[k]
    } else {
        Ok(Seq::empty())
    }
}

/// The number of folders in a source, each visited once when flattening.
pub open spec fn folder_count(s: SourceView) -> nat
    decreases s,
{
    match s {
        SourceView::Track(_) => 0,
        SourceView::Folder(_) => 1,
        SourceView::List(cs) => folders_in(cs),
        SourceView::Clip(inner, _, _) => folder_count(*inner),
    }
}

pub open spec fn folders_in(cs: Seq<SourceView>) -> nat
    decreases cs,
{
    if cs.len() == 0 {
        0
    } else {
        folders_in(cs.drop_last()) + folder_count(cs.last())
    }
}

/// The folders of a source, in the order flattening visits them.
pub open spec fn folders_of(s: SourceView) -> Seq<FolderView>
    decreases s,
{
    match s {
        SourceView::Track(_) => Seq::empty(),
        SourceView::Folder(f) => seq![f],
        SourceView::List(cs) => folders_in_list(cs),
        SourceView::Clip(inner, _, _) => folders_of(*inner),
    }
}

pub open spec fn folders_in_list(cs: Seq<SourceView>) -> Seq<FolderView>
    decreases cs,
{
    if cs.len() == 0 {
        Seq::empty()
    } else {
        folders_in_list(cs.drop_last()) + folders_of(cs.last())
    }
}

/// There are `folder_count` folders.
proof fn lemma_folders_of_len(s: SourceView)
    ensures
        folders_of(s).len() == folder_count(s),
    decreases s,
{
    match s {
        SourceView::List(cs) => lemma_folders_in_list_len(cs),
        SourceView::Clip(inner, _, _) => lemma_folders_of_len(*inner),
        _ => {},
    }
}

proof fn lemma_folders_in_list_len(cs: Seq<SourceView>)
    ensures
        folders_in_list(cs).len() == folders_in(cs),
    decreases cs,
{
    if cs.len() > 0 {
        lemma_folders_in_list_len(cs.drop_last());
        lemma_folders_of_len(cs.last());
    }
}

/// The length of a play: `end - start`, `None` for an open end; the outer
/// `None` where `end` is before `start`.
pub open spec fn play_len(p: PlayView) -> Option<Option<int>> {
    match p.end {
        None => Some(None),
        Some(e) => match sub_span(e, p.start) {
            Some(len) => Some(Some(len)),
            None => None,
        },
    }
}

/// A track: the whole file, or its segments.
pub open spec fn track_outcome(t: TrackView) -> Outcome {
    if t.segments.len() == 0 {
        Outcome::Done(seq![PlayView { path: t.path, start: 0, end: t.len }], t.len)
    } else {
        segments_outcome(t.path, t.segments)
    }
}

/// Segments in order, up to and including the first open-ended one; an
/// outcome `Done(_, None)` means that one was reached.
pub open spec fn segments_outcome(path: Seq<char>, segs: Seq<SegmentView>) -> Outcome
    decreases segs.len(),
{
    if segs.len() == 0 {
        Outcome::Done(Seq::empty(), Some(0))
    } else {
        match segments_outcome(path, segs.drop_last()) {
            Outcome::Done(plays, Some(total)) => {
                let g = segs.last();
                match g.end {
                    None => Outcome::Done(
                        plays.push(PlayView { path, start: g.start, end: None }),
                        None,
                    ),
                    Some(e) => match sub_span(e, g.start) {
                        None => Outcome::Overflow,
                        Some(len) => match add_span(total, len) {
                            None => Outcome::Overflow,
                            Some(t) => Outcome::Done(
                                plays.push(PlayView { path, start: g.start, end: Some(e) }),
                                Some(t),
                            ),
                        },
                    },
                }
            },
            other => other,
        }
    }
}

/// Appends the outcome of the next child to the outcome so far.
pub open spec fn join(acc: Outcome, next: Outcome) -> Outcome {
    match acc {
        Outcome::Done(plays, total) => match next {
            Outcome::Done(more, child_total) => match child_total {
                Some(len) => match total {
                    Some(sum) => match add_span(sum, len) {
                        Some(t) => Outcome::Done(plays + more, Some(t)),
                        None => Outcome::Overflow,
                    },
                    None => Outcome::Done(plays + more, None),
                },
                None => Outcome::Done(plays + more, None),
            },
            other => other,
        },
        other => other,
    }
}

/// Tracks in order, as a folder lists them.
pub open spec fn tracks_outcome(ts: Seq<TrackView>) -> Outcome
    decreases ts.len(),
{
    if ts.len() == 0 {
        Outcome::Done(Seq::empty(), Some(0))
    } else {
        join(tracks_outcome(ts.drop_last()), track_outcome(ts.last()))
    }
}

/// Flattens a source; its `i`-th folder gets `answer(ls, k + i)`.
pub open spec fn span(s: SourceView, ls: Seq<ListingView>, k: int) -> Outcome
    decreases s,
{
    match s {
        SourceView::Track(t) => track_outcome(t),
        SourceView::List(cs) => list_outcome(cs, ls, k),
        SourceView::Folder(_) => match answer(ls, k) {
            Err(e) => Outcome::Failed(e),
            Ok(ts) => tracks_outcome(ts),
        },
        SourceView::Clip(inner, start, end) => clip_outcome(span(*inner, ls, k), start, end),
    }
}

/// Children in order, each after the folders of the ones before it.
pub open spec fn list_outcome(cs: Seq<SourceView>, ls: Seq<ListingView>, k: int) -> Outcome
    decreases cs,
{
    if cs.len() == 0 {
        Outcome::Done(Seq::empty(), Some(0))
    } else {
        join(
            list_outcome(cs.drop_last(), ls, k),
            span(cs.last(), ls, k + folders_in(cs.drop_last())),
        )
    }
}

/// The part of a flattened source from `start` up to `end`.
pub open spec fn clip_outcome(inner: Outcome, start: int, end: Option<int>) -> Outcome {
    match inner {
        Outcome::Done(plays, total) => {
            let last = match end {
                Some(e) => e,
                None => MAX_NANOS as int,
            };
            if start > last {
                Outcome::Failed(ErrorView::Reversed(start, last))
            } else if total is None {
                Outcome::Failed(ErrorView::Clip(start, end))
            } else {
                match window_scan(plays, start, end) {
                    None => Outcome::Overflow,
                    Some(w) => match lens_total(w.0) {
                        None => Outcome::Overflow,
                        Some(t) => Outcome::Done(w.0, t),
                    },
                }
            }
        },
        other => other,
    }
}

/// The sum of the lengths of the plays, `Some(None)` once one of them is
/// open-ended; `None` where a length or a sum leaves the range.
pub open spec fn lens_total(w: Seq<PlayView>) -> Option<Option<int>>
    decreases w.len(),
{
    if w.len() == 0 {
        Some(Some(0))
    } else {
        match lens_total(w.drop_last()) {
            Some(Some(acc)) => match play_len(w.last()) {
                None => None,
                Some(None) => Some(None),
                Some(Some(len)) => match add_span(acc, len) {
                    None => None,
                    Some(t) => Some(Some(t)),
                },
            },
            other => other,
        }
    }
}

/// One play of a timeline seen through the window `[start, end)`, with the
/// plays kept so far, the position where it begins, and whether the window
/// is already past. Gives the plays kept, the position after it, and
/// whether the window is past.
pub open spec fn window_step(
    kept: Seq<PlayView>,
    begin: int,
    ev: PlayView,
    start: int,
    end: Option<int>,
) -> Option<(Seq<PlayView>, int, bool)> {
    match play_len(ev) {
        None => None,
        Some(Some(len)) => match add_span(begin, len) {
            None => None,
            Some(cease) => if cease <= start {
                Some((kept, cease, false))
            } else if end matches Some(e) && begin >= e {
                Some((kept, begin, true))
            } else {
                let lo = if begin >= start { begin } else { start };
                let hi = match end {
                    None => cease,
                    Some(e) => if cease <= e { cease } else { e },
                };
                if hi > lo {
                    match (add_span(ev.start, lo - begin), add_span(ev.start, hi - begin)) {
                        (Some(a), Some(b)) => Some(
                            (kept.push(PlayView { path: ev.path, start: a, end: Some(b) }), cease, false),
                        ),
                        _ => None,
                    }
                } else {
                    Some((kept, cease, false))
                }
            },
        },
        Some(None) => if end matches Some(e) && begin >= e {
            Some((kept, begin, true))
        } else {
            let lo = if begin >= start { begin } else { start };
            match add_span(ev.start, lo - begin) {
                None => None,
                Some(offset) => match end {
                    None => Some((kept.push(PlayView { path: ev.path, start: offset, end: None }), begin, true)),
                    Some(e) => match sub_span(e, lo) {
                        None => None,
                        Some(rest) => match add_span(offset, rest) {
                            None => None,
                            Some(x) => Some(
                                (kept.push(PlayView { path: ev.path, start: offset, end: Some(x) }), begin, true),
                            ),
                        },
                    },
                },
            }
        },
    }
}

/// The plays of a timeline seen through the window `[start, end)`, each cut
/// to the window and shifted within its file; `None` where a span leaves the
/// range.
pub open spec fn window_scan(evs: Seq<PlayView>, start: int, end: Option<int>) -> Option<(Seq<PlayView>, int, bool)>
    decreases evs.len(),
{
    if evs.len() == 0 {
        Some((Seq::empty(), 0, false))
    } else {
        match window_scan(evs.drop_last(), start, end) {
            Some((kept, pos, past)) => if past {
                Some((kept, pos, past))
            } else {
                window_step(kept, pos, evs.last(), start, end)
            },
            None => None,
        }
    }
}

/// Flattening a source with the folder answers `ls`, in visiting order.
pub open spec fn flatten_outcome(s: SourceView, ls: Seq<ListingView>) -> Outcome {
    span(s, ls, 0)
}

/// The view of a timeline as an outcome.
pub open spec fn timeline_outcome(t: Timeline) -> Outcome {
    Outcome::Done(plays_view(t.events@), opt_view(t.total))
}

/// Whether a returned result is the given outcome.
pub open spec fn result_is(r: Result<Timeline, Error>, o: Outcome) -> bool {
    match r {
        Ok(t) => o == timeline_outcome(t),
        Err(e) => o == Outcome::Failed(e@),
    }
}

// ----------------------------------------------------------------------------
// Proofs that the outcomes above stop changing once settled.

proof fn lemma_segments_settled(path: Seq<char>, segs: Seq<SegmentView>, i: int, j: int)
    requires
        0 <= i <= j <= segs.len(),
        !(segments_outcome(path, segs.take(i)) matches Outcome::Done(_, Some(_))),
    ensures
        segments_outcome(path, segs.take(j)) == segments_outcome(path, segs.take(i)),
    decreases j - i,
{
    if j > i {
        lemma_segments_settled(path, segs, i, j - 1);
        assert(segs.take(j).drop_last() =~= segs.take(j - 1));
    }
}

proof fn lemma_tracks_settled(ts: Seq<TrackView>, i: int, j: int)
    requires
        0 <= i <= j <= ts.len(),
        !(tracks_outcome(ts.take(i)) is Done),
    ensures
        tracks_outcome(ts.take(j)) == tracks_outcome(ts.take(i)),
    decreases j - i,
{
    if j > i {
        lemma_tracks_settled(ts, i, j - 1);
        assert(ts.take(j).drop_last() =~= ts.take(j - 1));
    }
}

proof fn lemma_list_settled(cs: Seq<SourceView>, ls: Seq<ListingView>, k: int, i: int, j: int)
    requires
        0 <= i <= j <= cs.len(),
        !(list_outcome(cs.take(i), ls, k) is Done),
    ensures
        list_outcome(cs.take(j), ls, k) == list_outcome(cs.take(i), ls, k),
    decreases j - i,
{
    if j > i {
        lemma_list_settled(cs, ls, k, i, j - 1);
        assert(cs.take(j).drop_last() =~= cs.take(j - 1));
    }
}

proof fn lemma_window_settled(evs: Seq<PlayView>, start: int, end: Option<int>, i: int, j: int)
    requires
        0 <= i <= j <= evs.len(),
        !(window_scan(evs.take(i), start, end) matches Some((_, _, false))),
    ensures
        window_scan(evs.take(j), start, end) == window_scan(evs.take(i), start, end),
    decreases j - i,
{
    if j > i {
        lemma_window_settled(evs, start, end, i, j - 1);
        assert(evs.take(j).drop_last() =~= evs.take(j - 1));
    }
}

proof fn lemma_lens_settled(w: Seq<PlayView>, i: int, j: int)
    requires
        0 <= i <= j <= w.len(),
        !(lens_total(w.take(i)) matches Some(Some(_))),
    ensures
        lens_total(w.take(j)) == lens_total(w.take(i)),
    decreases j - i,
{
    if j > i {
        lemma_lens_settled(w, i, j - 1);
        assert(w.take(j).drop_last() =~= w.take(j - 1));
    }
}

// ----------------------------------------------------------------------------
// The implementation.

/// The work in progress: plays and total, an error, or a span out of range.
enum Span {
    Done(Vec<Event>, Option<Duration>),
    Failed(Error),
    Overflow,
}

spec fn span_view(s: Span) -> Outcome {
    match s {
        Span::Done(events, total) => Outcome::Done(plays_view(events@), opt_view(total)),
        Span::Failed(e) => Outcome::Failed(e@),
        Span::Overflow => Outcome::Overflow,
    }
}

impl Playable {
    /// A copy of the play.
    pub fn duplicate(&self) -> (p: Playable)
        ensures
            p@ == self@,
    {
        Playable { path: self.path.clone(), start: self.start, end: self.end }
    }

    /// The length of the play, `None` where it runs to the end of the file.
    pub fn len(&self) -> (r: Option<Duration>)
        requires
            play_len(self@) is Some,
        ensures
            play_len(self@) == Some(opt_view(r)),
    {
        match self.end {
            Some(end) => end.checked_sub(self.start),
            None => None,
        }
    }

    /// The length of the play where it is not negative.
    pub(crate) fn checked_len(&self) -> (r: Option<Option<Duration>>)
        ensures
            match r {
                Some(len) => play_len(self@) == Some(opt_view(len)),
                None => play_len(self@) is None,
            },
    {
        match self.end {
            Some(end) => match end.checked_sub(self.start) {
                Some(len) => Some(Some(len)),
                None => None,
            },
            None => Some(None),
        }
    }
}

proof fn lemma_plays_push(events: Seq<Event>, e: Event)
    ensures
        plays_view(events.push(e)) == plays_view(events).push(e.play@),
{
    assert(plays_view(events.push(e)) =~= plays_view(events).push(e.play@));
}

proof fn lemma_plays_append(a: Seq<Event>, b: Seq<Event>)
    ensures
        plays_view(a + b) == plays_view(a) + plays_view(b),
{
    assert(plays_view(a + b) =~= plays_view(a) + plays_view(b));
}

fn track_span(track: &Track) -> (r: Span)
    ensures
        span_view(r) == track_outcome(track@),
{
    if track.segments.len() == 0 {
        let play = Playable { path: track.path.clone(), start: Duration::zero(), end: track.len };
        let total = track.len;
        let mut events: Vec<Event> = Vec::new();
        events.push(Event { play });
        proof {
            lemma_plays_push(Seq::empty(), Event { play });
            assert(Seq::<Event>::empty().push(Event { play }) =~= events@);
            assert(plays_view(Seq::<Event>::empty()) =~= Seq::empty());
        }
        Span::Done(events, total)
    } else {
        segments_span(&track.path, &track.segments)
    }
}

fn segments_span(path: &String, segments: &Vec<Segment>) -> (r: Span)
    ensures
        span_view(r) == segments_outcome(path@, segments_view(segments@)),
{
    let ghost segs = segments_view(segments@);
    let mut events: Vec<Event> = Vec::new();
    let mut total = Duration::zero();
    let n = segments.len();
    let mut i: usize = 0;
    proof {
        assert(segs.take(0) =~= Seq::empty());
        assert(plays_view(events@) =~= Seq::empty());
    }
    while i < n
        invariant
            n == segments@.len(),
            segs == segments_view(segments@),
            0 <= i <= n,
            segments_outcome(path@, segs.take(i as int)) == Outcome::Done(plays_view(events@), Some(total@)),
        decreases n - i,
    {
        let segment = segments[i];
        proof {
            assert(segs.take(i + 1).drop_last() =~= segs.take(i as int));
            assert(segs.take(i + 1).last() == segment@);
        }
        let len = match segment.end {
            Some(end) => match end.checked_sub(segment.start) {
                Some(len) => Some(len),
                None => {
                    proof {
                        lemma_segments_settled(path@, segs, i + 1, n as int);
                        assert(segs.take(n as int) =~= segs);
                    }
                    return Span::Overflow;
                },
            },
            None => None,
        };
        if segment.end.is_none() {
            let play = Playable { path: path.clone(), start: segment.start, end: None };
            proof {
                lemma_plays_push(events@, Event { play });
            }
            events.push(Event { play });
            proof {
                lemma_segments_settled(path@, segs, i + 1, n as int);
                assert(segs.take(n as int) =~= segs);
            }
            return Span::Done(events, None);
        }
        let play = Playable { path: path.clone(), start: segment.start, end: segment.end };
        proof {
            lemma_plays_push(events@, Event { play });
        }
        events.push(Event { play });
        match len {
            Some(len) => match total.checked_add(len) {
                Some(sum) => {
                    total = sum;
                },
                None => {
                    proof {
                        lemma_segments_settled(path@, segs, i + 1, n as int);
                        assert(segs.take(n as int) =~= segs);
                    }
                    return Span::Overflow;
                },
            },
            None => {},
        }
        i += 1;
    }
    proof {
        assert(segs.take(n as int) =~= segs);
    }
    Span::Done(events, Some(total))
}

/// Appends the next outcome to the plays and total so far; `Some` with the
/// final outcome where flattening stops there.
fn absorb(events: &mut Vec<Event>, total: &mut Option<Duration>, next: Span) -> (stop: Option<Span>)
    ensures
        match stop {
            None => join(
                Outcome::Done(plays_view(old(events)@), opt_view(*old(total))),
                span_view(next),
            ) == Outcome::Done(plays_view(final(events)@), opt_view(*final(total))),
            Some(s) => join(
                Outcome::Done(plays_view(old(events)@), opt_view(*old(total))),
                span_view(next),
            ) == span_view(s) && !(span_view(s) is Done),
        },
{
    match next {
        Span::Done(mut more, child_total) => {
            proof {
                lemma_plays_append(events@, more@);
            }
            events.append(&mut more);
            match child_total {
                Some(len) => match *total {
                    Some(sum) => match sum.checked_add(len) {
                        Some(t) => {
                            *total = Some(t);
                            None
                        },
                        None => Some(Span::Overflow),
                    },
                    None => None,
                },
                None => {
                    *total = None;
                    None
                },
            }
        },
        Span::Failed(e) => Some(Span::Failed(e)),
        Span::Overflow => Some(Span::Overflow),
    }
}

fn tracks_span(tracks: &Vec<Track>) -> (r: Span)
    ensures
        span_view(r) == tracks_outcome(tracks_view(tracks@)),
{
    let ghost ts = tracks_view(tracks@);
    let mut events: Vec<Event> = Vec::new();
    let mut total: Option<Duration> = Some(Duration::zero());
    let n = tracks.len();
    let mut i: usize = 0;
    proof {
        assert(ts.take(0) =~= Seq::empty());
        assert(plays_view(events@) =~= Seq::empty());
    }
    while i < n
        invariant
            n == tracks@.len(),
            ts == tracks_view(tracks@),
            0 <= i <= n,
            tracks_outcome(ts.take(i as int)) == Outcome::Done(plays_view(events@), opt_view(total)),
        decreases n - i,
    {
        let next = track_span(&tracks[i]);
        proof {
            assert(ts.take(i + 1).drop_last() =~= ts.take(i as int));
            assert(ts.take(i + 1).last() == tracks@[i as int]@);
        }
        match absorb(&mut events, &mut total, next) {
            Some(stop) => {
                proof {
                    lemma_tracks_settled(ts, i + 1, n as int);
                    assert(ts.take(n as int) =~= ts);
                }
                return stop;
            },
            None => {},
        }
        i += 1;
    }
    proof {
        assert(ts.take(n as int) =~= ts);
    }
    Span::Done(events, total)
}

pub(crate) proof fn lemma_sources_view(s: Seq<Source>)
    ensures
        sources_view(s).len() == s.len(),
        forall|i: int| 0 <= i < s.len() ==> #[trigger] sources_view(s)[i] == s[i]@,
    decreases s.len(),
{
    if s.len() > 0 {
        lemma_sources_view(s.drop_last());
    }
}

pub open spec fn min_pos(a: int, b: int) -> int {
    if a <= b {
        a
    } else {
        b
    }
}

fn inner(source: &Source, listings: &Vec<Listing>, pos: &mut usize, Ghost(k): Ghost<int>) -> (r: Span)
    requires
        k >= 0,
        *old(pos) == min_pos(k, listings@.len() as int),
    ensures
        span_view(r) == span(source@, listings_view(listings@), k),
        span_view(r) is Done ==> *final(pos) == min_pos(k + folder_count(source@), listings@.len() as int),
    decreases source,
{
    match source {
        Source::Track(track) => track_span(track),
        Source::List(list) => list_span(list, listings, pos, Ghost(k)),
        Source::Folder(_) => {
            if *pos < listings.len() {
                let i = *pos;
                *pos = i + 1;
                match &listings[i] {
                    Err(e) => Span::Failed(e.duplicate()),
                    Ok(tracks) => tracks_span(tracks),
                }
            } else {
                let none: Vec<Track> = Vec::new();
                proof {
                    assert(tracks_view(none@) =~= Seq::empty());
                }
                tracks_span(&none)
            }
        },
        Source::Clip(clip) => clip_span(clip, listings, pos, Ghost(k)),
    }
}

fn list_span(list: &List, listings: &Vec<Listing>, pos: &mut usize, Ghost(k): Ghost<int>) -> (r: Span)
    requires
        k >= 0,
        *old(pos) == min_pos(k, listings@.len() as int),
    ensures
        span_view(r) == list_outcome(sources_view(list.children@), listings_view(listings@), k),
        span_view(r) is Done ==> *final(pos) == min_pos(
            k + folders_in(sources_view(list.children@)),
            listings@.len() as int,
        ),
    decreases list,
{
    let ghost cs = sources_view(list.children@);
    let ghost ls = listings_view(listings@);
    let mut events: Vec<Event> = Vec::new();
    let mut total: Option<Duration> = Some(Duration::zero());
    let n = list.children.len();
    let mut i: usize = 0;
    proof {
        lemma_sources_view(list.children@);
        assert(cs.take(0) =~= Seq::empty());
        assert(plays_view(events@) =~= Seq::empty());
    }
    while i < n
        invariant
            n == list.children@.len(),
            cs == sources_view(list.children@),
            cs.len() == n,
            forall|j: int| 0 <= j < n ==> #[trigger] cs[j] == list.children@[j]@,
            ls == listings_view(listings@),
            k >= 0,
            0 <= i <= n,
            list_outcome(cs.take(i as int), ls, k) == Outcome::Done(plays_view(events@), opt_view(total)),
            *pos == min_pos(k + folders_in(cs.take(i as int)), listings@.len() as int),
        decreases n - i,
    {
        proof {
            assert(cs.take(i + 1).drop_last() =~= cs.take(i as int));
            assert(cs.take(i + 1).last() == list.children@[i as int]@);
        }
        let next = inner(&list.children[i], listings, pos, Ghost(k + folders_in(cs.take(i as int))));
        match absorb(&mut events, &mut total, next) {
            Some(stop) => {
                proof {
                    lemma_list_settled(cs, ls, k, i + 1, n as int);
                    assert(cs.take(n as int) =~= cs);
                }
                return stop;
            },
            None => {},
        }
        i += 1;
    }
    proof {
        assert(cs.take(n as int) =~= cs);
    }
    Span::Done(events, total)
}

fn clip_span(clip: &Clip, listings: &Vec<Listing>, pos: &mut usize, Ghost(k): Ghost<int>) -> (r: Span)
    requires
        k >= 0,
        *old(pos) == min_pos(k, listings@.len() as int),
    ensures
        span_view(r) == clip_outcome(span((*clip.inner)@, listings_view(listings@), k), clip.start@, opt_view(clip.end)),
        span_view(r) is Done ==> *final(pos) == min_pos(k + folder_count((*clip.inner)@), listings@.len() as int),
    decreases clip,
{
    let inner_span = inner(&clip.inner, listings, pos, Ghost(k));
    clip_of(inner_span, clip)
}

/// The clip of a flattened source.
fn clip_of(inner_span: Span, clip: &Clip) -> (r: Span)
    ensures
        span_view(r) == clip_outcome(span_view(inner_span), clip.start@, opt_view(clip.end)),
{
    let (events, inner_total) = match inner_span {
        Span::Done(events, total) => (events, total),
        other => return other,
    };
    let last = match clip.end {
        Some(end) => end,
        None => Duration::max_value(),
    };
    if clip.start.longer_than(&last) {
        return Span::Failed(Error::Reversed { start: clip.start, end: last });
    }
    if inner_total.is_none() {
        return Span::Failed(Error::Clip { start: clip.start, end: clip.end });
    }
    let timeline = Timeline { events, total: inner_total };
    let windowed = match window(&timeline, clip.start, clip.end) {
        Some(windowed) => windowed,
        None => return Span::Overflow,
    };
    match lens_sum(&windowed) {
        Some(total) => Span::Done(windowed, total),
        None => Span::Overflow,
    }
}

/// The plays of a timeline seen through the window `[start, end)`.
fn window(timeline: &Timeline, start: Duration, end: Option<Duration>) -> (r: Option<Vec<Event>>)
    ensures
        match r {
            Some(out) => window_scan(plays_view(timeline.events@), start@, opt_view(end)) matches Some(w)
                && w.0 == plays_view(out@),
            None => window_scan(plays_view(timeline.events@), start@, opt_view(end)) is None,
        },
{
    let ghost evs = plays_view(timeline.events@);
    let ghost end_v = opt_view(end);
    let mut out: Vec<Event> = Vec::new();
    let mut pos = Duration::zero();
    let n = timeline.events.len();
    let mut i: usize = 0;
    proof {
        assert(evs.take(0) =~= Seq::empty());
        assert(plays_view(out@) =~= Seq::empty());
    }
    while i < n
        invariant
            n == timeline.events@.len(),
            evs == plays_view(timeline.events@),
            end_v == opt_view(end),
            0 <= i <= n,
            window_scan(evs.take(i as int), start@, end_v) == Some((plays_view(out@), pos@, false)),
        decreases n - i,
    {
        let event = &timeline.events[i];
        let begin = pos;
        proof {
            assert(evs.take(i + 1).drop_last() =~= evs.take(i as int));
            assert(evs.take(i + 1).last() == event.play@);
        }
        match event.play.checked_len() {
            None => {
                proof {
                    lemma_window_settled(evs, start@, end_v, i + 1, n as int);
                    assert(evs.take(n as int) =~= evs);
                }
                return None;
            },
            Some(Some(len)) => {
                let cease = match begin.checked_add(len) {
                    Some(cease) => cease,
                    None => {
                        proof {
                            lemma_window_settled(evs, start@, end_v, i + 1, n as int);
                            assert(evs.take(n as int) =~= evs);
                        }
                        return None;
                    },
                };
                if cease.at_most(&start) {
                    pos = cease;
                } else {
                    let past = match end {
                        Some(e) => !e.longer_than(&begin),
                        None => false,
                    };
                    if past {
                        proof {
                            lemma_window_settled(evs, start@, end_v, i + 1, n as int);
                            assert(evs.take(n as int) =~= evs);
                        }
                        return Some(out);
                    }
                    let lo = begin.max(start);
                    let hi = match end {
                        None => cease,
                        Some(e) => cease.min(e),
                    };
                    if hi.longer_than(&lo) {
                        let from = match lo.checked_sub(begin) {
                            Some(d) => d,
                            None => return None,
                        };
                        let to = match hi.checked_sub(begin) {
                            Some(d) => d,
                            None => return None,
                        };
                        let a = event.play.start.checked_add(from);
                        let b = event.play.start.checked_add(to);
                        match (a, b) {
                            (Some(a), Some(b)) => {
                                let play = Playable { path: event.play.path.clone(), start: a, end: Some(b) };
                                proof {
                                    lemma_plays_push(out@, Event { play });
                                }
                                out.push(Event { play });
                            },
                            _ => {
                                proof {
                                    lemma_window_settled(evs, start@, end_v, i + 1, n as int);
                                    assert(evs.take(n as int) =~= evs);
                                }
                                return None;
                            },
                        }
                    }
                    pos = cease;
                }
            },
            Some(None) => {
                let past = match end {
                    Some(e) => !e.longer_than(&begin),
                    None => false,
                };
                if past {
                    proof {
                        lemma_window_settled(evs, start@, end_v, i + 1, n as int);
                        assert(evs.take(n as int) =~= evs);
                    }
                    return Some(out);
                }
                let lo = begin.max(start);
                let offset = match lo.checked_sub(begin) {
                    Some(d) => event.play.start.checked_add(d),
                    None => None,
                };
                let offset = match offset {
                    Some(o) => o,
                    None => {
                        proof {
                            lemma_window_settled(evs, start@, end_v, i + 1, n as int);
                            assert(evs.take(n as int) =~= evs);
                        }
                        return None;
                    },
                };
                let last = match end {
                    Some(e) => match e.checked_sub(lo) {
                        Some(rest) => match offset.checked_add(rest) {
                            Some(x) => Some(Some(x)),
                            None => None,
                        },
                        None => None,
                    },
                    None => Some(None),
                };
                match last {
                    Some(last) => {
                        let play = Playable { path: event.play.path.clone(), start: offset, end: last };
                        proof {
                            lemma_plays_push(out@, Event { play });
                        }
                        out.push(Event { play });
                    },
                    None => {},
                }
                proof {
                    lemma_window_settled(evs, start@, end_v, i + 1, n as int);
                    assert(evs.take(n as int) =~= evs);
                }
                if last.is_none() {
                    return None;
                }
                return Some(out);
            },
        }
        i += 1;
    }
    proof {
        assert(evs.take(n as int) =~= evs);
    }
    Some(out)
}

/// The sum of the lengths of the plays; `Some(None)` once one is open-ended.
fn lens_sum(events: &Vec<Event>) -> (r: Option<Option<Duration>>)
    ensures
        match r {
            Some(t) => lens_total(plays_view(events@)) == Some(opt_view(t)),
            None => lens_total(plays_view(events@)) is None,
        },
{
    let ghost w = plays_view(events@);
    let mut acc = Duration::zero();
    let n = events.len();
    let mut i: usize = 0;
    proof {
        assert(w.take(0) =~= Seq::empty());
    }
    while i < n
        invariant
            n == events@.len(),
            w == plays_view(events@),
            0 <= i <= n,
            lens_total(w.take(i as int)) == Some(Some(acc@)),
        decreases n - i,
    {
        proof {
            assert(w.take(i + 1).drop_last() =~= w.take(i as int));
            assert(w.take(i + 1).last() == events@[i as int].play@);
        }
        match events[i].play.checked_len() {
            None => {
                proof {
                    lemma_lens_settled(w, i + 1, n as int);
                    assert(w.take(n as int) =~= w);
                }
                return None;
            },
            Some(None) => {
                proof {
                    lemma_lens_settled(w, i + 1, n as int);
                    assert(w.take(n as int) =~= w);
                }
                return Some(None);
            },
            Some(Some(len)) => match acc.checked_add(len) {
                Some(sum) => {
                    acc = sum;
                },
                None => {
                    proof {
                        lemma_lens_settled(w, i + 1, n as int);
                        assert(w.take(n as int) =~= w);
                    }
                    return None;
                },
            },
        }
        i += 1;
    }
    proof {
        assert(w.take(n as int) =~= w);
    }
    Some(Some(acc))
}

/// Flattening reads no answer for a source without folders.
pub proof fn lemma_span_without_folders(s: SourceView, ls: Seq<ListingView>, k: int, ls2: Seq<ListingView>, k2: int)
    requires
        folder_count(s) == 0,
    ensures
        span(s, ls, k) == span(s, ls2, k2),
    decreases s,
{
    match s {
        SourceView::List(cs) => lemma_list_without_folders(cs, ls, k, ls2, k2),
        SourceView::Clip(inner, _, _) => lemma_span_without_folders(*inner, ls, k, ls2, k2),
        _ => {},
    }
}

proof fn lemma_list_without_folders(cs: Seq<SourceView>, ls: Seq<ListingView>, k: int, ls2: Seq<ListingView>, k2: int)
    requires
        folders_in(cs) == 0,
    ensures
        list_outcome(cs, ls, k) == list_outcome(cs, ls2, k2),
    decreases cs,
{
    if cs.len() > 0 {
        lemma_list_without_folders(cs.drop_last(), ls, k, ls2, k2);
        lemma_span_without_folders(cs.last(), ls, k + folders_in(cs.drop_last()), ls2, k2 + folders_in(cs.drop_last()));
    }
}

/// The number of folders flattening a source visits with the answers `ls`
/// from the `k`-th on: all of them, or those up to the point where the
/// outcome fails.
pub open spec fn visited(s: SourceView, ls: Seq<ListingView>, k: int) -> nat
    decreases s,
{
    match s {
        SourceView::Track(_) => 0,
        SourceView::Folder(_) => 1,
        SourceView::List(cs) => visited_list(cs, ls, k),
        SourceView::Clip(inner, _, _) => visited(*inner, ls, k),
    }
}

pub open spec fn visited_list(cs: Seq<SourceView>, ls: Seq<ListingView>, k: int) -> nat
    decreases cs,
{
    if cs.len() == 0 {
        0
    } else if list_outcome(cs.drop_last(), ls, k) is Done {
        folders_in(cs.drop_last()) + visited(cs.last(), ls, k + folders_in(cs.drop_last()))
    } else {
        visited_list(cs.drop_last(), ls, k)
    }
}

/// Two sets of answers that agree on the answers from `k` on for the
/// folders of a source flatten it alike.
proof fn lemma_span_agree(s: SourceView, ls1: Seq<ListingView>, ls2: Seq<ListingView>, k: int)
    requires
        forall|j: int| k <= j < k + folder_count(s) ==> #[trigger] answer(ls1, j) == answer(ls2, j),
    ensures
        span(s, ls1, k) == span(s, ls2, k),
        visited(s, ls1, k) == visited(s, ls2, k),
    decreases s,
{
    match s {
        SourceView::Folder(_) => {
            assert(answer(ls1, k) == answer(ls2, k));
        },
        SourceView::List(cs) => lemma_list_agree(cs, ls1, ls2, k),
        SourceView::Clip(inner, _, _) => lemma_span_agree(*inner, ls1, ls2, k),
        _ => {},
    }
}

proof fn lemma_list_agree(cs: Seq<SourceView>, ls1: Seq<ListingView>, ls2: Seq<ListingView>, k: int)
    requires
        forall|j: int| k <= j < k + folders_in(cs) ==> #[trigger] answer(ls1, j) == answer(ls2, j),
    ensures
        list_outcome(cs, ls1, k) == list_outcome(cs, ls2, k),
        visited_list(cs, ls1, k) == visited_list(cs, ls2, k),
    decreases cs,
{
    if cs.len() > 0 {
        let rest = cs.drop_last();
        assert(folders_in(cs) == folders_in(rest) + folder_count(cs.last()));
        lemma_list_agree(rest, ls1, ls2, k);
        let k2 = k + folders_in(rest);
        assert forall|j: int| k2 <= j < k2 + folder_count(cs.last()) implies #[trigger] answer(ls1, j) == answer(
            ls2,
            j,
        ) by {
            assert(k <= j < k + folders_in(cs));
        }
        lemma_span_agree(cs.last(), ls1, ls2, k2);
    }
}

/// A source that flattens visits all its folders.
proof fn lemma_done_visits_all(s: SourceView, ls: Seq<ListingView>, k: int)
    ensures
        span(s, ls, k) is Done ==> visited(s, ls, k) == folder_count(s),
    decreases s,
{
    match s {
        SourceView::List(cs) => lemma_done_list_visits_all(cs, ls, k),
        SourceView::Clip(inner, start, end) => {
            lemma_done_visits_all(*inner, ls, k);
        },
        _ => {},
    }
}

proof fn lemma_done_list_visits_all(cs: Seq<SourceView>, ls: Seq<ListingView>, k: int)
    ensures
        list_outcome(cs, ls, k) is Done ==> visited_list(cs, ls, k) == folders_in(cs),
    decreases cs,
{
    if cs.len() > 0 {
        let rest = cs.drop_last();
        lemma_done_list_visits_all(rest, ls, k);
        lemma_done_visits_all(cs.last(), ls, k + folders_in(rest));
    }
}

/// Once the children before the `i`-th have not all flattened, the later
/// ones visit no folder.
proof fn lemma_visited_settled(cs: Seq<SourceView>, ls: Seq<ListingView>, k: int, i: int, j: int)
    requires
        0 <= i <= j <= cs.len(),
        !(list_outcome(cs.take(i), ls, k) is Done),
    ensures
        visited_list(cs.take(j), ls, k) == visited_list(cs.take(i), ls, k),
    decreases j - i,
{
    if j > i {
        lemma_visited_settled(cs, ls, k, i, j - 1);
        lemma_list_settled(cs, ls, k, i, j - 1);
        assert(cs.take(j).drop_last() =~= cs.take(j - 1));
    }
}

/// The answers from `from` on are ones the resolver may give for the folders
/// `fs`, in order.
pub open spec fn answered_in<R: Resolver>(resolver: &R, fs: Seq<FolderView>, ls: Seq<ListingView>, from: int) -> bool {
    forall|q: int| from <= q < ls.len() ==> resolver.answered(fs[q - from], #[trigger] ls[q])
}

/// Every answer from `from` on lists tracks, but perhaps the last.
pub open spec fn listed_but_last(ls: Seq<ListingView>, from: int) -> bool {
    forall|q: int| from <= q < ls.len() - 1 ==> (#[trigger] ls[q]) is Ok
}

/// No track listed from `from` on has a length or start below zero.
pub open spec fn nonneg_from(ls: Seq<ListingView>, from: int) -> bool {
    forall|q: int| from <= q < ls.len() ==> (#[trigger] ls[q] matches Ok(ts) ==> tracks_nonneg(ts))
}

/// Every answer from `from` on lists tracks.
pub open spec fn all_listed_from(ls: Seq<ListingView>, from: int) -> bool {
    forall|q: int| from <= q < ls.len() ==> (#[trigger] ls[q]) is Ok
}

proof fn lemma_visited_bound(s: SourceView, ls: Seq<ListingView>, k: int)
    ensures
        visited(s, ls, k) <= folder_count(s),
    decreases s,
{
    match s {
        SourceView::List(cs) => lemma_visited_list_bound(cs, ls, k),
        SourceView::Clip(inner, _, _) => lemma_visited_bound(*inner, ls, k),
        _ => {},
    }
}

proof fn lemma_visited_list_bound(cs: Seq<SourceView>, ls: Seq<ListingView>, k: int)
    ensures
        visited_list(cs, ls, k) <= folders_in(cs),
    decreases cs,
{
    if cs.len() > 0 {
        lemma_visited_list_bound(cs.drop_last(), ls, k);
        lemma_visited_bound(cs.last(), ls, k + folders_in(cs.drop_last()));
    }
}

proof fn lemma_prefix_answered<R: Resolver>(resolver: &R, cs: Seq<SourceView>, i: int, ls: Seq<ListingView>, k: int)
    requires
        0 <= i <= cs.len(),
        0 <= k <= ls.len(),
        ls.len() - k <= folders_in_list(cs.take(i)).len(),
        answered_in(resolver, folders_in_list(cs.take(i)), ls, k),
    ensures
        answered_in(resolver, folders_in_list(cs), ls, k),
{
    lemma_folders_list_prefix(cs, i, cs.len() as int);
    assert(cs.take(cs.len() as int) =~= cs);
    let p = folders_in_list(cs.take(i));
    assert forall|q: int| k <= q < ls.len() implies resolver.answered(folders_in_list(cs)[q - k], #[trigger] ls[q]) by {
        assert(p[q - k] == folders_in_list(cs).take(p.len() as int)[q - k]);
    }
}

/// Whether `r` is what flattening returns for the outcome `o`: the timeline,
/// the error, or, for a span out of range, an `Error::Other`.
pub open spec fn gives(r: Result<Timeline, Error>, o: Outcome) -> bool {
    if o is Overflow {
        r matches Err(Error::Other(_))
    } else {
        result_is(r, o)
    }
}

pub(crate) fn run(source: &Source, listings: &Vec<Listing>) -> (r: Result<Timeline, Error>)
    ensures
        gives(r, flatten_outcome(source@, listings_view(listings@))),
{
    let mut pos: usize = 0;
    match inner(source, listings, &mut pos, Ghost(0)) {
        Span::Done(events, total) => Ok(Timeline { events, total }),
        Span::Failed(e) => Err(e),
        Span::Overflow => Err(Error::Other(String::from_str("duration out of range"))),
    }
}

/// Flattens a source, given what its folders list, in the order flattening
/// visits them; a folder past the end of `listings` lists no tracks. Where a
/// span would leave the range of a `Duration` (a segment that ends before it
/// starts, or a sum past the largest `Duration`) the result is an
/// `Error::Other`.
pub fn flatten_listed(source: &Source, listings: &Vec<Listing>) -> (r: Result<Timeline, Error>)
    ensures
        gives(r, flatten_outcome(source@, listings_view(listings@))),
{
    run(source, listings)
}

/// The answers from `from` up to `to` all list tracks.
pub open spec fn all_listed(ls: Seq<Listing>, from: int, to: int) -> bool {
    forall|i: int| from <= i < to ==> (#[trigger] ls[i]) is Ok
}

/// The answers from `from` on are ones the resolver may give for the folders
/// `fs`, in order.
pub open spec fn answers_from<R: Resolver>(resolver: &R, fs: Seq<FolderView>, out: Seq<Listing>, from: int) -> bool {
    forall|q: int| from <= q < out.len() ==> resolver.answered(fs[q - from], listing_view(#[trigger] out[q]))
}

proof fn lemma_folders_list_prefix(cs: Seq<SourceView>, i: int, j: int)
    requires
        0 <= i <= j <= cs.len(),
    ensures
        folders_in_list(cs.take(i)).len() <= folders_in_list(cs.take(j)).len(),
        folders_in_list(cs.take(i)) =~= folders_in_list(cs.take(j)).take(folders_in_list(cs.take(i)).len() as int),
    decreases j - i,
{
    if j > i {
        lemma_folders_list_prefix(cs, i, j - 1);
        assert(cs.take(j).drop_last() =~= cs.take(j - 1));
        let a = folders_in_list(cs.take(j - 1));
        let b = folders_of(cs.take(j).last());
        assert(folders_in_list(cs.take(j)) == a + b);
        assert((a + b).take(folders_in_list(cs.take(i)).len() as int) =~= a.take(
            folders_in_list(cs.take(i)).len() as int,
        ));
    } else {
        assert(folders_in_list(cs.take(i)).take(folders_in_list(cs.take(i)).len() as int) =~= folders_in_list(
            cs.take(i),
        ));
    }
}

fn collect<R: Resolver>(source: &Source, resolver: &R, out: &mut Vec<Listing>) -> (go_on: bool)
    ensures
        answers_from(resolver, folders_of(source@), final(out)@, old(out)@.len() as int),
        old(out)@.len() <= final(out)@.len() <= old(out)@.len() + folder_count(source@),
        final(out)@.subrange(0, old(out)@.len() as int) == old(out)@,
        go_on ==> final(out)@.len() == old(out)@.len() + folder_count(source@) && all_listed(
            final(out)@,
            old(out)@.len() as int,
            final(out)@.len() as int,
        ),
        !go_on ==> final(out)@.len() > old(out)@.len() && final(out)@.last() is Err && all_listed(
            final(out)@,
            old(out)@.len() as int,
            final(out)@.len() - 1,
        ),
    decreases source,
{
    match source {
        Source::Track(_) => true,
        Source::Folder(folder) => {
            let answer = resolver.list(folder);
            let ok = answer.is_ok();
            out.push(answer);
            assert(out@.subrange(0, old(out)@.len() as int) =~= old(out)@);
            ok
        },
        Source::Clip(clip) => collect(&clip.inner, resolver, out),
        Source::List(list) => collect_list(list, resolver, out),
    }
}

fn collect_list<R: Resolver>(list: &List, resolver: &R, out: &mut Vec<Listing>) -> (go_on: bool)
    ensures
        answers_from(resolver, folders_in_list(sources_view(list.children@)), final(out)@, old(out)@.len() as int),
        old(out)@.len() <= final(out)@.len() <= old(out)@.len() + folders_in(sources_view(list.children@)),
        final(out)@.subrange(0, old(out)@.len() as int) == old(out)@,
        go_on ==> final(out)@.len() == old(out)@.len() + folders_in(sources_view(list.children@)) && all_listed(
            final(out)@,
            old(out)@.len() as int,
            final(out)@.len() as int,
        ),
        !go_on ==> final(out)@.len() > old(out)@.len() && final(out)@.last() is Err && all_listed(
            final(out)@,
            old(out)@.len() as int,
            final(out)@.len() - 1,
        ),
    decreases list,
{
    let ghost cs = sources_view(list.children@);
    let n = list.children.len();
    let mut i: usize = 0;
    proof {
        lemma_sources_view(list.children@);
        assert(cs.take(0) =~= Seq::empty());
    }
    while i < n
        invariant
            n == list.children@.len(),
            cs == sources_view(list.children@),
            cs.len() == n,
            forall|j: int| 0 <= j < n ==> #[trigger] cs[j] == list.children@[j]@,
            0 <= i <= n,
            old(out)@.len() <= out@.len() <= old(out)@.len() + folders_in(cs.take(i as int)),
            out@.len() == old(out)@.len() + folders_in(cs.take(i as int)),
            all_listed(out@, old(out)@.len() as int, out@.len() as int),
            out@.subrange(0, old(out)@.len() as int) == old(out)@,
            answers_from(resolver, folders_in_list(cs.take(i as int)), out@, old(out)@.len() as int),
        decreases n - i,
    {
        proof {
            assert(cs.take(i + 1).drop_last() =~= cs.take(i as int));
            assert(cs.take(i + 1).last() == list.children@[i as int]@);
            lemma_folders_in_list_len(cs.take(i as int));
        }
        let ghost before = out@;
        let go_on = collect(&list.children[i], resolver, out);
        proof {
            let fa = folders_in_list(cs.take(i as int));
            let fb = folders_of(cs[i as int]);
            assert(folders_in_list(cs.take(i + 1)) == fa + fb);
            lemma_folders_of_len(cs[i as int]);
            lemma_folders_in_list_len(cs.take(i + 1));
            assert(fa.len() == before.len() - old(out)@.len());
            let ol = old(out)@.len() as int;
            assert forall|q: int| ol <= q < out@.len() implies resolver.answered(
                (fa + fb)[q - ol],
                listing_view(#[trigger] out@[q]),
            ) by {
                if q < before.len() {
                    assert(out@.subrange(0, before.len() as int)[q] == before[q]);
                    assert(before[q] == out@[q]);
                    assert(resolver.answered(fa[q - ol], listing_view(before[q])));
                } else {
                    assert(resolver.answered(fb[q - before.len()], listing_view(out@[q])));
                    assert((fa + fb)[q - ol] == fb[q - before.len()]);
                }
            }
            assert(answers_from(resolver, folders_in_list(cs.take(i + 1)), out@, ol));
        }
        proof {
            assert forall|q: int| old(out)@.len() <= q < before.len() implies (#[trigger] out@[q]) is Ok by {
                assert(out@.subrange(0, before.len() as int)[q] == before[q]);
            }
        }
        proof {
            assert(out@.subrange(0, old(out)@.len() as int) =~= before.subrange(0, old(out)@.len() as int));
            assert(folders_in(cs.take(i + 1)) == folders_in(cs.take(i as int)) + folder_count(cs[i as int]));
            lemma_folders_in_prefix(cs, i as int + 1, n as int);
            assert(cs.take(n as int) =~= cs);
        }
        if !go_on {
            proof {
                assert(cs.take(n as int) =~= cs);
                lemma_prefix_answers(resolver, cs, i as int + 1, n as int, out@, old(out)@.len() as int);
            }
            return false;
        }
        i += 1;
    }
    proof {
        assert(cs.take(n as int) =~= cs);
    }
    true
}

proof fn lemma_prefix_answers<R: Resolver>(resolver: &R, cs: Seq<SourceView>, i: int, n: int, out: Seq<Listing>, ol: int)
    requires
        0 <= i <= n == cs.len(),
        0 <= ol <= out.len(),
        out.len() - ol <= folders_in_list(cs.take(i)).len(),
        answers_from(resolver, folders_in_list(cs.take(i)), out, ol),
    ensures
        answers_from(resolver, folders_in_list(cs), out, ol),
{
    lemma_folders_list_prefix(cs, i, n);
    assert(cs.take(n) =~= cs);
    let p = folders_in_list(cs.take(i));
    assert forall|q: int| ol <= q < out.len() implies resolver.answered(
        folders_in_list(cs)[q - ol],
        listing_view(#[trigger] out[q]),
    ) by {
        assert(p[q - ol] == folders_in_list(cs).take(p.len() as int)[q - ol]);
    }
}

proof fn lemma_folders_in_prefix(cs: Seq<SourceView>, i: int, j: int)
    requires
        0 <= i <= j <= cs.len(),
    ensures
        folders_in(cs.take(i)) <= folders_in(cs.take(j)),
    decreases j - i,
{
    if j > i {
        lemma_folders_in_prefix(cs, i, j - 1);
        assert(cs.take(j).drop_last() =~= cs.take(j - 1));
    }
}

/// What flattening with a resolver owes for a source flattened from the
/// answers `before`, the answers becoming `after`.
pub open spec fn asked_well<R: Resolver>(
    resolver: &R,
    s: SourceView,
    before: Seq<ListingView>,
    after: Seq<ListingView>,
    r: Outcome,
) -> bool {
    let k = before.len() as int;
    &&& after.len() >= k
    &&& after.subrange(0, k) == before
    &&& after.len() == k + visited(s, after, k)
    &&& answered_in(resolver, folders_of(s), after, k)
    &&& listed_but_last(after, k)
    &&& nonneg_from(after, k)
    &&& (r is Done ==> all_listed_from(after, k))
    &&& r == span(s, after, k)
}

/// Flattens a source, asking the resolver for each folder when it is
/// reached; `before` are the answers given so far.
fn ask_inner<R: Resolver>(source: &Source, resolver: &R, Ghost(before): Ghost<Seq<ListingView>>) -> (res: (
    Span,
    Ghost<Seq<ListingView>>,
))
    ensures
        asked_well(resolver, source@, before, res.1@, span_view(res.0)),
    decreases source,
{
    match source {
        Source::Track(track) => {
            proof {
                assert(before.subrange(0, before.len() as int) =~= before);
            }
            (track_span(track), Ghost(before))
        },
        Source::Folder(folder) => {
            let reply = resolver.list(folder);
            let ghost after = before.push(listing_view(reply));
            proof {
                assert(after.subrange(0, before.len() as int) =~= before);
                assert(answer(after, before.len() as int) == listing_view(reply));
                assert(folders_of(source@)[0] == folder@);
                if reply is Ok {
                    lemma_tracks_view_nonneg(reply->Ok_0@);
                }
            }
            let r = match reply {
                Err(e) => Span::Failed(e),
                Ok(tracks) => tracks_span(&tracks),
            };
            (r, Ghost(after))
        },
        Source::Clip(clip) => {
            let (inner_span, Ghost(after)) = ask_inner(&clip.inner, resolver, Ghost(before));
            (clip_of(inner_span, clip), Ghost(after))
        },
        Source::List(list) => ask_list(list, resolver, Ghost(before)),
    }
}

fn ask_list<R: Resolver>(list: &List, resolver: &R, Ghost(before): Ghost<Seq<ListingView>>) -> (res: (
    Span,
    Ghost<Seq<ListingView>>,
))
    ensures
        asked_well(resolver, SourceView::List(sources_view(list.children@)), before, res.1@, span_view(res.0)),
    decreases list,
{
    let ghost cs = sources_view(list.children@);
    let ghost k = before.len() as int;
    let ghost mut asked = before;
    let mut events: Vec<Event> = Vec::new();
    let mut total: Option<Duration> = Some(Duration::zero());
    let n = list.children.len();
    let mut i: usize = 0;
    proof {
        lemma_sources_view(list.children@);
        assert(cs.take(0) =~= Seq::empty());
        assert(plays_view(events@) =~= Seq::empty());
        assert(before.subrange(0, k) =~= before);
    }
    while i < n
        invariant
            n == list.children@.len(),
            cs == sources_view(list.children@),
            cs.len() == n,
            forall|j: int| 0 <= j < n ==> #[trigger] cs[j] == list.children@[j]@,
            k == before.len(),
            0 <= i <= n,
            asked.len() == k + folders_in(cs.take(i as int)),
            asked.subrange(0, k) == before,
            answered_in(resolver, folders_in_list(cs.take(i as int)), asked, k),
            all_listed_from(asked, k),
            nonneg_from(asked, k),
            list_outcome(cs.take(i as int), asked, k) == Outcome::Done(plays_view(events@), opt_view(total)),
        decreases n - i,
    {
        proof {
            assert(cs.take(i + 1).drop_last() =~= cs.take(i as int));
            assert(cs.take(i + 1).last() == list.children@[i as int]@);
            lemma_folders_in_list_len(cs.take(i as int));
        }
        let (next, Ghost(after)) = ask_inner(&list.children[i], resolver, Ghost(asked));
        let ghost ki = asked.len() as int;
        proof {
            // What came before is flattened alike with the new answers.
            assert forall|j: int| k <= j < k + folders_in(cs.take(i as int)) implies #[trigger] answer(asked, j)
                == answer(after, j) by {
                assert(after.subrange(0, ki)[j] == asked[j]);
            }
            lemma_list_agree(cs.take(i as int), asked, after, k);
            lemma_done_list_visits_all(cs.take(i as int), after, k);
            // The answers so far are the resolver's for the folders so far.
            let fa = folders_in_list(cs.take(i as int));
            let fb = folders_of(cs[i as int]);
            assert(folders_in_list(cs.take(i + 1)) == fa + fb);
            lemma_folders_of_len(cs[i as int]);
            lemma_visited_bound(cs[i as int], after, ki);
            assert(fa.len() == ki - k);
            assert forall|q: int| k <= q < after.len() implies resolver.answered((fa + fb)[q - k], #[trigger] after[q]) by {
                if q < ki {
                    assert(after.subrange(0, ki)[q] == asked[q]);
                } else {
                    assert(resolver.answered(fb[q - ki], after[q]));
                }
            }
            assert(answered_in(resolver, folders_in_list(cs.take(i + 1)), after, k));
            assert forall|q: int| k <= q < after.len() - 1 implies (#[trigger] after[q]) is Ok by {
                if q < ki {
                    assert(after.subrange(0, ki)[q] == asked[q]);
                }
            }
            assert forall|q: int| k <= q < after.len() implies (#[trigger] after[q] matches Ok(ts) ==> tracks_nonneg(
                ts,
            )) by {
                if q < ki {
                    assert(after.subrange(0, ki)[q] == asked[q]);
                }
            }
            assert(after.subrange(0, k) =~= after.subrange(0, ki).subrange(0, k));
            lemma_folders_in_list_len(cs.take(i + 1));
        }
        match absorb(&mut events, &mut total, next) {
            Some(stop) => {
                proof {
                    lemma_list_settled(cs, after, k, i + 1, n as int);
                    lemma_visited_settled(cs, after, k, i + 1, n as int);
                    assert(cs.take(n as int) =~= cs);
                    assert(visited_list(cs.take(i + 1), after, k) == folders_in(cs.take(i as int)) + visited(
                        cs[i as int],
                        after,
                        ki,
                    ));
                    lemma_prefix_answered(resolver, cs, i + 1, after, k);
                }
                return (stop, Ghost(after));
            },
            None => {
                proof {
                    lemma_done_visits_all(cs[i as int], after, ki);
                    assert forall|q: int| k <= q < after.len() implies (#[trigger] after[q]) is Ok by {
                        if q < ki {
                            assert(after.subrange(0, ki)[q] == asked[q]);
                        }
                    }
                    assert(folders_in(cs.take(i + 1)) == folders_in(cs.take(i as int)) + folder_count(cs[i as int]));
                }
            },
        }
        proof {
            asked = after;
        }
        i += 1;
    }
    proof {
        assert(cs.take(n as int) =~= cs);
        lemma_done_list_visits_all(cs, asked, k);
        lemma_folders_in_list_len(cs);
    }
    (Span::Done(events, total), Ghost(asked))
}

/// Asks the resolver for the tracks of each folder of the source, in the
/// order flattening visits them (`folders_of`), up to the first folder it
/// cannot list.
pub fn listings<R: Resolver>(source: &Source, resolver: &R) -> (ls: Vec<Listing>)
    ensures
        ls@.len() <= folder_count(source@),
        forall|i: int| 0 <= i < ls@.len() ==> resolver.answered(folders_of(source@)[i], listing_view(#[trigger] ls@[i])),
        ls@.len() < folder_count(source@) ==> ls@.len() > 0 && ls@.last() is Err,
        forall|i: int| 0 <= i < ls@.len() - 1 ==> (#[trigger] ls@[i]) is Ok,
{
    let mut out: Vec<Listing> = Vec::new();
    collect(source, resolver, &mut out);
    proof {
        assert forall|i: int| 0 <= i < out@.len() implies resolver.answered(
            folders_of(source@)[i],
            listing_view(#[trigger] out@[i]),
        ) by {
            assert(resolver.answered(folders_of(source@)[i - 0], listing_view(out@[i])));
        }
    }
    out
}

/// Flattens a source into a timeline, asking the resolver for the tracks of
/// each folder when flattening reaches it.
///
/// The result is what `flatten_listed` gives for the answers the resolver
/// gave: the folders asked are, in visiting order (`folders_of`), exactly
/// those flattening reaches before it fails (`visited`), each asked once; a
/// source without folders asks nothing. Where a span would leave the range of
/// a `Duration` (a segment that ends before it starts, or a sum past the
/// largest `Duration`) the result is an `Error::Other`. A timeline given
/// has plays that end, where they end, at or after they start, and its total
/// is the sum of their lengths where every play has an end.
pub fn flatten<R: Resolver>(source: &Source, resolver: &R) -> (r: Result<Timeline, Error>)
    ensures
        exists|ls: Seq<ListingView>|
            {
                &&& ls.len() == visited(source@, ls, 0)
                &&& ls.len() <= folder_count(source@)
                &&& forall|i: int| 0 <= i < ls.len() ==> resolver.answered(folders_of(source@)[i], #[trigger] ls[i])
                &&& forall|i: int| 0 <= i < ls.len() - 1 ==> (#[trigger] ls[i]) is Ok
                &&& gives(r, #[trigger] flatten_outcome(source@, ls))
            },
        folder_count(source@) == 0 ==> gives(r, flatten_outcome(source@, Seq::empty())),
        r matches Ok(t) ==> plays_ordered(plays_view(t.events@)) && opt_view(t.total) == known_total(
            plays_view(t.events@),
        ),
{
    let (result, Ghost(ls)) = ask_inner(source, resolver, Ghost(Seq::empty()));
    proof {
        lemma_source_view_nonneg(*source);
        assert(listings_nonneg(ls));
        law_flattened_plays_ordered(source@, ls, 0);
        law_total_is_sum_of_plays(source@, ls, 0);
        assert(flatten_outcome(source@, ls) == span_view(result));
        assert(listed_but_last(ls, 0));
        lemma_visited_bound(source@, ls, 0);
        if folder_count(source@) == 0 {
            lemma_span_without_folders(source@, ls, 0, Seq::empty(), 0);
        }
        assert forall|i: int| 0 <= i < ls.len() implies resolver.answered(folders_of(source@)[i], #[trigger] ls[i]) by {
            assert(resolver.answered(folders_of(source@)[i - 0], ls[i]));
        }
    }
    match result {
        Span::Done(events, total) => Ok(Timeline { events, total }),
        Span::Failed(e) => Err(e),
        Span::Overflow => Err(Error::Other(String::from_str("duration out of range"))),
    }
}

} // verus!
