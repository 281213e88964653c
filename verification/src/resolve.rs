use vstd::prelude::*;

use crate::error::{Error, ErrorView};
use crate::source::{
    segments_view, source_view, sources_view, strings_view, tracks_view, Clip, List, Segment, SegmentView, Source, SourceView, Track,
    TrackView,
};
use crate::time::{add_span, opt_view, Duration};
use crate::timeline::{
    answer, flatten_outcome, folder_count, folders_in, gives, lemma_sources_view, listings_view, min_pos,
    play_len, plays_view, run, Event, Listing, ListingView, Outcome, PlayView, Playable, Timeline,
};

verus! {

/// A timeline whose plays all have known lengths, each placed at its offset.
#[derive(Debug, Clone)]
pub struct Resolved {
    pub events: Vec<ResolvedEvent>,
    pub total: Duration,
}

/// A play and the offset in the timeline where it begins.
#[derive(Debug, Clone)]
pub struct ResolvedEvent {
    pub at: Duration,
    pub play: Playable,
}

pub struct ResolvedEventView {
    pub at: int,
    pub play: PlayView,
}

pub open spec fn resolved_events_view(events: Seq<ResolvedEvent>) -> Seq<ResolvedEventView> {
    events.map_values(|e: ResolvedEvent| ResolvedEventView { at: e.at@, play: e.play@ })
}

// ----------------------------------------------------------------------------
// The model.

/// The length found for the `j`-th track without one; none past the given
/// lengths.
pub open spec fn length_at(lens: Seq<Option<int>>, j: int) -> Option<int> {
    if 0 <= j < lens.len() {
        lens[j]
    } else {
        None
    }
}

/// The paths of the tracks without a length among the given tracks.
pub open spec fn unknown_in_tracks(ts: Seq<TrackView>) -> Seq<Seq<char>>
    decreases ts.len(),
{
    if ts.len() == 0 {
        Seq::empty()
    } else if ts.last().len is None {
        unknown_in_tracks(ts.drop_last()).push(ts.last().path)
    } else {
        unknown_in_tracks(ts.drop_last())
    }
}

/// The paths of the tracks without a length that probing a source visits, in
/// order, its folders listed by `ls` from the `k`-th answer on.
pub open spec fn unknown_paths(s: SourceView, ls: Seq<ListingView>, k: int) -> Seq<Seq<char>>
    decreases s,
{
    match s {
        SourceView::Track(t) => if t.len is None { seq![t.path] } else { Seq::empty() },
        SourceView::Folder(_) => match answer(ls, k) {
            Ok(ts) => unknown_in_tracks(ts),
            Err(_) => Seq::empty(),
        },
        SourceView::List(cs) => unknown_in_list(cs, ls, k),
        SourceView::Clip(inner, _, _) => unknown_paths(*inner, ls, k),
    }
}

pub open spec fn unknown_in_list(cs: Seq<SourceView>, ls: Seq<ListingView>, k: int) -> Seq<Seq<char>>
    decreases cs,
{
    if cs.len() == 0 {
        Seq::empty()
    } else {
        unknown_in_list(cs.drop_last(), ls, k) + unknown_paths(cs.last(), ls, k + folders_in(cs.drop_last()))
    }
}

/// A track with its length filled in from `lens` where it has none.
pub open spec fn probed_track(t: TrackView, lens: Seq<Option<int>>, j: int) -> TrackView {
    TrackView {
        path: t.path,
        len: if t.len is Some { t.len } else { length_at(lens, j) },
        segments: t.segments,
    }
}

/// The listed tracks, each without a length given the next one of `lens`.
pub open spec fn probed_tracks(ts: Seq<TrackView>, lens: Seq<Option<int>>, j: int) -> Seq<SourceView>
    decreases ts.len(),
{
    if ts.len() == 0 {
        Seq::empty()
    } else {
        let rest = ts.drop_last();
        probed_tracks(rest, lens, j).push(
            SourceView::Track(probed_track(ts.last(), lens, j + unknown_in_tracks(rest).len())),
        )
    }
}

/// A source with every folder replaced by the list of its tracks, and every
/// track without a length given one from `lens`, in visiting order.
pub open spec fn probed_source(s: SourceView, ls: Seq<ListingView>, k: int, lens: Seq<Option<int>>, j: int) -> Result<
    SourceView,
    ErrorView,
>
    decreases s,
{
    match s {
        SourceView::Track(t) => Ok(SourceView::Track(probed_track(t, lens, j))),
        SourceView::Folder(_) => match answer(ls, k) {
            Ok(ts) => Ok(SourceView::List(probed_tracks(ts, lens, j))),
            Err(e) => Err(e),
        },
        SourceView::List(cs) => match probed_list(cs, ls, k, lens, j) {
            Ok(vs) => Ok(SourceView::List(vs)),
            Err(e) => Err(e),
        },
        SourceView::Clip(inner, start, end) => match probed_source(*inner, ls, k, lens, j) {
            Ok(v) => Ok(SourceView::Clip(Box::new(v), start, end)),
            Err(e) => Err(e),
        },
    }
}

pub open spec fn probed_list(cs: Seq<SourceView>, ls: Seq<ListingView>, k: int, lens: Seq<Option<int>>, j: int) -> Result<
    Seq<SourceView>,
    ErrorView,
>
    decreases cs,
{
    if cs.len() == 0 {
        Ok(Seq::empty())
    } else {
        let rest = cs.drop_last();
        match probed_list(rest, ls, k, lens, j) {
            Ok(vs) => match probed_source(
                cs.last(),
                ls,
                k + folders_in(rest),
                lens,
                j + unknown_in_list(rest, ls, k).len(),
            ) {
                Ok(v) => Ok(vs.push(v)),
                Err(e) => Err(e),
            },
            Err(e) => Err(e),
        }
    }
}

/// Each play placed after the ones before it; `Some(Err)` at the first play
/// of unknown length, `None` where a sum leaves the range.
pub open spec fn schedule_scan(plays: Seq<PlayView>) -> Option<Result<(Seq<ResolvedEventView>, int), ErrorView>>
    decreases plays.len(),
{
    if plays.len() == 0 {
        Some(Ok((Seq::empty(), 0)))
    } else {
        match schedule_scan(plays.drop_last()) {
            Some(Ok((events, total))) => match play_len(plays.last()) {
                None => None,
                Some(None) => Some(Err(ErrorView::Other("unknown length"@))),
                Some(Some(len)) => match add_span(total, len) {
                    None => None,
                    Some(t) => Some(
                        Ok((events.push(ResolvedEventView { at: total, play: plays.last() }), t)),
                    ),
                },
            },
            other => other,
        }
    }
}

/// What resolving gives: the placed plays and their total, an error, or
/// `None` where a span leaves the range.
pub open spec fn resolve_outcome(s: SourceView, ls: Seq<ListingView>, lens: Seq<Option<int>>) -> Option<
    Result<(Seq<ResolvedEventView>, int), ErrorView>,
> {
    match probed_source(s, ls, 0, lens, 0) {
        Err(e) => Some(Err(e)),
        Ok(p) => match flatten_outcome(p, Seq::empty()) {
            Outcome::Failed(e) => Some(Err(e)),
            Outcome::Overflow => None,
            Outcome::Done(plays, _) => schedule_scan(plays),
        },
    }
}

pub open spec fn lengths_view(lens: Seq<Option<Duration>>) -> Seq<Option<int>> {
    lens.map_values(|l: Option<Duration>| opt_view(l))
}

// ----------------------------------------------------------------------------
// The implementation.

fn copy_segments(segments: &Vec<Segment>) -> (r: Vec<Segment>)
    ensures
        r@ == segments@,
{
    let mut out: Vec<Segment> = Vec::new();
    let mut i: usize = 0;
    while i < segments.len()
        invariant
            0 <= i <= segments@.len(),
            out@ == segments@.take(i as int),
        decreases segments@.len() - i,
    {
        let g = segments[i];
        out.push(g);
        proof {
            assert(out@ =~= segments@.take(i + 1));
        }
        i += 1;
    }
    proof {
        assert(segments@.take(segments@.len() as int) =~= segments@);
    }
    out
}

/// The next found length, `None` past the given ones.
fn next_length(lengths: &Vec<Option<Duration>>, lpos: &mut usize, Ghost(j): Ghost<int>) -> (r: Option<Duration>)
    requires
        j >= 0,
        *old(lpos) == min_pos(j, lengths@.len() as int),
    ensures
        opt_view(r) == length_at(lengths_view(lengths@), j),
        *final(lpos) == min_pos(j + 1, lengths@.len() as int),
{
    if *lpos < lengths.len() {
        let i = *lpos;
        *lpos = i + 1;
        lengths[i]
    } else {
        None
    }
}

fn probe_track(track: &Track, lengths: &Vec<Option<Duration>>, lpos: &mut usize, Ghost(j): Ghost<int>) -> (r: Track)
    requires
        j >= 0,
        *old(lpos) == min_pos(j, lengths@.len() as int),
    ensures
        r@ == probed_track(track@, lengths_view(lengths@), j),
        *final(lpos) == min_pos(j + if track.len is None { 1int } else { 0int }, lengths@.len() as int),
{
    let len = match track.len {
        Some(len) => Some(len),
        None => next_length(lengths, lpos, Ghost(j)),
    };
    Track { path: track.path.clone(), len, segments: copy_segments(&track.segments) }
}

fn probe_tracks(tracks: &Vec<Track>, lengths: &Vec<Option<Duration>>, lpos: &mut usize, Ghost(j): Ghost<int>) -> (r: Vec<Source>)
    requires
        j >= 0,
        *old(lpos) == min_pos(j, lengths@.len() as int),
    ensures
        sources_view(r@) == probed_tracks(tracks_view(tracks@), lengths_view(lengths@), j),
        *final(lpos) == min_pos(j + unknown_in_tracks(tracks_view(tracks@)).len(), lengths@.len() as int),
{
    let ghost ts = tracks_view(tracks@);
    let mut out: Vec<Source> = Vec::new();
    let n = tracks.len();
    let mut i: usize = 0;
    proof {
        assert(ts.take(0) =~= Seq::empty());
    }
    while i < n
        invariant
            n == tracks@.len(),
            ts == tracks_view(tracks@),
            j >= 0,
            0 <= i <= n,
            sources_view(out@) == probed_tracks(ts.take(i as int), lengths_view(lengths@), j),
            *lpos == min_pos(j + unknown_in_tracks(ts.take(i as int)).len(), lengths@.len() as int),
        decreases n - i,
    {
        proof {
            assert(ts.take(i + 1).drop_last() =~= ts.take(i as int));
            assert(ts.take(i + 1).last() == tracks@[i as int]@);
        }
        let t = probe_track(&tracks[i], lengths, lpos, Ghost(j + unknown_in_tracks(ts.take(i as int)).len()));
        let ghost before = out@;
        let ghost jj = j + unknown_in_tracks(ts.take(i as int)).len();
        out.push(Source::Track(t));
        proof {
            assert(out@.drop_last() =~= before);
            assert(out@.last() == Source::Track(t));
            assert(source_view(Source::Track(t)) == SourceView::Track(t@));
            assert(sources_view(out@) == sources_view(before).push(SourceView::Track(t@)));
            assert(probed_tracks(ts.take(i + 1), lengths_view(lengths@), j) == probed_tracks(ts.take(i as int), lengths_view(lengths@), j).push(
                SourceView::Track(probed_track(tracks@[i as int]@, lengths_view(lengths@), jj))));
        }
        i += 1;
    }
    proof {
        assert(ts.take(n as int) =~= ts);
    }
    out
}

fn probe_source(
    source: &Source,
    listings: &Vec<Listing>,
    pos: &mut usize,
    Ghost(k): Ghost<int>,
    lengths: &Vec<Option<Duration>>,
    lpos: &mut usize,
    Ghost(j): Ghost<int>,
) -> (r: Result<Source, Error>)
    requires
        k >= 0,
        j >= 0,
        *old(pos) == min_pos(k, listings@.len() as int),
        *old(lpos) == min_pos(j, lengths@.len() as int),
    ensures
        match r {
            Ok(v) => probed_source(source@, listings_view(listings@), k, lengths_view(lengths@), j) == Ok::<
                SourceView,
                ErrorView,
            >(v@) && *final(pos) == min_pos(k + folder_count(source@), listings@.len() as int) && *final(lpos)
                == min_pos(
                j + unknown_paths(source@, listings_view(listings@), k).len(),
                lengths@.len() as int,
            ),
            Err(e) => probed_source(source@, listings_view(listings@), k, lengths_view(lengths@), j) == Err::<
                SourceView,
                ErrorView,
            >(e@),
        },
    decreases source,
{
    match source {
        Source::Track(track) => Ok(Source::Track(probe_track(track, lengths, lpos, Ghost(j)))),
        Source::Folder(_) => {
            if *pos < listings.len() {
                let i = *pos;
                *pos = i + 1;
                match &listings[i] {
                    Err(e) => Err(e.duplicate()),
                    Ok(tracks) => Ok(Source::List(List { children: probe_tracks(tracks, lengths, lpos, Ghost(j)) })),
                }
            } else {
                let none: Vec<Track> = Vec::new();
                proof {
                    assert(tracks_view(none@) =~= Seq::empty());
                }
                Ok(Source::List(List { children: probe_tracks(&none, lengths, lpos, Ghost(j)) }))
            }
        },
        Source::List(list) => match probe_list(list, listings, pos, Ghost(k), lengths, lpos, Ghost(j)) {
            Ok(children) => Ok(Source::List(List { children })),
            Err(e) => Err(e),
        },
        Source::Clip(clip) => match probe_clip(clip, listings, pos, Ghost(k), lengths, lpos, Ghost(j)) {
            Ok(inner) => Ok(Source::Clip(Clip { inner: Box::new(inner), start: clip.start, end: clip.end })),
            Err(e) => Err(e),
        },
    }
}

fn probe_clip(
    clip: &Clip,
    listings: &Vec<Listing>,
    pos: &mut usize,
    Ghost(k): Ghost<int>,
    lengths: &Vec<Option<Duration>>,
    lpos: &mut usize,
    Ghost(j): Ghost<int>,
) -> (r: Result<Source, Error>)
    requires
        k >= 0,
        j >= 0,
        *old(pos) == min_pos(k, listings@.len() as int),
        *old(lpos) == min_pos(j, lengths@.len() as int),
    ensures
        match r {
            Ok(v) => probed_source((*clip.inner)@, listings_view(listings@), k, lengths_view(lengths@), j) == Ok::<
                SourceView,
                ErrorView,
            >(v@) && *final(pos) == min_pos(k + folder_count((*clip.inner)@), listings@.len() as int)
                && *final(lpos) == min_pos(
                j + unknown_paths((*clip.inner)@, listings_view(listings@), k).len(),
                lengths@.len() as int,
            ),
            Err(e) => probed_source((*clip.inner)@, listings_view(listings@), k, lengths_view(lengths@), j)
                == Err::<SourceView, ErrorView>(e@),
        },
    decreases clip,
{
    probe_source(&clip.inner, listings, pos, Ghost(k), lengths, lpos, Ghost(j))
}

fn probe_list(
    list: &List,
    listings: &Vec<Listing>,
    pos: &mut usize,
    Ghost(k): Ghost<int>,
    lengths: &Vec<Option<Duration>>,
    lpos: &mut usize,
    Ghost(j): Ghost<int>,
) -> (r: Result<Vec<Source>, Error>)
    requires
        k >= 0,
        j >= 0,
        *old(pos) == min_pos(k, listings@.len() as int),
        *old(lpos) == min_pos(j, lengths@.len() as int),
    ensures
        match r {
            Ok(vs) => probed_list(
                sources_view(list.children@),
                listings_view(listings@),
                k,
                lengths_view(lengths@),
                j,
            ) == Ok::<Seq<SourceView>, ErrorView>(sources_view(vs@)) && *final(pos) == min_pos(
                k + folders_in(sources_view(list.children@)),
                listings@.len() as int,
            ) && *final(lpos) == min_pos(
                j + unknown_in_list(sources_view(list.children@), listings_view(listings@), k).len(),
                lengths@.len() as int,
            ),
            Err(e) => probed_list(
                sources_view(list.children@),
                listings_view(listings@),
                k,
                lengths_view(lengths@),
                j,
            ) == Err::<Seq<SourceView>, ErrorView>(e@),
        },
    decreases list,
{
    let ghost cs = sources_view(list.children@);
    let ghost ls = listings_view(listings@);
    let ghost lens = lengths_view(lengths@);
    let mut out: Vec<Source> = Vec::new();
    let n = list.children.len();
    let mut i: usize = 0;
    proof {
        lemma_sources_view(list.children@);
        assert(cs.take(0) =~= Seq::empty());
        assert(sources_view(out@) =~= Seq::empty());
    }
    while i < n
        invariant
            n == list.children@.len(),
            cs == sources_view(list.children@),
            cs.len() == n,
            forall|q: int| 0 <= q < n ==> #[trigger] cs[q] == list.children@[q]@,
            ls == listings_view(listings@),
            lens == lengths_view(lengths@),
            k >= 0,
            j >= 0,
            0 <= i <= n,
            probed_list(cs.take(i as int), ls, k, lens, j) == Ok::<Seq<SourceView>, ErrorView>(sources_view(out@)),
            *pos == min_pos(k + folders_in(cs.take(i as int)), listings@.len() as int),
            *lpos == min_pos(j + unknown_in_list(cs.take(i as int), ls, k).len(), lengths@.len() as int),
        decreases n - i,
    {
        proof {
            assert(cs.take(i + 1).drop_last() =~= cs.take(i as int));
            assert(cs.take(i + 1).last() == list.children@[i as int]@);
        }
        let next = probe_source(
            &list.children[i],
            listings,
            pos,
            Ghost(k + folders_in(cs.take(i as int))),
            lengths,
            lpos,
            Ghost(j + unknown_in_list(cs.take(i as int), ls, k).len()),
        );
        match next {
            Ok(v) => {
                let ghost before = out@;
                out.push(v);
                proof {
                    assert(out@.drop_last() =~= before);
                }
            },
            Err(e) => {
                proof {
                    lemma_probed_list_settled(cs, ls, k, lens, j, i + 1, n as int);
                    assert(cs.take(n as int) =~= cs);
                }
                return Err(e);
            },
        }
        i += 1;
    }
    proof {
        assert(cs.take(n as int) =~= cs);
    }
    Ok(out)
}

proof fn lemma_probed_list_settled(
    cs: Seq<SourceView>,
    ls: Seq<ListingView>,
    k: int,
    lens: Seq<Option<int>>,
    j: int,
    i: int,
    m: int,
)
    requires
        0 <= i <= m <= cs.len(),
        probed_list(cs.take(i), ls, k, lens, j) is Err,
    ensures
        probed_list(cs.take(m), ls, k, lens, j) == probed_list(cs.take(i), ls, k, lens, j),
    decreases m - i,
{
    if m > i {
        lemma_probed_list_settled(cs, ls, k, lens, j, i, m - 1);
        assert(cs.take(m).drop_last() =~= cs.take(m - 1));
    }
}

fn schedule(timeline: &Timeline) -> (r: Option<Result<Resolved, Error>>)
    ensures
        match r {
            None => schedule_scan(plays_view(timeline.events@)) is None,
            Some(Ok(res)) => schedule_scan(plays_view(timeline.events@)) == Some(
                Ok::<(Seq<ResolvedEventView>, int), ErrorView>((resolved_events_view(res.events@), res.total@)),
            ),
            Some(Err(e)) => schedule_scan(plays_view(timeline.events@)) == Some(
                Err::<(Seq<ResolvedEventView>, int), ErrorView>(e@),
            ),
        },
{
    let ghost plays = plays_view(timeline.events@);
    let mut total = Duration::zero();
    let mut events: Vec<ResolvedEvent> = Vec::new();
    let n = timeline.events.len();
    let mut i: usize = 0;
    proof {
        assert(plays.take(0) =~= Seq::empty());
        assert(resolved_events_view(events@) =~= Seq::empty());
    }
    while i < n
        invariant
            n == timeline.events@.len(),
            plays == plays_view(timeline.events@),
            0 <= i <= n,
            schedule_scan(plays.take(i as int)) == Some(
                Ok::<(Seq<ResolvedEventView>, int), ErrorView>((resolved_events_view(events@), total@)),
            ),
        decreases n - i,
    {
        let event = &timeline.events[i];
        proof {
            assert(plays.take(i + 1).drop_last() =~= plays.take(i as int));
            assert(plays.take(i + 1).last() == event.play@);
        }
        let len = match event.play.checked_len() {
            Some(Some(len)) => len,
            Some(None) => {
                proof {
                    lemma_schedule_settled(plays, i + 1, n as int);
                    assert(plays.take(n as int) =~= plays);
                }
                return Some(Err(Error::Other(String::from_str("unknown length"))));
            },
            None => {
                proof {
                    lemma_schedule_settled(plays, i + 1, n as int);
                    assert(plays.take(n as int) =~= plays);
                }
                return None;
            },
        };
        let at = total;
        let play = event.play.duplicate();
        let ghost before = events@;
        events.push(ResolvedEvent { at, play });
        proof {
            assert(resolved_events_view(events@) =~= resolved_events_view(before).push(
                ResolvedEventView { at: at@, play: event.play@ },
            ));
        }
        match total.checked_add(len) {
            Some(sum) => {
                total = sum;
            },
            None => {
                proof {
                    lemma_schedule_settled(plays, i + 1, n as int);
                    assert(plays.take(n as int) =~= plays);
                }
                return None;
            },
        }
        i += 1;
    }
    proof {
        assert(plays.take(n as int) =~= plays);
    }
    Some(Ok(Resolved { events, total }))
}

proof fn lemma_schedule_settled(plays: Seq<PlayView>, i: int, m: int)
    requires
        0 <= i <= m <= plays.len(),
        !(schedule_scan(plays.take(i)) matches Some(Ok(_))),
    ensures
        schedule_scan(plays.take(m)) == schedule_scan(plays.take(i)),
    decreases m - i,
{
    if m > i {
        lemma_schedule_settled(plays, i, m - 1);
        assert(plays.take(m).drop_last() =~= plays.take(m - 1));
    }
}

/// The view of a resolved timeline.
pub open spec fn resolved_view(r: Resolved) -> (Seq<ResolvedEventView>, int) {
    (resolved_events_view(r.events@), r.total@)
}

/// Resolves a source into plays placed one after another: its folders are
/// listed by `listings` and its tracks without a length get, in visiting
/// order, the lengths in `lengths` (see `probe_paths`).
///
/// A play of unknown length is an `Error::Other`, as is a span that would
/// leave the range of a `Duration`.
pub fn resolve(source: &Source, listings: &Vec<Listing>, lengths: &Vec<Option<Duration>>) -> (r: Result<
    Resolved,
    Error,
>)
    ensures
        match resolve_outcome(source@, listings_view(listings@), lengths_view(lengths@)) {
            None => r matches Err(Error::Other(_)),
            Some(Ok(v)) => r matches Ok(res) && resolved_view(res) == v,
            Some(Err(e)) => r matches Err(err) && err@ == e,
        },
{
    let mut pos: usize = 0;
    let mut lpos: usize = 0;
    let probed = match probe_source(source, listings, &mut pos, Ghost(0), lengths, &mut lpos, Ghost(0)) {
        Ok(probed) => probed,
        Err(e) => return Err(e),
    };
    let none: Vec<Listing> = Vec::new();
    proof {
        assert(listings_view(none@) =~= Seq::empty());
    }
    let timeline = match run(&probed, &none) {
        Ok(timeline) => timeline,
        Err(e) => return Err(e),
    };
    match schedule(&timeline) {
        Some(Ok(resolved)) => Ok(resolved),
        Some(Err(e)) => Err(e),
        None => Err(Error::Other(String::from_str("duration out of range"))),
    }
}

fn paths_of(source: &Source, listings: &Vec<Listing>, pos: &mut usize, Ghost(k): Ghost<int>, out: &mut Vec<String>)
    requires
        k >= 0,
        *old(pos) == min_pos(k, listings@.len() as int),
    ensures
        strings_view(final(out)@) == strings_view(old(out)@) + unknown_paths(source@, listings_view(listings@), k),
        *final(pos) == min_pos(k + folder_count(source@), listings@.len() as int),
    decreases source,
{
    match source {
        Source::Track(track) => {
            if track.len.is_none() {
                let ghost before = out@;
                out.push(track.path.clone());
                proof {
                    assert(strings_view(out@) =~= strings_view(before) + seq![track.path@]);
                }
            } else {
                assert(strings_view(out@) =~= strings_view(out@) + Seq::<Seq<char>>::empty());
            }
        },
        Source::Folder(_) => {
            if *pos < listings.len() {
                let i = *pos;
                *pos = i + 1;
                match &listings[i] {
                    Err(_) => {
                        assert(strings_view(out@) =~= strings_view(out@) + Seq::<Seq<char>>::empty());
                    },
                    Ok(tracks) => unknown_of_tracks(tracks, out),
                }
            } else {
                assert(strings_view(out@) =~= strings_view(out@) + Seq::<Seq<char>>::empty());
                assert(unknown_in_tracks(Seq::empty()) == Seq::<Seq<char>>::empty());
            }
        },
        Source::List(list) => paths_of_list(list, listings, pos, Ghost(k), out),
        Source::Clip(clip) => paths_of_clip(clip, listings, pos, Ghost(k), out),
    }
}

fn paths_of_clip(clip: &Clip, listings: &Vec<Listing>, pos: &mut usize, Ghost(k): Ghost<int>, out: &mut Vec<String>)
    requires
        k >= 0,
        *old(pos) == min_pos(k, listings@.len() as int),
    ensures
        strings_view(final(out)@) == strings_view(old(out)@) + unknown_paths((*clip.inner)@, listings_view(listings@), k),
        *final(pos) == min_pos(k + folder_count((*clip.inner)@), listings@.len() as int),
    decreases clip,
{
    paths_of(&clip.inner, listings, pos, Ghost(k), out)
}

fn unknown_of_tracks(tracks: &Vec<Track>, out: &mut Vec<String>)
    ensures
        strings_view(final(out)@) == strings_view(old(out)@) + unknown_in_tracks(tracks_view(tracks@)),
{
    let ghost ts = tracks_view(tracks@);
    let ghost start = strings_view(out@);
    let n = tracks.len();
    let mut i: usize = 0;
    proof {
        assert(ts.take(0) =~= Seq::empty());
        assert(start + Seq::<Seq<char>>::empty() =~= start);
    }
    while i < n
        invariant
            n == tracks@.len(),
            ts == tracks_view(tracks@),
            0 <= i <= n,
            strings_view(out@) == start + unknown_in_tracks(ts.take(i as int)),
        decreases n - i,
    {
        proof {
            assert(ts.take(i + 1).drop_last() =~= ts.take(i as int));
            assert(ts.take(i + 1).last() == tracks@[i as int]@);
        }
        if tracks[i].len.is_none() {
            let ghost before = out@;
            out.push(tracks[i].path.clone());
            proof {
                assert(strings_view(out@) =~= strings_view(before).push(tracks@[i as int].path@));
                assert(unknown_in_tracks(ts.take(i + 1)) == unknown_in_tracks(ts.take(i as int)).push(
                    tracks@[i as int].path@,
                ));
                assert(strings_view(out@) =~= start + unknown_in_tracks(ts.take(i + 1)));
            }
        }
        i += 1;
    }
    proof {
        assert(ts.take(n as int) =~= ts);
    }
}

fn paths_of_list(list: &List, listings: &Vec<Listing>, pos: &mut usize, Ghost(k): Ghost<int>, out: &mut Vec<String>)
    requires
        k >= 0,
        *old(pos) == min_pos(k, listings@.len() as int),
    ensures
        strings_view(final(out)@) == strings_view(old(out)@) + unknown_in_list(
            sources_view(list.children@),
            listings_view(listings@),
            k,
        ),
        *final(pos) == min_pos(k + folders_in(sources_view(list.children@)), listings@.len() as int),
    decreases list,
{
    let ghost cs = sources_view(list.children@);
    let ghost ls = listings_view(listings@);
    let ghost start = strings_view(out@);
    let n = list.children.len();
    let mut i: usize = 0;
    proof {
        lemma_sources_view(list.children@);
        assert(cs.take(0) =~= Seq::empty());
        assert(start + Seq::<Seq<char>>::empty() =~= start);
    }
    while i < n
        invariant
            n == list.children@.len(),
            cs == sources_view(list.children@),
            cs.len() == n,
            forall|q: int| 0 <= q < n ==> #[trigger] cs[q] == list.children@[q]@,
            ls == listings_view(listings@),
            k >= 0,
            0 <= i <= n,
            strings_view(out@) == start + unknown_in_list(cs.take(i as int), ls, k),
            *pos == min_pos(k + folders_in(cs.take(i as int)), listings@.len() as int),
        decreases n - i,
    {
        proof {
            assert(cs.take(i + 1).drop_last() =~= cs.take(i as int));
            assert(cs.take(i + 1).last() == list.children@[i as int]@);
        }
        let ghost before = strings_view(out@);
        paths_of(&list.children[i], listings, pos, Ghost(k + folders_in(cs.take(i as int))), out);
        proof {
            assert(strings_view(out@) =~= start + unknown_in_list(cs.take(i + 1), ls, k));
        }
        i += 1;
    }
    proof {
        assert(cs.take(n as int) =~= cs);
    }
}

/// The paths of the tracks without a known length, in the order that
/// `resolve` takes their lengths, the folders of the source listed by
/// `listings`.
pub fn probe_paths(source: &Source, listings: &Vec<Listing>) -> (paths: Vec<String>)
    ensures
        strings_view(paths@) == unknown_paths(source@, listings_view(listings@), 0),
{
    let mut out: Vec<String> = Vec::new();
    let mut pos: usize = 0;
    paths_of(source, listings, &mut pos, Ghost(0), &mut out);
    proof {
        assert(strings_view(Seq::<String>::empty()) + unknown_paths(source@, listings_view(listings@), 0)
            =~= unknown_paths(source@, listings_view(listings@), 0));
    }
    out
}

} // verus!
