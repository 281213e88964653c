use vstd::prelude::*;

use crate::time::{opt_view, Duration};

verus! {

/// Something that can be played: a file, a list of sources, a folder of
/// files, or a window cut out of another source.
#[derive(Debug)]
pub enum Source {
    Track(Track),
    List(List),
    Folder(Folder),
    Clip(Clip),
}

/// One audio file, with its length where known, played whole or as the given
/// segments in order.
#[derive(Debug, Clone)]
pub struct Track {
    pub path: String,
    pub len: Option<Duration>,
    pub segments: Vec<Segment>,
}

/// A part of a file from `start`, up to `end` or to the end of the file.
#[derive(Clone, Copy, Debug)]
pub struct Segment {
    pub start: Duration,
    pub end: Option<Duration>,
}

/// Sources played one after another.
#[derive(Debug)]
pub struct List {
    pub children: Vec<Source>,
}

/// The audio files under a directory, as a resolver lists them.
#[derive(Debug, Clone)]
pub struct Folder {
    pub path: String,
    pub recursive: bool,
    pub extensions: Vec<String>,
}

/// The part of `inner` from `start`, up to `end` or to its end.
#[derive(Debug)]
pub struct Clip {
    pub inner: Box<Source>,
    pub start: Duration,
    pub end: Option<Duration>,
}

/// The view of a segment: start and optional end, in nanoseconds.
pub struct SegmentView {
    pub start: int,
    pub end: Option<int>,
}

pub struct TrackView {
    pub path: Seq<char>,
    pub len: Option<int>,
    pub segments: Seq<SegmentView>,
}

pub struct FolderView {
    pub path: Seq<char>,
    pub recursive: bool,
    pub extensions: Seq<Seq<char>>,
}

/// The mathematical value of a `Source`: text as character sequences and
/// spans as nanoseconds.
pub enum SourceView {
    Track(TrackView),
    List(Seq<SourceView>),
    Folder(FolderView),
    Clip(Box<SourceView>, int, Option<int>),
}

impl View for Segment {
    type V = SegmentView;

    open spec fn view(&self) -> SegmentView {
        SegmentView { start: self.start@, end: opt_view(self.end) }
    }
}

pub open spec fn segments_view(s: Seq<Segment>) -> Seq<SegmentView> {
    s.map_values(|g: Segment| g@)
}

pub open spec fn strings_view(s: Seq<String>) -> Seq<Seq<char>> {
    s.map_values(|t: String| t@)
}

impl View for Track {
    type V = TrackView;

    open spec fn view(&self) -> TrackView {
        TrackView { path: self.path@, len: opt_view(self.len), segments: segments_view(self.segments@) }
    }
}

impl View for Folder {
    type V = FolderView;

    open spec fn view(&self) -> FolderView {
        FolderView {
            path: self.path@,
            recursive: self.recursive,
            extensions: strings_view(self.extensions@),
        }
    }
}

pub open spec fn tracks_view(s: Seq<Track>) -> Seq<TrackView> {
    s.map_values(|t: Track| t@)
}

/// The view of a source.
pub open spec fn source_view(s: Source) -> SourceView
    decreases s,
{
    match s {
        Source::Track(t) => SourceView::Track(t@),
        Source::List(l) => SourceView::List(sources_view(l.children@)),
        Source::Folder(f) => SourceView::Folder(f@),
        Source::Clip(c) => SourceView::Clip(Box::new(source_view(*c.inner)), c.start@, opt_view(c.end)),
    }
}

/// The views of a sequence of sources, in order.
pub open spec fn sources_view(s: Seq<Source>) -> Seq<SourceView>
    decreases s,
{
    if s.len() == 0 {
        Seq::empty()
    } else {
        sources_view(s.drop_last()).push(source_view(s.last()))
    }
}

impl View for Source {
    type V = SourceView;

    open spec fn view(&self) -> SourceView {
        source_view(*self)
    }
}

impl Source {
    /// A whole file of unknown length.
    pub fn track(path: &str) -> (s: Source)
        ensures
            s@ == SourceView::Track(TrackView { path: path@, len: None, segments: Seq::empty() }),
    {
        let segments: Vec<Segment> = Vec::new();
        let s = Source::Track(Track { path: path.to_string(), len: None, segments });
        assert(segments_view(segments@) =~= Seq::empty());
        s
    }

    /// One segment of a file of unknown length.
    pub fn segment(path: &str, start: Duration, end: Option<Duration>) -> (s: Source)
        ensures
            s@ == SourceView::Track(
                TrackView {
                    path: path@,
                    len: None,
                    segments: seq![SegmentView { start: start@, end: opt_view(end) }],
                },
            ),
    {
        let mut segments: Vec<Segment> = Vec::new();
        segments.push(Segment { start, end });
        let s = Source::Track(Track { path: path.to_string(), len: None, segments });
        assert(segments_view(segments@) =~= seq![SegmentView { start: start@, end: opt_view(end) }]);
        s
    }
}

} // verus!
