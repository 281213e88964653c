use vstd::prelude::*;

use crate::source::{strings_view, FolderView, Folder, Segment, Source, SourceView, Track, TrackView};
use crate::text::{clock, clock_text, decimal, push_decimal};
use crate::time::{Duration, NANOS_PER_SEC};
use crate::timeline::{PlayView, Playable};

verus! {

/// The extensions a folder given on the command line is searched for.
pub open spec fn audio_extension_list() -> Seq<Seq<char>> {
    seq!["mp3"@, "flac"@, "wav"@, "ogg"@, "opus"@, "m4a"@, "aac"@, "aiff"@, "wma"@]
}

pub fn audio_extensions() -> (r: Vec<String>)
    ensures
        strings_view(r@) == audio_extension_list(),
{
    let mut r: Vec<String> = Vec::new();
    r.push(String::from_str("mp3"));
    r.push(String::from_str("flac"));
    r.push(String::from_str("wav"));
    r.push(String::from_str("ogg"));
    r.push(String::from_str("opus"));
    r.push(String::from_str("m4a"));
    r.push(String::from_str("aac"));
    r.push(String::from_str("aiff"));
    r.push(String::from_str("wma"));
    assert(strings_view(r@) =~= audio_extension_list());
    r
}

/// The source for a path given on the command line: a directory is a folder
/// searched recursively for audio files, anything else a whole track of
/// unknown length.
pub fn path_source(path: String, is_dir: bool) -> (s: Source)
    ensures
        s@ == if is_dir {
            SourceView::Folder(FolderView { path: path@, recursive: true, extensions: audio_extension_list() })
        } else {
            SourceView::Track(TrackView { path: path@, len: None, segments: Seq::empty() })
        },
{
    if is_dir {
        Source::Folder(Folder { path, recursive: true, extensions: audio_extensions() })
    } else {
        let segments: Vec<Segment> = Vec::new();
        assert(crate::source::segments_view(segments@) =~= Seq::empty());
        Source::Track(Track { path, len: None, segments })
    }
}

/// Whole seconds of a span.
pub open spec fn secs_of(d: int) -> nat {
    (d / (NANOS_PER_SEC as int)) as nat
}

/// The line shown for the `index`-th play: "index. path [start..end]", the
/// end shown as "end" where the play runs to the end of the file.
pub open spec fn play_line_text(index: nat, play: PlayView) -> Seq<char> {
    decimal(index) + ". "@ + play.path + " ["@ + clock_text(secs_of(play.start)) + ".."@ + match play.end {
        Some(e) => clock_text(secs_of(e)),
        None => "end"@,
    } + "]"@
}

pub fn play_line(index: usize, play: &Playable) -> (line: String)
    requires
        play.start.fits(),
        play.end matches Some(e) ==> e.fits(),
    ensures
        line@ == play_line_text(index as nat, play@),
{
    let mut line = String::new();
    push_decimal(&mut line, index as u64);
    line.append(". ");
    line.append(play.path.as_str());
    line.append(" [");
    line.append(clock(play.start).as_str());
    line.append("..");
    match play.end {
        Some(end) => line.append(clock(end).as_str()),
        None => line.append("end"),
    }
    line.append("]");
    assert(line@ =~= play_line_text(index as nat, play@));
    line
}

/// The line shown for the total of a timeline: "total: m:ss", or
/// "total: unknown".
pub fn total_line(total: Option<Duration>) -> (line: String)
    requires
        total matches Some(t) ==> t.fits(),
    ensures
        line@ == "total: "@ + match total {
            Some(t) => clock_text(secs_of(t@)),
            None => "unknown"@,
        },
{
    let mut line = String::from_str("total: ");
    match total {
        Some(t) => line.append(clock(t).as_str()),
        None => line.append("unknown"),
    }
    line
}

} // verus!
