use vstd::prelude::*;

use crate::time::Duration;

verus! {

/// A picture embedded in a file, with its media type.
#[derive(Clone, Debug, PartialEq)]
pub struct CoverArt {
    pub mime_type: String,
    pub data: Vec<u8>,
}

/// What the player shows of an opened file.
#[derive(Clone, Debug, PartialEq)]
pub struct MediaInfo {
    pub title: String,
    pub artist: String,
    pub album: String,
    pub duration: Duration,
    pub path: String,
    pub cover: Option<CoverArt>,
}

/// The tags, length and cover read from a file, each where present.
#[derive(Clone, Debug)]
pub struct Meta {
    pub title: Option<String>,
    pub artist: Option<String>,
    pub album: Option<String>,
    pub duration: Option<Duration>,
    pub cover: Option<Vec<u8>>,
    pub path: String,
}

/// The stem of the file name of a path, as `std::path::Path::file_stem`
/// gives it, where it has one.
pub uninterp spec fn file_stem_of(path: Seq<char>) -> Option<Seq<char>>;

pub open spec fn opt_text(t: Option<&str>) -> Option<Seq<char>> {
    match t {
        Some(s) => Some(s@),
        None => None,
    }
}

/// Calls `std::path::Path::file_stem` on the path and reads the stem as text;
/// the contract claims that the result is `file_stem_of` of the path.
#[verifier::external_body]
fn file_stem(path: &str) -> (stem: Option<&str>)
    ensures
        opt_text(stem) == file_stem_of(path@),
{
    std::path::Path::new(path).file_stem().and_then(|s| s.to_str())
}

impl Default for Meta {
    fn default() -> (m: Meta)
        ensures
            m.title is None,
            m.artist is None,
            m.album is None,
            m.duration is None,
            m.cover is None,
            m.path@ == Seq::<char>::empty(),
    {
        Meta { title: None, artist: None, album: None, duration: None, cover: None, path: String::new() }
    }
}

/// The title shown for a file: its title tag, else the stem of its file name,
/// else "Unknown".
pub open spec fn shown_title(m: Meta) -> Seq<char> {
    match m.title {
        Some(t) => t@,
        None => match file_stem_of(m.path@) {
            Some(stem) => stem,
            None => "Unknown"@,
        },
    }
}

/// The artist shown for a file: its artist tag, else "Unknown Artist".
pub open spec fn shown_artist(m: Meta) -> Seq<char> {
    match m.artist {
        Some(a) => a@,
        None => "Unknown Artist"@,
    }
}

impl Meta {
    pub fn display_title(&self) -> (t: &str)
        ensures
            t@ == shown_title(*self),
    {
        match &self.title {
            Some(title) => title.as_str(),
            None => match file_stem(self.path.as_str()) {
                Some(stem) => stem,
                None => "Unknown",
            },
        }
    }

    pub fn display_artist(&self) -> (a: &str)
        ensures
            a@ == shown_artist(*self),
    {
        match &self.artist {
            Some(artist) => artist.as_str(),
            None => "Unknown Artist",
        }
    }
}

/// Something the player can queue and open.
pub trait Playable {
    fn meta(&self) -> &Meta;

    fn path(&self) -> &str;
}

/// A file with what was read of it.
#[derive(Clone, Debug)]
pub struct Track {
    pub meta: Meta,
}

impl Playable for Track {
    fn meta(&self) -> (m: &Meta)
        ensures
            *m == self.meta,
    {
        &self.meta
    }

    fn path(&self) -> (p: &str)
        ensures
            p@ == self.meta.path@,
    {
        self.meta.path.as_str()
    }
}

} // verus!
