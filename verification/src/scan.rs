use vstd::prelude::*;
use vstd::string::*;

use crate::error::{Error, ErrorView};
use crate::source::{strings_view, tracks_view, Folder, Segment, Track, TrackView};

verus! {

/// The position of the last '.' in a name, if any.
pub open spec fn last_dot(name: Seq<char>) -> Option<int>
    decreases name.len(),
{
    if name.len() == 0 {
        None
    } else if name.last() == '.' {
        Some(name.len() - 1)
    } else {
        last_dot(name.drop_last())
    }
}

/// The extension of a file name, as `std::path::Path::extension` documents
/// it: what follows the last '.', unless there is no '.' or the only one
/// begins the name.
pub open spec fn extension_of(name: Seq<char>) -> Option<Seq<char>> {
    match last_dot(name) {
        Some(i) => if i == 0 { None } else { Some(name.skip(i + 1)) },
        None => None,
    }
}

/// A character with ASCII upper case letters turned to lower case.
pub open spec fn ascii_lower(c: char) -> char {
    if 'A' <= c && c <= 'Z' {
        ((c as u32) + 32) as char
    } else {
        c
    }
}

/// Equality of two texts that ignores the case of ASCII letters.
pub open spec fn same_ignoring_ascii_case(a: Seq<char>, b: Seq<char>) -> bool {
    a.len() == b.len() && forall|i: int| 0 <= i < a.len() ==> ascii_lower(#[trigger] a[i]) == ascii_lower(b[i])
}

/// Whether a file name has one of the given extensions, ignoring the case of
/// ASCII letters.
pub open spec fn is_audio(name: Seq<char>, extensions: Seq<Seq<char>>) -> bool {
    match extension_of(name) {
        Some(e) => exists|j: int| 0 <= j < extensions.len() && same_ignoring_ascii_case(e, #[trigger] extensions[j]),
        None => false,
    }
}

fn lower_char(c: char) -> (l: char)
    ensures
        l == ascii_lower(c),
{
    if 'A' <= c && c <= 'Z' {
        let code: u32 = c as u32;
        let b: u8 = code as u8 + 32;
        b as char
    } else {
        c
    }
}

proof fn lemma_last_dot_range(name: Seq<char>)
    ensures
        last_dot(name) matches Some(i) ==> 0 <= i < name.len() && name[i] == '.',
    decreases name.len(),
{
    if name.len() > 0 && name.last() != '.' {
        lemma_last_dot_range(name.drop_last());
    }
}

fn find_last_dot(name: &str) -> (r: Option<usize>)
    ensures
        match r {
            Some(i) => last_dot(name@) == Some(i as int) && i < name@.len(),
            None => last_dot(name@) is None,
        },
        name@.len() <= usize::MAX,
{
    let n = name.unicode_len();
    let mut i = n;
    assert(name@.take(n as int) =~= name@);
    while i > 0
        invariant
            n == name@.len(),
            0 <= i <= n,
            last_dot(name@) == last_dot(name@.take(i as int)),
        decreases i,
    {
        assert(name@.take(i as int).drop_last() =~= name@.take(i - 1));
        if name.get_char(i - 1) == '.' {
            return Some(i - 1);
        }
        i -= 1;
    }
    assert(name@.take(0) =~= Seq::<char>::empty());
    None
}

fn same_ignoring_case(a: &str, a_from: usize, b: &str) -> (r: bool)
    requires
        a_from <= a@.len(),
    ensures
        r == same_ignoring_ascii_case(a@.skip(a_from as int), b@),
{
    let n = a.unicode_len();
    let m = b.unicode_len();
    if n - a_from != m {
        return false;
    }
    let mut i: usize = 0;
    while i < m
        invariant
            n == a@.len(),
            m == b@.len(),
            a_from <= n,
            n - a_from == m,
            0 <= i <= m,
            forall|q: int| 0 <= q < i ==> ascii_lower(#[trigger] a@.skip(a_from as int)[q]) == ascii_lower(b@[q]),
        decreases m - i,
    {
        if lower_char(a.get_char(a_from + i)) != lower_char(b.get_char(i)) {
            assert(a@.skip(a_from as int)[i as int] == a@[a_from + i]);
            return false;
        }
        i += 1;
    }
    true
}

/// Whether a file name has one of the extensions, ignoring the case of ASCII
/// letters.
pub fn audio(name: &str, extensions: &Vec<String>) -> (r: bool)
    ensures
        r == is_audio(name@, strings_view(extensions@)),
{
    let ghost exts = strings_view(extensions@);
    let dot = match find_last_dot(name) {
        Some(i) => i,
        None => return false,
    };
    proof {
        lemma_last_dot_range(name@);
    }
    if dot == 0 {
        return false;
    }
    let mut j: usize = 0;
    while j < extensions.len()
        invariant
            0 <= j <= extensions@.len(),
            exts == strings_view(extensions@),
            last_dot(name@) == Some(dot as int),
            dot >= 1,
            dot < name@.len(),
            name@.len() <= usize::MAX,
            forall|q: int| 0 <= q < j ==> !same_ignoring_ascii_case(name@.skip(dot + 1), #[trigger] exts[q]),
        decreases extensions@.len() - j,
    {
        if same_ignoring_case(name, dot + 1, extensions[j].as_str()) {
            assert(same_ignoring_ascii_case(name@.skip(dot + 1), exts[j as int]));
            return true;
        }
        j += 1;
    }
    false
}

/// What a folder lists when a walk of its directory found `paths`: a track of
/// unknown length for each, or `Error::Empty` where there is none.
pub open spec fn listing_of_paths(folder: Seq<char>, paths: Seq<Seq<char>>) -> Result<Seq<TrackView>, ErrorView> {
    if paths.len() == 0 {
        Err(ErrorView::Empty(folder))
    } else {
        Ok(paths.map_values(|p: Seq<char>| TrackView { path: p, len: None, segments: Seq::empty() }))
    }
}

/// The tracks of a folder whose walk found `paths`, in order.
pub fn folder_listing(folder: &Folder, paths: Vec<String>) -> (r: Result<Vec<Track>, Error>)
    ensures
        match r {
            Ok(tracks) => listing_of_paths(folder.path@, strings_view(paths@)) == Ok::<
                Seq<TrackView>,
                ErrorView,
            >(tracks_view(tracks@)),
            Err(e) => listing_of_paths(folder.path@, strings_view(paths@)) == Err::<Seq<TrackView>, ErrorView>(
                e@,
            ),
        },
{
    if paths.len() == 0 {
        return Err(Error::Empty { path: folder.path.clone() });
    }
    let ghost ps = strings_view(paths@);
    let mut tracks: Vec<Track> = Vec::new();
    let mut i: usize = 0;
    while i < paths.len()
        invariant
            0 <= i <= paths@.len(),
            ps == strings_view(paths@),
            tracks@.len() == i,
            forall|q: int|
                0 <= q < i ==> #[trigger] tracks@[q]@ == (TrackView { path: ps[q], len: None, segments: Seq::empty() }),
        decreases paths@.len() - i,
    {
        let segments: Vec<Segment> = Vec::new();
        proof {
            assert(crate::source::segments_view(segments@) =~= Seq::empty());
        }
        let t = Track { path: paths[i].clone(), len: None, segments };
        tracks.push(t);
        i += 1;
    }
    proof {
        assert(tracks_view(tracks@) =~= ps.map_values(
            |p: Seq<char>| TrackView { path: p, len: None, segments: Seq::empty() },
        ));
    }
    Ok(tracks)
}

/// The text in lower case, as `str::to_lowercase` gives it.
pub uninterp spec fn lowercase_of(s: Seq<char>) -> Seq<char>;

/// Calls `str::to_lowercase`; the contract claims the result is
/// `lowercase_of` of the text.
#[verifier::external_body]
pub(crate) fn lowercase(s: &str) -> (l: String)
    ensures
        l@ == lowercase_of(s@),
{
    s.to_lowercase()
}

/// The extensions, in lower case, that a scan of a directory picks up.
pub open spec fn scanned_extension(lower: Seq<char>) -> bool {
    lower == "mp3"@ || lower == "mp4"@ || lower == "m4a"@ || lower == "flac"@ || lower == "ogg"@ || lower
        == "wav"@
}

/// Whether a scan of a directory picks up a file with this extension.
pub fn is_scanned(extension: &str) -> (r: bool)
    ensures
        r == scanned_extension(lowercase_of(extension@)),
{
    let lower = lowercase(extension);
    lower == String::from_str("mp3") || lower == String::from_str("mp4") || lower == String::from_str("m4a")
        || lower == String::from_str("flac") || lower == String::from_str("ogg") || lower == String::from_str(
        "wav",
    )
}

/// A scan picks up exactly six extensions, in lower case: mp3, mp4, m4a,
/// flac, ogg and wav.
pub proof fn law_scanned_extensions(lower: Seq<char>)
    ensures
        scanned_extension("mp3"@),
        scanned_extension("mp4"@),
        scanned_extension("m4a"@),
        scanned_extension("flac"@),
        scanned_extension("ogg"@),
        scanned_extension("wav"@),
        scanned_extension(lower) ==> seq!["mp3"@, "mp4"@, "m4a"@, "flac"@, "ogg"@, "wav"@].contains(lower),
{
    let six = seq!["mp3"@, "mp4"@, "m4a"@, "flac"@, "ogg"@, "wav"@];
    if scanned_extension(lower) {
        if lower == "mp3"@ {
            assert(six[0] == lower);
        } else if lower == "mp4"@ {
            assert(six[1] == lower);
        } else if lower == "m4a"@ {
            assert(six[2] == lower);
        } else if lower == "flac"@ {
            assert(six[3] == lower);
        } else if lower == "ogg"@ {
            assert(six[4] == lower);
        } else {
            assert(six[5] == lower);
        }
    }
}

} // verus!
