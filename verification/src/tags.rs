use vstd::prelude::*;

use crate::media::Meta;
use crate::scan::{lowercase, lowercase_of};
use crate::time::Duration;

verus! {

/// The tags the player reads from a file.
#[derive(Clone, Copy, Debug, PartialEq, Eq, Structural)]
pub enum TagKey {
    Title,
    Artist,
    Album,
    Other,
}

/// One tag of a file.
#[derive(Clone, Debug)]
pub struct Tag {
    pub key: TagKey,
    pub value: String,
}

/// The value of the last tag with the key, if any.
pub open spec fn last_value(tags: Seq<Tag>, key: TagKey) -> Option<Seq<char>>
    decreases tags.len(),
{
    if tags.len() == 0 {
        None
    } else if tags.last().key == key {
        Some(tags.last().value@)
    } else {
        last_value(tags.drop_last(), key)
    }
}

pub open spec fn opt_string(s: Option<String>) -> Option<Seq<char>> {
    match s {
        Some(s) => Some(s@),
        None => None,
    }
}

/// What is read of a file from its tags, pictures and length: the last title,
/// artist and album tags, and the first picture as the cover.
pub fn meta_from_tags(path: String, tags: &Vec<Tag>, visuals: Vec<Vec<u8>>, duration: Option<Duration>) -> (m: Meta)
    ensures
        m.path@ == path@,
        opt_string(m.title) == last_value(tags@, TagKey::Title),
        opt_string(m.artist) == last_value(tags@, TagKey::Artist),
        opt_string(m.album) == last_value(tags@, TagKey::Album),
        m.cover == if visuals@.len() > 0 {
            Some(visuals@[0])
        } else {
            None::<Vec<u8>>
        },
        m.duration == duration,
{
    let mut title: Option<String> = None;
    let mut artist: Option<String> = None;
    let mut album: Option<String> = None;
    let n = tags.len();
    let mut i: usize = 0;
    while i < n
        invariant
            n == tags@.len(),
            0 <= i <= n,
            opt_string(title) == last_value(tags@.take(i as int), TagKey::Title),
            opt_string(artist) == last_value(tags@.take(i as int), TagKey::Artist),
            opt_string(album) == last_value(tags@.take(i as int), TagKey::Album),
        decreases n - i,
    {
        assert(tags@.take(i + 1).drop_last() =~= tags@.take(i as int));
        assert(tags@.take(i + 1).last() == tags@[i as int]);
        let tag = &tags[i];
        match tag.key {
            TagKey::Title => title = Some(tag.value.clone()),
            TagKey::Artist => artist = Some(tag.value.clone()),
            TagKey::Album => album = Some(tag.value.clone()),
            TagKey::Other => {},
        }
        i += 1;
    }
    assert(tags@.take(n as int) =~= tags@);
    let mut visuals = visuals;
    let cover = if visuals.len() > 0 {
        Some(visuals.remove(0))
    } else {
        None
    };
    Meta { title, artist, album, duration, cover, path }
}

/// The value of the last tag whose name is `name` in lower case; empty where
/// there is none.
pub open spec fn last_named(tags: Seq<(String, String)>, name: Seq<char>) -> Seq<char>
    decreases tags.len(),
{
    if tags.len() == 0 {
        Seq::empty()
    } else if lowercase_of(tags.last().0@) == name {
        tags.last().1@
    } else {
        last_named(tags.drop_last(), name)
    }
}

/// The title, artist and album named by a file's tags, each the last tag of
/// that name in any case, and empty where there is none.
pub fn named_tags(tags: &Vec<(String, String)>) -> (r: (String, String, String))
    ensures
        r.0@ == last_named(tags@, "title"@),
        r.1@ == last_named(tags@, "artist"@),
        r.2@ == last_named(tags@, "album"@),
{
    proof {
        reveal_strlit("title");
        reveal_strlit("artist");
        reveal_strlit("album");
        assert("title"@ != "artist"@ && "title"@ != "album"@ && "artist"@ != "album"@) by {
            assert("title"@[0] != "artist"@[0] && "title"@[0] != "album"@[0]);
            assert("artist"@.len() != "album"@.len());
        }
    }
    let mut title = String::new();
    let mut artist = String::new();
    let mut album = String::new();
    let n = tags.len();
    let mut i: usize = 0;
    while i < n
        invariant
            n == tags@.len(),
            0 <= i <= n,
            "title"@ != "artist"@ && "title"@ != "album"@ && "artist"@ != "album"@,
            title@ == last_named(tags@.take(i as int), "title"@),
            artist@ == last_named(tags@.take(i as int), "artist"@),
            album@ == last_named(tags@.take(i as int), "album"@),
        decreases n - i,
    {
        assert(tags@.take(i + 1).drop_last() =~= tags@.take(i as int));
        assert(tags@.take(i + 1).last() == tags@[i as int]);
        let key = lowercase(tags[i].0.as_str());
        let value = &tags[i].1;
        if key == String::from_str("title") {
            title = value.clone();
        } else if key == String::from_str("artist") {
            artist = value.clone();
        } else if key == String::from_str("album") {
            album = value.clone();
        }
        i += 1;
    }
    assert(tags@.take(n as int) =~= tags@);
    (title, artist, album)
}

/// The sample rate and channel count a decoder works with: those the file
/// gives, else 44100 Hz and two channels; the count as a `u16`, cut to its
/// low 16 bits as a cast does.
pub fn stream_format(rate: Option<u32>, channels: Option<usize>) -> (r: (u32, u16))
    ensures
        r.0 == match rate {
            Some(x) => x,
            None => 44100u32,
        },
        r.1 == (match channels {
            Some(c) => c,
            None => 2usize,
        }) as u16,
{
    let rate = match rate {
        Some(x) => x,
        None => 44100,
    };
    let count: usize = match channels {
        Some(c) => c,
        None => 2,
    };
    (rate, #[verifier::truncate] (count as u16))
}

/// The picture taken as a file's cover: the first marked as its front
/// cover, none where no picture is.
pub fn front_cover(fronts: &Vec<bool>) -> (r: Option<usize>)
    ensures
        match r {
            Some(i) => i < fronts@.len() && fronts@[i as int] && forall|j: int| 0 <= j < i ==> !#[trigger] fronts@[j],
            None => forall|j: int| 0 <= j < fronts@.len() ==> !#[trigger] fronts@[j],
        },
{
    let mut i: usize = 0;
    while i < fronts.len()
        invariant
            0 <= i <= fronts@.len(),
            forall|j: int| 0 <= j < i ==> !#[trigger] fronts@[j],
        decreases fronts@.len() - i,
    {
        if fronts[i] {
            return Some(i);
        }
        i += 1;
    }
    None
}

} // verus!
