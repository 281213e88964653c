use cahill::audio::{cut_frames, find_matching_config, ConfigRange, OutConfig};
use cahill::error::Error;
use cahill::media::{CoverArt, MediaInfo};
use cahill::playlist::remember;
use cahill::scan::{audio, folder_listing, is_scanned};
use cahill::source::Folder;
use cahill::tags::{front_cover, meta_from_tags, named_tags, stream_format, Tag, TagKey};
use cahill::time::Duration;

fn exts() -> Vec<String> {
    vec!["mp3".to_string(), "flac".to_string()]
}

#[test]
fn audio_matches_extension_ignoring_case() {
    assert!(audio("song.mp3", &exts()));
    assert!(audio("SONG.MP3", &exts()));
    assert!(audio("a.b.FlAc", &exts()));
    assert!(!audio("song.ogg", &exts()));
    assert!(!audio("song", &exts()));
    assert!(!audio(".mp3", &exts()));
    assert!(!audio("song.mp3.txt", &exts()));
    assert!(!audio("song.", &exts()));
}

#[test]
fn folder_listing_makes_tracks() {
    let folder = Folder { path: "d".to_string(), recursive: true, extensions: exts() };
    let tracks = folder_listing(&folder, vec!["d/a.mp3".to_string(), "d/b.mp3".to_string()]).unwrap();
    assert_eq!(tracks.len(), 2);
    assert_eq!(tracks[1].path, "d/b.mp3");
    assert!(tracks[0].len.is_none());
    match folder_listing(&folder, Vec::new()) {
        Err(Error::Empty { path }) => assert_eq!(path, "d"),
        other => panic!("unexpected {:?}", other),
    }
}

#[test]
fn scan_extensions() {
    assert!(is_scanned("mp3"));
    assert!(is_scanned("FLAC"));
    assert!(is_scanned("Mp4"));
    assert!(!is_scanned("opus"));
    assert!(!is_scanned(""));
}

fn info(path: &str, title: &str) -> MediaInfo {
    MediaInfo {
        title: title.to_string(),
        artist: String::new(),
        album: String::new(),
        duration: Duration::zero(),
        path: path.to_string(),
        cover: None,
    }
}

#[test]
fn remember_moves_entry_last() {
    let mut list = vec![info("a", "A"), info("b", "B"), info("c", "C")];
    remember(&mut list, info("b", "B2"));
    let paths: Vec<&str> = list.iter().map(|m| m.path.as_str()).collect();
    assert_eq!(paths, vec!["a", "c", "b"]);
    assert_eq!(list[2].title, "B2");
    remember(&mut list, info("d", "D"));
    assert_eq!(list.len(), 4);
}

#[test]
fn matching_config_picks_first_fitting_range() {
    let ranges = vec![
        ConfigRange { channels: 1, min_rate: 8000, max_rate: 48000 },
        ConfigRange { channels: 2, min_rate: 8000, max_rate: 22050 },
        ConfigRange { channels: 2, min_rate: 8000, max_rate: 96000 },
    ];
    assert_eq!(find_matching_config(&ranges, 44100, 2), Some(OutConfig { rate: 44100, channels: 2 }));
    assert_eq!(find_matching_config(&ranges, 192000, 2), None);
    assert_eq!(find_matching_config(&ranges, 44100, 6), None);
}

#[test]
fn frame_cuts() {
    let c = cut_frames(0, 100, 150, 300, 2, 200);
    assert_eq!(c.keep, None);
    assert!(!c.done);
    assert_eq!(c.next, 100);
    let c = cut_frames(100, 100, 150, 300, 2, 200);
    assert_eq!(c.keep, Some((100, 200)));
    assert!(!c.done);
    let c = cut_frames(250, 100, 150, 300, 2, 200);
    assert_eq!(c.keep, Some((0, 100)));
    assert!(c.done);
    assert_eq!(c.next, 350);
}

#[test]
fn meta_from_tags_keeps_last_tags_and_first_picture() {
    let tags = vec![
        Tag { key: TagKey::Title, value: "one".to_string() },
        Tag { key: TagKey::Artist, value: "band".to_string() },
        Tag { key: TagKey::Title, value: "two".to_string() },
        Tag { key: TagKey::Other, value: "x".to_string() },
    ];
    let meta = meta_from_tags("p.mp3".to_string(), &tags, vec![vec![1, 2], vec![3]], Some(Duration::from_secs(9)));
    assert_eq!(meta.title.as_deref(), Some("two"));
    assert_eq!(meta.artist.as_deref(), Some("band"));
    assert_eq!(meta.album, None);
    assert_eq!(meta.cover, Some(vec![1, 2]));
    assert_eq!(meta.duration, Some(Duration::from_secs(9)));
    assert_eq!(meta.path, "p.mp3");
}

#[test]
fn named_tags_ignore_case() {
    let tags = vec![
        ("TITLE".to_string(), "T".to_string()),
        ("Artist".to_string(), "A".to_string()),
        ("comment".to_string(), "c".to_string()),
        ("title".to_string(), "T2".to_string()),
    ];
    let (title, artist, album) = named_tags(&tags);
    assert_eq!(title, "T2");
    assert_eq!(artist, "A");
    assert_eq!(album, "");
    let _ = CoverArt { mime_type: String::new(), data: Vec::new() };
}

#[test]
fn stream_format_defaults() {
    assert_eq!(stream_format(None, None), (44100, 2));
    assert_eq!(stream_format(Some(48000), Some(6)), (48000, 6));
    assert_eq!(stream_format(Some(8000), Some(65537)), (8000, 1));
}

#[test]
fn front_cover_is_the_first_marked() {
    assert_eq!(front_cover(&vec![]), None);
    assert_eq!(front_cover(&vec![false, false]), None);
    assert_eq!(front_cover(&vec![false, true, true]), Some(1));
}
