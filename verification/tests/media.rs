use cahill::media::{Meta, Playable, Track};
use cahill::time::Duration;

#[test]
fn title_prefers_the_tag() {
    let meta = Meta {
        title: Some("Song".to_string()),
        artist: None,
        album: None,
        duration: Some(Duration::from_secs(3)),
        cover: None,
        path: "/music/file.mp3".to_string(),
    };
    assert_eq!(meta.display_title(), "Song");
    assert_eq!(meta.display_artist(), "Unknown Artist");
}

#[test]
fn title_falls_back_to_file_stem() {
    let mut meta = Meta::default();
    meta.path = "/music/some.song.flac".to_string();
    meta.artist = Some("Band".to_string());
    assert_eq!(meta.display_title(), "some.song");
    assert_eq!(meta.display_artist(), "Band");
}

#[test]
fn title_without_anything_is_unknown() {
    let meta = Meta::default();
    assert_eq!(meta.display_title(), "Unknown");
}

#[test]
fn track_exposes_meta_and_path() {
    let mut meta = Meta::default();
    meta.path = "x.ogg".to_string();
    let track = Track { meta };
    assert_eq!(track.path(), "x.ogg");
    assert_eq!(track.meta().display_title(), "x");
}
