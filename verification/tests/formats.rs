use cahill::cli::{audio_extensions, path_source, play_line, total_line};
use cahill::cover::{base64_encode, cover_uri, data_uri};
use cahill::error::Error;
use cahill::media::CoverArt;
use cahill::source::Source;
use cahill::style::css;
use cahill::text::{clock, format_time};
use cahill::time::Duration;
use cahill::timeline::Playable;

#[test]
fn base64_of_known_texts() {
    assert_eq!(base64_encode(b""), "");
    assert_eq!(base64_encode(b"f"), "Zg==");
    assert_eq!(base64_encode(b"fo"), "Zm8=");
    assert_eq!(base64_encode(b"foo"), "Zm9v");
    assert_eq!(base64_encode(b"foob"), "Zm9vYg==");
    assert_eq!(base64_encode(b"fooba"), "Zm9vYmE=");
    assert_eq!(base64_encode(b"foobar"), "Zm9vYmFy");
    assert_eq!(base64_encode(&[0xfb, 0xff, 0xbf]), "+/+/");
}

#[test]
fn base64_length_is_four_per_three_bytes() {
    for n in 0..20usize {
        let data: Vec<u8> = (0..n).map(|i| (i * 37) as u8).collect();
        assert_eq!(base64_encode(&data).len(), 4 * ((n + 2) / 3));
    }
}

#[test]
fn data_uri_is_jpeg() {
    assert_eq!(data_uri(b"hi"), "data:image/jpeg;base64,aGk=");
}

#[test]
fn cover_uri_uses_media_type() {
    let cover = CoverArt { mime_type: "image/png".to_string(), data: b"foobar".to_vec() };
    assert_eq!(cover_uri(&cover), "data:image/png;base64,Zm9vYmFy");
}

#[test]
fn crate_and_hand_encoders_agree() {
    for n in 0..10usize {
        let data: Vec<u8> = (0..n).map(|i| (250 - i * 13) as u8).collect();
        let cover = CoverArt { mime_type: "x".to_string(), data: data.clone() };
        assert_eq!(cover_uri(&cover), format!("data:x;base64,{}", base64_encode(&data)));
    }
}

#[test]
fn clock_formats_minutes_and_seconds() {
    assert_eq!(clock(Duration::from_secs(0)), "0:00");
    assert_eq!(clock(Duration::from_secs(75)), "1:15");
    assert_eq!(clock(Duration::from_millis(605_900)), "10:05");
    assert_eq!(clock(Duration::from_secs(3600)), "60:00");
}

#[test]
fn format_time_pads_minutes() {
    assert_eq!(format_time(Duration::from_secs(0)), "00:00");
    assert_eq!(format_time(Duration::from_secs(75)), "01:15");
    assert_eq!(format_time(Duration::from_secs(6000)), "100:00");
}

#[test]
fn error_messages() {
    assert_eq!(Error::Missing { path: "a b".to_string() }.message(), "missing \"a b\"");
    assert_eq!(Error::NotFolder { path: "f".to_string() }.message(), "not a folder \"f\"");
    assert_eq!(Error::Empty { path: "f".to_string() }.message(), "no audio under \"f\"");
    assert_eq!(
        Error::Reversed { start: Duration::from_secs(5), end: Duration::from_millis(3500) }.message(),
        "clip start 5s after end 3.5s"
    );
    assert_eq!(
        Error::Clip { start: Duration::from_secs(1), end: Some(Duration::from_secs(3)) }.message(),
        "clip 1s..Some(3s) out of range"
    );
    assert_eq!(Error::Clip { start: Duration::from_secs(1), end: None }.message(), "clip 1s..None out of range");
    assert_eq!(Error::Other("boom".to_string()).message(), "boom");
}

#[test]
fn cli_extensions_and_sources() {
    assert_eq!(
        audio_extensions(),
        vec!["mp3", "flac", "wav", "ogg", "opus", "m4a", "aac", "aiff", "wma"]
    );
    match path_source("dir".to_string(), true) {
        Source::Folder(f) => {
            assert_eq!(f.path, "dir");
            assert!(f.recursive);
            assert_eq!(f.extensions.len(), 9);
        }
        other => panic!("unexpected {:?}", other),
    }
    match path_source("song.mp3".to_string(), false) {
        Source::Track(t) => {
            assert_eq!(t.path, "song.mp3");
            assert!(t.len.is_none());
            assert!(t.segments.is_empty());
        }
        other => panic!("unexpected {:?}", other),
    }
}

#[test]
fn cli_lines() {
    let play = Playable { path: "a.mp3".to_string(), start: Duration::from_secs(61), end: Some(Duration::from_secs(125)) };
    assert_eq!(play_line(3, &play), "3. a.mp3 [1:01..2:05]");
    let open = Playable { path: "b".to_string(), start: Duration::zero(), end: None };
    assert_eq!(play_line(0, &open), "0. b [0:00..end]");
    assert_eq!(total_line(Some(Duration::from_secs(59))), "total: 0:59");
    assert_eq!(total_line(None), "total: unknown");
}

#[test]
fn style_sheet() {
    let sheet = css();
    assert!(sheet.contains(".app {"));
    assert!(sheet.contains(".playlist li.active"));
}

#[test]
fn error_paths_show_as_paths() {
    for path in ["it's", "a\"b", "tab\there", "ünï"] {
        assert_eq!(
            Error::Empty { path: path.to_string() }.message(),
            format!("no audio under {:?}", std::path::PathBuf::from(path))
        );
    }
}
