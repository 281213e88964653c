use cahill::error::Error;
use cahill::resolve::{probe_paths, resolve};
use cahill::source::{Clip, Folder, List, Source, Track};
use cahill::time::Duration;
use cahill::timeline::Listing;

fn s(secs: u64) -> Duration {
    Duration::from_secs(secs)
}

fn folder(name: &str) -> Source {
    Source::Folder(Folder { path: name.to_string(), recursive: false, extensions: Vec::new() })
}

fn open(name: &str) -> Source {
    Source::track(name)
}

#[test]
fn probe_paths_follow_visiting_order() {
    let src = Source::List(List {
        children: vec![
            open("a"),
            Source::Track(Track { path: "b".to_string(), len: Some(s(2)), segments: Vec::new() }),
            folder("f"),
            open("c"),
        ],
    });
    let answers: Vec<Listing> = vec![Ok(vec![
        Track { path: "f/1".to_string(), len: None, segments: Vec::new() },
        Track { path: "f/2".to_string(), len: Some(s(1)), segments: Vec::new() },
    ])];
    assert_eq!(probe_paths(&src, &answers), vec!["a", "f/1", "c"]);
}

#[test]
fn resolve_places_plays_end_to_end() {
    let src = Source::List(List { children: vec![open("a"), folder("f"), open("c")] });
    let answers: Vec<Listing> = vec![Ok(vec![Track { path: "f/1".to_string(), len: None, segments: Vec::new() }])];
    let lengths = vec![Some(s(3)), Some(s(4)), Some(s(5))];
    let resolved = resolve(&src, &answers, &lengths).unwrap();
    let at: Vec<u64> = resolved.events.iter().map(|e| e.at.as_secs()).collect();
    let paths: Vec<String> = resolved.events.iter().map(|e| e.play.path.clone()).collect();
    assert_eq!(at, vec![0, 3, 7]);
    assert_eq!(paths, vec!["a", "f/1", "c"]);
    assert_eq!(resolved.total, s(12));
}

#[test]
fn resolve_without_length_is_an_error() {
    let src = Source::List(List { children: vec![open("a"), open("b")] });
    let lengths = vec![Some(s(3))];
    match resolve(&src, &Vec::new(), &lengths) {
        Err(Error::Other(message)) => assert_eq!(message, "unknown length"),
        other => panic!("unexpected {:?}", other),
    }
}

#[test]
fn resolve_passes_on_folder_errors() {
    let src = Source::List(List { children: vec![open("a"), folder("f")] });
    let answers: Vec<Listing> = vec![Err(Error::Empty { path: "f".to_string() })];
    match resolve(&src, &answers, &vec![Some(s(1))]) {
        Err(Error::Empty { path }) => assert_eq!(path, "f"),
        other => panic!("unexpected {:?}", other),
    }
}

#[test]
fn resolve_clips_after_probing() {
    let clip = Source::Clip(Clip { inner: Box::new(open("a")), start: s(2), end: Some(s(5)) });
    let resolved = resolve(&clip, &Vec::new(), &vec![Some(s(10))]).unwrap();
    assert_eq!(resolved.events.len(), 1);
    assert_eq!(resolved.events[0].play.start, s(2));
    assert_eq!(resolved.events[0].play.end, Some(s(5)));
    assert_eq!(resolved.total, s(3));
}

#[test]
fn known_lengths_are_kept() {
    let src = Source::Track(Track { path: "a".to_string(), len: Some(s(7)), segments: Vec::new() });
    assert!(probe_paths(&src, &Vec::new()).is_empty());
    let resolved = resolve(&src, &Vec::new(), &Vec::new()).unwrap();
    assert_eq!(resolved.total, s(7));
}
