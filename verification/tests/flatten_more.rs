use cahill::error::Error;
use cahill::source::{Clip, Folder, List, Segment, Source, Track};
use cahill::time::Duration;
use cahill::timeline::{flatten, flatten_listed, listings, Listing, Resolver, Timeline};

struct Unit;

impl Resolver for Unit {
    fn list(&self, _folder: &Folder) -> Result<Vec<Track>, Error> {
        Ok(Vec::new())
    }
}

struct Fixed;

impl Resolver for Fixed {
    fn list(&self, folder: &Folder) -> Result<Vec<Track>, Error> {
        if folder.path == "missing" {
            return Err(Error::Missing { path: folder.path.clone() });
        }
        Ok(vec![
            Track { path: format!("{}/1", folder.path), len: Some(s(3)), segments: Vec::new() },
            Track { path: format!("{}/2", folder.path), len: Some(s(4)), segments: Vec::new() },
        ])
    }
}

fn s(secs: u64) -> Duration {
    Duration::from_secs(secs)
}

fn track(name: &str, len: u64) -> Source {
    Source::Track(Track { path: name.to_string(), len: Some(s(len)), segments: Vec::new() })
}

fn folder(name: &str) -> Source {
    Source::Folder(Folder { path: name.to_string(), recursive: true, extensions: vec!["mp3".to_string()] })
}

fn names(timeline: &Timeline) -> Vec<String> {
    timeline
        .events
        .iter()
        .map(|event| {
            let end = event.play.end.map(|d| format!("{}s", d.as_secs())).unwrap_or_else(|| "end".to_string());
            format!("{}[{}s..{}]", event.play.path, event.play.start.as_secs(), end)
        })
        .collect()
}

#[test]
fn folder_tracks_follow_in_order() {
    let src = Source::List(List { children: vec![track("a", 1), folder("f"), track("b", 2)] });
    let timeline = flatten(&src, &Fixed).unwrap();
    assert_eq!(names(&timeline), vec!["a[0s..1s]", "f/1[0s..3s]", "f/2[0s..4s]", "b[0s..2s]"]);
    assert_eq!(timeline.total, Some(s(10)));
}

#[test]
fn empty_folder_plays_nothing() {
    let timeline = flatten(&folder("f"), &Unit).unwrap();
    assert!(timeline.events.is_empty());
    assert_eq!(timeline.total, Some(s(0)));
}

#[test]
fn resolver_error_is_returned() {
    let src = Source::List(List { children: vec![track("a", 1), folder("missing")] });
    match flatten(&src, &Fixed) {
        Err(Error::Missing { path }) => assert_eq!(path, "missing"),
        other => panic!("unexpected {:?}", other),
    }
}

#[test]
fn listings_stop_at_first_error() {
    let src = Source::List(List { children: vec![folder("missing"), folder("f")] });
    let answers = listings(&src, &Fixed);
    assert_eq!(answers.len(), 1);
    assert!(answers[0].is_err());
}

#[test]
fn flatten_listed_uses_answers_in_order() {
    let src = Source::List(List { children: vec![folder("x"), folder("y")] });
    let answers: Vec<Listing> = vec![
        Ok(vec![Track { path: "one".to_string(), len: Some(s(2)), segments: Vec::new() }]),
        Ok(vec![Track { path: "two".to_string(), len: None, segments: Vec::new() }]),
    ];
    let timeline = flatten_listed(&src, &answers).unwrap();
    assert_eq!(names(&timeline), vec!["one[0s..2s]", "two[0s..end]"]);
    assert_eq!(timeline.total, None);
}

#[test]
fn folder_without_answer_lists_nothing() {
    let answers: Vec<Listing> = Vec::new();
    let timeline = flatten_listed(&folder("x"), &answers).unwrap();
    assert!(timeline.events.is_empty());
}

#[test]
fn reversed_clip_is_an_error() {
    let clip = Source::Clip(Clip { inner: Box::new(track("a", 10)), start: s(5), end: Some(s(3)) });
    match flatten(&clip, &Unit) {
        Err(Error::Reversed { start, end }) => {
            assert_eq!(start, s(5));
            assert_eq!(end, s(3));
        }
        other => panic!("unexpected {:?}", other),
    }
}

#[test]
fn clip_of_unknown_length_is_an_error() {
    let open = Source::Track(Track { path: "a".to_string(), len: None, segments: Vec::new() });
    let clip = Source::Clip(Clip { inner: Box::new(open), start: s(1), end: Some(s(3)) });
    match flatten(&clip, &Unit) {
        Err(Error::Clip { start, end }) => {
            assert_eq!(start, s(1));
            assert_eq!(end, Some(s(3)));
        }
        other => panic!("unexpected {:?}", other),
    }
}

#[test]
fn open_segment_ends_the_track() {
    let src = Source::Track(Track {
        path: "a".to_string(),
        len: None,
        segments: vec![
            Segment { start: s(1), end: Some(s(2)) },
            Segment { start: s(5), end: None },
            Segment { start: s(9), end: Some(s(10)) },
        ],
    });
    let timeline = flatten(&src, &Unit).unwrap();
    assert_eq!(names(&timeline), vec!["a[1s..2s]", "a[5s..end]"]);
    assert_eq!(timeline.total, None);
}

#[test]
fn backwards_segment_is_out_of_range() {
    let src = Source::segment("a", s(5), Some(s(2)));
    assert!(matches!(flatten(&src, &Unit), Err(Error::Other(_))));
    let answers: Vec<Listing> = Vec::new();
    assert!(matches!(flatten_listed(&src, &answers), Err(Error::Other(_))));
}

#[test]
fn clip_without_end_runs_to_the_end() {
    let src = Source::List(List { children: vec![track("a", 10), track("b", 10)] });
    let clip = Source::Clip(Clip { inner: Box::new(src), start: s(12), end: None });
    let timeline = flatten(&clip, &Unit).unwrap();
    assert_eq!(names(&timeline), vec!["b[2s..10s]"]);
    assert_eq!(timeline.total, Some(s(8)));
}

#[test]
fn clip_past_the_end_is_empty() {
    let clip = Source::Clip(Clip { inner: Box::new(track("a", 10)), start: s(20), end: Some(s(30)) });
    let timeline = flatten(&clip, &Unit).unwrap();
    assert!(timeline.events.is_empty());
    assert_eq!(timeline.total, Some(s(0)));
}

#[test]
fn clip_length_is_the_window_cut_to_the_timeline() {
    let src = Source::List(List { children: vec![track("a", 10), track("b", 10)] });
    let clip = Source::Clip(Clip { inner: Box::new(src), start: s(8), end: Some(s(14)) });
    let timeline = flatten(&clip, &Unit).unwrap();
    assert_eq!(timeline.total, Some(s(6)));
    let src = Source::List(List { children: vec![track("a", 10), track("b", 10)] });
    let clip = Source::Clip(Clip { inner: Box::new(src), start: s(15), end: Some(s(40)) });
    assert_eq!(flatten(&clip, &Unit).unwrap().total, Some(s(5)));
}

#[test]
fn total_is_sum_of_play_lengths() {
    let src = Source::List(List {
        children: vec![track("a", 3), Source::segment("b", s(10), Some(s(14))), track("c", 5)],
    });
    let timeline = flatten(&src, &Unit).unwrap();
    let sum: u64 = timeline
        .events
        .iter()
        .map(|e| e.play.end.unwrap().as_secs() - e.play.start.as_secs())
        .sum();
    assert_eq!(timeline.total, Some(s(sum)));
    assert_eq!(sum, 12);
}

#[test]
fn nested_clip_windows_compose() {
    let src = Source::List(List { children: vec![track("a", 10), track("b", 10)] });
    let inner = Source::Clip(Clip { inner: Box::new(src), start: s(5), end: Some(s(15)) });
    let outer = Source::Clip(Clip { inner: Box::new(inner), start: s(2), end: Some(s(7)) });
    let timeline = flatten(&outer, &Unit).unwrap();
    assert_eq!(names(&timeline), vec!["a[7s..10s]", "b[0s..2s]"]);
    assert_eq!(timeline.total, Some(s(5)));
}

#[test]
fn track_and_segment_constructors() {
    let timeline = flatten(&Source::track("x"), &Unit).unwrap();
    assert_eq!(names(&timeline), vec!["x[0s..end]"]);
    let timeline = flatten(&Source::segment("x", s(4), Some(s(6))), &Unit).unwrap();
    assert_eq!(names(&timeline), vec!["x[4s..6s]"]);
    assert_eq!(timeline.total, Some(s(2)));
}

#[test]
fn playable_len() {
    let timeline = flatten(&Source::segment("x", s(4), Some(s(6))), &Unit).unwrap();
    assert_eq!(timeline.events[0].play.len(), Some(s(2)));
    let timeline = flatten(&Source::track("x"), &Unit).unwrap();
    assert_eq!(timeline.events[0].play.len(), None);
}

#[test]
fn nested_list_splices_into_its_parent() {
    let nested = Source::List(List {
        children: vec![
            track("a", 1),
            Source::List(List { children: vec![folder("f"), track("b", 2)] }),
            track("c", 5),
        ],
    });
    let flat = Source::List(List { children: vec![track("a", 1), folder("f"), track("b", 2), track("c", 5)] });
    let n = flatten(&nested, &Fixed).unwrap();
    let f = flatten(&flat, &Fixed).unwrap();
    assert_eq!(names(&n), names(&f));
    assert_eq!(names(&n), vec!["a[0s..1s]", "f/1[0s..3s]", "f/2[0s..4s]", "b[0s..2s]", "c[0s..5s]"]);
    assert_eq!(n.total, f.total);
    assert_eq!(n.total, Some(s(15)));
}

#[test]
fn clip_of_clip_is_the_composed_clip() {
    let src = || Source::List(List { children: vec![track("a", 10), Source::segment("b", s(20), Some(s(30)))] });
    let inner = Source::Clip(Clip { inner: Box::new(src()), start: s(4), end: Some(s(18)) });
    let nested = Source::Clip(Clip { inner: Box::new(inner), start: s(3), end: Some(s(20)) });
    let composed = Source::Clip(Clip { inner: Box::new(src()), start: s(7), end: Some(s(18)) });
    let n = flatten(&nested, &Unit).unwrap();
    let c = flatten(&composed, &Unit).unwrap();
    assert_eq!(names(&n), names(&c));
    assert_eq!(names(&n), vec!["a[7s..10s]", "b[20s..28s]"]);
    assert_eq!(n.total, c.total);
    assert_eq!(n.total, Some(s(11)));
}

struct Counting {
    asked: std::cell::RefCell<Vec<String>>,
}

impl Resolver for Counting {
    fn list(&self, folder: &Folder) -> Result<Vec<Track>, Error> {
        self.asked.borrow_mut().push(folder.path.clone());
        Fixed.list(folder)
    }
}

#[test]
fn folders_are_asked_once_in_order() {
    let r = Counting { asked: std::cell::RefCell::new(Vec::new()) };
    let src = Source::List(List {
        children: vec![folder("x"), Source::Clip(Clip { inner: Box::new(folder("y")), start: s(0), end: None }), folder("z")],
    });
    let timeline = flatten(&src, &r).unwrap();
    assert_eq!(timeline.events.len(), 6);
    assert_eq!(*r.asked.borrow(), vec!["x".to_string(), "y".to_string(), "z".to_string()]);
}

#[test]
fn no_folder_is_asked_after_a_failure() {
    let r = Counting { asked: std::cell::RefCell::new(Vec::new()) };
    let reversed = Source::Clip(Clip { inner: Box::new(folder("x")), start: s(5), end: Some(s(2)) });
    let src = Source::List(List { children: vec![reversed, folder("y")] });
    assert!(matches!(flatten(&src, &r), Err(Error::Reversed { .. })));
    assert_eq!(*r.asked.borrow(), vec!["x".to_string()]);
    let r2 = Counting { asked: std::cell::RefCell::new(Vec::new()) };
    let src2 = Source::List(List { children: vec![folder("missing"), folder("y")] });
    assert!(matches!(flatten(&src2, &r2), Err(Error::Missing { .. })));
    assert_eq!(*r2.asked.borrow(), vec!["missing".to_string()]);
}
