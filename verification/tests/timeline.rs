use cahill::error::Error;
use cahill::source::{Clip, Folder, List, Segment, Source, Track};
use cahill::time::Duration;
use cahill::timeline::{flatten, Resolver, Timeline};

struct Unit;

impl Resolver for Unit {
    fn list(&self, _folder: &Folder) -> Result<Vec<Track>, Error> {
        Ok(Vec::new())
    }
}

fn s(secs: u64) -> Duration {
    Duration::from_secs(secs)
}

fn track(name: &str, len: u64) -> Source {
    Source::Track(Track {
        path: name.to_string(),
        len: Some(s(len)),
        segments: Vec::new(),
    })
}

fn fmt(duration: Duration) -> String {
    format!("{}s", duration.as_secs())
}

fn names(timeline: &Timeline) -> Vec<String> {
    timeline
        .events
        .iter()
        .map(|event| {
            let end = event.play.end.map(fmt).unwrap_or_else(|| "end".to_string());
            format!("{}[{}..{}]", event.play.path, fmt(event.play.start), end)
        })
        .collect()
}

#[test]
fn plain_track() {
    let timeline = flatten(&track("a", 10), &Unit).unwrap();
    assert_eq!(timeline.total, Some(s(10)));
    assert_eq!(names(&timeline), vec![r#"a[0s..10s]"#]);
}

#[test]
fn segmented_track() {
    let src = Source::Track(Track {
        path: "a".to_string(),
        len: None,
        segments: vec![
            Segment { start: s(30), end: Some(s(40)) },
            Segment { start: s(90), end: Some(s(100)) },
        ],
    });
    let timeline = flatten(&src, &Unit).unwrap();
    assert_eq!(timeline.total, Some(s(20)));
    assert_eq!(names(&timeline), vec![r#"a[30s..40s]"#, r#"a[90s..100s]"#]);
}

#[test]
fn list_order() {
    let src = Source::List(List {
        children: vec![track("a", 10), track("b", 5)],
    });
    let timeline = flatten(&src, &Unit).unwrap();
    assert_eq!(timeline.total, Some(s(15)));
    assert_eq!(names(&timeline), vec![r#"a[0s..10s]"#, r#"b[0s..5s]"#]);
}

#[test]
fn clip_over_segmented() {
    let src = Source::Track(Track {
        path: "a".to_string(),
        len: None,
        segments: vec![
            Segment { start: s(0), end: Some(s(40)) },
            Segment { start: s(90), end: Some(s(100)) },
        ],
    });
    let clip = Source::Clip(Clip {
        inner: Box::new(src),
        start: s(5),
        end: Some(s(15)),
    });
    let timeline = flatten(&clip, &Unit).unwrap();
    assert_eq!(timeline.total, Some(s(10)));
    assert_eq!(names(&timeline), vec![r#"a[5s..15s]"#]);
}

#[test]
fn clip_across_list() {
    let src = Source::List(List {
        children: vec![track("a", 10), track("b", 10)],
    });
    let clip = Source::Clip(Clip {
        inner: Box::new(src),
        start: s(8),
        end: Some(s(14)),
    });
    let timeline = flatten(&clip, &Unit).unwrap();
    assert_eq!(names(&timeline), vec![r#"a[8s..10s]"#, r#"b[0s..4s]"#]);
}

#[test]
fn open_in_list_keeps_order() {
    let open = Source::Track(Track {
        path: "a".to_string(),
        len: None,
        segments: Vec::new(),
    });
    let src = Source::List(List {
        children: vec![open, track("b", 5)],
    });
    let timeline = flatten(&src, &Unit).unwrap();
    assert_eq!(timeline.total, None);
    assert_eq!(names(&timeline), vec![r#"a[0s..end]"#, r#"b[0s..5s]"#]);
}
