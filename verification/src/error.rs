use vstd::prelude::*;

use crate::time::{opt_view, Duration, NANOS_PER_SEC};

verus! {

/// Why a source could not be turned into a timeline.
#[allow(inconsistent_fields)]
#[derive(Debug)]
pub enum Error {
    Missing { path: String },
    NotFolder { path: String },
    Empty { path: String },
    Clip { start: Duration, end: Option<Duration> },
    Reversed { start: Duration, end: Duration },
    Other(String),
}

/// The view of an error: text as character sequences, spans in nanoseconds.
pub enum ErrorView {
    Missing(Seq<char>),
    NotFolder(Seq<char>),
    Empty(Seq<char>),
    Clip(int, Option<int>),
    Reversed(int, int),
    Other(Seq<char>),
}

impl View for Error {
    type V = ErrorView;

    open spec fn view(&self) -> ErrorView {
        match self {
            Error::Missing { path } => ErrorView::Missing(path@),
            Error::NotFolder { path } => ErrorView::NotFolder(path@),
            Error::Empty { path } => ErrorView::Empty(path@),
            Error::Clip { start, end } => ErrorView::Clip(start@, opt_view(*end)),
            Error::Reversed { start, end } => ErrorView::Reversed(start@, end@),
            Error::Other(message) => ErrorView::Other(message@),
        }
    }
}

impl Error {
    /// A copy of the error.
    pub fn duplicate(&self) -> (e: Error)
        ensures
            e@ == self@,
    {
        match self {
            Error::Missing { path } => Error::Missing { path: path.clone() },
            Error::NotFolder { path } => Error::NotFolder { path: path.clone() },
            Error::Empty { path } => Error::Empty { path: path.clone() },
            Error::Clip { start, end } => Error::Clip { start: *start, end: *end },
            Error::Reversed { start, end } => Error::Reversed { start: *start, end: *end },
            Error::Other(message) => Error::Other(message.clone()),
        }
    }
}

/// The text that `{:?}` gives for a path: quoted, with escapes.
pub uninterp spec fn path_debug_text(s: Seq<char>) -> Seq<char>;

/// The text that `{:?}` gives for a `std::time::Duration` of `secs` seconds
/// and `nanos` nanoseconds, such as "1.5s".
pub uninterp spec fn duration_text(secs: int, nanos: int) -> Seq<char>;

/// Formats the string as a `std::path::Path` with `{:?}`; the contract
/// claims the result is `path_debug_text` of it.
#[verifier::external_body]
fn path_debug(s: &str) -> (q: String)
    ensures
        q@ == path_debug_text(s@),
{
    format!("{:?}", std::path::Path::new(s))
}

/// Formats `std::time::Duration::new(secs, nanos)` with `{:?}`; the contract
/// claims the result is `duration_text` of the two numbers.
#[verifier::external_body]
fn duration_debug(secs: u64, nanos: u32) -> (t: String)
    requires
        nanos < 1_000_000_000,
    ensures
        t@ == duration_text(secs as int, nanos as int),
{
    format!("{:?}", std::time::Duration::new(secs, nanos))
}

/// The text of a span as `{:?}` shows a `std::time::Duration`.
pub open spec fn span_text(d: int) -> Seq<char> {
    duration_text(d / (NANOS_PER_SEC as int), d % (NANOS_PER_SEC as int))
}

/// The text of an optional span as `{:?}` shows it.
pub open spec fn opt_span_text(d: Option<int>) -> Seq<char> {
    match d {
        Some(d) => "Some("@ + span_text(d) + ")"@,
        None => "None"@,
    }
}

/// The message of an error.
pub open spec fn message_text(e: ErrorView) -> Seq<char> {
    match e {
        ErrorView::Missing(path) => "missing "@ + path_debug_text(path),
        ErrorView::NotFolder(path) => "not a folder "@ + path_debug_text(path),
        ErrorView::Empty(path) => "no audio under "@ + path_debug_text(path),
        ErrorView::Clip(start, end) => "clip "@ + span_text(start) + ".."@ + opt_span_text(end) + " out of range"@,
        ErrorView::Reversed(start, end) => "clip start "@ + span_text(start) + " after end "@ + span_text(end),
        ErrorView::Other(message) => message,
    }
}

fn span_debug(d: Duration) -> (t: String)
    requires
        d.fits(),
    ensures
        t@ == span_text(d@),
{
    duration_debug(d.as_secs(), d.subsec_nanos())
}

fn opt_span_debug(d: Option<Duration>) -> (t: String)
    requires
        d matches Some(v) ==> v.fits(),
    ensures
        t@ == opt_span_text(opt_view(d)),
{
    match d {
        Some(d) => {
            let mut t = String::from_str("Some(");
            t.append(span_debug(d).as_str());
            t.append(")");
            t
        },
        None => String::from_str("None"),
    }
}

impl Error {
    /// The message shown for the error.
    pub fn message(&self) -> (m: String)
        requires
            match self {
                Error::Clip { start, end } => start.fits() && (end matches Some(e) ==> e.fits()),
                Error::Reversed { start, end } => start.fits() && end.fits(),
                _ => true,
            },
        ensures
            m@ == message_text(self@),
    {
        match self {
            Error::Missing { path } => String::from_str("missing ").concat(path_debug(path.as_str()).as_str()),
            Error::NotFolder { path } => String::from_str("not a folder ").concat(path_debug(path.as_str()).as_str()),
            Error::Empty { path } => String::from_str("no audio under ").concat(path_debug(path.as_str()).as_str()),
            Error::Clip { start, end } => {
                let mut m = String::from_str("clip ");
                m.append(span_debug(*start).as_str());
                m.append("..");
                m.append(opt_span_debug(*end).as_str());
                m.append(" out of range");
                m
            },
            Error::Reversed { start, end } => {
                let mut m = String::from_str("clip start ");
                m.append(span_debug(*start).as_str());
                m.append(" after end ");
                m.append(span_debug(*end).as_str());
                m
            },
            Error::Other(message) => message.clone(),
        }
    }
}

} // verus!
