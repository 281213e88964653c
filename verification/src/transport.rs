use vstd::prelude::*;

use crate::time::Duration;

verus! {

/// Whether the player plays, where it is in the open file and how long that
/// file is.
#[derive(Clone, Copy, Debug, PartialEq, Eq, Structural)]
pub struct Transport {
    pub playing: bool,
    pub position: Duration,
    pub duration: Duration,
}

/// A request to the player that changes what it plays.
#[derive(Clone, Copy, Debug, PartialEq, Eq, Structural)]
pub enum Control {
    Play,
    Pause,
    Stop,
    Seek(Duration),
}

/// What the player does to its output or decoder after a request, where it
/// has one.
#[derive(Clone, Copy, Debug, PartialEq, Eq, Structural)]
pub enum Effect {
    StartOutput,
    PauseOutput,
    StopOutput,
    SeekDecoder(Duration),
}

impl Transport {
    /// Nothing open, nothing playing.
    pub fn idle() -> (t: Transport)
        ensures
            !t.playing,
            t.position@ == 0,
            t.duration@ == 0,
    {
        Transport { playing: false, position: Duration::zero(), duration: Duration::zero() }
    }
}

/// The state after a request, and what to do to the output or decoder.
pub open spec fn controlled(t: Transport, c: Control) -> (Transport, Effect) {
    match c {
        Control::Play => (Transport { playing: true, ..t }, Effect::StartOutput),
        Control::Pause => (Transport { playing: false, ..t }, Effect::PauseOutput),
        Control::Stop => (Transport { playing: false, position: Duration { nanos: 0 }, ..t }, Effect::StopOutput),
        Control::Seek(p) => (Transport { position: p, ..t }, Effect::SeekDecoder(p)),
    }
}

/// Applies a request.
pub fn control(t: Transport, c: Control) -> (r: (Transport, Effect))
    ensures
        r == controlled(t, c),
{
    match c {
        Control::Play => (Transport { playing: true, ..t }, Effect::StartOutput),
        Control::Pause => (Transport { playing: false, ..t }, Effect::PauseOutput),
        Control::Stop => (Transport { playing: false, position: Duration::zero(), ..t }, Effect::StopOutput),
        Control::Seek(p) => (Transport { position: p, ..t }, Effect::SeekDecoder(p)),
    }
}

/// The state after a file was opened: its length, zero where the decoder does
/// not know it.
pub fn loaded(t: Transport, duration: Option<Duration>) -> (r: Transport)
    ensures
        r.playing == t.playing,
        r.position == t.position,
        r.duration@ == match duration {
            Some(d) => d@,
            None => 0,
        },
{
    Transport {
        duration: match duration {
            Some(d) => d,
            None => Duration::zero(),
        },
        ..t
    }
}

/// What one turn of the playing loop does after asking the decoder for a
/// frame: the new state, whether to hand the frame to the output, and
/// whether to stop the output.
pub struct Turn {
    pub transport: Transport,
    pub push_frame: bool,
    pub stop_output: bool,
}

/// One turn of the playing loop. `frame` is what the decoder gave where the
/// player plays and has a decoder: `Some` with the decoder's position after
/// a frame, `None` at the end of the file.
pub open spec fn turned(t: Transport, frame: Option<Option<Duration>>) -> (Transport, bool, bool) {
    match frame {
        Some(Some(p)) => (Transport { position: p, ..t }, true, false),
        Some(None) => (t, true, false),
        None => (Transport { playing: false, ..t }, false, true),
    }
}

/// One turn of the playing loop, where the player plays and has a decoder.
pub fn turn(t: Transport, frame: Option<Option<Duration>>) -> (r: Turn)
    requires
        t.playing,
    ensures
        (r.transport, r.push_frame, r.stop_output) == turned(t, frame),
{
    match frame {
        Some(Some(p)) => Turn { transport: Transport { position: p, ..t }, push_frame: true, stop_output: false },
        Some(None) => Turn { transport: t, push_frame: true, stop_output: false },
        None => Turn { transport: Transport { playing: false, ..t }, push_frame: false, stop_output: true },
    }
}

/// Pausing and then playing again resumes where the player was.
pub proof fn law_pause_then_play_resumes(t: Transport)
    requires
        t.playing,
    ensures
        controlled(controlled(t, Control::Pause).0, Control::Play).0 == t,
{
}

/// A stopped player is at the start of the file and not playing, whatever it
/// did before.
pub proof fn law_stop_rewinds(t: Transport)
    ensures
        !controlled(t, Control::Stop).0.playing,
        controlled(t, Control::Stop).0.position@ == 0,
        controlled(t, Control::Stop).0.duration == t.duration,
{
}

/// At the end of the file the player stops playing and stops its output.
pub proof fn law_end_of_file_stops(t: Transport)
    ensures
        !turned(t, None).0.playing,
        turned(t, None).2,
        !turned(t, None).1,
{
}

/// A seek moves the position to the one asked for and changes nothing
/// else, whether or not the player plays, and has the decoder seek there.
pub proof fn law_seek_moves_position(t: Transport, p: Duration)
    ensures
        controlled(t, Control::Seek(p)).0.position == p,
        controlled(t, Control::Seek(p)).0.playing == t.playing,
        controlled(t, Control::Seek(p)).0.duration == t.duration,
        controlled(t, Control::Seek(p)).1 == Effect::SeekDecoder(p),
{
}

/// Play and pause change only whether the player plays, and stop also
/// rewinds to the start; none of them touches the length of the file.
pub proof fn law_requests_keep_the_rest(t: Transport)
    ensures
        controlled(t, Control::Play).0.playing,
        controlled(t, Control::Play).0.position == t.position,
        !controlled(t, Control::Pause).0.playing,
        controlled(t, Control::Pause).0.position == t.position,
        controlled(t, Control::Play).0.duration == t.duration,
        controlled(t, Control::Pause).0.duration == t.duration,
{
}

} // verus!
