use vstd::prelude::*;

use crate::queue::Queue;
use crate::time::Duration;

verus! {

/// Whether an engine is playing.
#[derive(Clone, Copy, Debug, PartialEq, Eq, Structural)]
pub enum State {
    Stopped,
    Playing,
    Paused,
}

/// Plays one file at a time. An engine reports its state, the file it was
/// last asked to load and the position it was last asked to seek to; the methods below
/// say how each request changes what it reports. No engine is verified
/// here: an implementation in ordinary Rust gives the three reports as
/// methods, and is trusted to keep the contracts of the others.
pub trait Engine {
    /// The state the engine reports.
    spec fn reported_state(&self) -> State;

    /// The path of the file the engine was last asked to load, if any.
    spec fn requested_path(&self) -> Option<String>;

    /// The position the engine was last asked to seek to, if any.
    spec fn requested_position(&self) -> Option<Duration>;

    /// Opens the file at `path` and starts playing it; whether or not that
    /// succeeds, `path` is the file last asked for.
    fn load(&mut self, path: &str) -> (r: Result<(), String>)
        ensures
            r is Ok ==> final(self).reported_state() == State::Playing,
            final(self).requested_path() matches Some(p) && p@ == path@,
    ;

    fn play(&mut self)
        ensures
            final(self).reported_state() == State::Playing,
    ;

    fn pause(&mut self)
        ensures
            final(self).reported_state() == State::Paused,
    ;

    fn stop(&mut self)
        ensures
            final(self).reported_state() == State::Stopped,
    ;

    /// Moves within the open file; whether it plays stays as it was.
    fn seek(&mut self, position: Duration)
        ensures
            final(self).reported_state() == old(self).reported_state(),
            final(self).requested_position() == Some(position),
    ;

    /// Where playing has got to: it moves as the engine plays, so two
    /// calls may differ and nothing is claimed of it.
    fn position(&self) -> Duration;

    /// Whether all that was given has been played; it changes as the engine
    /// plays, so nothing is claimed of it.
    fn finished(&self) -> bool;

    fn state(&self) -> (s: State)
        ensures
            s == self.reported_state(),
    ;
}

/// A readable, seekable stream of bytes.
pub trait MediaSource {
    fn read(&mut self, buf: &mut [u8]) -> Result<usize, String>;

    fn seek(&mut self, pos: u64) -> Result<u64, String>;

    fn byte_len(&self) -> Option<u64>;
}

/// The state after a play/pause toggle from `state`: a playing engine pauses,
/// any other plays.
pub open spec fn toggled(state: State) -> State {
    match state {
        State::Playing => State::Paused,
        _ => State::Playing,
    }
}

/// An engine with a queue of tracks.
pub struct Player<E: Engine> {
    engine: E,
    pub queue: Queue,
}

impl<E: Engine> Player<E> {
    /// The queue of the player.
    pub closed spec fn queued(&self) -> Queue {
        self.queue
    }

    /// The engine of the player.
    pub closed spec fn engine(&self) -> E {
        self.engine
    }

    /// A player around the given engine, with an empty queue.
    pub fn new(engine: E) -> (p: Player<E>)
        ensures
            p.queued()@.tracks.len() == 0,
            p.queued()@.cursor is None,
            p.engine() == engine,
    {
        Player { engine, queue: Queue::new() }
    }

    /// Has the engine load the file at `path`, and gives what it answered;
    /// the queue stays as it is.
    pub fn open(&mut self, path: &str) -> (r: Result<(), String>)
        ensures
            final(self).queued() == old(self).queued(),
            r is Ok ==> final(self).engine().reported_state() == State::Playing,
            final(self).engine().requested_path() matches Some(p) && p@ == path@,
    {
        self.engine.load(path)
    }

    /// Has the engine play; the queue stays as it is.
    pub fn play(&mut self)
        ensures
            final(self).queued() == old(self).queued(),
            final(self).engine().reported_state() == State::Playing,
    {
        self.engine.play();
    }

    /// Has the engine pause; the queue stays as it is.
    pub fn pause(&mut self)
        ensures
            final(self).queued() == old(self).queued(),
            final(self).engine().reported_state() == State::Paused,
    {
        self.engine.pause();
    }

    /// Pauses a playing engine and plays any other; gives the state toggled
    /// to, `toggled` of the state the engine reported, which the engine then
    /// reports.
    pub fn toggle(&mut self) -> (r: Result<State, String>)
        ensures
            r == Ok::<State, String>(toggled(old(self).engine().reported_state())),
            final(self).engine().reported_state() == toggled(old(self).engine().reported_state()),
            final(self).queued() == old(self).queued(),
    {
        let before = self.engine.state();
        let r = match before {
            State::Playing => {
                self.engine.pause();
                Ok(State::Paused)
            },
            State::Paused | State::Stopped => {
                self.engine.play();
                Ok(State::Playing)
            },
        };
        assert(r == Ok::<State, String>(toggled(before)));
        r
    }

    /// Has the engine seek to `position`; the queue, and whether the engine
    /// plays, stay as they are.
    pub fn seek(&mut self, position: Duration)
        ensures
            final(self).queued() == old(self).queued(),
            final(self).engine().reported_state() == old(self).engine().reported_state(),
            final(self).engine().requested_position() == Some(position),
    {
        self.engine.seek(position);
    }

    /// The position the engine gives at the time of the call.
    pub fn position(&self) -> Duration {
        self.engine.position()
    }

    /// Whether the engine has played all it was given, at the time of the
    /// call.
    pub fn finished(&self) -> bool {
        self.engine.finished()
    }

    /// The state the engine reports.
    pub fn state(&self) -> (s: State)
        ensures
            s == self.engine().reported_state(),
    {
        self.engine.state()
    }
}

} // verus!
