use cahill::playback::{Engine, Player, State};
use cahill::time::Duration;
use cahill::transport::{control, loaded, turn, Control, Effect, Transport};

struct Fake {
    state: State,
    loaded: Option<String>,
    at: Duration,
    sought: Option<Duration>,
}

impl Engine for Fake {
    fn reported_state(&self) -> State {
        self.state
    }
    fn requested_path(&self) -> Option<String> {
        self.loaded.clone()
    }
    fn requested_position(&self) -> Option<Duration> {
        self.sought
    }
    fn load(&mut self, path: &str) -> Result<(), String> {
        self.loaded = Some(path.to_string());
        self.state = State::Playing;
        Ok(())
    }
    fn play(&mut self) {
        self.state = State::Playing;
    }
    fn pause(&mut self) {
        self.state = State::Paused;
    }
    fn stop(&mut self) {
        self.state = State::Stopped;
    }
    fn seek(&mut self, position: Duration) {
        self.at = position;
        self.sought = Some(position);
    }
    fn position(&self) -> Duration {
        self.at
    }
    fn finished(&self) -> bool {
        false
    }
    fn state(&self) -> State {
        self.state
    }
}

#[test]
fn toggle_pauses_and_plays() {
    let mut player = Player::new(Fake { state: State::Stopped, loaded: None, at: Duration::zero(), sought: None });
    assert_eq!(player.toggle(), Ok(State::Playing));
    assert_eq!(player.state(), State::Playing);
    assert_eq!(player.toggle(), Ok(State::Paused));
    assert_eq!(player.state(), State::Paused);
    assert_eq!(player.toggle(), Ok(State::Playing));
}

#[test]
fn player_forwards_to_engine() {
    let mut player = Player::new(Fake { state: State::Stopped, loaded: None, at: Duration::zero(), sought: None });
    assert!(player.open("a.mp3").is_ok());
    assert_eq!(player.state(), State::Playing);
    player.pause();
    assert_eq!(player.state(), State::Paused);
    player.play();
    player.seek(Duration::from_secs(4));
    assert_eq!(player.position(), Duration::from_secs(4));
    assert!(!player.finished());
    assert!(player.queue.is_empty());
}

#[test]
fn transport_requests() {
    let t = Transport::idle();
    let (t, e) = control(t, Control::Play);
    assert!(t.playing);
    assert_eq!(e, Effect::StartOutput);
    let (t, e) = control(t, Control::Seek(Duration::from_secs(3)));
    assert_eq!(t.position, Duration::from_secs(3));
    assert_eq!(e, Effect::SeekDecoder(Duration::from_secs(3)));
    let (paused, e) = control(t, Control::Pause);
    assert!(!paused.playing);
    assert_eq!(e, Effect::PauseOutput);
    let (resumed, _) = control(paused, Control::Play);
    assert_eq!(resumed, t);
    let (stopped, e) = control(t, Control::Stop);
    assert!(!stopped.playing);
    assert_eq!(stopped.position, Duration::zero());
    assert_eq!(e, Effect::StopOutput);
}

#[test]
fn transport_turns() {
    let t = loaded(Transport::idle(), Some(Duration::from_secs(100)));
    assert_eq!(t.duration, Duration::from_secs(100));
    assert_eq!(loaded(t, None).duration, Duration::zero());
    let (t, _) = control(t, Control::Play);
    let r = turn(t, Some(Some(Duration::from_secs(1))));
    assert!(r.push_frame && !r.stop_output);
    assert_eq!(r.transport.position, Duration::from_secs(1));
    let r2 = turn(r.transport, Some(None));
    assert_eq!(r2.transport.position, Duration::from_secs(1));
    let end = turn(r2.transport, None);
    assert!(!end.transport.playing && end.stop_output && !end.push_frame);
}
