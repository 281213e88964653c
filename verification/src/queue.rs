use vstd::prelude::*;

use crate::media::Track;

verus! {

/// Tracks in the order they were added, with a cursor on the current one.
pub struct Queue {
    tracks: Vec<Track>,
    cursor: Option<usize>,
}

/// The tracks of a queue and the position of its cursor, if any.
pub struct QueueView {
    pub tracks: Seq<Track>,
    pub cursor: Option<int>,
}

impl View for Queue {
    type V = QueueView;

    closed spec fn view(&self) -> QueueView {
        QueueView {
            tracks: self.tracks@,
            cursor: match self.cursor {
                Some(i) => Some(i as int),
                None => None,
            },
        }
    }
}

/// The cursor after a track is added: the first track if there was none.
pub open spec fn cursor_after_push(cursor: Option<int>) -> Option<int> {
    match cursor {
        None => Some(0),
        Some(i) => Some(i),
    }
}

/// The cursor moved one track on: none past the last track.
pub open spec fn cursor_after_next(cursor: Option<int>, len: int) -> Option<int> {
    match cursor {
        Some(i) => if i + 1 < len { Some(i + 1) } else { None },
        None => None,
    }
}

/// The cursor moved one track back: none before the first track.
pub open spec fn cursor_after_prev(cursor: Option<int>) -> Option<int> {
    match cursor {
        Some(i) => if i >= 1 { Some(i - 1) } else { None },
        None => None,
    }
}

/// The track at the cursor, if the cursor is on one.
pub open spec fn track_at(q: QueueView) -> Option<Track> {
    match q.cursor {
        Some(i) => if 0 <= i < q.tracks.len() { Some(q.tracks[i]) } else { None },
        None => None,
    }
}

/// The cursor, where there is one, is on a track of the queue.
pub open spec fn cursor_in_range(q: QueueView) -> bool {
    q.cursor matches Some(i) ==> 0 <= i < q.tracks.len()
}

pub open spec fn opt_ref(t: Option<&Track>) -> Option<Track> {
    match t {
        Some(t) => Some(*t),
        None => None,
    }
}

impl Queue {
    pub fn new() -> (q: Queue)
        ensures
            q@.tracks == Seq::<Track>::empty(),
            q@.cursor is None,
            cursor_in_range(q@),
    {
        Queue { tracks: Vec::new(), cursor: None }
    }

    /// Adds a track at the end; the first track becomes current if no track
    /// was.
    pub fn push(&mut self, track: Track)
        ensures
            final(self)@.tracks == old(self)@.tracks.push(track),
            final(self)@.cursor == cursor_after_push(old(self)@.cursor),
            cursor_in_range(old(self)@) ==> cursor_in_range(final(self)@),
    {
        self.tracks.push(track);
        if self.cursor.is_none() {
            self.cursor = Some(0);
        }
    }

    /// The current track, if any.
    pub fn current(&self) -> (t: Option<&Track>)
        ensures
            opt_ref(t) == track_at(self@),
    {
        match self.cursor {
            Some(i) => {
                if i < self.tracks.len() {
                    Some(&self.tracks[i])
                } else {
                    None
                }
            },
            None => None,
        }
    }

    /// Moves to the following track and gives it; none past the last one.
    pub fn next(&mut self) -> (t: Option<&Track>)
        ensures
            final(self)@.tracks == old(self)@.tracks,
            final(self)@.cursor == cursor_after_next(old(self)@.cursor, old(self)@.tracks.len() as int),
            opt_ref(t) == track_at(final(self)@),
            cursor_in_range(old(self)@) ==> cursor_in_range(final(self)@),
    {
        let next = match self.cursor {
            Some(i) => if i < self.tracks.len() && i + 1 < self.tracks.len() {
                Some(i + 1)
            } else {
                None
            },
            None => None,
        };
        self.cursor = next;
        self.current()
    }

    /// Moves to the preceding track and gives it; none before the first one.
    pub fn prev(&mut self) -> (t: Option<&Track>)
        ensures
            final(self)@.tracks == old(self)@.tracks,
            final(self)@.cursor == cursor_after_prev(old(self)@.cursor),
            opt_ref(t) == track_at(final(self)@),
            cursor_in_range(old(self)@) ==> cursor_in_range(final(self)@),
    {
        let prev = match self.cursor {
            Some(i) => if i >= 1 {
                Some(i - 1)
            } else {
                None
            },
            None => None,
        };
        self.cursor = prev;
        self.current()
    }

    /// Makes the track at `index` the current one.
    pub fn set_cursor(&mut self, index: usize)
        ensures
            final(self)@.tracks == old(self)@.tracks,
            final(self)@.cursor == Some(index as int),
            index < old(self)@.tracks.len() ==> cursor_in_range(final(self)@),
    {
        self.cursor = Some(index);
    }

    pub fn is_empty(&self) -> (b: bool)
        ensures
            b == (self@.tracks.len() == 0),
    {
        self.tracks.len() == 0
    }

    pub fn len(&self) -> (n: usize)
        ensures
            n == self@.tracks.len(),
    {
        self.tracks.len()
    }
}

/// Moving on and then back returns to the same track, wherever there is a
/// following one.
pub proof fn law_next_then_prev(cursor: Option<int>, len: int)
    requires
        cursor matches Some(i) && 0 <= i && i + 1 < len,
    ensures
        cursor_after_prev(cursor_after_next(cursor, len)) == cursor,
{
}

/// Moving back and then on returns to the same track, wherever there is a
/// preceding one.
pub proof fn law_prev_then_next(cursor: Option<int>, len: int)
    requires
        cursor matches Some(i) && 1 <= i && i < len,
    ensures
        cursor_after_next(cursor_after_prev(cursor), len) == cursor,
{
}

/// Once the cursor has left the queue, moving on or back keeps it off until
/// a track is added.
pub proof fn law_off_the_queue_stays_off(len: int)
    ensures
        cursor_after_next(None, len) is None,
        cursor_after_prev(None) is None,
        cursor_after_push(None) == Some(0int),
{
}

/// Moving on goes to the track just after the current one and to no other:
/// the cursor lands on track `j` only from track `j - 1` of a queue with more
/// than `j` tracks, always does so from a track with one after it, and from
/// the last track it leaves the queue, so that no track is current.
pub proof fn law_next_steps_one(q: QueueView)
    requires
        cursor_in_range(q),
    ensures
        cursor_after_next(q.cursor, q.tracks.len() as int) matches Some(j) ==> q.cursor == Some(j - 1) && 0 < j
            < q.tracks.len(),
        forall|i: int|
            q.cursor == Some(i) && i + 1 < q.tracks.len() ==> #[trigger] cursor_after_next(Some(i), q.tracks.len() as int)
                == Some(i + 1),
        q.cursor == Some(q.tracks.len() - 1) ==> cursor_after_next(q.cursor, q.tracks.len() as int) is None
            && track_at(QueueView { tracks: q.tracks, cursor: cursor_after_next(q.cursor, q.tracks.len() as int) })
            is None,
{
}

/// Moving back goes to the track just before the current one and to no
/// other, and from the first track it leaves the queue.
pub proof fn law_prev_steps_one(q: QueueView)
    requires
        cursor_in_range(q),
    ensures
        cursor_after_prev(q.cursor) matches Some(j) ==> q.cursor == Some(j + 1) && 0 <= j,
        forall|i: int| q.cursor == Some(i) && i >= 1 ==> #[trigger] cursor_after_prev(Some(i)) == Some(i - 1),
        q.cursor == Some(0int) ==> cursor_after_prev(q.cursor) is None,
{
}

} // verus!
