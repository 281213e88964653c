use vstd::prelude::*;

verus! {

/// The sample rate and channel count that audio is rendered for.
#[derive(Clone, Copy, Debug, PartialEq, Eq, Structural)]
pub struct OutConfig {
    pub rate: u32,
    pub channels: u16,
}

/// One output configuration range a device offers: its channel count and the
/// least and greatest sample rate.
#[derive(Clone, Copy, Debug, PartialEq, Eq, Structural)]
pub struct ConfigRange {
    pub channels: u16,
    pub min_rate: u32,
    pub max_rate: u32,
}

/// Whether a range offers the channel count and the sample rate.
pub open spec fn offers(r: ConfigRange, rate: u32, channels: u16) -> bool {
    r.channels == channels && r.min_rate <= rate && rate <= r.max_rate
}

/// The configuration for the first range, in the device's order, that offers
/// the channel count and the sample rate; none where no range does.
pub fn find_matching_config(ranges: &Vec<ConfigRange>, sample_rate: u32, channels: u16) -> (r: Option<OutConfig>)
    ensures
        match r {
            Some(c) => c == (OutConfig { rate: sample_rate, channels }) && exists|i: int|
                0 <= i < ranges@.len() && #[trigger] offers(ranges@[i], sample_rate, channels),
            None => forall|i: int| 0 <= i < ranges@.len() ==> !#[trigger] offers(ranges@[i], sample_rate, channels),
        },
{
    let mut i: usize = 0;
    while i < ranges.len()
        invariant
            0 <= i <= ranges@.len(),
            forall|q: int| 0 <= q < i ==> !#[trigger] offers(ranges@[q], sample_rate, channels),
        decreases ranges@.len() - i,
    {
        let range = ranges[i];
        if range.channels == channels && range.min_rate <= sample_rate && range.max_rate >= sample_rate {
            assert(offers(ranges@[i as int], sample_rate, channels));
            return Some(OutConfig { rate: sample_rate, channels });
        }
        i += 1;
    }
    None
}

/// What to do with one decoded packet of `frames` frames that begins at frame
/// `begin`, when only frames from `start` up to `end` are wanted.
#[derive(Clone, Copy, Debug, PartialEq, Eq)]
pub struct FrameCut {
    /// The samples of the packet to keep, from and up to these indices.
    pub keep: Option<(usize, usize)>,
    /// Whether decoding can stop after this packet.
    pub done: bool,
    /// The frame where the next packet begins.
    pub next: usize,
}

/// The cut for one packet, the samples interleaved over `channels` channels
/// and `len` of them in the packet.
pub open spec fn frame_cut(begin: int, frames: int, start: int, end: int, channels: int, len: int) -> (
    Option<(int, int)>,
    bool,
    int,
) {
    let stop = begin + frames;
    let keep = if stop > start {
        let lo = if begin >= start { begin } else { start };
        let hi = if stop <= end { stop } else { end };
        if hi - lo > 0 {
            let from = lo - begin;
            let s1 = (from + (hi - lo)) * channels;
            Some((from * channels, if s1 <= len { s1 } else { len }))
        } else {
            None
        }
    } else {
        None
    };
    (keep, stop >= end, stop)
}

/// The part of a decoded packet that falls in the wanted frames.
pub fn cut_frames(begin: usize, frames: usize, start: usize, end: usize, channels: usize, len: usize) -> (c: FrameCut)
    requires
        begin + frames <= usize::MAX,
        (begin + frames) * channels <= usize::MAX,
        frames * channels <= len,
    ensures
        c.keep matches Some((a, b)) ==> a <= b <= len,
        ({
            let (keep, done, next) = frame_cut(
                begin as int,
                frames as int,
                start as int,
                end as int,
                channels as int,
                len as int,
            );
            &&& c.done == done
            &&& c.next == next
            &&& match c.keep {
                Some((a, b)) => keep == Some((a as int, b as int)),
                None => keep is None,
            }
        }),
{
    let stop = begin + frames;
    let mut keep = None;
    if stop > start {
        let lo = if begin >= start {
            begin
        } else {
            start
        };
        let hi = if stop <= end {
            stop
        } else {
            end
        };
        let count = if hi >= lo {
            hi - lo
        } else {
            0
        };
        if count > 0 {
            let from = lo - begin;
            assert((from + count) * channels <= (begin + frames) * channels) by (nonlinear_arith)
                requires
                    from + count <= begin + frames,
                    from + count >= 0,
            ;
            assert(from * channels <= (from + count) * channels) by (nonlinear_arith)
                requires
                    count >= 0,
                    from >= 0,
                    channels >= 0,
            ;
            assert(from * channels <= frames * channels) by (nonlinear_arith)
                requires
                    from < frames,
                    channels >= 0,
            ;
            let s0 = from * channels;
            let s1 = (from + count) * channels;
            keep = Some((s0, if s1 <= len { s1 } else { len }));
        }
    }
    FrameCut { keep, done: stop >= end, next: stop }
}

/// A packet's cut keeps exactly its frames inside the wanted ones, all their
/// samples: where the packet's frames `[begin, begin + frames)` overlap the
/// wanted `[start, end)` in `[lo, hi)`, the samples kept run from
/// `(lo - begin) * channels` to `(hi - begin) * channels`, so a packet wholly
/// inside is kept whole; where they do not overlap nothing is kept. Decoding
/// stops once a packet reaches `end`, and the next packet begins where this
/// one stops.
pub proof fn law_cut_keeps_the_overlap(begin: int, frames: int, start: int, end: int, channels: int, len: int)
    requires
        0 <= begin,
        0 <= frames,
        0 <= channels,
        frames * channels <= len,
    ensures
        ({
            let stop = begin + frames;
            let lo = if begin >= start { begin } else { start };
            let hi = if stop <= end { stop } else { end };
            let (keep, done, next) = frame_cut(begin, frames, start, end, channels, len);
            &&& keep == if hi > lo {
                Some(((lo - begin) * channels, (hi - begin) * channels))
            } else {
                None::<(int, int)>
            }
            &&& (hi > lo ==> (keep matches Some((a, b)) && b - a == (hi - lo) * channels))
            &&& (start <= begin && stop <= end && frames > 0 ==> keep == Some((0int, frames * channels)))
            &&& done == (stop >= end)
            &&& next == stop
        }),
{
    let stop = begin + frames;
    let lo = if begin >= start { begin } else { start };
    let hi = if stop <= end { stop } else { end };
    if hi > lo {
        let from = lo - begin;
        assert(from + (hi - lo) == hi - begin);
        assert((hi - begin) * channels <= frames * channels) by (nonlinear_arith)
            requires
                hi - begin <= frames,
                0 <= channels,
        ;
        assert((hi - begin) * channels - (lo - begin) * channels == (hi - lo) * channels) by (nonlinear_arith);
        assert(0 * channels == 0) by (nonlinear_arith);
    }
}

} // verus!
