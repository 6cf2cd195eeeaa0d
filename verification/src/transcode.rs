use vstd::prelude::*;

use vstd::arithmetic::div_mod::{
    lemma_div_is_ordered, lemma_div_multiples_vanish_fancy, lemma_div_pos_is_pos,
};

use crate::time::{round_div, spec_to_ticks, to_ticks, Time, TimeBase};

verus! {

/// A transcode window in one stream's native ticks, with edge ownership
/// flags: the pre-roll owns its start but not its end (the first keyframe
/// belongs to the copy), the post-roll owns its end but not its start.
#[derive(Clone, Copy, Debug, PartialEq, Eq, Structural)]
pub struct FrameWindow {
    pub lo: i64,
    pub hi: i64,
    pub include_lo: bool,
    pub include_hi: bool,
}

/// Converts a phase's window edges to a stream's native ticks, once per
/// engine run.
pub fn window_to_ticks(
    from: &Time,
    to: &Time,
    include_from: bool,
    include_to: bool,
    tb: &TimeBase,
) -> (w: FrameWindow)
    requires
        from.wf(),
        to.wf(),
        tb.wf(),
        i64::MIN <= spec_to_ticks(*from, *tb) <= i64::MAX,
        i64::MIN <= spec_to_ticks(*to, *tb) <= i64::MAX,
    ensures
        w.lo == spec_to_ticks(*from, *tb),
        w.hi == spec_to_ticks(*to, *tb),
        w.include_lo == include_from,
        w.include_hi == include_to,
{
    FrameWindow {
        lo: to_ticks(from, tb),
        hi: to_ticks(to, tb),
        include_lo: include_from,
        include_hi: include_to,
    }
}

/// What the transcode engine does with one decoded frame.
#[derive(Clone, Copy, Debug, PartialEq, Eq, Structural)]
pub enum FrameDecision {
    /// The frame lies before the window, or carries no timestamp: drop it
    /// and keep decoding.
    Discard,
    /// The frame lies past the window. Frames arrive in timestamp order, so
    /// the first such frame ends the engine's run.
    Stop,
    /// The frame belongs to the window: keep it, rescale `pts` (given here in
    /// the input time base) to the output time base, and re-encode.
    Keep { pts: i64 },
}

/// The timestamp falls before the window's first owned tick.
pub open spec fn spec_before_window(ts: i64, w: FrameWindow) -> bool {
    ts < w.lo || (ts == w.lo && !w.include_lo)
}

/// The timestamp falls past the window's last owned tick.
pub open spec fn spec_past_window(ts: i64, w: FrameWindow) -> bool {
    ts > w.hi || (ts == w.hi && !w.include_hi)
}

/// The fate of a video frame: video frames are instantaneous, so the frame's
/// own presentation time decides.
pub open spec fn spec_video_decision(pts: Option<i64>, w: FrameWindow) -> FrameDecision {
    match pts {
        None => FrameDecision::Discard,
        Some(p) => if spec_before_window(p, w) {
            FrameDecision::Discard
        } else if spec_past_window(p, w) {
            FrameDecision::Stop
        } else {
            FrameDecision::Keep { pts: p }
        },
    }
}

pub fn classify_video_frame(pts: Option<i64>, w: &FrameWindow) -> (d: FrameDecision)
    ensures
        d == spec_video_decision(pts, *w),
{
    match pts {
        None => FrameDecision::Discard,
        Some(p) => {
            if p < w.lo || (p == w.lo && !w.include_lo) {
                FrameDecision::Discard
            } else if p > w.hi || (p == w.hi && !w.include_hi) {
                FrameDecision::Stop
            } else {
                FrameDecision::Keep { pts: p }
            }
        },
    }
}

/// The length of an audio frame in its stream's ticks: the frame spans
/// `samples / rate` seconds, normalized to ticks through the time base —
/// `round((samples / rate) / (tb.num / tb.den))`. A raw sample count is not
/// comparable to ticks until it is brought to this common unit.
pub open spec fn spec_audio_dur_ticks(samples: u32, rate: u32, tb: TimeBase) -> int {
    round_div(samples * tb.den, tb.num * rate)
}

pub fn audio_duration_ticks(samples: u32, rate: u32, tb: &TimeBase) -> (r: i64)
    requires
        tb.wf(),
        1 <= rate,
    ensures
        r == spec_audio_dur_ticks(samples, rate, *tb),
        0 <= r,
{
    proof {
        assert(0 <= (samples as int) * (tb.den as int) <= 0xffff_ffffint * 0x7fff_ffffint)
            by (nonlinear_arith)
            requires
                0 <= samples as int <= 0xffff_ffffint,
                1 <= tb.den as int <= 0x7fff_ffffint,
        ;
        assert(1 <= (tb.num as int) * (rate as int) <= 0x7fff_ffffint * 0xffff_ffffint)
            by (nonlinear_arith)
            requires
                1 <= rate as int <= 0xffff_ffffint,
                1 <= tb.num as int <= 0x7fff_ffffint,
        ;
    }
    let p: i128 = (samples as i128) * (tb.den as i128);
    let q: i128 = (tb.num as i128) * (rate as i128);
    proof {
        // round(p / q) <= p for non-negative p: 2p + q <= 2pq + q, and
        // (2q·p + q) / (2q) is exactly p.
        assert(2 * (p as int) + (q as int) <= (2 * (q as int)) * (p as int) + (q as int))
            by (nonlinear_arith)
            requires
                0 <= p as int,
                1 <= q as int,
        ;
        lemma_div_is_ordered(
            2 * (p as int) + (q as int),
            (2 * (q as int)) * (p as int) + (q as int),
            2 * (q as int),
        );
        lemma_div_multiples_vanish_fancy(p as int, q as int, 2 * (q as int));
        lemma_div_pos_is_pos(2 * (p as int) + (q as int), 2 * (q as int));
    }
    let r: i128 = crate::time::round_div_i128(p, q);
    r as i64
}

/// The fate of an audio frame: an audio frame spans `dur` ticks from its
/// presentation time, so a frame is before the window only when even its end
/// is; a frame starting past the window ends the run.
pub open spec fn spec_audio_decision(pts: Option<i64>, dur: int, w: FrameWindow) -> FrameDecision {
    match pts {
        None => FrameDecision::Discard,
        Some(p) => if p + dur < w.lo || (p + dur == w.lo && !w.include_lo) {
            FrameDecision::Discard
        } else if spec_past_window(p, w) {
            FrameDecision::Stop
        } else {
            FrameDecision::Keep { pts: p }
        },
    }
}

pub fn classify_audio_frame(
    pts: Option<i64>,
    samples: u32,
    rate: u32,
    w: &FrameWindow,
    tb: &TimeBase,
) -> (d: FrameDecision)
    requires
        tb.wf(),
        1 <= rate,
    ensures
        d == spec_audio_decision(pts, spec_audio_dur_ticks(samples, rate, *tb), *w),
{
    match pts {
        None => FrameDecision::Discard,
        Some(p) => {
            let dur: i64 = audio_duration_ticks(samples, rate, tb);
            let frame_end: i128 = (p as i128) + (dur as i128);
            if frame_end < (w.lo as i128) || (frame_end == (w.lo as i128) && !w.include_lo) {
                FrameDecision::Discard
            } else if p > w.hi || (p == w.hi && !w.include_hi) {
                FrameDecision::Stop
            } else {
                FrameDecision::Keep { pts: p }
            }
        },
    }
}

} // verus!
