use smart_cut::time::{Time, TimeBase};
use smart_cut::transcode::{
    audio_duration_ticks, classify_audio_frame, classify_video_frame, window_to_ticks,
    FrameDecision, FrameWindow,
};

fn tb(num: i32, den: i32) -> TimeBase {
    TimeBase::new(num, den).unwrap()
}

fn t(num: i64, den: i64) -> Time {
    Time::new(num, den).unwrap()
}

#[test]
fn window_edges_convert_once() {
    let w = window_to_ticks(&t(3, 1), &t(5, 1), true, false, &tb(1, 90000));
    assert_eq!(w, FrameWindow { lo: 270_000, hi: 450_000, include_lo: true, include_hi: false });
}

#[test]
fn video_frames_filtered_by_presentation_time() {
    let w = FrameWindow { lo: 100, hi: 200, include_lo: true, include_hi: true };
    assert_eq!(classify_video_frame(None, &w), FrameDecision::Discard);
    assert_eq!(classify_video_frame(Some(99), &w), FrameDecision::Discard);
    assert_eq!(classify_video_frame(Some(100), &w), FrameDecision::Keep { pts: 100 });
    assert_eq!(classify_video_frame(Some(200), &w), FrameDecision::Keep { pts: 200 });
    assert_eq!(classify_video_frame(Some(201), &w), FrameDecision::Stop);
}

#[test]
fn window_edge_ownership() {
    // The pre-roll owns its start but not its end: the keyframe at the end
    // belongs to the copy segment and must not be encoded twice.
    let pre = FrameWindow { lo: 100, hi: 200, include_lo: true, include_hi: false };
    assert_eq!(classify_video_frame(Some(200), &pre), FrameDecision::Stop);
    // The post-roll owns its end but not its start.
    let post = FrameWindow { lo: 100, hi: 200, include_lo: false, include_hi: true };
    assert_eq!(classify_video_frame(Some(100), &post), FrameDecision::Discard);
    assert_eq!(classify_video_frame(Some(200), &post), FrameDecision::Keep { pts: 200 });
}

#[test]
fn audio_duration_normalized_to_ticks() {
    // 1024 samples at 48 kHz in a 1/48000 time base: exactly 1024 ticks.
    assert_eq!(audio_duration_ticks(1024, 48000, &tb(1, 48000)), 1024);
    // The same frame in a 1/90000 time base: 1024/48000 s = 1920 ticks.
    assert_eq!(audio_duration_ticks(1024, 48000, &tb(1, 90000)), 1920);
    // A millisecond time base rounds to the nearest tick: 1024/48 = 21.33…
    assert_eq!(audio_duration_ticks(1024, 48000, &tb(1, 1000)), 21);
}

#[test]
fn audio_frames_span_their_samples() {
    // Window [1000, 2000] in a 1/48000 time base, 480-sample frames at
    // 48 kHz: 480 ticks long.
    let w = FrameWindow { lo: 1000, hi: 2000, include_lo: true, include_hi: true };
    let tb48 = tb(1, 48000);
    // Ends before the window entirely: 40 + 480 = 520 < 1000.
    assert_eq!(classify_audio_frame(Some(40), 480, 48000, &w, &tb48), FrameDecision::Discard);
    // Straddles the window start: 600 + 480 = 1080 >= 1000 — kept, with its
    // own presentation time.
    assert_eq!(
        classify_audio_frame(Some(600), 480, 48000, &w, &tb48),
        FrameDecision::Keep { pts: 600 }
    );
    // Starts past the window end: terminal.
    assert_eq!(classify_audio_frame(Some(2001), 480, 48000, &w, &tb48), FrameDecision::Stop);
    // No presentation time: dropped, decoding continues.
    assert_eq!(classify_audio_frame(None, 480, 48000, &w, &tb48), FrameDecision::Discard);
}
