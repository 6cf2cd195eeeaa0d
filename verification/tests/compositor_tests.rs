use smart_cut::binding::{build_bindings, BindingTable, CodecId, MediaKind, StreamInfo};
use smart_cut::compositor::{Compositor, Phase, PhaseAction};
use smart_cut::errors::TrimError;
use smart_cut::locate::find_first_keyframe;
use smart_cut::packet::Packet;
use smart_cut::session::Session;
use smart_cut::time::{time_le, time_lt, Time, TimeBase};

fn t(num: i64, den: i64) -> Time {
    Time::new(num, den).unwrap()
}

fn video_table() -> BindingTable {
    build_bindings(&vec![StreamInfo {
        kind: MediaKind::Video,
        codec: CodecId::H264,
        time_base: TimeBase::new(1, 90000).unwrap(),
        decodable: true,
    }])
}

fn transcode(from: Time, to: Time, include_from: bool, include_to: bool) -> PhaseAction {
    PhaseAction::Transcode { from, to, include_from, include_to }
}

#[test]
fn empty_window_is_rejected() {
    assert!(matches!(
        Session::new(t(5, 1), t(5, 1), video_table()),
        Err(TrimError::InvalidWindow)
    ));
    assert!(matches!(
        Session::new(t(8, 1), t(3, 1), video_table()),
        Err(TrimError::InvalidWindow)
    ));
    assert!(Session::new(t(3, 1), t(8, 1), video_table()).is_ok());
}

#[test]
fn full_three_phase_plan() {
    // Keyframes at 5 s and 9 s inside a [3, 10] window: re-encode the head
    // sliver, copy the middle, re-encode the tail, finalize.
    let mut s = Session::new(t(3, 1), t(10, 1), video_table()).unwrap();
    s.resolve(Some(t(5, 1)), Some(t(9, 1)));
    let mut c = s.compositor();
    assert_eq!(c.step(), transcode(t(3, 1), t(5, 1), true, false));
    assert_eq!(c.step(), PhaseAction::CopySegment { from: t(5, 1), to: t(9, 1) });
    assert_eq!(c.step(), transcode(t(9, 1), t(10, 1), false, true));
    assert_eq!(c.step(), PhaseAction::FinishOutput);
    assert!(c.is_complete());
}

#[test]
fn degenerate_window_still_finalizes() {
    // The window is smaller than one keyframe interval: no marker survives,
    // the output is all re-encoded content, and the trailer is still
    // committed, so the file stays structurally valid.
    let mut s = Session::new(t(3, 1), t(4, 1), video_table()).unwrap();
    s.resolve(None, None);
    assert_eq!(s.first_kf, None);
    assert_eq!(s.last_kf, None);
    let mut c = s.compositor();
    assert_eq!(c.step(), transcode(t(3, 1), t(4, 1), true, true));
    assert_eq!(c.step(), PhaseAction::NoOp);
    assert_eq!(c.step(), PhaseAction::NoOp);
    assert_eq!(c.step(), PhaseAction::FinishOutput);
    assert!(c.is_complete());
}

#[test]
fn equal_markers_leave_copy_empty() {
    // Keyframes at 0, 5 and 10 s; request [3, 8]. The forward search finds
    // 5 s, the backward search also lands on 5 s: the copy segment would be
    // empty, so the last marker stays absent and both slivers are re-encoded.
    let mut s = Session::new(t(3, 1), t(8, 1), video_table()).unwrap();
    s.resolve(Some(t(5, 1)), Some(t(5, 1)));
    assert_eq!(s.first_kf, Some(t(5, 1)));
    assert_eq!(s.last_kf, None);
    let mut c = s.compositor();
    assert_eq!(c.step(), transcode(t(3, 1), t(5, 1), true, false));
    assert_eq!(c.step(), PhaseAction::NoOp);
    assert_eq!(c.step(), transcode(t(5, 1), t(8, 1), false, true));
    assert_eq!(c.step(), PhaseAction::FinishOutput);
}

#[test]
fn window_between_keyframes_becomes_one_transcode_range() {
    // Keyframes at 0 and 10 s only; request [2, 4]. The forward search from
    // 2 s first reaches the keyframe at 10 s, which lies outside the window:
    // "not found" under the window boundary check, and the whole request is
    // one continuous transcode range.
    let mut s = Session::new(t(2, 1), t(4, 1), video_table()).unwrap();
    s.resolve(Some(t(10, 1)), Some(t(0, 1)));
    assert_eq!(s.first_kf, None);
    assert_eq!(s.last_kf, None);
    let mut c = s.compositor();
    assert_eq!(c.step(), transcode(t(2, 1), t(4, 1), true, true));
    assert_eq!(c.step(), PhaseAction::NoOp);
    assert_eq!(c.step(), PhaseAction::NoOp);
    assert_eq!(c.step(), PhaseAction::FinishOutput);
}

#[test]
fn keyframe_at_start_skips_preroll() {
    let mut s = Session::new(t(5, 1), t(10, 1), video_table()).unwrap();
    s.resolve(Some(t(5, 1)), Some(t(10, 1)));
    let mut c = s.compositor();
    assert_eq!(c.step(), PhaseAction::NoOp);
    assert_eq!(c.step(), PhaseAction::CopySegment { from: t(5, 1), to: t(10, 1) });
    // The last keyframe sits exactly at the end: no tail sliver.
    assert_eq!(c.step(), PhaseAction::NoOp);
    assert_eq!(c.step(), PhaseAction::FinishOutput);
}

#[test]
fn abort_still_attempts_the_trailer() {
    let mut c = Compositor::new(t(3, 1), t(10, 1), Some(t(5, 1)), Some(t(9, 1)));
    assert_eq!(c.step(), transcode(t(3, 1), t(5, 1), true, false));
    // A phase failed: the job jumps forward and commits the trailer once.
    assert_eq!(c.finish(), PhaseAction::FinishOutput);
    assert!(c.is_complete());
    assert_eq!(c.phase, Phase::Finalized);
}

#[test]
fn dropped_stream_job_completes() {
    // An input data stream with an unsupported codec is absent from the
    // output stream list, and the job otherwise completes.
    let table = build_bindings(&vec![
        StreamInfo {
            kind: MediaKind::Video,
            codec: CodecId::H264,
            time_base: TimeBase::new(1, 1000).unwrap(),
            decodable: true,
        },
        StreamInfo {
            kind: MediaKind::Other,
            codec: CodecId::Other,
            time_base: TimeBase::new(1, 1000).unwrap(),
            decodable: false,
        },
    ]);
    assert_eq!(table.entries[1].output, None);
    assert_eq!(table.output_count, 1);

    let mut s = Session::new(t(0, 1), t(10, 1), table).unwrap();
    s.resolve(Some(t(0, 1)), Some(t(10, 1)));
    let mut c = s.compositor();
    assert_eq!(c.step(), PhaseAction::NoOp);
    let copy = c.step();
    assert_eq!(copy, PhaseAction::CopySegment { from: t(0, 1), to: t(10, 1) });

    // The copy phase passes the video packets through and drops the data
    // stream's packets silently.
    let packets = vec![
        Packet { stream: 0, key: true, pts: Some(0), dts: Some(0), data: vec![1] },
        Packet { stream: 1, key: false, pts: Some(10), dts: Some(10), data: vec![2] },
        Packet { stream: 0, key: false, pts: Some(40), dts: Some(40), data: vec![3] },
    ];
    let out =
        smart_cut::copy_engine::copy_packets(&s.bindings, &packets, &t(0, 1), &t(10, 1)).unwrap();
    assert_eq!(out.len(), 2);
    assert!(out.iter().all(|p| p.stream == 0));

    assert_eq!(c.step(), PhaseAction::NoOp);
    assert_eq!(c.step(), PhaseAction::FinishOutput);
    assert!(c.is_complete());
}

#[test]
fn out_of_window_search_results_are_discarded() {
    // A keyframe before the requested start would start the copy segment too
    // early: it does not count as found.
    let mut s = Session::new(t(3, 1), t(8, 1), video_table()).unwrap();
    s.resolve(Some(t(2, 1)), Some(t(7, 1)));
    assert_eq!(s.first_kf, None);
    assert_eq!(s.last_kf, None);

    // A backward result before the first marker would invert the segment:
    // the copy is dropped, the slivers still cover the window.
    let mut s2 = Session::new(t(3, 1), t(8, 1), video_table()).unwrap();
    s2.resolve(Some(t(5, 1)), Some(t(4, 1)));
    assert_eq!(s2.first_kf, Some(t(5, 1)));
    assert_eq!(s2.last_kf, None);

    // A backward result past the end never extends the copy past the window.
    let mut s3 = Session::new(t(3, 1), t(8, 1), video_table()).unwrap();
    s3.resolve(Some(t(5, 1)), Some(t(9, 1)));
    assert_eq!(s3.first_kf, Some(t(5, 1)));
    assert_eq!(s3.last_kf, None);
}

#[test]
fn planned_phases_cover_the_window() {
    // Keyframes at 5 and 9 s, window [3, 10]: every probed instant of the
    // window lies in exactly the pre-roll, the copy segment or the post-roll.
    let mut s = Session::new(t(3, 1), t(10, 1), video_table()).unwrap();
    s.resolve(Some(t(5, 1)), Some(t(9, 1)));
    let mut c = s.compositor();
    let actions = [c.step(), c.step(), c.step()];

    let covered = |p: &Time| -> usize {
        actions
            .iter()
            .filter(|a| match a {
                PhaseAction::Transcode { from, to, include_from, include_to } => {
                    (if *include_from { time_le(from, p) } else { time_lt(from, p) })
                        && (if *include_to { time_le(p, to) } else { time_lt(p, to) })
                },
                PhaseAction::CopySegment { from, to } => time_le(from, p) && time_le(p, to),
                _ => false,
            })
            .count()
    };
    for probe in [t(3, 1), t(4, 1), t(5, 1), t(13, 2), t(9, 1), t(19, 2), t(10, 1)] {
        assert_eq!(covered(&probe), 1);
    }
    // Outside the window nothing is produced.
    assert_eq!(covered(&t(5, 2)), 0);
    assert_eq!(covered(&t(11, 1)), 0);
}

#[test]
fn resolver_uses_scanned_keyframes() {
    // End-to-end boundary resolution over scanned packets: keys at 0, 5 and
    // 10 s in a 90 kHz stream, request [3, 8].
    let tb = TimeBase::new(1, 90000).unwrap();
    let key = |ticks: i64| Packet {
        stream: 0,
        key: true,
        pts: Some(ticks),
        dts: Some(ticks),
        data: vec![],
    };
    // Forward search from 3 s: the demuxer resumes at the preceding keyframe
    // and the scan reports the first key packet at or after it.
    let forward = vec![key(450_000), key(900_000)];
    let first = find_first_keyframe(&forward, 0, &tb).unwrap();
    // Backward search from 8 s: positioned at the keyframe at or before 8 s.
    let backward = vec![key(450_000), key(900_000)];
    let last = find_first_keyframe(&backward, 0, &tb).unwrap();

    let mut s = Session::new(t(3, 1), t(8, 1), video_table()).unwrap();
    s.resolve(first, last);
    // Both searches landed on the 5 s keyframe: empty copy segment.
    assert!(s.first_kf.is_some());
    assert_eq!(s.last_kf, None);
}
