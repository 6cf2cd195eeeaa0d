use smart_cut::errors::TrimError;
use smart_cut::locate::{find_first_keyframe, seek_mode, Direction, SeekMode};
use smart_cut::packet::Packet;
use smart_cut::time::{time_eq, Time, TimeBase};

fn tb(num: i32, den: i32) -> TimeBase {
    TimeBase::new(num, den).unwrap()
}

fn pkt(stream: usize, key: bool, pts: Option<i64>, dts: Option<i64>) -> Packet {
    Packet { stream, key, pts, dts, data: vec![0u8] }
}

#[test]
fn seek_modes_per_direction() {
    assert_eq!(seek_mode(Direction::Forward), SeekMode::NearestFrame);
    assert_eq!(seek_mode(Direction::Backward), SeekMode::AtOrBefore);
}

#[test]
fn first_keyframe_of_target_stream() {
    let packets = vec![
        pkt(1, true, Some(10), Some(10)),   // other stream's keyframe: ignored
        pkt(0, false, Some(100), Some(90)), // not a key frame
        pkt(0, true, Some(180_000), Some(180_000)),
        pkt(0, true, Some(360_000), Some(360_000)),
    ];
    let r = find_first_keyframe(&packets, 0, &tb(1, 90000)).unwrap().unwrap();
    // 180000 ticks at 90 kHz = 2 s.
    assert!(time_eq(&r, &Time::new(2, 1).unwrap()));
}

#[test]
fn decode_time_is_the_fallback() {
    let packets = vec![pkt(0, true, None, Some(90_000))];
    let r = find_first_keyframe(&packets, 0, &tb(1, 90000)).unwrap().unwrap();
    assert!(time_eq(&r, &Time::new(1, 1).unwrap()));
}

#[test]
fn exhausted_scan_is_a_normal_outcome() {
    let packets = vec![pkt(0, false, Some(1), Some(1)), pkt(1, true, Some(2), Some(2))];
    assert_eq!(find_first_keyframe(&packets, 0, &tb(1, 90000)), Ok(None));
}

#[test]
fn keyframe_without_any_timestamp_is_malformed() {
    let packets = vec![pkt(0, true, None, None)];
    assert_eq!(
        find_first_keyframe(&packets, 0, &tb(1, 90000)),
        Err(TrimError::MalformedTimestamp)
    );
}
