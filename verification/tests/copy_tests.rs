use smart_cut::binding::{build_bindings, BindingTable, CodecId, MediaKind, StreamInfo};
use smart_cut::copy_engine::copy_packets;
use smart_cut::errors::TrimError;
use smart_cut::packet::Packet;
use smart_cut::time::{Time, TimeBase, TS_BOUND};

fn tb_ms() -> TimeBase {
    TimeBase::new(1, 1000).unwrap()
}

fn t(num: i64, den: i64) -> Time {
    Time::new(num, den).unwrap()
}

fn two_stream_table() -> BindingTable {
    // Stream 0: video (mapped to slot 0); stream 1: audio (mapped to slot 1).
    build_bindings(&vec![
        StreamInfo {
            kind: MediaKind::Video,
            codec: CodecId::H264,
            time_base: tb_ms(),
            decodable: true,
        },
        StreamInfo {
            kind: MediaKind::Audio,
            codec: CodecId::Aac,
            time_base: tb_ms(),
            decodable: true,
        },
    ])
}

fn pkt(stream: usize, pts: i64, dts: i64, data: Vec<u8>) -> Packet {
    Packet { stream, key: false, pts: Some(pts), dts: Some(dts), data }
}

#[test]
fn first_packet_per_stream_rebased_to_zero() {
    let b = two_stream_table();
    let packets = vec![
        pkt(0, 5000, 5000, vec![1]),
        pkt(1, 5200, 5100, vec![2]),
        pkt(0, 5040, 5020, vec![3]),
    ];
    let out = copy_packets(&b, &packets, &t(5, 1), &t(10, 1)).unwrap();
    assert_eq!(out.len(), 3);
    // The first packet written for each stream starts the output timeline at
    // zero.
    assert_eq!(out[0].dts, Some(0));
    assert_eq!(out[0].pts, Some(0));
    assert_eq!(out[1].dts, Some(0));
    // The audio packet's presentation time keeps its offset from its dts.
    assert_eq!(out[1].pts, Some(100));
    // Later packets of a stream are shifted by the same base.
    assert_eq!(out[2].dts, Some(20));
    assert_eq!(out[2].pts, Some(40));
}

#[test]
fn payload_bytes_are_untouched() {
    let b = two_stream_table();
    let payload = vec![0xde, 0xad, 0xbe, 0xef, 0x00, 0x42];
    let packets = vec![pkt(0, 6000, 6000, payload.clone())];
    let out = copy_packets(&b, &packets, &t(5, 1), &t(10, 1)).unwrap();
    assert_eq!(out[0].data, payload);
}

#[test]
fn packets_before_start_are_skipped() {
    let b = two_stream_table();
    let packets = vec![pkt(0, 4999, 4999, vec![1]), pkt(0, 5000, 5000, vec![2])];
    let out = copy_packets(&b, &packets, &t(5, 1), &t(10, 1)).unwrap();
    assert_eq!(out.len(), 1);
    assert_eq!(out[0].data, vec![2]);
}

#[test]
fn first_packet_past_end_is_terminal() {
    let b = two_stream_table();
    let packets = vec![
        pkt(0, 9000, 9000, vec![1]),
        pkt(0, 10001, 10001, vec![2]), // past 10 s: stops the whole run
        pkt(1, 9500, 9500, vec![3]),   // never reached
    ];
    let out = copy_packets(&b, &packets, &t(5, 1), &t(10, 1)).unwrap();
    assert_eq!(out.len(), 1);
    assert_eq!(out[0].data, vec![1]);
}

#[test]
fn packets_of_dropped_streams_are_skipped() {
    // Stream 1 carries an unsupported codec and is dropped from the mapping.
    let b = build_bindings(&vec![
        StreamInfo {
            kind: MediaKind::Video,
            codec: CodecId::H264,
            time_base: tb_ms(),
            decodable: true,
        },
        StreamInfo {
            kind: MediaKind::Other,
            codec: CodecId::Other,
            time_base: tb_ms(),
            decodable: false,
        },
    ]);
    let packets = vec![
        pkt(1, 6000, 6000, vec![9]),
        pkt(0, 6000, 6000, vec![1]),
        pkt(7, 6000, 6000, vec![8]), // unknown stream index: also skipped
    ];
    let out = copy_packets(&b, &packets, &t(5, 1), &t(10, 1)).unwrap();
    assert_eq!(out.len(), 1);
    assert_eq!(out[0].data, vec![1]);
    assert_eq!(out[0].stream, 0);
}

#[test]
fn stream_indices_are_remapped_to_output_slots() {
    // Stream 0 dropped, stream 1 mapped: its packets come out on slot 0.
    let b = build_bindings(&vec![
        StreamInfo {
            kind: MediaKind::Other,
            codec: CodecId::Other,
            time_base: tb_ms(),
            decodable: false,
        },
        StreamInfo {
            kind: MediaKind::Video,
            codec: CodecId::H264,
            time_base: tb_ms(),
            decodable: true,
        },
    ]);
    let packets = vec![pkt(1, 7000, 7000, vec![1])];
    let out = copy_packets(&b, &packets, &t(5, 1), &t(10, 1)).unwrap();
    assert_eq!(out[0].stream, 0);
}

#[test]
fn surviving_packet_without_timestamps_is_malformed() {
    let b = two_stream_table();
    let packets = vec![Packet { stream: 0, key: false, pts: None, dts: None, data: vec![1] }];
    assert!(matches!(
        copy_packets(&b, &packets, &t(5, 1), &t(10, 1)),
        Err(TrimError::MalformedTimestamp)
    ));
}

#[test]
fn missing_dts_on_first_packet_means_base_zero() {
    let b = two_stream_table();
    let packets = vec![
        Packet { stream: 0, key: true, pts: Some(6000), dts: None, data: vec![1] },
        pkt(0, 6040, 6020, vec![2]),
    ];
    let out = copy_packets(&b, &packets, &t(5, 1), &t(10, 1)).unwrap();
    // No decode time to take a base from: the base is zero, timestamps pass
    // through unshifted.
    assert_eq!(out[0].pts, Some(6000));
    assert_eq!(out[0].dts, None);
    assert_eq!(out[1].pts, Some(6040));
    assert_eq!(out[1].dts, Some(6020));
}

#[test]
fn extreme_timestamps_rebase_without_overflow() {
    // One stream in a 1/1 time base, with the largest timestamps the engine
    // accepts: the rebased difference still fits.
    let b = build_bindings(&vec![StreamInfo {
        kind: MediaKind::Video,
        codec: CodecId::H264,
        time_base: TimeBase::new(1, 1).unwrap(),
        decodable: true,
    }]);
    let lo = Time::new(-(TS_BOUND), 1).unwrap();
    let hi = Time::new(TS_BOUND, 1).unwrap();
    let packets = vec![
        pkt(0, -TS_BOUND, -TS_BOUND, vec![1]),
        pkt(0, TS_BOUND, TS_BOUND, vec![2]),
    ];
    let out = copy_packets(&b, &packets, &lo, &hi).unwrap();
    assert_eq!(out[0].dts, Some(0));
    assert_eq!(out[1].dts, Some(2 * TS_BOUND));
}

#[test]
fn output_timestamps_stay_monotone_per_stream() {
    let b = two_stream_table();
    let packets = vec![
        pkt(0, 5000, 5000, vec![1]),
        pkt(1, 5030, 5030, vec![2]),
        pkt(0, 5040, 5020, vec![3]),
        pkt(1, 5060, 5060, vec![4]),
        pkt(0, 5080, 5040, vec![5]),
    ];
    let out = copy_packets(&b, &packets, &t(5, 1), &t(10, 1)).unwrap();
    let mut last: [Option<i64>; 2] = [None, None];
    for p in &out {
        let d = p.dts.unwrap();
        if let Some(prev) = last[p.stream] {
            assert!(prev <= d);
        }
        last[p.stream] = Some(d);
    }
}
