use vstd::prelude::*;

use crate::time::TS_BOUND;

verus! {

/// One demuxed packet, as the host hands it to the engines: its owning input
/// stream, the key/sync flag, optional presentation and decode timestamps in
/// the stream's own time base, and the compressed payload bytes.
#[derive(Clone, Debug)]
pub struct Packet {
    pub stream: usize,
    pub key: bool,
    pub pts: Option<i64>,
    pub dts: Option<i64>,
    pub data: Vec<u8>,
}

/// The mathematical image of a packet: plain integers and a byte sequence.
pub struct PacketV {
    pub stream: int,
    pub key: bool,
    pub pts: Option<int>,
    pub dts: Option<int>,
    pub data: Seq<u8>,
}

impl View for Packet {
    type V = PacketV;

    open spec fn view(&self) -> PacketV {
        PacketV {
            stream: self.stream as int,
            key: self.key,
            pts: match self.pts {
                Some(v) => Some(v as int),
                None => None,
            },
            dts: match self.dts {
                Some(v) => Some(v as int),
                None => None,
            },
            data: self.data@,
        }
    }
}

/// The sequence of packet images behind a sequence of packets.
pub open spec fn pkts_view(s: Seq<Packet>) -> Seq<PacketV> {
    s.map_values(|p: Packet| p@)
}

/// The timestamp a packet is filed under: presentation time preferred,
/// decode time as the fallback.
pub open spec fn spec_ts_of(p: PacketV) -> Option<int> {
    if p.pts is Some {
        p.pts
    } else {
        p.dts
    }
}

/// Both timestamps of the packet, where present, are within the tick bound
/// the engines accept.
pub open spec fn spec_ts_bounded(p: PacketV) -> bool {
    &&& (p.pts is Some ==> -TS_BOUND <= p.pts->0 <= TS_BOUND)
    &&& (p.dts is Some ==> -TS_BOUND <= p.dts->0 <= TS_BOUND)
}

/// The timestamp the packet is filed under (presentation, else decode).
pub fn packet_ts(p: &Packet) -> (r: Option<i64>)
    ensures
        match r {
            Some(v) => spec_ts_of(p@) == Some(v as int),
            None => spec_ts_of(p@) is None,
        },
{
    if p.pts.is_some() {
        p.pts
    } else {
        p.dts
    }
}

/// An exact copy of a payload; the lossless path never alters payload bytes.
pub fn copy_payload(v: &Vec<u8>) -> (r: Vec<u8>)
    ensures
        r@ == v@,
{
    let mut r: Vec<u8> = Vec::new();
    let mut i: usize = 0;
    while i < v.len()
        invariant
            0 <= i <= v@.len(),
            r@ == v@.subrange(0, i as int),
        decreases v@.len() - i,
    {
        r.push(v[i]);
        i = i + 1;
    }
    proof {
        assert(r@ =~= v@);
    }
    r
}

} // verus!
