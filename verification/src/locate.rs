use vstd::prelude::*;

use crate::errors::TrimError;
use crate::packet::{packet_ts, pkts_view, spec_ts_of, Packet, PacketV};
use crate::time::{ticks_to_time, Time, TimeBase};

verus! {

/// Which way a boundary search leans: forward for the start boundary (the
/// keyframe at or after the requested start), backward for the end boundary
/// (the keyframe at or before the requested end).
#[derive(Clone, Copy, Debug, PartialEq, Eq, Structural)]
pub enum Direction {
    Forward,
    Backward,
}

/// The positioning mode the container collaborator is asked for before the
/// scan.
#[derive(Clone, Copy, Debug, PartialEq, Eq, Structural)]
pub enum SeekMode {
    /// Position at the nearest frame to the target.
    NearestFrame,
    /// Position at the keyframe at or before the target.
    AtOrBefore,
}

pub open spec fn spec_seek_mode(d: Direction) -> SeekMode {
    match d {
        Direction::Forward => SeekMode::NearestFrame,
        Direction::Backward => SeekMode::AtOrBefore,
    }
}

/// The seek mode used for a search direction.
pub fn seek_mode(d: Direction) -> (m: SeekMode)
    ensures
        m == spec_seek_mode(d),
{
    match d {
        Direction::Forward => SeekMode::NearestFrame,
        Direction::Backward => SeekMode::AtOrBefore,
    }
}

/// What scanning `ps[i..]` for the first key packet of `stream` yields:
/// `None` for a malformed key packet (no timestamp at all), `Some(None)` when
/// the scan exhausts the stream, and `Some(Some(ts))` for the first key
/// packet's tick count.
pub open spec fn locate_model(ps: Seq<PacketV>, i: int, stream: int) -> Option<Option<int>>
    decreases ps.len() - i,
{
    if i < 0 || i >= ps.len() {
        Some(None)
    } else {
        let p = ps[i];
        if p.stream == stream && p.key {
            match spec_ts_of(p) {
                Some(t) => Some(Some(t)),
                None => None,
            }
        } else {
            locate_model(ps, i + 1, stream)
        }
    }
}

/// Scans demuxed packets — after the host has positioned the input near the
/// target — for the first packet of the reference stream flagged as a
/// key/sync frame, and reports its time converted to exact seconds.
///
/// Exhausting the packets without a key frame is a normal outcome, reported
/// as `Ok(None)`; the host must then flush the container's read-ahead state
/// before any further use. A key packet carrying neither presentation nor
/// decode time is malformed.
pub fn find_first_keyframe(packets: &Vec<Packet>, stream: usize, tb: &TimeBase) -> (r: Result<
    Option<Time>,
    TrimError,
>)
    requires
        tb.wf(),
    ensures
        match locate_model(pkts_view(packets@), 0, stream as int) {
            None => r == Err::<Option<Time>, TrimError>(TrimError::MalformedTimestamp),
            Some(None) => r == Ok::<Option<Time>, TrimError>(None::<Time>),
            Some(Some(t)) => r matches Ok(Some(kt)) && kt.wf() && kt.num == t * tb.num && kt.den
                == tb.den,
        },
{
    let ghost ps = pkts_view(packets@);
    let mut i: usize = 0;
    while i < packets.len()
        invariant
            0 <= i <= packets@.len(),
            ps == pkts_view(packets@),
            locate_model(ps, 0, stream as int) == locate_model(ps, i as int, stream as int),
        decreases packets@.len() - i,
    {
        let p = &packets[i];
        proof {
            assert(ps[i as int] == packets@[i as int]@);
        }
        if p.stream == stream && p.key {
            match packet_ts(p) {
                Some(t) => {
                    let kt = ticks_to_time(t, tb);
                    return Ok(Some(kt));
                },
                None => {
                    return Err(TrimError::MalformedTimestamp);
                },
            }
        }
        i = i + 1;
    }
    Ok(None)
}

} // verus!
