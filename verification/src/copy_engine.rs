use vstd::prelude::*;

use crate::binding::BindingTable;
use crate::errors::TrimError;
use crate::packet::{
    copy_payload, packet_ts, pkts_view, spec_ts_bounded, spec_ts_of, Packet, PacketV,
};
use crate::time::{
    spec_ticks_after, spec_ticks_before, ticks_after, ticks_before, Time, TimeBase, TS_BOUND,
};

verus! {

/// Whether the packet's owning stream is mapped into the output.
pub open spec fn stream_mapped(b: BindingTable, p: PacketV) -> bool {
    0 <= p.stream < b.entries@.len() && b.entries@[p.stream].output is Some
}

/// The packet as the copy engine writes it: stream index remapped to the
/// output slot, both timestamps shifted down by the stream's base, key flag
/// and payload untouched.
pub open spec fn spec_rebased(p: PacketV, base: int, slot: int) -> PacketV {
    PacketV {
        stream: slot,
        key: p.key,
        pts: match p.pts {
            Some(v) => Some(v - base),
            None => None,
        },
        dts: match p.dts {
            Some(v) => Some(v - base),
            None => None,
        },
        data: p.data,
    }
}

/// A stream's rebase base: the decode timestamp of the first packet the
/// engine keeps for that stream, or zero when that very first packet carries
/// no decode timestamp at all.
pub open spec fn spec_base_of(p: PacketV) -> int {
    match p.dts {
        Some(v) => v,
        None => 0,
    }
}

/// What the copy engine produces from `ps[i..]`, given the rebase bases
/// already fixed (`bases`) and the packets already written (`acc`): `None`
/// when a surviving packet carries no timestamp at all (fatal), otherwise
/// the complete output packet sequence. Packets of dropped streams and
/// packets before `start` are skipped; the first surviving packet past `end`
/// ends the run, since per-stream source order is monotonic.
pub open spec fn copy_model(
    b: BindingTable,
    start: Time,
    end: Time,
    ps: Seq<PacketV>,
    i: int,
    bases: Map<int, int>,
    acc: Seq<PacketV>,
) -> Option<Seq<PacketV>>
    decreases ps.len() - i,
{
    if i < 0 || i >= ps.len() {
        Some(acc)
    } else {
        let p = ps[i];
        if !stream_mapped(b, p) {
            copy_model(b, start, end, ps, i + 1, bases, acc)
        } else {
            let tb = b.entries@[p.stream].in_time_base;
            match spec_ts_of(p) {
                None => None,
                Some(ts) => if spec_ticks_before(ts, tb, start) {
                    copy_model(b, start, end, ps, i + 1, bases, acc)
                } else if spec_ticks_after(ts, tb, end) {
                    Some(acc)
                } else {
                    let base = if bases.dom().contains(p.stream) {
                        bases[p.stream]
                    } else {
                        spec_base_of(p)
                    };
                    copy_model(
                        b,
                        start,
                        end,
                        ps,
                        i + 1,
                        bases.insert(p.stream, base),
                        acc.push(spec_rebased(p, base, b.spec_slot(p.stream))),
                    )
                },
            }
        }
    }
}

/// The lossless path. The host repositions the input at or before `start`
/// (backward seek on the reference video stream) and hands the demuxed
/// packets over in source order; the engine drops packets of unmapped
/// streams, skips packets before `start`, stops at the first packet past
/// `end`, rebases each surviving packet's timestamps so the output timeline
/// starts at zero per stream, remaps its stream index to the output slot,
/// and hands it back for interleaved write. Payload bytes are never touched.
///
/// A surviving packet without presentation and decode time is malformed: a
/// timestamp may be invented for nothing but the very first packet of a
/// stream, and only as its rebase base.
pub fn copy_packets(b: &BindingTable, packets: &Vec<Packet>, start: &Time, end: &Time) -> (r:
    Result<Vec<Packet>, TrimError>)
    requires
        b.wf(),
        start.wf(),
        end.wf(),
        forall|k: int|
            0 <= k < packets@.len() ==> spec_ts_bounded(#[trigger] pkts_view(packets@)[k]),
    ensures
        match r {
            Ok(out) => copy_model(
                *b,
                *start,
                *end,
                pkts_view(packets@),
                0,
                Map::empty(),
                Seq::empty(),
            ) == Some(pkts_view(out@)),
            Err(e) => e == TrimError::MalformedTimestamp && copy_model(
                *b,
                *start,
                *end,
                pkts_view(packets@),
                0,
                Map::empty(),
                Seq::empty(),
            ) is None,
        },
{
    let ghost ps = pkts_view(packets@);
    let mut out: Vec<Packet> = Vec::new();
    let mut bases: Vec<Option<i64>> = Vec::new();
    let mut s: usize = 0;
    while s < b.entries.len()
        invariant
            bases@.len() == s <= b.entries@.len(),
            forall|k: int| 0 <= k < s ==> bases@[k] is None,
        decreases b.entries@.len() - s,
    {
        bases.push(None);
        s = s + 1;
    }
    let ghost gbases = Map::<int, int>::empty();
    let mut i: usize = 0;
    proof {
        assert(pkts_view(out@) =~= Seq::<PacketV>::empty());
    }
    while i < packets.len()
        invariant
            0 <= i <= packets@.len(),
            ps == pkts_view(packets@),
            bases@.len() == b.entries@.len(),
            forall|k: int|
                0 <= k < bases@.len() ==> match #[trigger] bases@[k] {
                    Some(v) => gbases.dom().contains(k) && gbases[k] == v as int && -TS_BOUND <= v
                        <= TS_BOUND,
                    None => !gbases.dom().contains(k),
                },
            forall|k: int| gbases.dom().contains(k) ==> 0 <= k < bases@.len(),
            copy_model(*b, *start, *end, ps, 0, Map::empty(), Seq::empty()) == copy_model(
                *b,
                *start,
                *end,
                ps,
                i as int,
                gbases,
                pkts_view(out@),
            ),
        decreases packets@.len() - i,
    {
        let p = &packets[i];
        proof {
            assert(ps[i as int] == packets@[i as int]@);
        }
        let mapped_slot: Option<usize> = if p.stream < b.entries.len() {
            b.entries[p.stream].output
        } else {
            None
        };
        match mapped_slot {
            None => {
                // A dropped or unknown stream: skip the packet.
                proof {
                    assert(!stream_mapped(*b, ps[i as int]));
                }
            },
            Some(slot) => {
                let tb: TimeBase = b.entries[p.stream].in_time_base;
                match packet_ts(p) {
                    None => {
                        return Err(TrimError::MalformedTimestamp);
                    },
                    Some(ts) => {
                        if ticks_before(ts, &tb, start) {
                            // Not yet inside the window: skip.
                        } else if ticks_after(ts, &tb, end) {
                            // Past the window: per-stream order is monotonic,
                            // so the first such packet is terminal.
                            return Ok(out);
                        } else {
                            let base: i64 = match bases[p.stream] {
                                Some(v) => v,
                                None => {
                                    let v: i64 = match p.dts {
                                        Some(d) => d,
                                        None => 0,
                                    };
                                    bases.set(p.stream, Some(v));
                                    v
                                },
                            };
                            let ghost old_gbases = gbases;
                            proof {
                                gbases = gbases.insert(p.stream as int, base as int);
                            }
                            let q = Packet {
                                stream: slot,
                                key: p.key,
                                pts: match p.pts {
                                    Some(v) => Some(v - base),
                                    None => None,
                                },
                                dts: match p.dts {
                                    Some(v) => Some(v - base),
                                    None => None,
                                },
                                data: copy_payload(&p.data),
                            };
                            let ghost old_view = pkts_view(out@);
                            proof {
                                assert(q@ == spec_rebased(
                                    ps[i as int],
                                    base as int,
                                    b.spec_slot(ps[i as int].stream),
                                ));
                            }
                            out.push(q);
                            proof {
                                assert(pkts_view(out@) =~= old_view.push(q@));
                            }
                        }
                    },
                }
            },
        }
        i = i + 1;
    }
    Ok(out)
}

/// `q` was written from source packet `ps[k]`: a packet of a mapped stream,
/// timestamped inside `[start, end]`, whose key flag and payload bytes `q`
/// carries unchanged, filed under that stream's output slot.
pub open spec fn copy_source_of(
    b: BindingTable,
    start: Time,
    end: Time,
    ps: Seq<PacketV>,
    k: int,
    q: PacketV,
) -> bool {
    &&& 0 <= k < ps.len()
    &&& stream_mapped(b, ps[k])
    &&& spec_ts_of(ps[k]) matches Some(ts) && !spec_ticks_before(
        ts,
        b.entries@[ps[k].stream].in_time_base,
        start,
    ) && !spec_ticks_after(ts, b.entries@[ps[k].stream].in_time_base, end)
    &&& q.stream == b.spec_slot(ps[k].stream)
    &&& q.key == ps[k].key
    &&& q.data == ps[k].data
}

/// Some surviving source packet explains `q`.
pub open spec fn has_copy_source(
    b: BindingTable,
    start: Time,
    end: Time,
    ps: Seq<PacketV>,
    q: PacketV,
) -> bool {
    exists|k: int| copy_source_of(b, start, end, ps, k, q)
}

proof fn lemma_copy_sources_rec(
    b: BindingTable,
    start: Time,
    end: Time,
    ps: Seq<PacketV>,
    i: int,
    bases: Map<int, int>,
    acc: Seq<PacketV>,
    out: Seq<PacketV>,
)
    requires
        copy_model(b, start, end, ps, i, bases, acc) == Some(out),
        forall|j: int|
            0 <= j < acc.len() ==> has_copy_source(b, start, end, ps, #[trigger] acc[j]),
    ensures
        forall|j: int|
            0 <= j < out.len() ==> has_copy_source(b, start, end, ps, #[trigger] out[j]),
    decreases ps.len() - i,
{
    if i < 0 || i >= ps.len() {
    } else {
        let p = ps[i];
        if !stream_mapped(b, p) {
            lemma_copy_sources_rec(b, start, end, ps, i + 1, bases, acc, out);
        } else {
            let tb = b.entries@[p.stream].in_time_base;
            match spec_ts_of(p) {
                None => {},
                Some(ts) => {
                    if spec_ticks_before(ts, tb, start) {
                        lemma_copy_sources_rec(b, start, end, ps, i + 1, bases, acc, out);
                    } else if spec_ticks_after(ts, tb, end) {
                    } else {
                        let base = if bases.dom().contains(p.stream) {
                            bases[p.stream]
                        } else {
                            spec_base_of(p)
                        };
                        let q = spec_rebased(p, base, b.spec_slot(p.stream));
                        let acc2 = acc.push(q);
                        assert forall|j: int| 0 <= j < acc2.len() implies has_copy_source(
                            b,
                            start,
                            end,
                            ps,
                            #[trigger] acc2[j],
                        ) by {
                            if j < acc.len() {
                                assert(acc2[j] == acc[j]);
                            } else {
                                assert(acc2[j] == q);
                                assert(copy_source_of(b, start, end, ps, i, q));
                            }
                        }
                        lemma_copy_sources_rec(
                            b,
                            start,
                            end,
                            ps,
                            i + 1,
                            bases.insert(p.stream, base),
                            acc2,
                            out,
                        );
                    }
                },
            }
        }
    }
}

/// Idempotence of the lossless path: every packet the copy engine writes
/// carries, bit for bit, the payload bytes of a source packet that survived
/// the window filter — the engine never alters payloads, only timestamps and
/// the stream index.
pub proof fn lemma_copy_payloads_identical(
    b: BindingTable,
    start: Time,
    end: Time,
    ps: Seq<PacketV>,
    out: Seq<PacketV>,
)
    requires
        copy_model(b, start, end, ps, 0, Map::empty(), Seq::empty()) == Some(out),
    ensures
        forall|j: int| 0 <= j < out.len() ==> has_copy_source(b, start, end, ps, #[trigger] out[j]),
{
    lemma_copy_sources_rec(b, start, end, ps, 0, Map::empty(), Seq::empty(), out);
}

/// `out[j]` is the first packet written for output stream `os`.
pub open spec fn first_of_stream(out: Seq<PacketV>, os: int, j: int) -> bool {
    &&& 0 <= j < out.len()
    &&& out[j].stream == os
    &&& forall|k: int| 0 <= k < j ==> (#[trigger] out[k]).stream != os
}

/// Every stream with a fixed rebase base is mapped, and some already-written
/// packet sits in its output slot.
spec fn bases_linked(b: BindingTable, bases: Map<int, int>, acc: Seq<PacketV>) -> bool {
    forall|s: int|
        #[trigger] bases.dom().contains(s) ==> {
            &&& 0 <= s < b.entries@.len()
            &&& b.entries@[s].output is Some
            &&& exists|j: int| 0 <= j < acc.len() && (#[trigger] acc[j]).stream == b.spec_slot(s)
        }
}

/// The output stream `os` belongs to some input stream whose base is fixed.
spec fn stream_has_base(b: BindingTable, bases: Map<int, int>, os: int) -> bool {
    exists|s: int|
        {
            &&& #[trigger] bases.dom().contains(s)
            &&& 0 <= s < b.entries@.len()
            &&& b.entries@[s].output is Some
            &&& os == b.spec_slot(s)
        }
}

/// Every written packet sits in the slot of a stream whose base is fixed.
spec fn acc_streams_based(b: BindingTable, bases: Map<int, int>, acc: Seq<PacketV>) -> bool {
    forall|j: int|
        0 <= j < acc.len() ==> stream_has_base(b, bases, (#[trigger] acc[j]).stream)
}

/// A mapped stream without a fixed base has no packet in the output yet.
proof fn lemma_unbased_stream_absent(
    b: BindingTable,
    bases: Map<int, int>,
    acc: Seq<PacketV>,
    s: int,
    j: int,
)
    requires
        b.wf(),
        acc_streams_based(b, bases, acc),
        0 <= s < b.entries@.len(),
        b.entries@[s].output is Some,
        !bases.dom().contains(s),
        0 <= j < acc.len(),
    ensures
        acc[j].stream != b.spec_slot(s),
{
    if acc[j].stream == b.spec_slot(s) {
        assert(stream_has_base(b, bases, acc[j].stream));
        let s1 = choose|s1: int|
            {
                &&& #[trigger] bases.dom().contains(s1)
                &&& 0 <= s1 < b.entries@.len()
                &&& b.entries@[s1].output is Some
                &&& acc[j].stream == b.spec_slot(s1)
            };
        if s1 < s {
            crate::binding::lemma_slots_injective(b, s1, s);
        } else {
            crate::binding::lemma_slots_injective(b, s, s1);
        }
    }
}

/// The source of a stream's first written packet, and the rebase it pins:
/// the packet is exactly its source rebased by the source's own decode time
/// (or by zero, when the source carries none).
pub open spec fn first_source_of(
    b: BindingTable,
    start: Time,
    end: Time,
    ps: Seq<PacketV>,
    k: int,
    q: PacketV,
) -> bool {
    &&& copy_source_of(b, start, end, ps, k, q)
    &&& q == spec_rebased(ps[k], spec_base_of(ps[k]), b.spec_slot(ps[k].stream))
}

proof fn lemma_copy_first_dts_rec(
    b: BindingTable,
    start: Time,
    end: Time,
    ps: Seq<PacketV>,
    i: int,
    bases: Map<int, int>,
    acc: Seq<PacketV>,
    out: Seq<PacketV>,
)
    requires
        b.wf(),
        copy_model(b, start, end, ps, i, bases, acc) == Some(out),
        bases_linked(b, bases, acc),
        acc_streams_based(b, bases, acc),
        forall|os: int, j: int|
            #[trigger] first_of_stream(acc, os, j) ==> exists|k: int|
                first_source_of(b, start, end, ps, k, acc[j]),
    ensures
        forall|os: int, j: int|
            #[trigger] first_of_stream(out, os, j) ==> exists|k: int|
                first_source_of(b, start, end, ps, k, out[j]),
    decreases ps.len() - i,
{
    if i < 0 || i >= ps.len() {
    } else {
        let p = ps[i];
        if !stream_mapped(b, p) {
            lemma_copy_first_dts_rec(b, start, end, ps, i + 1, bases, acc, out);
        } else {
            let tb = b.entries@[p.stream].in_time_base;
            match spec_ts_of(p) {
                None => {},
                Some(ts) => {
                    if spec_ticks_before(ts, tb, start) {
                        lemma_copy_first_dts_rec(b, start, end, ps, i + 1, bases, acc, out);
                    } else if spec_ticks_after(ts, tb, end) {
                    } else {
                        let s = p.stream;
                        let had_base = bases.dom().contains(s);
                        let base = if had_base {
                            bases[s]
                        } else {
                            spec_base_of(p)
                        };
                        let q = spec_rebased(p, base, b.spec_slot(s));
                        let acc2 = acc.push(q);
                        let bases2 = bases.insert(s, base);
                        // The first-packet property carries to the longer output.
                        assert forall|os: int, j: int|
                            #[trigger] first_of_stream(acc2, os, j) implies exists|k: int|
                            first_source_of(b, start, end, ps, k, acc2[j]) by {
                            if j < acc.len() {
                                assert forall|k: int| 0 <= k < j implies (#[trigger] acc[k]).stream
                                    != os by {
                                    assert(acc2[k] == acc[k]);
                                }
                                assert(acc2[j] == acc[j]);
                                assert(first_of_stream(acc, os, j));
                                let k0 = choose|k0: int|
                                    first_source_of(b, start, end, ps, k0, acc[j]);
                                assert(first_source_of(b, start, end, ps, k0, acc2[j]));
                            } else {
                                // The appended packet: first of its stream only
                                // when its stream's base was just fixed, and a
                                // freshly fixed base is the packet's own decode
                                // time.
                                assert(acc2[j] == q);
                                if had_base {
                                    let j0 = choose|j0: int|
                                        0 <= j0 < acc.len() && (#[trigger] acc[j0]).stream
                                            == b.spec_slot(s);
                                    assert(acc2[j0] == acc[j0]);
                                    assert(false);
                                } else {
                                    assert(copy_source_of(b, start, end, ps, i, q));
                                    assert(first_source_of(b, start, end, ps, i, acc2[j]));
                                }
                            }
                        }
                        assert(bases_linked(b, bases2, acc2)) by {
                            assert forall|s1: int| #[trigger] bases2.dom().contains(s1) implies {
                                &&& 0 <= s1 < b.entries@.len()
                                &&& b.entries@[s1].output is Some
                                &&& exists|j: int|
                                    0 <= j < acc2.len() && (#[trigger] acc2[j]).stream
                                        == b.spec_slot(s1)
                            } by {
                                if s1 == s {
                                    assert(acc2[acc.len() as int].stream == b.spec_slot(s));
                                } else {
                                    assert(bases.dom().contains(s1));
                                    let j1 = choose|j1: int|
                                        0 <= j1 < acc.len() && (#[trigger] acc[j1]).stream
                                            == b.spec_slot(s1);
                                    assert(acc2[j1] == acc[j1]);
                                }
                            }
                        }
                        lemma_streams_based_push(b, bases, acc, s, base, q);
                        lemma_copy_first_dts_rec(b, start, end, ps, i + 1, bases2, acc2, out);
                    }
                },
            }
        }
    }
}

/// Timestamp rebase invariant: the first packet the copy engine writes for
/// any output stream is its source packet rebased by the source's own decode
/// time. Its decode time is therefore exactly zero (absent only when the
/// source carried none, the base then being zero), and its presentation time
/// keeps the source's offset from the decode time — zero too whenever the
/// source's presentation and decode times agreed.
pub proof fn lemma_copy_first_packet_rebased_to_zero(
    b: BindingTable,
    start: Time,
    end: Time,
    ps: Seq<PacketV>,
    out: Seq<PacketV>,
    os: int,
    j: int,
)
    requires
        b.wf(),
        copy_model(b, start, end, ps, 0, Map::empty(), Seq::empty()) == Some(out),
        first_of_stream(out, os, j),
    ensures
        out[j].dts == Some(0int) || out[j].dts is None,
        exists|k: int| first_source_of(b, start, end, ps, k, out[j]),
{
    lemma_copy_first_dts_rec(b, start, end, ps, 0, Map::empty(), Seq::empty(), out);
    let k = choose|k: int| first_source_of(b, start, end, ps, k, out[j]);
    assert(out[j] == spec_rebased(ps[k], spec_base_of(ps[k]), b.spec_slot(ps[k].stream)));
}

/// Decode timestamps are non-decreasing within every stream of `s`.
pub open spec fn dts_monotone(s: Seq<PacketV>) -> bool {
    forall|k1: int, k2: int|
        0 <= k1 < k2 < s.len() && (#[trigger] s[k1]).stream == (#[trigger] s[k2]).stream && s[k1].dts
            is Some && s[k2].dts is Some ==> s[k1].dts->0 <= s[k2].dts->0
}

/// Every stream with a fixed base is a mapped stream of the table.
spec fn bases_mapped(b: BindingTable, bases: Map<int, int>) -> bool {
    forall|s: int|
        #[trigger] bases.dom().contains(s) ==> 0 <= s < b.entries@.len() && b.entries@[s].output
            is Some
}

/// Appending a packet of a freshly based stream keeps every written packet
/// explained by a based stream.
proof fn lemma_streams_based_push(
    b: BindingTable,
    bases: Map<int, int>,
    acc: Seq<PacketV>,
    s: int,
    base: int,
    q: PacketV,
)
    requires
        acc_streams_based(b, bases, acc),
        0 <= s < b.entries@.len(),
        b.entries@[s].output is Some,
        q.stream == b.spec_slot(s),
    ensures
        acc_streams_based(b, bases.insert(s, base), acc.push(q)),
{
    let bases2 = bases.insert(s, base);
    let acc2 = acc.push(q);
    assert forall|j: int| 0 <= j < acc2.len() implies stream_has_base(
        b,
        bases2,
        (#[trigger] acc2[j]).stream,
    ) by {
        if j < acc.len() {
            assert(acc2[j] == acc[j]);
            assert(stream_has_base(b, bases, acc[j].stream));
            let s1 = choose|s1: int|
                {
                    &&& #[trigger] bases.dom().contains(s1)
                    &&& 0 <= s1 < b.entries@.len()
                    &&& b.entries@[s1].output is Some
                    &&& acc[j].stream == b.spec_slot(s1)
                };
            assert(bases2.dom().contains(s1));
        } else {
            assert(bases2.dom().contains(s));
            assert(acc2[j].stream == b.spec_slot(s));
        }
    }
}

/// The written packet `acc[j]` sits in the slot of exactly the based input
/// stream `s`, when `s` is mapped and owns that slot.
proof fn lemma_slot_owner_unique(
    b: BindingTable,
    bases: Map<int, int>,
    acc: Seq<PacketV>,
    s: int,
    s1: int,
)
    requires
        b.wf(),
        bases_mapped(b, bases),
        0 <= s < b.entries@.len(),
        b.entries@[s].output is Some,
        bases.dom().contains(s1),
        b.spec_slot(s1) == b.spec_slot(s),
    ensures
        s1 == s,
{
    if s1 < s {
        crate::binding::lemma_slots_injective(b, s1, s);
    } else if s < s1 {
        crate::binding::lemma_slots_injective(b, s, s1);
    }
}

/// Every written packet of output stream `os` with a decode timestamp stays
/// at or below `bound`.
spec fn slot_dts_below(acc: Seq<PacketV>, os: int, bound: int) -> bool {
    forall|j: int|
        0 <= j < acc.len() && (#[trigger] acc[j]).stream == os && acc[j].dts is Some
            ==> acc[j].dts->0 <= bound
}

/// No written packet of output stream `os` carries a decode timestamp.
spec fn slot_dts_absent(acc: Seq<PacketV>, os: int) -> bool {
    forall|j: int|
        0 <= j < acc.len() && (#[trigger] acc[j]).stream == os ==> acc[j].dts is None
}

/// Every upcoming source packet of input stream `s` with a decode timestamp
/// sits at or above `v`.
spec fn future_dts_at_least(ps: Seq<PacketV>, i: int, s: int, v: int) -> bool {
    forall|k: int|
        i <= k < ps.len() && (#[trigger] ps[k]).stream == s && ps[k].dts is Some ==> v <= ps[k].dts->0
}

/// The bookkeeping of the monotonicity proof: `lastd` records, for each based
/// stream that has written a timestamped packet, the source decode timestamp
/// of the latest such packet; a based stream outside `lastd` has written only
/// timestamp-less packets, and upcoming source packets never fall below the
/// recorded value.
spec fn lastd_ok(
    b: BindingTable,
    ps: Seq<PacketV>,
    i: int,
    bases: Map<int, int>,
    lastd: Map<int, int>,
    acc: Seq<PacketV>,
) -> bool {
    &&& forall|s: int| #[trigger] lastd.dom().contains(s) ==> bases.dom().contains(s)
    &&& forall|s: int|
        #[trigger] lastd.dom().contains(s) ==> slot_dts_below(
            acc,
            b.spec_slot(s),
            lastd[s] - bases[s],
        )
    &&& forall|s: int|
        #[trigger] bases.dom().contains(s) && !lastd.dom().contains(s) ==> slot_dts_absent(
            acc,
            b.spec_slot(s),
        )
    &&& forall|s: int|
        #[trigger] lastd.dom().contains(s) ==> future_dts_at_least(ps, i, s, lastd[s])
}

proof fn lemma_copy_dts_monotone_rec(
    b: BindingTable,
    start: Time,
    end: Time,
    ps: Seq<PacketV>,
    i: int,
    bases: Map<int, int>,
    lastd: Map<int, int>,
    acc: Seq<PacketV>,
    out: Seq<PacketV>,
)
    requires
        b.wf(),
        copy_model(b, start, end, ps, i, bases, acc) == Some(out),
        dts_monotone(ps),
        bases_mapped(b, bases),
        acc_streams_based(b, bases, acc),
        dts_monotone(acc),
        lastd_ok(b, ps, i, bases, lastd, acc),
    ensures
        dts_monotone(out),
    decreases ps.len() - i,
{
    if i < 0 || i >= ps.len() {
    } else {
        let p = ps[i];
        if !stream_mapped(b, p) {
            lemma_copy_dts_monotone_rec(b, start, end, ps, i + 1, bases, lastd, acc, out);
        } else {
            let tb = b.entries@[p.stream].in_time_base;
            match spec_ts_of(p) {
                None => {},
                Some(ts) => {
                    if spec_ticks_before(ts, tb, start) {
                        lemma_copy_dts_monotone_rec(b, start, end, ps, i + 1, bases, lastd, acc, out);
                    } else if spec_ticks_after(ts, tb, end) {
                    } else {
                        let s = p.stream;
                        let had_base = bases.dom().contains(s);
                        let base = if had_base {
                            bases[s]
                        } else {
                            spec_base_of(p)
                        };
                        let slot = b.spec_slot(s);
                        let q = spec_rebased(p, base, slot);
                        let acc2 = acc.push(q);
                        let bases2 = bases.insert(s, base);
                        let lastd2 = if p.dts is Some {
                            lastd.insert(s, p.dts->0)
                        } else {
                            lastd
                        };
                        // Earlier packets in the same output slot come from the
                        // same input stream and never exceed the new packet.
                        assert forall|j: int|
                            0 <= j < acc.len() && (#[trigger] acc[j]).stream == slot && acc[j].dts
                                is Some implies had_base && lastd.dom().contains(s) && acc[j].dts->0
                            <= lastd[s] - bases[s] by {
                            assert(stream_has_base(b, bases, acc[j].stream));
                            let s1 = choose|s1: int|
                                {
                                    &&& #[trigger] bases.dom().contains(s1)
                                    &&& 0 <= s1 < b.entries@.len()
                                    &&& b.entries@[s1].output is Some
                                    &&& acc[j].stream == b.spec_slot(s1)
                                };
                            lemma_slot_owner_unique(b, bases, acc, s, s1);
                            assert(had_base);
                            if !lastd.dom().contains(s) {
                                assert(slot_dts_absent(acc, b.spec_slot(s)));
                                assert(acc[j].dts is None);
                            }
                            assert(lastd.dom().contains(s));
                            assert(slot_dts_below(acc, b.spec_slot(s), lastd[s] - bases[s]));
                            assert(acc[j].dts->0 <= lastd[s] - bases[s]);
                        }
                        if lastd.dom().contains(s) {
                            assert(future_dts_at_least(ps, i, s, lastd[s]));
                            if p.dts is Some {
                                assert(lastd[s] <= p.dts->0);
                            }
                        }
                        assert(dts_monotone(acc2)) by {
                            assert forall|k1: int, k2: int|
                                0 <= k1 < k2 < acc2.len() && (#[trigger] acc2[k1]).stream == (
                                #[trigger] acc2[k2]).stream && acc2[k1].dts is Some && acc2[k2].dts
                                    is Some implies acc2[k1].dts->0 <= acc2[k2].dts->0 by {
                                assert(acc2[k1] == acc[k1]);
                                if k2 < acc.len() {
                                    assert(acc2[k2] == acc[k2]);
                                } else {
                                    assert(acc2[k2] == q);
                                    assert(p.dts is Some);
                                    assert(acc[k1].dts->0 <= lastd[s] - bases[s]);
                                    assert(lastd[s] <= p.dts->0);
                                    assert(q.dts->0 == p.dts->0 - base);
                                }
                            }
                        }
                        assert(bases_mapped(b, bases2));
                        lemma_streams_based_push(b, bases, acc, s, base, q);
                        assert(lastd_ok(b, ps, i + 1, bases2, lastd2, acc2)) by {
                            assert forall|s1: int| #[trigger] lastd2.dom().contains(s1) implies slot_dts_below(
                                acc2,
                                b.spec_slot(s1),
                                lastd2[s1] - bases2[s1],
                            ) by {
                                assert forall|j: int|
                                    0 <= j < acc2.len() && (#[trigger] acc2[j]).stream
                                        == b.spec_slot(s1) && acc2[j].dts is Some implies acc2[j].dts->0
                                    <= lastd2[s1] - bases2[s1] by {
                                    if s1 == s {
                                        if j < acc.len() {
                                            assert(acc2[j] == acc[j]);
                                            assert(acc[j].dts->0 <= lastd[s] - bases[s]);
                                            if p.dts is Some {
                                                assert(lastd2[s] == p.dts->0);
                                                assert(lastd[s] <= p.dts->0);
                                                assert(bases2[s] == bases[s]);
                                            } else {
                                                assert(lastd2 == lastd);
                                                assert(lastd.dom().contains(s));
                                                assert(bases2[s] == base);
                                                assert(base == bases[s]);
                                            }
                                        } else {
                                            assert(acc2[j] == q);
                                            assert(p.dts is Some);
                                            if had_base {
                                                assert(q.dts->0 == p.dts->0 - bases[s]);
                                                assert(bases2[s] == bases[s]);
                                            } else {
                                                assert(q.dts->0 == 0);
                                                assert(bases2[s] == p.dts->0);
                                            }
                                            assert(lastd2[s] == p.dts->0);
                                        }
                                    } else {
                                        assert(lastd.dom().contains(s1));
                                        assert(bases.dom().contains(s1));
                                        assert(b.spec_slot(s1) != slot) by {
                                            if s1 < s {
                                                crate::binding::lemma_slots_injective(b, s1, s);
                                            } else {
                                                crate::binding::lemma_slots_injective(b, s, s1);
                                            }
                                        }
                                        assert(acc2[acc.len() as int] == q);
                                        assert(j < acc.len());
                                        assert(acc2[j] == acc[j]);
                                        assert(slot_dts_below(
                                            acc,
                                            b.spec_slot(s1),
                                            lastd[s1] - bases[s1],
                                        ));
                                        assert(lastd2[s1] == lastd[s1]);
                                        assert(bases2[s1] == bases[s1]);
                                    }
                                }
                            }
                            assert forall|s1: int|
                                #[trigger] bases2.dom().contains(s1) && !lastd2.dom().contains(
                                s1,
                            ) implies slot_dts_absent(acc2, b.spec_slot(s1)) by {
                                assert forall|j: int|
                                    0 <= j < acc2.len() && (#[trigger] acc2[j]).stream
                                        == b.spec_slot(s1) implies acc2[j].dts is None by {
                                    if s1 == s {
                                        assert(p.dts is None);
                                        if j < acc.len() {
                                            assert(acc2[j] == acc[j]);
                                            if had_base {
                                                assert(slot_dts_absent(acc, b.spec_slot(s)));
                                            } else {
                                                lemma_unbased_stream_absent(b, bases, acc, s, j);
                                            }
                                        } else {
                                            assert(acc2[j] == q);
                                        }
                                    } else {
                                        assert(bases.dom().contains(s1));
                                        assert(b.spec_slot(s1) != slot) by {
                                            if s1 < s {
                                                crate::binding::lemma_slots_injective(b, s1, s);
                                            } else {
                                                crate::binding::lemma_slots_injective(b, s, s1);
                                            }
                                        }
                                        assert(acc2[acc.len() as int] == q);
                                        assert(j < acc.len());
                                        assert(acc2[j] == acc[j]);
                                        assert(slot_dts_absent(acc, b.spec_slot(s1)));
                                    }
                                }
                            }
                            assert forall|s1: int| #[trigger] lastd2.dom().contains(s1) implies future_dts_at_least(
                                ps,
                                i + 1,
                                s1,
                                lastd2[s1],
                            ) by {
                                assert forall|k: int|
                                    i + 1 <= k < ps.len() && (#[trigger] ps[k]).stream == s1
                                        && ps[k].dts is Some implies lastd2[s1] <= ps[k].dts->0 by {
                                    if s1 == s && p.dts is Some {
                                        assert(ps[i].stream == ps[k].stream);
                                        assert(ps[i].dts->0 <= ps[k].dts->0);
                                    } else {
                                        assert(lastd.dom().contains(s1));
                                        assert(future_dts_at_least(ps, i, s1, lastd[s1]));
                                        assert(lastd2[s1] == lastd[s1]);
                                    }
                                }
                            }
                        }
                        lemma_copy_dts_monotone_rec(b, start, end, ps, i + 1, bases2, lastd2, acc2, out);
                    }
                },
            }
        }
    }
}

/// Monotonicity of the lossless path: packet order from the source is
/// monotonic per stream, and rebasing subtracts one constant per stream, so
/// the decode timestamps the copy engine writes are non-decreasing within
/// every output stream.
pub proof fn lemma_copy_dts_monotone(
    b: BindingTable,
    start: Time,
    end: Time,
    ps: Seq<PacketV>,
    out: Seq<PacketV>,
)
    requires
        b.wf(),
        dts_monotone(ps),
        copy_model(b, start, end, ps, 0, Map::empty(), Seq::empty()) == Some(out),
    ensures
        dts_monotone(out),
{
    lemma_copy_dts_monotone_rec(
        b,
        start,
        end,
        ps,
        0,
        Map::empty(),
        Map::empty(),
        Seq::empty(),
        out,
    );
}

/// Presentation timestamps are non-decreasing within every stream of `s`.
pub open spec fn pts_monotone(s: Seq<PacketV>) -> bool {
    forall|k1: int, k2: int|
        0 <= k1 < k2 < s.len() && (#[trigger] s[k1]).stream == (#[trigger] s[k2]).stream && s[k1].pts
            is Some && s[k2].pts is Some ==> s[k1].pts->0 <= s[k2].pts->0
}

/// Every written packet of output stream `os` with a presentation timestamp stays
/// at or below `bound`.
spec fn slot_pts_below(acc: Seq<PacketV>, os: int, bound: int) -> bool {
    forall|j: int|
        0 <= j < acc.len() && (#[trigger] acc[j]).stream == os && acc[j].pts is Some
            ==> acc[j].pts->0 <= bound
}

/// No written packet of output stream `os` carries a presentation timestamp.
spec fn slot_pts_absent(acc: Seq<PacketV>, os: int) -> bool {
    forall|j: int|
        0 <= j < acc.len() && (#[trigger] acc[j]).stream == os ==> acc[j].pts is None
}

/// Every upcoming source packet of input stream `s` with a presentation timestamp
/// sits at or above `v`.
spec fn future_pts_at_least(ps: Seq<PacketV>, i: int, s: int, v: int) -> bool {
    forall|k: int|
        i <= k < ps.len() && (#[trigger] ps[k]).stream == s && ps[k].pts is Some ==> v <= ps[k].pts->0
}

/// The bookkeeping of the monotonicity proof: `lastp` records, for each based
/// stream that has written a timestamped packet, the source presentation timestamp
/// of the latest such packet; a based stream outside `lastp` has written only
/// timestamp-less packets, and upcoming source packets never fall below the
/// recorded value.
spec fn lastp_ok(
    b: BindingTable,
    ps: Seq<PacketV>,
    i: int,
    bases: Map<int, int>,
    lastp: Map<int, int>,
    acc: Seq<PacketV>,
) -> bool {
    &&& forall|s: int| #[trigger] lastp.dom().contains(s) ==> bases.dom().contains(s)
    &&& forall|s: int|
        #[trigger] lastp.dom().contains(s) ==> slot_pts_below(
            acc,
            b.spec_slot(s),
            lastp[s] - bases[s],
        )
    &&& forall|s: int|
        #[trigger] bases.dom().contains(s) && !lastp.dom().contains(s) ==> slot_pts_absent(
            acc,
            b.spec_slot(s),
        )
    &&& forall|s: int|
        #[trigger] lastp.dom().contains(s) ==> future_pts_at_least(ps, i, s, lastp[s])
}

proof fn lemma_copy_pts_monotone_rec(
    b: BindingTable,
    start: Time,
    end: Time,
    ps: Seq<PacketV>,
    i: int,
    bases: Map<int, int>,
    lastp: Map<int, int>,
    acc: Seq<PacketV>,
    out: Seq<PacketV>,
)
    requires
        b.wf(),
        copy_model(b, start, end, ps, i, bases, acc) == Some(out),
        pts_monotone(ps),
        bases_mapped(b, bases),
        acc_streams_based(b, bases, acc),
        pts_monotone(acc),
        lastp_ok(b, ps, i, bases, lastp, acc),
    ensures
        pts_monotone(out),
    decreases ps.len() - i,
{
    if i < 0 || i >= ps.len() {
    } else {
        let p = ps[i];
        if !stream_mapped(b, p) {
            lemma_copy_pts_monotone_rec(b, start, end, ps, i + 1, bases, lastp, acc, out);
        } else {
            let tb = b.entries@[p.stream].in_time_base;
            match spec_ts_of(p) {
                None => {},
                Some(ts) => {
                    if spec_ticks_before(ts, tb, start) {
                        lemma_copy_pts_monotone_rec(b, start, end, ps, i + 1, bases, lastp, acc, out);
                    } else if spec_ticks_after(ts, tb, end) {
                    } else {
                        let s = p.stream;
                        let had_base = bases.dom().contains(s);
                        let base = if had_base {
                            bases[s]
                        } else {
                            spec_base_of(p)
                        };
                        let slot = b.spec_slot(s);
                        let q = spec_rebased(p, base, slot);
                        let acc2 = acc.push(q);
                        let bases2 = bases.insert(s, base);
                        let lastp2 = if p.pts is Some {
                            lastp.insert(s, p.pts->0)
                        } else {
                            lastp
                        };
                        // Earlier packets in the same output slot come from the
                        // same input stream and never exceed the new packet.
                        assert forall|j: int|
                            0 <= j < acc.len() && (#[trigger] acc[j]).stream == slot && acc[j].pts
                                is Some implies had_base && lastp.dom().contains(s) && acc[j].pts->0
                            <= lastp[s] - bases[s] by {
                            assert(stream_has_base(b, bases, acc[j].stream));
                            let s1 = choose|s1: int|
                                {
                                    &&& #[trigger] bases.dom().contains(s1)
                                    &&& 0 <= s1 < b.entries@.len()
                                    &&& b.entries@[s1].output is Some
                                    &&& acc[j].stream == b.spec_slot(s1)
                                };
                            lemma_slot_owner_unique(b, bases, acc, s, s1);
                            assert(had_base);
                            if !lastp.dom().contains(s) {
                                assert(slot_pts_absent(acc, b.spec_slot(s)));
                                assert(acc[j].pts is None);
                            }
                            assert(lastp.dom().contains(s));
                            assert(slot_pts_below(acc, b.spec_slot(s), lastp[s] - bases[s]));
                            assert(acc[j].pts->0 <= lastp[s] - bases[s]);
                        }
                        if lastp.dom().contains(s) {
                            assert(future_pts_at_least(ps, i, s, lastp[s]));
                            if p.pts is Some {
                                assert(lastp[s] <= p.pts->0);
                            }
                        }
                        assert(pts_monotone(acc2)) by {
                            assert forall|k1: int, k2: int|
                                0 <= k1 < k2 < acc2.len() && (#[trigger] acc2[k1]).stream == (
                                #[trigger] acc2[k2]).stream && acc2[k1].pts is Some && acc2[k2].pts
                                    is Some implies acc2[k1].pts->0 <= acc2[k2].pts->0 by {
                                assert(acc2[k1] == acc[k1]);
                                if k2 < acc.len() {
                                    assert(acc2[k2] == acc[k2]);
                                } else {
                                    assert(acc2[k2] == q);
                                    assert(p.pts is Some);
                                    assert(acc[k1].pts->0 <= lastp[s] - bases[s]);
                                    assert(lastp[s] <= p.pts->0);
                                    assert(q.pts->0 == p.pts->0 - base);
                                }
                            }
                        }
                        assert(bases_mapped(b, bases2));
                        lemma_streams_based_push(b, bases, acc, s, base, q);
                        assert(lastp_ok(b, ps, i + 1, bases2, lastp2, acc2)) by {
                            assert forall|s1: int| #[trigger] lastp2.dom().contains(s1) implies slot_pts_below(
                                acc2,
                                b.spec_slot(s1),
                                lastp2[s1] - bases2[s1],
                            ) by {
                                assert forall|j: int|
                                    0 <= j < acc2.len() && (#[trigger] acc2[j]).stream
                                        == b.spec_slot(s1) && acc2[j].pts is Some implies acc2[j].pts->0
                                    <= lastp2[s1] - bases2[s1] by {
                                    if s1 == s {
                                        if j < acc.len() {
                                            assert(acc2[j] == acc[j]);
                                            assert(acc[j].pts->0 <= lastp[s] - bases[s]);
                                            if p.pts is Some {
                                                assert(lastp2[s] == p.pts->0);
                                                assert(lastp[s] <= p.pts->0);
                                                assert(bases2[s] == bases[s]);
                                            } else {
                                                assert(lastp2 == lastp);
                                                assert(lastp.dom().contains(s));
                                                assert(bases2[s] == base);
                                                assert(base == bases[s]);
                                            }
                                        } else {
                                            assert(acc2[j] == q);
                                            assert(p.pts is Some);
                                            if had_base {
                                                assert(q.pts->0 == p.pts->0 - bases[s]);
                                                assert(bases2[s] == bases[s]);
                                            } else {
                                                assert(q.pts->0 == p.pts->0 - base);
                                                assert(bases2[s] == base);
                                            }
                                            assert(lastp2[s] == p.pts->0);
                                        }
                                    } else {
                                        assert(lastp.dom().contains(s1));
                                        assert(bases.dom().contains(s1));
                                        assert(b.spec_slot(s1) != slot) by {
                                            if s1 < s {
                                                crate::binding::lemma_slots_injective(b, s1, s);
                                            } else {
                                                crate::binding::lemma_slots_injective(b, s, s1);
                                            }
                                        }
                                        assert(acc2[acc.len() as int] == q);
                                        assert(j < acc.len());
                                        assert(acc2[j] == acc[j]);
                                        assert(slot_pts_below(
                                            acc,
                                            b.spec_slot(s1),
                                            lastp[s1] - bases[s1],
                                        ));
                                        assert(lastp2[s1] == lastp[s1]);
                                        assert(bases2[s1] == bases[s1]);
                                    }
                                }
                            }
                            assert forall|s1: int|
                                #[trigger] bases2.dom().contains(s1) && !lastp2.dom().contains(
                                s1,
                            ) implies slot_pts_absent(acc2, b.spec_slot(s1)) by {
                                assert forall|j: int|
                                    0 <= j < acc2.len() && (#[trigger] acc2[j]).stream
                                        == b.spec_slot(s1) implies acc2[j].pts is None by {
                                    if s1 == s {
                                        assert(p.pts is None);
                                        if j < acc.len() {
                                            assert(acc2[j] == acc[j]);
                                            if had_base {
                                                assert(slot_pts_absent(acc, b.spec_slot(s)));
                                            } else {
                                                lemma_unbased_stream_absent(b, bases, acc, s, j);
                                            }
                                        } else {
                                            assert(acc2[j] == q);
                                        }
                                    } else {
                                        assert(bases.dom().contains(s1));
                                        assert(b.spec_slot(s1) != slot) by {
                                            if s1 < s {
                                                crate::binding::lemma_slots_injective(b, s1, s);
                                            } else {
                                                crate::binding::lemma_slots_injective(b, s, s1);
                                            }
                                        }
                                        assert(acc2[acc.len() as int] == q);
                                        assert(j < acc.len());
                                        assert(acc2[j] == acc[j]);
                                        assert(slot_pts_absent(acc, b.spec_slot(s1)));
                                    }
                                }
                            }
                            assert forall|s1: int| #[trigger] lastp2.dom().contains(s1) implies future_pts_at_least(
                                ps,
                                i + 1,
                                s1,
                                lastp2[s1],
                            ) by {
                                assert forall|k: int|
                                    i + 1 <= k < ps.len() && (#[trigger] ps[k]).stream == s1
                                        && ps[k].pts is Some implies lastp2[s1] <= ps[k].pts->0 by {
                                    if s1 == s && p.pts is Some {
                                        assert(ps[i].stream == ps[k].stream);
                                        assert(ps[i].pts->0 <= ps[k].pts->0);
                                    } else {
                                        assert(lastp.dom().contains(s1));
                                        assert(future_pts_at_least(ps, i, s1, lastp[s1]));
                                        assert(lastp2[s1] == lastp[s1]);
                                    }
                                }
                            }
                        }
                        lemma_copy_pts_monotone_rec(b, start, end, ps, i + 1, bases2, lastp2, acc2, out);
                    }
                },
            }
        }
    }
}

/// Monotonicity of the lossless path, for presentation timestamps: the same
/// per-stream constant rebases them, so source order per stream is kept in
/// the output.
pub proof fn lemma_copy_pts_monotone(
    b: BindingTable,
    start: Time,
    end: Time,
    ps: Seq<PacketV>,
    out: Seq<PacketV>,
)
    requires
        b.wf(),
        pts_monotone(ps),
        copy_model(b, start, end, ps, 0, Map::empty(), Seq::empty()) == Some(out),
    ensures
        pts_monotone(out),
{
    lemma_copy_pts_monotone_rec(
        b,
        start,
        end,
        ps,
        0,
        Map::empty(),
        Map::empty(),
        Seq::empty(),
        out,
    );
}

} // verus!
