use vstd::prelude::*;

use crate::errors::TrimError;
use crate::time::TimeBase;

verus! {

/// The media kind of a stream. Subtitle and data streams are `Other`: they
/// carry no codec context and their packets are only ever copied.
#[derive(Clone, Copy, Debug, PartialEq, Eq, Structural)]
pub enum MediaKind {
    Video,
    Audio,
    Other,
}

/// A stream's codec, as far as the trimmer distinguishes codecs: the four it
/// can carry into an MP4 container, and everything else.
#[derive(Clone, Copy, Debug, PartialEq, Eq, Structural)]
pub enum CodecId {
    H264,
    H265,
    Aac,
    Mp3,
    Other,
}

pub open spec fn spec_codec_supported_in_mp4(id: CodecId) -> bool {
    match id {
        CodecId::H264 | CodecId::H265 | CodecId::Aac | CodecId::Mp3 => true,
        CodecId::Other => false,
    }
}

/// Whether packets of this codec may be written into an MP4 container as they
/// are, without transcoding.
pub fn is_codec_supported_in_mp4(codec_id: CodecId) -> (r: bool)
    ensures
        r == spec_codec_supported_in_mp4(codec_id),
{
    match codec_id {
        CodecId::H264 | CodecId::H265 | CodecId::Aac | CodecId::Mp3 => true,
        CodecId::Other => false,
    }
}

/// What the host learned about one input stream from the container.
#[derive(Clone, Copy, Debug)]
pub struct StreamInfo {
    pub kind: MediaKind,
    pub codec: CodecId,
    pub time_base: TimeBase,
    /// Whether a decoder for the stream's codec could be resolved.
    pub decodable: bool,
}

/// A stream gets a decode/encode pair exactly when it is video or audio and a
/// decoder is resolvable.
pub open spec fn spec_transcodes(s: StreamInfo) -> bool {
    s.decodable && (s.kind == MediaKind::Video || s.kind == MediaKind::Audio)
}

/// A stream is mapped into the output when it can be transcoded, or when its
/// packets are valid in the target container as they are; otherwise it is
/// silently dropped.
pub open spec fn spec_mapped(s: StreamInfo) -> bool {
    spec_transcodes(s) || spec_codec_supported_in_mp4(s.codec)
}

/// One input stream's binding: its output slot (or `None` when the stream is
/// dropped), whether it owns a decode/encode pair, and its time bases, kept
/// equal at construction; actual rescale work is deferred to the engines.
#[derive(Clone, Copy, Debug)]
pub struct StreamBinding {
    pub kind: MediaKind,
    pub codec: CodecId,
    pub in_time_base: TimeBase,
    pub out_time_base: TimeBase,
    pub output: Option<usize>,
    pub transcode: bool,
}

/// Count of mapped streams among the first `i` entries; the output slot of a
/// mapped stream equals the count of mapped streams before it.
pub open spec fn mapped_before(e: Seq<StreamBinding>, i: int) -> int
    decreases i,
{
    if i <= 0 {
        0
    } else {
        mapped_before(e, i - 1) + if e[i - 1].output is Some {
            1int
        } else {
            0int
        }
    }
}

/// Maps each input stream to an output stream slot, or to "dropped".
#[derive(Clone, Debug)]
pub struct BindingTable {
    pub entries: Vec<StreamBinding>,
    pub output_count: usize,
}

impl BindingTable {
    pub open spec fn wf(self) -> bool {
        &&& forall|i: int|
            0 <= i < self.entries@.len() ==> (#[trigger] self.entries@[i]).in_time_base.wf()
        &&& forall|i: int|
            0 <= i < self.entries@.len() ==> (#[trigger] self.entries@[i]).out_time_base
                == self.entries@[i].in_time_base
        &&& forall|i: int|
            0 <= i < self.entries@.len() && (#[trigger] self.entries@[i]).output is Some
                ==> self.entries@[i].output->0 == mapped_before(self.entries@, i)
        &&& self.output_count == mapped_before(self.entries@, self.entries@.len() as int)
    }

    /// Whether input stream `s` is mapped into the output.
    pub open spec fn spec_is_mapped(self, s: int) -> bool {
        0 <= s < self.entries@.len() && self.entries@[s].output is Some
    }

    /// The output slot of input stream `s` (meaningful when mapped).
    pub open spec fn spec_slot(self, s: int) -> int {
        self.entries@[s].output->0 as int
    }

    pub open spec fn spec_has_video(self) -> bool {
        exists|j: int|
            0 <= j < self.entries@.len() && (#[trigger] self.entries@[j]).kind == MediaKind::Video
    }

    pub open spec fn spec_has_mapped_video(self) -> bool {
        exists|j: int|
            0 <= j < self.entries@.len() && (#[trigger] self.entries@[j]).kind == MediaKind::Video
                && self.entries@[j].output is Some
    }

    /// The stream that anchors boundary resolution: the first video stream
    /// mapped into the output. With no video stream at all the job cannot be
    /// resolved; with video streams present but all dropped, the sole anchor
    /// is unsupported.
    pub fn reference_video_stream(&self) -> (r: Result<usize, TrimError>)
        ensures
            match r {
                Ok(k) => {
                    &&& 0 <= k < self.entries@.len()
                    &&& self.entries@[k as int].kind == MediaKind::Video
                    &&& self.entries@[k as int].output is Some
                    &&& forall|j: int|
                        0 <= j < k ==> !((#[trigger] self.entries@[j]).kind == MediaKind::Video
                            && self.entries@[j].output is Some)
                },
                Err(e) => {
                    &&& !self.spec_has_mapped_video()
                    &&& e == (if self.spec_has_video() {
                        TrimError::Unsupported
                    } else {
                        TrimError::NotFound
                    })
                },
            },
    {
        let mut seen_video: bool = false;
        let mut k: usize = 0;
        while k < self.entries.len()
            invariant
                0 <= k <= self.entries@.len(),
                seen_video == exists|j: int|
                    0 <= j < k && (#[trigger] self.entries@[j]).kind == MediaKind::Video,
                forall|j: int|
                    0 <= j < k ==> !((#[trigger] self.entries@[j]).kind == MediaKind::Video
                        && self.entries@[j].output is Some),
            decreases self.entries@.len() - k,
        {
            let e = &self.entries[k];
            if matches!(e.kind, MediaKind::Video) {
                if e.output.is_some() {
                    return Ok(k);
                }
                seen_video = true;
            }
            k = k + 1;
        }
        if seen_video {
            Err(TrimError::Unsupported)
        } else {
            Err(TrimError::NotFound)
        }
    }
}

/// Appending an entry does not change the mapped count of an existing prefix.
proof fn lemma_mapped_before_push(e: Seq<StreamBinding>, x: StreamBinding, i: int)
    requires
        0 <= i <= e.len(),
    ensures
        mapped_before(e.push(x), i) == mapped_before(e, i),
    decreases i,
{
    if i > 0 {
        lemma_mapped_before_push(e, x, i - 1);
        assert(e.push(x)[i - 1] == e[i - 1]);
    }
}

/// The mapped count never decreases along the table.
pub proof fn lemma_mapped_before_monotone(e: Seq<StreamBinding>, i: int, j: int)
    requires
        0 <= i <= j <= e.len(),
    ensures
        mapped_before(e, i) <= mapped_before(e, j),
    decreases j - i,
{
    if i < j {
        lemma_mapped_before_monotone(e, i, j - 1);
    }
}

/// Distinct mapped input streams get distinct output slots, in input order.
pub proof fn lemma_slots_injective(t: BindingTable, i: int, j: int)
    requires
        t.wf(),
        0 <= i < j < t.entries@.len(),
        t.entries@[i].output is Some,
        t.entries@[j].output is Some,
    ensures
        t.spec_slot(i) < t.spec_slot(j),
{
    lemma_mapped_before_monotone(t.entries@, i + 1, j);
}

/// Builds the binding table for the input's streams: video and audio streams
/// with a resolvable decoder are bound for transcoding, streams whose packets
/// the target container accepts are bound for straight copy, and the rest are
/// dropped. Output slots are assigned consecutively in input order, and each
/// bound stream's output time base starts equal to its input time base.
pub fn build_bindings(streams: &Vec<StreamInfo>) -> (t: BindingTable)
    requires
        forall|k: int| 0 <= k < streams@.len() ==> (#[trigger] streams@[k]).time_base.wf(),
    ensures
        t.wf(),
        t.entries@.len() == streams@.len(),
        forall|k: int|
            0 <= k < streams@.len() ==> {
                let s = streams@[k];
                let b = #[trigger] t.entries@[k];
                &&& b.kind == s.kind
                &&& b.codec == s.codec
                &&& b.in_time_base == s.time_base
                &&& b.out_time_base == s.time_base
                &&& b.transcode == spec_transcodes(s)
                &&& (b.output is Some <==> spec_mapped(s))
            },
{
    let mut entries: Vec<StreamBinding> = Vec::new();
    let mut count: usize = 0;
    let mut k: usize = 0;
    while k < streams.len()
        invariant
            0 <= k <= streams@.len(),
            entries@.len() == k,
            count == mapped_before(entries@, k as int),
            count <= k,
            forall|i: int|
                0 <= i < k && (#[trigger] entries@[i]).output is Some ==> entries@[i].output->0
                    == mapped_before(entries@, i),
            forall|i: int|
                0 <= i < k ==> {
                    let s = streams@[i];
                    let b = #[trigger] entries@[i];
                    &&& b.kind == s.kind
                    &&& b.codec == s.codec
                    &&& b.in_time_base == s.time_base
                    &&& b.out_time_base == s.time_base
                    &&& b.transcode == spec_transcodes(s)
                    &&& (b.output is Some <==> spec_mapped(s))
                },
        decreases streams@.len() - k,
    {
        let s = &streams[k];
        let transcode = s.decodable && (matches!(s.kind, MediaKind::Video) || matches!(
            s.kind,
            MediaKind::Audio,
        ));
        let mapped = transcode || is_codec_supported_in_mp4(s.codec);
        let output = if mapped {
            Some(count)
        } else {
            None
        };
        let b = StreamBinding {
            kind: s.kind,
            codec: s.codec,
            in_time_base: s.time_base,
            out_time_base: s.time_base,
            output,
            transcode,
        };
        proof {
            let ghost old_entries = entries@;
            assert forall|i: int| 0 <= i <= k implies mapped_before(old_entries.push(b), i)
                == mapped_before(old_entries, i) by {
                lemma_mapped_before_push(old_entries, b, i);
            }
        }
        entries.push(b);
        if mapped {
            count = count + 1;
        }
        k = k + 1;
    }
    BindingTable { entries, output_count: count }
}

} // verus!
