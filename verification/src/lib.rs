//! Frame-accurate media trimming logic.
//!
//! A trim job cuts a media file to a requested `[start, end]` window while
//! re-encoding as little as possible: the keyframe-aligned middle segment is
//! copied byte for byte, and only the head and tail slivers between the exact
//! requested times and the nearest usable keyframes are re-encoded.
//!
//! This crate holds the decision logic of that pipeline: exact rational time
//! arithmetic, keyframe boundary resolution, stream-to-output binding, the
//! phase state machine that orders pre-roll, aligned copy, post-roll and
//! finalization, and the per-packet and per-frame rules of the copy and
//! transcode engines. Container demuxing, decoding, encoding and muxing are
//! external collaborators: a host program performs them and feeds this crate
//! plain packet and frame descriptions.
#![verifier::loop_isolation(false)]

pub mod binding;
pub mod compositor;
pub mod copy_engine;
pub mod errors;
pub mod locate;
pub mod packet;
pub mod session;
pub mod time;
pub mod transcode;
