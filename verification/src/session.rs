use vstd::prelude::*;

use crate::binding::BindingTable;
use crate::compositor::Compositor;
use crate::errors::TrimError;
use crate::time::{spec_time_le, spec_time_lt, time_le, time_lt, Time};

verus! {

/// The first boundary marker: the forward search result, kept only when it
/// lies inside the requested window. A keyframe outside the window counts as
/// "not found" — the window then holds no usable keyframe at all.
pub open spec fn spec_resolved_first(start: Time, end: Time, found: Option<Time>) -> Option<Time> {
    match found {
        Some(f) => if spec_time_le(start, f) && spec_time_le(f, end) {
            Some(f)
        } else {
            None
        },
        None => None,
    }
}

/// The second boundary marker: the backward search result, kept only when it
/// lies inside the window and strictly after the first marker. A result
/// numerically equal to the first marker would make the aligned copy segment
/// empty — it carries no information, so the marker is left absent rather
/// than treated as an error.
pub open spec fn spec_resolved_last(
    end: Time,
    first: Option<Time>,
    found: Option<Time>,
) -> Option<Time> {
    match (first, found) {
        (Some(f), Some(l)) => if spec_time_lt(f, l) && spec_time_le(l, end) {
            Some(l)
        } else {
            None
        },
        _ => None,
    }
}

/// One trim job: the requested window (seconds, inclusive), the boundary
/// markers once resolved, and the stream binding table. The input and output
/// container handles stay with the host, which owns them exclusively for the
/// job's lifetime and releases them whether the job completes or is unwound.
pub struct Session {
    pub start: Time,
    pub end: Time,
    pub first_kf: Option<Time>,
    pub last_kf: Option<Time>,
    pub bindings: BindingTable,
}

impl Session {
    pub open spec fn wf(self) -> bool {
        &&& self.start.wf()
        &&& self.end.wf()
        &&& spec_time_lt(self.start, self.end)
        &&& self.bindings.wf()
        &&& self.first_kf matches Some(f) ==> f.wf() && spec_time_le(self.start, f)
            && spec_time_le(f, self.end)
        &&& self.last_kf matches Some(l) ==> {
            &&& l.wf()
            &&& self.first_kf matches Some(f) && spec_time_lt(f, l)
            &&& spec_time_le(l, self.end)
        }
    }

    /// Opens a job for the window `[start, end]` over the given streams. An
    /// empty or inverted window is rejected outright rather than left to
    /// produce a degenerate output.
    pub fn new(start: Time, end: Time, bindings: BindingTable) -> (r: Result<Session, TrimError>)
        requires
            start.wf(),
            end.wf(),
            bindings.wf(),
        ensures
            match r {
                Ok(s) => {
                    &&& spec_time_lt(start, end)
                    &&& s.wf()
                    &&& s.start == start
                    &&& s.end == end
                    &&& s.first_kf is None
                    &&& s.last_kf is None
                    &&& s.bindings == bindings
                },
                Err(e) => e == TrimError::InvalidWindow && !spec_time_lt(start, end),
            },
    {
        if time_lt(&start, &end) {
            Ok(Session { start, end, first_kf: None, last_kf: None, bindings })
        } else {
            Err(TrimError::InvalidWindow)
        }
    }

    /// Fixes the boundary markers from the two keyframe searches: the forward
    /// search at the requested start and the backward search at the requested
    /// end. Absent or out-of-window results leave markers absent, which sends
    /// the compositor down the all-transcode or empty-copy paths; this is a
    /// normal outcome, never an error. Markers are resolved once, before any
    /// output is written, and never change afterwards.
    pub fn resolve(&mut self, found_first: Option<Time>, found_last: Option<Time>)
        requires
            old(self).wf(),
            old(self).first_kf is None,
            old(self).last_kf is None,
            found_first matches Some(f) ==> f.wf(),
            found_last matches Some(l) ==> l.wf(),
        ensures
            final(self).wf(),
            final(self).start == old(self).start,
            final(self).end == old(self).end,
            final(self).bindings == old(self).bindings,
            final(self).first_kf == spec_resolved_first(
                old(self).start,
                old(self).end,
                found_first,
            ),
            final(self).last_kf == spec_resolved_last(
                old(self).end,
                spec_resolved_first(old(self).start, old(self).end, found_first),
                found_last,
            ),
    {
        let first = match found_first {
            Some(f) => {
                if time_le(&self.start, &f) && time_le(&f, &self.end) {
                    Some(f)
                } else {
                    None
                }
            },
            None => None,
        };
        self.first_kf = first;
        let last = match (self.first_kf, found_last) {
            (Some(f), Some(l)) => {
                if time_lt(&f, &l) && time_le(&l, &self.end) {
                    Some(l)
                } else {
                    None
                }
            },
            _ => None,
        };
        self.last_kf = last;
    }

    /// The compositor for this job's resolved markers.
    pub fn compositor(&self) -> (c: Compositor)
        requires
            self.wf(),
        ensures
            c.wf(),
            c.start == self.start,
            c.end == self.end,
            c.first_kf == self.first_kf,
            c.last_kf == self.last_kf,
            c.phase == crate::compositor::Phase::PreRoll,
            !c.trailer_committed,
    {
        Compositor::new(self.start, self.end, self.first_kf, self.last_kf)
    }
}

} // verus!
