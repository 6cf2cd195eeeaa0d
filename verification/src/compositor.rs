use vstd::prelude::*;

use crate::time::{spec_time_eq, spec_time_le, spec_time_lt, Time};

verus! {

/// The phases of one trim job, in their fixed order. The machine is strictly
/// forward-moving: no phase is ever re-entered, and there is no retry or
/// rollback — a failure in any phase aborts the whole job.
#[derive(Clone, Copy, Debug, PartialEq, Eq, Structural)]
pub enum Phase {
    PreRoll,
    AlignedCopy,
    PostRoll,
    Finalized,
}

/// What the compositor asks the host to do for one phase. Each of the three
/// segment phases may be a no-op; the trailer is committed exactly once.
#[derive(Clone, Copy, Debug, PartialEq, Eq, Structural)]
pub enum PhaseAction {
    /// Decode the window's packets, keep the frames inside the window, and
    /// re-encode them. The flags say whether each edge belongs to the window.
    Transcode { from: Time, to: Time, include_from: bool, include_to: bool },
    /// Copy the packets of `[from, to]` byte for byte, rebasing timestamps.
    CopySegment { from: Time, to: Time },
    /// This phase has nothing to do.
    NoOp,
    /// Commit the output container's trailer.
    FinishOutput,
}

/// The pre-roll phase: with no usable keyframe at all, the whole request is
/// one continuous transcode range; with a first keyframe strictly after the
/// requested start, the head sliver `[start, first_kf)` is re-encoded;
/// otherwise nothing.
pub open spec fn spec_preroll_action(start: Time, end: Time, first_kf: Option<Time>) -> PhaseAction {
    match first_kf {
        None => PhaseAction::Transcode { from: start, to: end, include_from: true, include_to: true },
        Some(f) => if spec_time_lt(start, f) {
            PhaseAction::Transcode { from: start, to: f, include_from: true, include_to: false }
        } else {
            PhaseAction::NoOp
        },
    }
}

/// The aligned-copy phase: runs only when both boundary markers are present.
pub open spec fn spec_copy_action(first_kf: Option<Time>, last_kf: Option<Time>) -> PhaseAction {
    if first_kf is Some && last_kf is Some {
        PhaseAction::CopySegment { from: first_kf->0, to: last_kf->0 }
    } else {
        PhaseAction::NoOp
    }
}

/// The post-roll phase: the tail sliver after the last copied keyframe is
/// re-encoded up to the requested end. When the aligned segment is empty
/// (no last marker) the tail resumes at the first keyframe instead, so the
/// window after it is still produced.
pub open spec fn spec_postroll_action(end: Time, first_kf: Option<Time>, last_kf: Option<
    Time,
>) -> PhaseAction {
    let m = if last_kf is Some {
        last_kf
    } else {
        first_kf
    };
    match m {
        None => PhaseAction::NoOp,
        Some(l) => if spec_time_lt(l, end) {
            PhaseAction::Transcode { from: l, to: end, include_from: false, include_to: true }
        } else {
            PhaseAction::NoOp
        },
    }
}

/// The central controller of one trim job: executes pre-roll, aligned copy
/// and post-roll in order, then finalizes the output, each phase possibly a
/// no-op. Boundary markers are fixed at construction and never change.
#[derive(Clone, Copy, Debug)]
pub struct Compositor {
    pub start: Time,
    pub end: Time,
    pub first_kf: Option<Time>,
    pub last_kf: Option<Time>,
    pub phase: Phase,
    pub trailer_committed: bool,
}

impl Compositor {
    pub open spec fn markers_wf(self) -> bool {
        &&& self.start.wf()
        &&& self.end.wf()
        &&& spec_time_lt(self.start, self.end)
        &&& self.first_kf matches Some(f) ==> f.wf() && spec_time_le(self.start, f)
            && spec_time_le(f, self.end)
        &&& self.last_kf matches Some(l) ==> {
            &&& l.wf()
            &&& self.first_kf matches Some(f) && spec_time_lt(f, l)
            &&& spec_time_le(l, self.end)
        }
    }

    pub open spec fn wf(self) -> bool {
        &&& self.markers_wf()
        &&& self.trailer_committed ==> self.phase == Phase::Finalized
    }

    /// The job is over: the trailer has been committed.
    pub open spec fn spec_complete(self) -> bool {
        self.trailer_committed
    }

    pub fn is_complete(&self) -> (r: bool)
        ensures
            r == self.spec_complete(),
    {
        self.trailer_committed
    }

    pub fn new(start: Time, end: Time, first_kf: Option<Time>, last_kf: Option<Time>) -> (c:
        Compositor)
        requires
            start.wf(),
            end.wf(),
            spec_time_lt(start, end),
            first_kf matches Some(f) ==> f.wf() && spec_time_le(start, f) && spec_time_le(f, end),
            last_kf matches Some(l) ==> {
                &&& l.wf()
                &&& first_kf matches Some(f) && spec_time_lt(f, l)
                &&& spec_time_le(l, end)
            },
        ensures
            c.wf(),
            c.start == start,
            c.end == end,
            c.first_kf == first_kf,
            c.last_kf == last_kf,
            c.phase == Phase::PreRoll,
            !c.trailer_committed,
    {
        Compositor { start, end, first_kf, last_kf, phase: Phase::PreRoll, trailer_committed: false }
    }

    /// Runs the state machine one phase forward and reports what the host
    /// must do for the phase just left. Transitions are unconditional in
    /// sequence; the trailer is committed exactly once, whatever earlier
    /// phases did.
    pub fn step(&mut self) -> (a: PhaseAction)
        requires
            old(self).wf(),
            !old(self).spec_complete(),
        ensures
            final(self).wf(),
            final(self).start == old(self).start,
            final(self).end == old(self).end,
            final(self).first_kf == old(self).first_kf,
            final(self).last_kf == old(self).last_kf,
            match old(self).phase {
                Phase::PreRoll => {
                    &&& a == spec_preroll_action(old(self).start, old(self).end, old(self).first_kf)
                    &&& final(self).phase == Phase::AlignedCopy
                    &&& !final(self).spec_complete()
                },
                Phase::AlignedCopy => {
                    &&& a == spec_copy_action(old(self).first_kf, old(self).last_kf)
                    &&& final(self).phase == Phase::PostRoll
                    &&& !final(self).spec_complete()
                },
                Phase::PostRoll => {
                    &&& a == spec_postroll_action(old(self).end, old(self).first_kf, old(self).last_kf)
                    &&& final(self).phase == Phase::Finalized
                    &&& !final(self).spec_complete()
                },
                Phase::Finalized => {
                    &&& a == PhaseAction::FinishOutput
                    &&& final(self).phase == Phase::Finalized
                    &&& final(self).spec_complete()
                },
            },
    {
        match self.phase {
            Phase::PreRoll => {
                self.phase = Phase::AlignedCopy;
                match self.first_kf {
                    None => PhaseAction::Transcode {
                        from: self.start,
                        to: self.end,
                        include_from: true,
                        include_to: true,
                    },
                    Some(f) => {
                        if crate::time::time_lt(&self.start, &f) {
                            PhaseAction::Transcode {
                                from: self.start,
                                to: f,
                                include_from: true,
                                include_to: false,
                            }
                        } else {
                            PhaseAction::NoOp
                        }
                    },
                }
            },
            Phase::AlignedCopy => {
                self.phase = Phase::PostRoll;
                match (self.first_kf, self.last_kf) {
                    (Some(f), Some(l)) => PhaseAction::CopySegment { from: f, to: l },
                    _ => PhaseAction::NoOp,
                }
            },
            Phase::PostRoll => {
                self.phase = Phase::Finalized;
                let m = if self.last_kf.is_some() {
                    self.last_kf
                } else {
                    self.first_kf
                };
                match m {
                    None => PhaseAction::NoOp,
                    Some(l) => {
                        if crate::time::time_lt(&l, &self.end) {
                            PhaseAction::Transcode {
                                from: l,
                                to: self.end,
                                include_from: false,
                                include_to: true,
                            }
                        } else {
                            PhaseAction::NoOp
                        }
                    },
                }
            },
            Phase::Finalized => {
                self.trailer_committed = true;
                PhaseAction::FinishOutput
            },
        }
    }

    /// Jumps forward to finalization, for the abort path: a failed job must
    /// still attempt the trailer write once the header is committed, so the
    /// output stays structurally readable.
    pub fn finish(&mut self) -> (a: PhaseAction)
        requires
            old(self).wf(),
            !old(self).spec_complete(),
        ensures
            final(self).wf(),
            final(self).phase == Phase::Finalized,
            final(self).spec_complete(),
            a == PhaseAction::FinishOutput,
    {
        self.phase = Phase::Finalized;
        self.trailer_committed = true;
        PhaseAction::FinishOutput
    }
}

/// Whether the instant `t` falls inside what a phase action produces.
pub open spec fn spec_covered_by(a: PhaseAction, t: Time) -> bool {
    match a {
        PhaseAction::Transcode { from, to, include_from, include_to } => {
            &&& if include_from {
                spec_time_le(from, t)
            } else {
                spec_time_lt(from, t)
            }
            &&& if include_to {
                spec_time_le(t, to)
            } else {
                spec_time_lt(t, to)
            }
        },
        PhaseAction::CopySegment { from, to } => spec_time_le(from, t) && spec_time_le(t, to),
        PhaseAction::NoOp => false,
        PhaseAction::FinishOutput => false,
    }
}

/// `a/ad <= b/bd` and `b/bd <= c/cd` chain, for positive denominators.
proof fn lemma_rat_le_trans(an: int, ad: int, bn: int, bd: int, cn: int, cd: int)
    by (nonlinear_arith)
    requires
        1 <= ad,
        1 <= bd,
        1 <= cd,
        an * bd <= bn * ad,
        bn * cd <= cn * bd,
    ensures
        an * cd <= cn * ad,
{
}

/// `a/ad <= b/bd` and `b/bd < c/cd` chain into a strict bound.
proof fn lemma_rat_le_lt_trans(an: int, ad: int, bn: int, bd: int, cn: int, cd: int)
    by (nonlinear_arith)
    requires
        1 <= ad,
        1 <= bd,
        1 <= cd,
        an * bd <= bn * ad,
        bn * cd < cn * bd,
    ensures
        an * cd < cn * ad,
{
}

/// `a/ad < b/bd` and `b/bd <= c/cd` chain into a strict bound.
proof fn lemma_rat_lt_le_trans(an: int, ad: int, bn: int, bd: int, cn: int, cd: int)
    by (nonlinear_arith)
    requires
        1 <= ad,
        1 <= bd,
        1 <= cd,
        an * bd < bn * ad,
        bn * cd <= cn * bd,
    ensures
        an * cd < cn * ad,
{
}

/// No instant is produced by two phases: the pre-roll stops strictly before
/// the first keyframe, the copy owns `[first_kf, last_kf]`, and the post-roll
/// starts strictly after its resume point.
pub proof fn lemma_phases_disjoint(
    start: Time,
    end: Time,
    first_kf: Option<Time>,
    last_kf: Option<Time>,
    t: Time,
)
    requires
        start.wf(),
        end.wf(),
        t.wf(),
        spec_time_lt(start, end),
        first_kf matches Some(f) ==> f.wf() && spec_time_le(start, f) && spec_time_le(f, end),
        last_kf matches Some(l) ==> {
            &&& l.wf()
            &&& first_kf matches Some(f) && spec_time_lt(f, l)
            &&& spec_time_le(l, end)
        },
    ensures
        !(spec_covered_by(spec_preroll_action(start, end, first_kf), t) && spec_covered_by(
            spec_copy_action(first_kf, last_kf),
            t,
        )),
        !(spec_covered_by(spec_copy_action(first_kf, last_kf), t) && spec_covered_by(
            spec_postroll_action(end, first_kf, last_kf),
            t,
        )),
        !(spec_covered_by(spec_preroll_action(start, end, first_kf), t) && spec_covered_by(
            spec_postroll_action(end, first_kf, last_kf),
            t,
        )),
{
    match first_kf {
        None => {},
        Some(f) => {
            // Pre-roll and post-roll could only meet if the instant sat both
            // before the first keyframe and after the post-roll's resume
            // point, which sits at or after it.
            let m = if last_kf is Some {
                last_kf->0
            } else {
                f
            };
            if spec_time_lt(t, f) && spec_time_lt(m, t) {
                lemma_rat_lt_le_trans(m.num as int, m.den as int, t.num as int, t.den as int, f.num as int, f.den as int);
                assert(spec_time_lt(m, f));
                if last_kf is Some {
                    lemma_rat_lt_le_trans(f.num as int, f.den as int, m.num as int, m.den as int, f.num as int, f.den as int);
                }
            }
        },
    }
}

/// The three planned segments exhaust the requested window: every instant of
/// `[start, end]` is produced by the pre-roll, the aligned copy or the
/// post-roll — with one exception: when the aligned segment degenerates (a
/// first keyframe was found but no later one, so the copy is empty), the
/// first keyframe's own instant is carried by no phase, and the output is the
/// window minus that single splice point. With the disjointness above, the
/// planned output laid end to end is the window itself.
pub proof fn lemma_phases_cover_window(
    start: Time,
    end: Time,
    first_kf: Option<Time>,
    last_kf: Option<Time>,
    t: Time,
)
    requires
        start.wf(),
        end.wf(),
        t.wf(),
        spec_time_lt(start, end),
        first_kf matches Some(f) ==> f.wf() && spec_time_le(start, f) && spec_time_le(f, end),
        last_kf matches Some(l) ==> {
            &&& l.wf()
            &&& first_kf matches Some(f) && spec_time_lt(f, l)
            &&& spec_time_le(l, end)
        },
        spec_time_le(start, t),
        spec_time_le(t, end),
        first_kf is Some && last_kf is None ==> !spec_time_eq(t, first_kf->0),
    ensures
        spec_covered_by(spec_preroll_action(start, end, first_kf), t) || spec_covered_by(
            spec_copy_action(first_kf, last_kf),
            t,
        ) || spec_covered_by(spec_postroll_action(end, first_kf, last_kf), t),
{
    match first_kf {
        None => {},
        Some(f) => {
            if spec_time_lt(t, f) {
                // The instant lies in the head sliver; the pre-roll runs.
                lemma_rat_le_lt_trans(start.num as int, start.den as int, t.num as int, t.den as int, f.num as int, f.den as int);
                assert(spec_time_lt(start, f));
            } else {
                // Cross-multiplied order is total: not (t < f) means f <= t.
                assert(spec_time_le(f, t));
                match last_kf {
                    Some(l) => {
                        if spec_time_le(t, l) {
                            // Inside the aligned copy segment.
                        } else {
                            assert(spec_time_lt(l, t));
                            lemma_rat_lt_le_trans(l.num as int, l.den as int, t.num as int, t.den as int, end.num as int, end.den as int);
                            assert(spec_time_lt(l, end));
                        }
                    },
                    None => {
                        // Degenerate copy: t differs from f, so f < t and the
                        // tail sliver (f, end] carries it.
                        assert(spec_time_lt(f, t));
                        lemma_rat_lt_le_trans(f.num as int, f.den as int, t.num as int, t.den as int, end.num as int, end.den as int);
                        assert(spec_time_lt(f, end));
                    },
                }
            }
        },
    }
}

} // verus!
