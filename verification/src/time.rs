use vstd::prelude::*;
use vstd::arithmetic::div_mod::{lemma_div_is_ordered, lemma_div_multiples_vanish};

verus! {

/// Largest timestamp magnitude, in ticks, that the engines accept in a packet.
/// Keeping a bit of headroom below `i64::MAX` lets rebased timestamps
/// (a difference of two accepted timestamps) always fit in an `i64`.
pub const TS_BOUND: i64 = 0x3fff_ffff_ffff_ffff;

/// Bound on the numerator of an exact time value: every `i64` tick count
/// multiplied by every `i32` time-base numerator stays within it.
pub const TIME_NUM_BOUND: i128 = 0x4000_0000_0000_0000_0000_0000;

/// Bound on the denominator of an exact time value: every `i32` time-base
/// denominator stays within it.
pub const TIME_DEN_BOUND: i64 = 0x8000_0000;

/// A stream's time base: seconds per tick, as an exact positive rational
/// `num / den`. A non-positive time base is a fatal precondition violation of
/// the external container collaborator, so well-formedness demands both parts
/// be at least one.
#[derive(Clone, Copy, Debug, PartialEq, Eq, Structural)]
pub struct TimeBase {
    pub num: i32,
    pub den: i32,
}

impl TimeBase {
    pub open spec fn wf(self) -> bool {
        1 <= self.num && 1 <= self.den
    }

    /// Builds a time base; refused when either part is not positive.
    pub fn new(num: i32, den: i32) -> (r: Option<TimeBase>)
        ensures
            match r {
                Some(tb) => tb.num == num && tb.den == den && tb.wf(),
                None => !(1 <= num && 1 <= den),
            },
    {
        if 1 <= num && 1 <= den {
            Some(TimeBase { num, den })
        } else {
            None
        }
    }
}

/// An exact point in time, in seconds, as the rational `num / den`.
/// Times are never held as floating point, so comparisons do not drift over
/// long files; all comparisons cross-multiply the exact rationals.
#[derive(Clone, Copy, Debug, PartialEq, Eq, Structural)]
pub struct Time {
    pub num: i128,
    pub den: i64,
}

impl Time {
    pub open spec fn wf(self) -> bool {
        &&& 1 <= self.den <= TIME_DEN_BOUND
        &&& -TIME_NUM_BOUND <= self.num <= TIME_NUM_BOUND
    }

    /// Builds the exact time `num / den`; refused when the denominator is out
    /// of range.
    pub fn new(num: i64, den: i64) -> (r: Option<Time>)
        ensures
            match r {
                Some(t) => 1 <= den <= TIME_DEN_BOUND && t.num == num && t.den == den && t.wf(),
                None => !(1 <= den <= TIME_DEN_BOUND),
            },
    {
        if 1 <= den && den <= TIME_DEN_BOUND {
            Some(Time { num: num as i128, den })
        } else {
            None
        }
    }
}

/// `a <= b` over exact times: cross-multiplication by the positive
/// denominators.
pub open spec fn spec_time_le(a: Time, b: Time) -> bool {
    a.num * b.den <= b.num * a.den
}

/// `a < b` over exact times.
pub open spec fn spec_time_lt(a: Time, b: Time) -> bool {
    a.num * b.den < b.num * a.den
}

/// Numeric equality of exact times (`3/1` equals `6/2`).
pub open spec fn spec_time_eq(a: Time, b: Time) -> bool {
    a.num * b.den == b.num * a.den
}

/// `|a| <= ma` and `0 <= b <= mb` bound the product `a * b`.
proof fn lemma_mul_mag(a: int, b: int, ma: int, mb: int)
    by (nonlinear_arith)
    requires
        -ma <= a <= ma,
        0 <= b <= mb,
        0 <= ma,
    ensures
        -(ma * mb) <= a * b <= ma * mb,
{
}

/// The product of two positive integers is positive.
proof fn lemma_mul_pos(a: int, b: int)
    by (nonlinear_arith)
    requires
        1 <= a,
        1 <= b,
    ensures
        1 <= a * b,
{
}

pub fn time_le(a: &Time, b: &Time) -> (r: bool)
    requires
        a.wf(),
        b.wf(),
    ensures
        r == spec_time_le(*a, *b),
{
    proof {
        lemma_mul_mag(a.num as int, b.den as int, TIME_NUM_BOUND as int, TIME_DEN_BOUND as int);
        lemma_mul_mag(b.num as int, a.den as int, TIME_NUM_BOUND as int, TIME_DEN_BOUND as int);
    }
    a.num * (b.den as i128) <= b.num * (a.den as i128)
}

pub fn time_lt(a: &Time, b: &Time) -> (r: bool)
    requires
        a.wf(),
        b.wf(),
    ensures
        r == spec_time_lt(*a, *b),
{
    proof {
        lemma_mul_mag(a.num as int, b.den as int, TIME_NUM_BOUND as int, TIME_DEN_BOUND as int);
        lemma_mul_mag(b.num as int, a.den as int, TIME_NUM_BOUND as int, TIME_DEN_BOUND as int);
    }
    a.num * (b.den as i128) < b.num * (a.den as i128)
}

pub fn time_eq(a: &Time, b: &Time) -> (r: bool)
    requires
        a.wf(),
        b.wf(),
    ensures
        r == spec_time_eq(*a, *b),
{
    proof {
        lemma_mul_mag(a.num as int, b.den as int, TIME_NUM_BOUND as int, TIME_DEN_BOUND as int);
        lemma_mul_mag(b.num as int, a.den as int, TIME_NUM_BOUND as int, TIME_DEN_BOUND as int);
    }
    a.num * (b.den as i128) == b.num * (a.den as i128)
}

/// Nearest-integer division `p / q` for positive `q`, with halves rounded
/// away from zero.
pub open spec fn round_div(p: int, q: int) -> int
    recommends
        1 <= q,
{
    if p >= 0 {
        (2 * p + q) / (2 * q)
    } else {
        -((2 * (-p) + q) / (2 * q))
    }
}

/// Bound on the dividend accepted by the executable rounding division.
pub const RD_P_BOUND: i128 = 0x2000_0000_0000_0000_0000_0000_0000_0000;

/// Bound on the divisor accepted by the executable rounding division.
pub const RD_Q_BOUND: i128 = 0x8000_0000_0000_0000;

pub(crate) fn round_div_i128(p: i128, q: i128) -> (r: i128)
    requires
        -RD_P_BOUND <= p <= RD_P_BOUND,
        1 <= q <= RD_Q_BOUND,
    ensures
        r == round_div(p as int, q as int),
        -RD_P_BOUND - 1 <= r <= RD_P_BOUND + 1,
{
    let neg: bool = p < 0;
    let m: u128 = if neg {
        (-p) as u128
    } else {
        p as u128
    };
    let qq: u128 = q as u128;
    let r: u128 = (2 * m + qq) / (2 * qq);
    proof {
        // floor((2m + q) / (2q)) <= m + 1, because 2m + q <= (m + 1) * (2q).
        assert(2 * (m as int) + (qq as int) <= (m as int + 1) * (2 * (qq as int)))
            by (nonlinear_arith)
            requires
                1 <= qq as int,
                0 <= m as int,
        ;
        lemma_div_is_ordered(
            2 * (m as int) + (qq as int),
            (m as int + 1) * (2 * (qq as int)),
            2 * (qq as int),
        );
        lemma_div_multiples_vanish(m as int + 1, 2 * (qq as int));
        assert((m as int + 1) * (2 * (qq as int)) == (2 * (qq as int)) * (m as int + 1))
            by (nonlinear_arith);
    }
    let ri: i128 = r as i128;
    if neg {
        -ri
    } else {
        ri
    }
}

/// Seconds of `ticks` ticks of time base `tb`, exact: `ticks * num / den`.
pub fn ticks_to_time(ticks: i64, tb: &TimeBase) -> (t: Time)
    requires
        tb.wf(),
    ensures
        t.wf(),
        t.num == ticks * tb.num,
        t.den == tb.den,
{
    proof {
        lemma_mul_mag(ticks as int, tb.num as int, 0x8000_0000_0000_0000, 0x8000_0000);
    }
    Time { num: (ticks as i128) * (tb.num as i128), den: tb.den as i64 }
}

/// Tick count of the exact time `t` in time base `tb`:
/// `round(t / tb) = round((t.num * tb.den) / (t.den * tb.num))`.
pub open spec fn spec_to_ticks(t: Time, tb: TimeBase) -> int {
    round_div(t.num * tb.den, t.den * tb.num)
}

pub fn to_ticks(t: &Time, tb: &TimeBase) -> (r: i64)
    requires
        t.wf(),
        tb.wf(),
        i64::MIN <= spec_to_ticks(*t, *tb) <= i64::MAX,
    ensures
        r == spec_to_ticks(*t, *tb),
{
    proof {
        lemma_mul_mag(t.num as int, tb.den as int, TIME_NUM_BOUND as int, 0x8000_0000);
        lemma_mul_pos(t.den as int, tb.num as int);
        lemma_mul_mag(t.den as int, tb.num as int, TIME_DEN_BOUND as int, 0x8000_0000);
    }
    let p: i128 = t.num * (tb.den as i128);
    let q: i128 = (t.den as i128) * (tb.num as i128);
    let r: i128 = round_div_i128(p, q);
    r as i64
}

/// `ticks` of time base `tb`, read as exact seconds, lies strictly before `t`.
pub open spec fn spec_ticks_before(ticks: int, tb: TimeBase, t: Time) -> bool {
    ticks * tb.num * t.den < t.num * tb.den
}

/// `ticks` of time base `tb`, read as exact seconds, lies strictly after `t`.
pub open spec fn spec_ticks_after(ticks: int, tb: TimeBase, t: Time) -> bool {
    ticks * tb.num * t.den > t.num * tb.den
}

pub fn ticks_before(ticks: i64, tb: &TimeBase, t: &Time) -> (r: bool)
    requires
        tb.wf(),
        t.wf(),
    ensures
        r == spec_ticks_before(ticks as int, *tb, *t),
{
    proof {
        lemma_mul_mag(ticks as int, tb.num as int, 0x8000_0000_0000_0000, 0x8000_0000);
        lemma_mul_mag(
            (ticks as int) * (tb.num as int),
            t.den as int,
            0x8000_0000_0000_0000int * 0x8000_0000int,
            TIME_DEN_BOUND as int,
        );
        lemma_mul_mag(t.num as int, tb.den as int, TIME_NUM_BOUND as int, 0x8000_0000);
    }
    (ticks as i128) * (tb.num as i128) * (t.den as i128) < t.num * (tb.den as i128)
}

pub fn ticks_after(ticks: i64, tb: &TimeBase, t: &Time) -> (r: bool)
    requires
        tb.wf(),
        t.wf(),
    ensures
        r == spec_ticks_after(ticks as int, *tb, *t),
{
    proof {
        lemma_mul_mag(ticks as int, tb.num as int, 0x8000_0000_0000_0000, 0x8000_0000);
        lemma_mul_mag(
            (ticks as int) * (tb.num as int),
            t.den as int,
            0x8000_0000_0000_0000int * 0x8000_0000int,
            TIME_DEN_BOUND as int,
        );
        lemma_mul_mag(t.num as int, tb.den as int, TIME_NUM_BOUND as int, 0x8000_0000);
    }
    (ticks as i128) * (tb.num as i128) * (t.den as i128) > t.num * (tb.den as i128)
}

/// Timestamp rescaling between time bases:
/// `round(ts * (from.num / from.den) / (to.num / to.den))`.
pub open spec fn spec_rescale(ts: int, from: TimeBase, to: TimeBase) -> int {
    round_div(ts * from.num * to.den, from.den * to.num)
}

/// Moves a tick count from one time base to another, rounding to the nearest
/// tick. Returns `None` exactly when the rescaled value does not fit in an
/// `i64`.
pub fn rescale_ts(ts: i64, from: &TimeBase, to: &TimeBase) -> (r: Option<i64>)
    requires
        from.wf(),
        to.wf(),
    ensures
        match r {
            Some(v) => v == spec_rescale(ts as int, *from, *to),
            None => !(i64::MIN <= spec_rescale(ts as int, *from, *to) <= i64::MAX),
        },
{
    proof {
        lemma_mul_mag(ts as int, from.num as int, 0x8000_0000_0000_0000, 0x8000_0000);
        lemma_mul_mag(
            (ts as int) * (from.num as int),
            to.den as int,
            0x8000_0000_0000_0000int * 0x8000_0000int,
            0x8000_0000,
        );
        lemma_mul_pos(from.den as int, to.num as int);
        lemma_mul_mag(from.den as int, to.num as int, 0x8000_0000, 0x8000_0000);
    }
    let p: i128 = (ts as i128) * (from.num as i128) * (to.den as i128);
    let q: i128 = (from.den as i128) * (to.num as i128);
    let r: i128 = round_div_i128(p, q);
    if -0x8000_0000_0000_0000i128 <= r && r <= 0x7fff_ffff_ffff_ffffi128 {
        Some(r as i64)
    } else {
        None
    }
}

} // verus!
