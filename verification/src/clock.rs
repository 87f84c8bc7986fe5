//! Time, counted in ticks of the processor.
use vstd::prelude::*;

use crate::xhci::Deadline;

verus! {

/// The rate that is taken where the processor does not tell its own.
pub const DEFAULT_TICKS_PER_SECOND: u64 = 3_000_000_000;

/// No clock is taken to be slower.
pub const MIN_TICKS_PER_SECOND: u64 = 1_000_000;

/// What the processor tells of its clock: the frequency of a crystal, and the ratio of the
/// ticks to it.
#[derive(Clone, Copy, Debug, PartialEq, Eq, Structural)]
pub struct CrystalInfo {
    pub denominator: u32,
    pub numerator: u32,
    pub crystal_hz: u32,
}

/// The rate that the processor tells, if it does.
pub open spec fn told_rate(info: CrystalInfo) -> Option<int> {
    if info.numerator == 0 || info.crystal_hz == 0 || info.denominator == 0 {
        None
    } else {
        Some(info.crystal_hz * info.numerator / (info.denominator as int))
    }
}

/// The rate of the clock.
pub open spec fn rate(info: CrystalInfo) -> int {
    let told = match told_rate(info) {
        Some(rate) => rate,
        None => DEFAULT_TICKS_PER_SECOND as int,
    };
    if told < MIN_TICKS_PER_SECOND {
        MIN_TICKS_PER_SECOND as int
    } else {
        told
    }
}

/// The tick that lies a number of seconds ahead, or the last of all.
pub open spec fn ahead(now: u64, secs: u64, ticks_per_second: u64) -> u64 {
    if now + secs * ticks_per_second > u64::MAX {
        u64::MAX
    } else {
        (now + secs * ticks_per_second) as u64
    }
}

/// A clock with a known rate.
pub struct TscClock {
    ticks_per_second: u64,
}

/// The tick that lies a number of seconds ahead, or the last of all.
pub fn deadline_after(now: u64, secs: u64, ticks_per_second: u64) -> (deadline: u64)
    ensures
        deadline == ahead(now, secs, ticks_per_second),
{
    let span: u64 = match secs.checked_mul(ticks_per_second) {
        Some(span) => span,
        None => u64::MAX,
    };
    match now.checked_add(span) {
        Some(deadline) => deadline,
        None => u64::MAX,
    }
}

impl TscClock {
    pub closed spec fn ticks(&self) -> u64 {
        self.ticks_per_second
    }

    /// A clock that ticks as the processor tells.
    pub fn calibrate(info: CrystalInfo) -> (clock: TscClock)
        ensures
            clock.ticks() == rate(info),
    {
        let tps: u64 = match crystal_rate(info) {
            Some(tps) => tps,
            None => DEFAULT_TICKS_PER_SECOND,
        };
        TscClock {
            ticks_per_second: if tps < MIN_TICKS_PER_SECOND {
                MIN_TICKS_PER_SECOND
            } else {
                tps
            },
        }
    }

    pub fn ticks_per_second(&self) -> (tps: u64)
        ensures
            tps == self.ticks(),
    {
        self.ticks_per_second
    }

    /// The deadline a number of seconds after the tick `now`.
    pub fn deadline_secs(&self, now: u64, secs: u64) -> (deadline: Deadline)
        ensures
            deadline == Deadline(ahead(now, secs, self.ticks())),
    {
        Deadline(deadline_after(now, secs, self.ticks_per_second))
    }

    /// Whether a deadline has passed at the tick `now`.
    pub fn expired(&self, now: u64, deadline: Deadline) -> (r: bool)
        ensures
            r == (now >= deadline.0),
    {
        now >= deadline.0
    }
}

/// The rate that the processor tells, if it does.
fn crystal_rate(info: CrystalInfo) -> (r: Option<u64>)
    ensures
        match r {
            Some(rate) => told_rate(info) == Some(rate as int),
            None => told_rate(info) is None,
        },
{
    if info.numerator == 0 || info.crystal_hz == 0 || info.denominator == 0 {
        return None;
    }
    assert(info.crystal_hz * info.numerator <= u32::MAX * u32::MAX) by (nonlinear_arith)
        requires
            info.crystal_hz <= u32::MAX,
            info.numerator <= u32::MAX,
    ;
    Some(info.crystal_hz as u64 * info.numerator as u64 / info.denominator as u64)
}

/// A deadline that lies seconds ahead has not passed yet, unless time is at its end; and a later
/// start or a longer wait never gives an earlier deadline.
pub proof fn law_deadlines_lie_ahead(
    info: CrystalInfo,
    now: u64,
    secs: u64,
    later: u64,
    longer: u64,
)
    requires
        secs > 0,
        now <= later,
        secs <= longer,
        rate(info) <= u64::MAX,
    ensures
        now < u64::MAX ==> now < ahead(now, secs, rate(info) as u64),
        ahead(now, secs, rate(info) as u64) <= ahead(later, longer, rate(info) as u64),
{
    let tps = rate(info);
    assert(secs * tps >= tps) by (nonlinear_arith)
        requires
            secs >= 1,
            tps >= 0,
    ;
    assert(secs * tps <= longer * tps) by (nonlinear_arith)
        requires
            secs <= longer,
            tps >= 0,
    ;
}

/// The clock counts as many ticks in a second as the processor tells, rounded down: its crystal
/// makes `crystal_hz` of them for each `denominator` of `numerator`. What is told badly counts
/// as 3 GHz, and nothing counts as less than 1 MHz.
pub proof fn law_the_rate_is_what_is_told(info: CrystalInfo)
    ensures
        ({
            let known = info.numerator != 0 && info.crystal_hz != 0 && info.denominator != 0;
            let ticks = info.crystal_hz * info.numerator;
            &&& rate(info) >= 1_000_000
            &&& !known ==> rate(info) == 3_000_000_000
            &&& known ==> ticks < (rate(info) + 1) * info.denominator
            &&& known && rate(info) > 1_000_000 ==> rate(info) * info.denominator <= ticks
        }),
{
    let ticks = info.crystal_hz * info.numerator;
    let d = info.denominator as int;
    if d != 0 {
        let q = ticks / d;
        assert(q * d <= ticks < (q + 1) * d) by (nonlinear_arith)
            requires
                d > 0,
                q == ticks / d,
        ;
        let r = rate(info);
        if info.numerator != 0 && info.crystal_hz != 0 {
            assert((q + 1) * d <= (r + 1) * d) by (nonlinear_arith)
                requires
                    q <= r,
                    d > 0,
            ;
        }
    }
}

} // verus!
