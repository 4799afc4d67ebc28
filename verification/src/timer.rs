use vstd::arithmetic::div_mod::lemma_fundamental_div_mod;
use vstd::prelude::*;

verus! {

/// A debounce timer. Each `tick` hands it the wall-clock time that
/// elapsed since the previous `tick` (or since construction); the timer
/// reports `true` when at least the remaining budget has elapsed, and rolls
/// part of the overshoot into the next window instead of resetting.
pub struct Timer {
    /// Minimum spacing between positive reports, in milliseconds.
    pub interval_ms: u64,
    /// Budget that must still elapse before the next positive report.
    pub left_ms: u64,
}

/// Whether a tick with the given remaining budget fires on `elapsed`.
pub open spec fn tick_fires(left: int, elapsed: int) -> bool {
    left <= elapsed
}

/// The remaining budget after a tick: a firing tick keeps the fraction of an
/// interval that the elapsed time did not fill; a silent tick just consumes
/// the elapsed time.
pub open spec fn tick_left(interval: int, left: int, elapsed: int) -> int {
    if tick_fires(left, elapsed) {
        interval - elapsed % interval
    } else {
        left - elapsed
    }
}

/// How many ticks of a whole run fire, starting from budget `left`.
pub open spec fn fire_count(interval: int, left: int, elapseds: Seq<int>) -> int
    decreases elapseds.len(),
{
    if elapseds.len() == 0 {
        0
    } else {
        (if tick_fires(left, elapseds[0]) {
            1int
        } else {
            0int
        }) + fire_count(interval, tick_left(interval, left, elapseds[0]), elapseds.drop_first())
    }
}

/// Total elapsed time of a run of ticks.
pub open spec fn elapsed_total(elapseds: Seq<int>) -> int
    decreases elapseds.len(),
{
    if elapseds.len() == 0 {
        0
    } else {
        elapseds[0] + elapsed_total(elapseds.drop_first())
    }
}

impl Timer {
    /// The remaining budget never exceeds one full interval, and never
    /// reaches zero between ticks.
    pub open spec fn wf(self) -> bool {
        0 < self.left_ms <= self.interval_ms
    }

    pub fn new(interval_ms: u64) -> (t: Timer)
        requires
            interval_ms > 0,
        ensures
            t.wf(),
            t.interval_ms == interval_ms,
            t.left_ms == interval_ms,
    {
        Timer { interval_ms, left_ms: interval_ms }
    }

    /// Consume `elapsed_ms` of wall-clock time; report whether a progress report is due.
    pub fn tick(&mut self, elapsed_ms: u64) -> (fired: bool)
        requires
            old(self).wf(),
        ensures
            final(self).wf(),
            final(self).interval_ms == old(self).interval_ms,
            fired == tick_fires(old(self).left_ms as int, elapsed_ms as int),
            final(self).left_ms == tick_left(
                old(self).interval_ms as int,
                old(self).left_ms as int,
                elapsed_ms as int,
            ),
    {
        if self.left_ms <= elapsed_ms {
            let r = Self::rem(elapsed_ms, self.interval_ms);
            self.left_ms = self.interval_ms - r;
            true
        } else {
            self.left_ms = self.left_ms - elapsed_ms;
            false
        }
    }

    /// Remainder by repeated subtraction.
    fn rem(d1: u64, d2: u64) -> (r: u64)
        requires
            d2 > 0,
        ensures
            r == d1 as int % d2 as int,
    {
        let mut x = d1;
        while x >= d2
            invariant
                d2 > 0,
                x as int % d2 as int == d1 as int % d2 as int,
            decreases x,
        {
            proof {
                assert((x - d2) % d2 as int == x as int % d2 as int) by (nonlinear_arith)
                    requires
                        x >= d2,
                        d2 > 0,
                ;
            }
            x = x - d2;
        }
        proof {
            assert(x as int % d2 as int == x as int) by (nonlinear_arith)
                requires
                    0 <= x < d2,
            ;
        }
        x
    }
}

/// Throttling law, general form: whatever the elapsed values, a run of ticks
/// fires at most about twice per interval of total elapsed time. The factor
/// of two is tight: after a fire, only the elapsed time modulo one interval
/// is carried into the next window, which can halve the effective spacing.
pub proof fn lemma_throttle_bound_general(interval: int, left: int, elapseds: Seq<int>)
    requires
        0 < left <= interval,
        forall|k: int| 0 <= k < elapseds.len() ==> elapseds[k] >= 0,
    ensures
        fire_count(interval, left, elapseds) * interval <= 2 * elapsed_total(elapseds) + (
        interval - left),
    decreases elapseds.len(),
{
    if elapseds.len() > 0 {
        let e = elapseds[0];
        let rest = elapseds.drop_first();
        assert(forall|k: int|
            0 <= k < rest.len() ==> rest[k] == elapseds[k + 1] && elapseds[k + 1] >= 0);
        if tick_fires(left, e) {
            let r = e % interval;
            assert(0 <= r < interval && r <= e) by (nonlinear_arith)
                requires
                    interval > 0,
                    e >= 0,
                    r == e % interval,
            ;
            let left2 = interval - r;
            lemma_throttle_bound_general(interval, left2, rest);
            assert(fire_count(interval, left, elapseds) == 1 + fire_count(
                interval,
                left2,
                rest,
            ));
            assert((1 + fire_count(interval, left2, rest)) * interval == interval + fire_count(
                interval,
                left2,
                rest,
            ) * interval) by (nonlinear_arith);
        } else {
            lemma_throttle_bound_general(interval, left - e, rest);
        }
    }
}

/// Throttling law, exact form: over any run of ticks in which every elapsed
/// value is a whole number of intervals, the timer fires at most
/// total-elapsed / interval times.
pub proof fn lemma_throttle_bound(interval: int, left: int, elapseds: Seq<int>)
    requires
        0 < left <= interval,
        forall|k: int| 0 <= k < elapseds.len() ==> elapseds[k] >= 0,
        forall|k: int| 0 <= k < elapseds.len() ==> #[trigger] elapseds[k] % interval == 0,
    ensures
        fire_count(interval, left, elapseds) * interval <= elapsed_total(elapseds),
    decreases elapseds.len(),
{
    if elapseds.len() > 0 {
        let e = elapseds[0];
        let rest = elapseds.drop_first();
        assert(forall|k: int|
            0 <= k < rest.len() ==> rest[k] == elapseds[k + 1] && #[trigger] (rest[k] % interval)
                == 0 && rest[k] >= 0);
        if tick_fires(left, e) {
            // A firing tick consumed at least one full interval.
            let q = e / interval;
            lemma_fundamental_div_mod(e, interval);
            assert(e == interval * q);
            assert(q >= 1 && interval * q >= interval) by (nonlinear_arith)
                requires
                    e == interval * q,
                    e >= left,
                    0 < left <= interval,
            ;
            assert(e % interval == 0);
            lemma_throttle_bound(interval, interval, rest);
            assert(fire_count(interval, left, elapseds) == 1 + fire_count(
                interval,
                interval,
                rest,
            ));
            assert((1 + fire_count(interval, interval, rest)) * interval == interval + fire_count(
                interval,
                interval,
                rest,
            ) * interval) by (nonlinear_arith);
        } else {
            lemma_throttle_bound(interval, left - e, rest);
        }
    }
}

} // verus!
