//! An exponential backoff schedule: an endless stream of delays, each one
//! the previous one times a factor, up to a maximum delay that is then
//! repeated from then on.
use vstd::prelude::*;

verus! {

/// The number of nanoseconds in a second.
pub const NANOS_PER_SEC: u32 = 1_000_000_000;

/// The longest delay, in nanoseconds: `u64::MAX` seconds and 999_999_999
/// nanoseconds.
pub open spec fn max_delay_nanos() -> int {
    u64::MAX as int * NANOS_PER_SEC as int + (NANOS_PER_SEC as int - 1)
}

/// A span of time, in whole seconds and the nanoseconds of the last second.
#[derive(Clone, Copy)]
pub struct Delay {
    secs: u64,
    nanos: u32,
}

impl Delay {
    /// The nanoseconds of the last second are fewer than a second.
    pub closed spec fn wf(self) -> bool {
        self.nanos < NANOS_PER_SEC
    }

    /// The length of the span, in nanoseconds.
    pub closed spec fn total(self) -> int {
        self.secs as int * NANOS_PER_SEC as int + self.nanos as int
    }

    proof fn lemma_total_bounds(self)
        requires
            self.wf(),
        ensures
            0 <= self.total() <= max_delay_nanos(),
            self.total() / NANOS_PER_SEC as int == self.secs,
            self.total() % NANOS_PER_SEC as int == self.nanos,
    {
        assert(0 <= self.secs as int * NANOS_PER_SEC as int <= u64::MAX as int * NANOS_PER_SEC as int) by (nonlinear_arith)
            requires
                self.secs <= u64::MAX,
        ;
        vstd::arithmetic::div_mod::lemma_fundamental_div_mod_converse(
            self.total(),
            NANOS_PER_SEC as int,
            self.secs as int,
            self.nanos as int,
        );
    }

    /// A span of `secs` seconds and `nanos` nanoseconds; whole seconds in
    /// `nanos` carry over into the seconds.
    pub fn new(secs: u64, nanos: u32) -> (d: Delay)
        requires
            secs + nanos / NANOS_PER_SEC <= u64::MAX,
        ensures
            d.wf(),
            d.total() == secs * NANOS_PER_SEC + nanos,
    {
        let extra = (nanos / NANOS_PER_SEC) as u64;
        let d = Delay { secs: secs + extra, nanos: nanos % NANOS_PER_SEC };
        assert(d.total() == secs * NANOS_PER_SEC + nanos) by (nonlinear_arith)
            requires
                d.secs == secs + nanos / NANOS_PER_SEC,
                d.nanos == nanos % NANOS_PER_SEC,
                NANOS_PER_SEC == 1_000_000_000,
                d.total() == d.secs as int * NANOS_PER_SEC as int + d.nanos as int,
        ;
        d
    }

    /// A span of `millis` milliseconds.
    pub fn from_millis(millis: u64) -> (d: Delay)
        ensures
            d.wf(),
            d.total() == millis * 1_000_000,
    {
        let secs = millis / 1000;
        let nanos = ((millis % 1000) * 1_000_000) as u32;
        let d = Delay { secs, nanos };
        assert(millis == 1000 * (millis / 1000) + millis % 1000);
        assert(nanos == (millis % 1000) * 1_000_000);
        assert(d.total() == secs as int * 1_000_000_000 + nanos as int);
        d
    }

    pub fn as_secs(&self) -> (s: u64)
        requires
            self.wf(),
        ensures
            s == self.total() / NANOS_PER_SEC as int,
    {
        proof {
            self.lemma_total_bounds();
        }
        self.secs
    }

    pub fn subsec_nanos(&self) -> (n: u32)
        requires
            self.wf(),
        ensures
            n == self.total() % NANOS_PER_SEC as int,
    {
        proof {
            self.lemma_total_bounds();
        }
        self.nanos
    }

    /// Whether this span is longer than `other`.
    pub fn longer_than(&self, other: &Delay) -> (b: bool)
        requires
            self.wf(),
            other.wf(),
        ensures
            b == (self.total() > other.total()),
    {
        proof {
            self.lemma_total_bounds();
            other.lemma_total_bounds();
        }
        self.secs > other.secs || (self.secs == other.secs && self.nanos > other.nanos)
    }

    /// This span times `factor`.
    pub fn times(&self, factor: u32) -> (d: Delay)
        requires
            self.wf(),
            self.total() * factor <= max_delay_nanos(),
        ensures
            d.wf(),
            d.total() == self.total() * factor,
    {
        assert(self.nanos as int * factor as int <= 1_000_000_000 * 0x1_0000_0000) by (nonlinear_arith)
            requires
                self.nanos < 1_000_000_000,
                factor <= u32::MAX,
        ;
        let total_nanos: u64 = self.nanos as u64 * factor as u64;
        let extra_secs: u64 = total_nanos / NANOS_PER_SEC as u64;
        let nanos = (total_nanos % NANOS_PER_SEC as u64) as u32;
        proof {
            self.lemma_total_bounds();
            assert(self.secs as int * factor as int * NANOS_PER_SEC as int + total_nanos == self.total() * factor) by (nonlinear_arith)
                requires
                    self.total() == self.secs as int * NANOS_PER_SEC as int + self.nanos as int,
                    total_nanos == self.nanos as int * factor as int,
            ;
            assert(total_nanos == extra_secs * NANOS_PER_SEC as int + nanos) by (nonlinear_arith)
                requires
                    extra_secs == total_nanos as int / NANOS_PER_SEC as int,
                    nanos == total_nanos as int % NANOS_PER_SEC as int,
                    NANOS_PER_SEC == 1_000_000_000,
            ;
            assert(self.secs as int * factor as int + extra_secs <= u64::MAX) by (nonlinear_arith)
                requires
                    self.secs as int * factor as int * NANOS_PER_SEC as int + extra_secs * NANOS_PER_SEC as int + nanos
                        <= u64::MAX as int * NANOS_PER_SEC as int + (NANOS_PER_SEC as int - 1),
                    0 <= nanos,
                    NANOS_PER_SEC == 1_000_000_000,
            ;
        }
        let secs = self.secs * factor as u64 + extra_secs;
        Delay { secs, nanos }
    }
}

/// An endless stream of delays: each delay is the previous one times
/// `factor`, up to `max`, which is then repeated.
pub struct ExponentialBackoff {
    curr: Delay,
    max: Delay,
    factor: u32,
}

impl ExponentialBackoff {
    /// The last delay handed out, or the starting delay.
    pub closed spec fn current(&self) -> int {
        self.curr.total()
    }

    /// The longest delay handed out.
    pub closed spec fn maximum(&self) -> int {
        self.max.total()
    }

    pub closed spec fn growth(&self) -> u32 {
        self.factor
    }

    pub closed spec fn wf(&self) -> bool {
        self.curr.wf() && self.max.wf()
    }

    pub fn new(start: Delay, max: Delay, factor: u32) -> (b: ExponentialBackoff)
        requires
            start.wf(),
            max.wf(),
        ensures
            b.wf(),
            b.current() == start.total(),
            b.maximum() == max.total(),
            b.growth() == factor,
    {
        ExponentialBackoff { curr: start, max, factor }
    }

    /// Whether the next delay would lie beyond the longest delay that can be
    /// represented.
    pub fn next_overflows(&self) -> (b: bool)
        requires
            self.wf(),
        ensures
            b == (self.current() * self.growth() > max_delay_nanos()),
    {
        proof {
            self.curr.lemma_total_bounds();
        }
        let total: u128 = self.curr.secs as u128 * NANOS_PER_SEC as u128 + self.curr.nanos as u128;
        let limit: u128 = u64::MAX as u128 * NANOS_PER_SEC as u128 + (NANOS_PER_SEC as u128 - 1);
        assert(total * self.factor <= 0x1_0000_0000_0000_0000 * 1_000_000_000 * 0x1_0000_0000) by (nonlinear_arith)
            requires
                total <= 0x1_0000_0000_0000_0000 * 1_000_000_000,
                self.factor <= u32::MAX,
        ;
        total * self.factor as u128 > limit
    }

    /// The next delay: the current one times the factor, or the maximum if
    /// that is longer. The stream never ends.
    pub fn next(&mut self) -> (d: Option<Delay>)
        requires
            old(self).wf(),
            old(self).current() * old(self).growth() <= max_delay_nanos(),
        ensures
            final(self).wf(),
            final(self).maximum() == old(self).maximum(),
            final(self).growth() == old(self).growth(),
            final(self).current() == if old(self).current() * old(self).growth() > old(self).maximum() {
                old(self).maximum()
            } else {
                old(self).current() * old(self).growth()
            },
            d is Some,
            d.unwrap().wf(),
            d.unwrap().total() == final(self).current(),
    {
        let new_next = self.curr.times(self.factor);
        self.curr = if new_next.longer_than(&self.max) {
            self.max
        } else {
            new_next
        };
        Some(self.curr)
    }
}

/// What a retrying caller does once an attempt has finished.
#[derive(Clone, Copy, Debug, PartialEq, Eq, Structural)]
pub enum RetryAction {
    /// The attempt succeeded: hand its result back.
    Return,
    /// The attempt failed and the schedule holds another delay: sleep for
    /// this attempt's delay, then try again.
    SleepThenRetry,
    /// The attempt failed and was the last one the schedule allows: hand
    /// its error back, without sleeping.
    ReturnLastError,
}

/// The decision after an attempt: a success is returned at once; a failure
/// is followed by a sleep and another attempt while the schedule has
/// another delay, and is returned as the last error when it has none. So a
/// caller sleeps after every attempt but the last.
pub fn retry_step(has_next: bool, ok: bool) -> (a: RetryAction)
    ensures
        ok ==> a == RetryAction::Return,
        !ok && has_next ==> a == RetryAction::SleepThenRetry,
        !ok && !has_next ==> a == RetryAction::ReturnLastError,
{
    if ok {
        RetryAction::Return
    } else if has_next {
        RetryAction::SleepThenRetry
    } else {
        RetryAction::ReturnLastError
    }
}

} // verus!
