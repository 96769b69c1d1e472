//! Optional instrumentation: nanoseconds spent in each phase of a
//! collective, and how often a lock was had at the first attempt.
//!
//! A recorder that is switched off ignores every call.

use vstd::prelude::*;

verus! {

/// A phase whose time is measured.
#[derive(Clone, Copy, Debug, PartialEq, Eq, Structural)]
pub enum Timer {
    /// Waiting at the barrier.
    Barrier,
    /// Adding elements.
    Compute,
    /// Copying between a rank's buffer and the shared window.
    Copy,
    /// Spinning for a lock.
    Mutex,
    /// A whole collective call.
    Total,
    /// Zeroing the shared window.
    Zero,
}

/// An event that is counted.
#[derive(Clone, Copy, Debug, PartialEq, Eq, Structural)]
pub enum Counter {
    /// A lock was taken only after spinning.
    MutexContended,
    /// A lock was taken at the first attempt.
    MutexUncontended,
}

/// The recorder: one sum of nanoseconds per timer and one count per counter.
/// The sums wrap around like the machine words they are.
pub struct Metrics {
    enabled: bool,
    barrier: u64,
    compute: u64,
    copy: u64,
    mutex: u64,
    total: u64,
    zero: u64,
    contended: u64,
    uncontended: u64,
}

/// The counter that a taken lock is counted in: the contended one if the
/// taker had to spin, the uncontended one if its first attempt succeeded.
pub open spec fn spec_lock_counter(spun: bool) -> Counter {
    if spun {
        Counter::MutexContended
    } else {
        Counter::MutexUncontended
    }
}

/// The counter that a taken lock is counted in.
pub fn lock_counter(spun: bool) -> (counter: Counter)
    ensures
        counter == spec_lock_counter(spun),
{
    if spun {
        Counter::MutexContended
    } else {
        Counter::MutexUncontended
    }
}

/// One line of a breakdown: a phase, the nanoseconds spent in it, and the
/// number of decimals with which to print them as microseconds.
#[derive(Clone, Copy, Debug, PartialEq, Eq, Structural)]
pub struct Line {
    pub timer: Timer,
    pub nanos: u64,
    pub precision: usize,
}

/// The breakdown that `dump` gives: the total, then the phases in the order
/// zero, copy, compute, barrier, mutex, then the two lock counts.
#[derive(Clone, Copy, Debug, PartialEq, Eq, Structural)]
pub struct Report {
    pub total: Line,
    pub zero: Line,
    pub copy: Line,
    pub compute: Line,
    pub barrier: Line,
    pub mutex: Line,
    pub uncontended: u64,
    pub contended: u64,
}

/// Number of decimals for a time in microseconds: fewer for a longer time,
/// so that about four digits show.
pub open spec fn spec_precision(nanos: u64) -> usize {
    if nanos <= 999 {
        3
    } else if nanos <= 9_999 {
        2
    } else if nanos <= 99_999 {
        1
    } else {
        0
    }
}

/// Number of decimals for a time in microseconds.
pub fn precision(nanos: u64) -> (digits: usize)
    ensures
        digits == spec_precision(nanos),
{
    if nanos <= 999 {
        3
    } else if nanos <= 9_999 {
        2
    } else if nanos <= 99_999 {
        1
    } else {
        0
    }
}

/// `sum` with `nanos` added, wrapping around at 64 bits.
pub open spec fn wrapping_sum(sum: u64, nanos: u64) -> u64 {
    if sum + nanos > u64::MAX {
        (sum + nanos - 0x1_0000_0000_0000_0000) as u64
    } else {
        (sum + nanos) as u64
    }
}

impl Metrics {
    /// Whether the recorder records.
    pub closed spec fn spec_enabled(&self) -> bool {
        self.enabled
    }

    /// The nanoseconds recorded for a timer.
    pub closed spec fn spec_timer(&self, timer: Timer) -> u64 {
        match timer {
            Timer::Barrier => self.barrier,
            Timer::Compute => self.compute,
            Timer::Copy => self.copy,
            Timer::Mutex => self.mutex,
            Timer::Total => self.total,
            Timer::Zero => self.zero,
        }
    }

    /// The count recorded for a counter.
    pub closed spec fn spec_counter(&self, counter: Counter) -> u64 {
        match counter {
            Counter::MutexContended => self.contended,
            Counter::MutexUncontended => self.uncontended,
        }
    }

    /// Whether two recorders hold the same sums and counts.
    pub open spec fn same_records(&self, other: &Metrics) -> bool {
        &&& forall|timer: Timer| self.spec_timer(timer) == other.spec_timer(timer)
        &&& forall|counter: Counter| self.spec_counter(counter) == other.spec_counter(counter)
    }

    /// Whether nothing has been recorded.
    pub open spec fn is_clear(&self) -> bool {
        &&& forall|timer: Timer| self.spec_timer(timer) == 0
        &&& forall|counter: Counter| self.spec_counter(counter) == 0
    }

    /// A recorder with nothing recorded, switched on or off for good.
    pub fn new(enabled: bool) -> (metrics: Metrics)
        ensures
            metrics.spec_enabled() == enabled,
            metrics.is_clear(),
    {
        Metrics {
            enabled,
            barrier: 0,
            compute: 0,
            copy: 0,
            mutex: 0,
            total: 0,
            zero: 0,
            contended: 0,
            uncontended: 0,
        }
    }

    /// Whether the recorder records.
    #[verifier::when_used_as_spec(spec_enabled)]
    pub fn enabled(&self) -> (enabled: bool)
        ensures
            enabled == self.spec_enabled(),
    {
        self.enabled
    }

    /// The nanoseconds recorded for a timer.
    #[verifier::when_used_as_spec(spec_timer)]
    pub fn timer(&self, timer: Timer) -> (nanos: u64)
        ensures
            nanos == self.spec_timer(timer),
    {
        match timer {
            Timer::Barrier => self.barrier,
            Timer::Compute => self.compute,
            Timer::Copy => self.copy,
            Timer::Mutex => self.mutex,
            Timer::Total => self.total,
            Timer::Zero => self.zero,
        }
    }

    /// The count recorded for a counter.
    #[verifier::when_used_as_spec(spec_counter)]
    pub fn counter(&self, counter: Counter) -> (count: u64)
        ensures
            count == self.spec_counter(counter),
    {
        match counter {
            Counter::MutexContended => self.contended,
            Counter::MutexUncontended => self.uncontended,
        }
    }

    /// Adds `nanos` to a timer, if the recorder is switched on.
    pub fn time(&mut self, timer: Timer, nanos: u64)
        ensures
            final(self).spec_enabled() == old(self).spec_enabled(),
            forall|other: Timer|
                other != timer ==> final(self).spec_timer(other) == old(self).spec_timer(other),
            forall|counter: Counter|
                final(self).spec_counter(counter) == old(self).spec_counter(counter),
            final(self).spec_timer(timer) == if old(self).spec_enabled() {
                wrapping_sum(old(self).spec_timer(timer), nanos)
            } else {
                old(self).spec_timer(timer)
            },
    {
        if self.enabled {
            match timer {
                Timer::Barrier => { self.barrier = self.barrier.wrapping_add(nanos); },
                Timer::Compute => { self.compute = self.compute.wrapping_add(nanos); },
                Timer::Copy => { self.copy = self.copy.wrapping_add(nanos); },
                Timer::Mutex => { self.mutex = self.mutex.wrapping_add(nanos); },
                Timer::Total => { self.total = self.total.wrapping_add(nanos); },
                Timer::Zero => { self.zero = self.zero.wrapping_add(nanos); },
            }
        }
    }

    /// Adds one to a counter, if the recorder is switched on.
    pub fn increment(&mut self, counter: Counter)
        ensures
            final(self).spec_enabled() == old(self).spec_enabled(),
            forall|timer: Timer| final(self).spec_timer(timer) == old(self).spec_timer(timer),
            forall|other: Counter|
                other != counter ==> final(self).spec_counter(other) == old(self).spec_counter(
                    other,
                ),
            final(self).spec_counter(counter) == if old(self).spec_enabled() {
                wrapping_sum(old(self).spec_counter(counter), 1)
            } else {
                old(self).spec_counter(counter)
            },
    {
        if self.enabled {
            match counter {
                Counter::MutexContended => { self.contended = self.contended.wrapping_add(1); },
                Counter::MutexUncontended => {
                    self.uncontended = self.uncontended.wrapping_add(1);
                },
            }
        }
    }
}

/// The line of a breakdown for one timer.
pub open spec fn line_of(metrics: &Metrics, timer: Timer) -> Line {
    Line {
        timer,
        nanos: metrics.spec_timer(timer),
        precision: spec_precision(metrics.spec_timer(timer)),
    }
}

/// The breakdown of what a recorder holds.
pub open spec fn report_of(metrics: &Metrics) -> Report {
    Report {
        total: line_of(metrics, Timer::Total),
        zero: line_of(metrics, Timer::Zero),
        copy: line_of(metrics, Timer::Copy),
        compute: line_of(metrics, Timer::Compute),
        barrier: line_of(metrics, Timer::Barrier),
        mutex: line_of(metrics, Timer::Mutex),
        uncontended: metrics.spec_counter(Counter::MutexUncontended),
        contended: metrics.spec_counter(Counter::MutexContended),
    }
}

fn line(metrics: &Metrics, timer: Timer) -> (line: Line)
    ensures
        line == line_of(metrics, timer),
{
    let nanos: u64 = metrics.timer(timer);
    Line { timer, nanos, precision: precision(nanos) }
}

/// The breakdown of what has been recorded, for the caller to print; none
/// from a recorder that is switched off.
pub fn dump(metrics: &Metrics) -> (report: Option<Report>)
    ensures
        report == if metrics.spec_enabled() {
            Some(report_of(metrics))
        } else {
            None
        },
{
    if metrics.enabled() {
        Some(
            Report {
                total: line(metrics, Timer::Total),
                zero: line(metrics, Timer::Zero),
                copy: line(metrics, Timer::Copy),
                compute: line(metrics, Timer::Compute),
                barrier: line(metrics, Timer::Barrier),
                mutex: line(metrics, Timer::Mutex),
                uncontended: metrics.counter(Counter::MutexUncontended),
                contended: metrics.counter(Counter::MutexContended),
            },
        )
    } else {
        None
    }
}

/// Forgets everything that has been recorded. A recorder that is switched
/// off is left as it is.
pub fn reset(metrics: &mut Metrics)
    ensures
        final(metrics).spec_enabled() == old(metrics).spec_enabled(),
        old(metrics).spec_enabled() ==> final(metrics).is_clear(),
        !old(metrics).spec_enabled() ==> final(metrics).same_records(old(metrics)),
{
    if !metrics.enabled {
        return;
    }
    metrics.barrier = 0;
    metrics.compute = 0;
    metrics.copy = 0;
    metrics.mutex = 0;
    metrics.total = 0;
    metrics.zero = 0;
    metrics.contended = 0;
    metrics.uncontended = 0;
}

} // verus!
