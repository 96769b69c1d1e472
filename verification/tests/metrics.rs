use collective::metrics::dump;
use collective::metrics::lock_counter;
use collective::metrics::precision;
use collective::metrics::reset;
use collective::metrics::Counter;
use collective::metrics::Line;
use collective::metrics::Metrics;
use collective::metrics::Timer;

#[test]
fn precision_by_magnitude() {
    assert_eq!(precision(0), 3);
    assert_eq!(precision(999), 3);
    assert_eq!(precision(1_000), 2);
    assert_eq!(precision(9_999), 2);
    assert_eq!(precision(10_000), 1);
    assert_eq!(precision(99_999), 1);
    assert_eq!(precision(100_000), 0);
    assert_eq!(precision(u64::MAX), 0);
}

#[test]
fn a_recorder_that_is_off_records_nothing() {
    let mut metrics = Metrics::new(false);
    metrics.time(Timer::Total, 500);
    metrics.increment(Counter::MutexContended);
    assert_eq!(metrics.timer(Timer::Total), 0);
    assert_eq!(metrics.counter(Counter::MutexContended), 0);
    assert_eq!(dump(&metrics), None);
    reset(&mut metrics);
    assert!(!metrics.enabled());
}

#[test]
fn times_add_up_per_timer() {
    let mut metrics = Metrics::new(true);
    metrics.time(Timer::Barrier, 700);
    metrics.time(Timer::Barrier, 800);
    metrics.time(Timer::Compute, 12_345);
    metrics.time(Timer::Copy, 1);
    metrics.time(Timer::Mutex, 99_999);
    metrics.time(Timer::Zero, 100_000);
    metrics.time(Timer::Total, 250_000);
    metrics.increment(Counter::MutexUncontended);
    metrics.increment(Counter::MutexUncontended);
    metrics.increment(Counter::MutexContended);
    let report = dump(&metrics).unwrap();
    assert_eq!(report.total, Line { timer: Timer::Total, nanos: 250_000, precision: 0 });
    assert_eq!(report.zero, Line { timer: Timer::Zero, nanos: 100_000, precision: 0 });
    assert_eq!(report.copy, Line { timer: Timer::Copy, nanos: 1, precision: 3 });
    assert_eq!(report.compute, Line { timer: Timer::Compute, nanos: 12_345, precision: 1 });
    assert_eq!(report.barrier, Line { timer: Timer::Barrier, nanos: 1_500, precision: 2 });
    assert_eq!(report.mutex, Line { timer: Timer::Mutex, nanos: 99_999, precision: 1 });
    assert_eq!(report.uncontended, 2);
    assert_eq!(report.contended, 1);
}

#[test]
fn times_wrap_around() {
    let mut metrics = Metrics::new(true);
    metrics.time(Timer::Copy, u64::MAX);
    metrics.time(Timer::Copy, 3);
    assert_eq!(metrics.timer(Timer::Copy), 2);
}

#[test]
fn reset_forgets() {
    let mut metrics = Metrics::new(true);
    metrics.time(Timer::Zero, 5);
    metrics.increment(Counter::MutexContended);
    reset(&mut metrics);
    assert!(metrics.enabled());
    for timer in [Timer::Barrier, Timer::Compute, Timer::Copy, Timer::Mutex, Timer::Total, Timer::Zero] {
        assert_eq!(metrics.timer(timer), 0);
    }
    assert_eq!(metrics.counter(Counter::MutexContended), 0);
    assert_eq!(metrics.counter(Counter::MutexUncontended), 0);
    let report = dump(&metrics).unwrap();
    assert_eq!(report.total.nanos, 0);
    assert_eq!(report.total.precision, 3);
}

#[test]
fn a_taken_lock_is_counted_once() {
    assert_eq!(lock_counter(false), Counter::MutexUncontended);
    assert_eq!(lock_counter(true), Counter::MutexContended);
}
