use collective::bench::Allreduce;
use collective::bench::Benchmark;
use collective::bench::Broadcast;
use collective::bench::Configuration;
use collective::bench::Operation;
use collective::datatype::Datatype;
use collective::datatype::MpiType;

#[test]
fn sum_mut_adds() {
    let mut value = 40i32;
    value.sum_mut(&2);
    assert_eq!(value, 42);
    let mut small = -5i8;
    small.sum_mut(&-6);
    assert_eq!(small, -11);
}

#[test]
fn sum_mut_wraps() {
    let mut value = i32::MAX;
    value.sum_mut(&1);
    assert_eq!(value, i32::MIN);
    let mut small = i8::MIN;
    small.sum_mut(&-1);
    assert_eq!(small, i8::MAX);
}

#[test]
fn zero_and_size() {
    assert_eq!(<i32 as MpiType>::zero(), 0);
    assert_eq!(<i8 as MpiType>::zero(), 0);
    assert_eq!(<i32 as MpiType>::size(), 4);
    assert_eq!(<i8 as MpiType>::size(), 1);
    assert_eq!(Datatype::Float32.size(), 4);
    assert_eq!(Datatype::Int32.size(), 4);
    assert_eq!(Datatype::Int8.size(), 1);
}

#[test]
fn tags_are_recognized_in_order() {
    assert_eq!(Datatype::recognize(true, true, false, false), Some(Datatype::Float32));
    assert_eq!(Datatype::recognize(true, false, true, false), Some(Datatype::Int32));
    assert_eq!(Datatype::recognize(true, false, false, true), Some(Datatype::Int8));
    assert_eq!(Datatype::recognize(true, true, true, true), Some(Datatype::Float32));
    assert_eq!(Datatype::recognize(true, false, true, true), Some(Datatype::Int32));
    assert_eq!(Datatype::recognize(true, false, false, false), None);
}

#[test]
fn an_operation_other_than_the_sum_is_skipped() {
    assert_eq!(Datatype::recognize(false, true, false, false), None);
    assert_eq!(Datatype::recognize(false, false, true, false), None);
    assert_eq!(Datatype::recognize(false, false, false, true), None);
    assert_eq!(Datatype::recognize(false, false, false, false), None);
}

#[test]
fn expected_values_of_the_ramp() {
    assert_eq!(Allreduce::local(3, 5), 8);
    for index in 0..16 {
        assert_eq!(Allreduce::expected(4, index), 6 + 4 * index);
    }
    assert_eq!(Allreduce::expected(1, 9), 9);
    assert_eq!(Allreduce::expected(7, 0), 21);
    assert_eq!(Broadcast::expected(0), 0);
    assert_eq!(Broadcast::expected(255), 255);
    assert_eq!(Broadcast::expected(256), 0);
    assert_eq!(Broadcast::expected(1000), 232);
}

#[test]
fn warm_up_runs_are_not_recorded() {
    let configuration =
        Configuration { iterations: 1000, warmup: 200, sizes: vec![64, 4096], validate: true };
    assert_eq!(configuration.runs(), 1200);
    assert!(!configuration.records(0));
    assert!(!configuration.records(199));
    assert!(configuration.records(200));
    assert!(configuration.records(1199));
    let benchmark = Benchmark::Allreduce(Allreduce { operation: Operation::Sum });
    assert_ne!(benchmark, Benchmark::Summarize);
    assert_eq!(Benchmark::Broadcast(Broadcast), Benchmark::Broadcast(Broadcast));
}
