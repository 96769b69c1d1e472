use collective::barrier::Barrier;

#[test]
fn barrier_size_is_a_cache_line() {
    assert_eq!(Barrier::SIZE, 64);
}

#[test]
fn nobody_is_released_before_all_have_arrived() {
    let ranks = 5u64;
    let mut barrier = Barrier::new();
    let mut thresholds = Vec::new();
    for arrived in 0..ranks {
        for threshold in &thresholds {
            assert!(!barrier.released(*threshold));
        }
        let threshold = barrier.arrive(0, ranks);
        assert_eq!(threshold, ranks);
        thresholds.push(threshold);
        assert_eq!(barrier.released(threshold), arrived + 1 == ranks);
    }
    for threshold in &thresholds {
        assert!(barrier.released(*threshold));
    }
}

#[test]
fn rounds_follow_one_another_without_a_reset() {
    let ranks = 3u64;
    let mut barrier = Barrier::new();
    let mut epochs = vec![0u64; 3];
    for round in 0..4u64 {
        let mut thresholds = vec![0u64; 3];
        for rank in [2usize, 0, 1] {
            thresholds[rank] = barrier.arrive(epochs[rank], ranks);
            assert_eq!(thresholds[rank], (round + 1) * ranks);
        }
        for rank in 0..3 {
            assert!(barrier.released(thresholds[rank]));
            assert!(!barrier.released(thresholds[rank] + 1));
            epochs[rank] = thresholds[rank];
        }
    }
}

#[test]
fn an_early_rank_of_the_next_round_does_not_release_the_slow_ones() {
    let ranks = 2u64;
    let mut barrier = Barrier::new();
    let first = barrier.arrive(0, ranks);
    let second = barrier.arrive(0, ranks);
    assert!(barrier.released(first));
    assert!(barrier.released(second));
    let next = barrier.arrive(first, ranks);
    assert_eq!(next, 4);
    assert!(!barrier.released(next));
    let last = barrier.arrive(second, ranks);
    assert!(barrier.released(next));
    assert!(barrier.released(last));
}

#[test]
fn wait_tells_whether_the_round_is_over() {
    let mut barrier = Barrier::new();
    let mut alone = 0u64;
    assert!(barrier.wait(&mut alone, 1));
    assert_eq!(alone, 1);
    assert!(barrier.wait(&mut alone, 1));
    assert_eq!(alone, 2);

    let mut barrier = Barrier::new();
    let mut epochs = vec![0u64; 3];
    for round in 1..4u64 {
        assert!(!barrier.wait(&mut epochs[1], 3));
        assert!(!barrier.released(epochs[1]));
        assert!(!barrier.wait(&mut epochs[2], 3));
        assert!(!barrier.released(epochs[1]));
        assert!(!barrier.released(epochs[2]));
        assert!(barrier.wait(&mut epochs[0], 3));
        for epoch in &epochs {
            assert_eq!(*epoch, 3 * round);
            assert!(barrier.released(*epoch));
        }
    }
}

#[test]
fn an_observed_counter_tells_whether_a_round_is_over() {
    assert!(Barrier::observed(8).released(8));
    assert!(Barrier::observed(9).released(8));
    assert!(!Barrier::observed(7).released(8));
    assert!(Barrier::observed(0).released(0));
}
