use collective::allreduce::accumulate_region;
use collective::allreduce::allreduce_multiple;
use collective::allreduce::allreduce_single;
use collective::allreduce::copy_out;
use collective::allreduce::nth_region;
use collective::allreduce::owner_bounds;
use collective::allreduce::region_bounds;
use collective::allreduce::publish;
use collective::allreduce::span_of;
use collective::allreduce::stride_of;
use collective::allreduce::sum_slice;
use collective::allreduce::zero_fill;
use collective::allreduce::Algorithm;
use collective::layout::region_count;
use collective::mutex::Mutex;

fn ramp_i32(rank: usize, len: usize) -> Vec<i32> {
    (0..len).map(|index| (rank + index) as i32).collect()
}

fn free_locks(count: usize) -> Vec<Mutex> {
    (0..count).map(|_| Mutex::new()).collect()
}

fn run_single_i32(inputs: &[Vec<i32>], shared: &mut Vec<i32>) -> Vec<Vec<i32>> {
    let ranks = inputs.len();
    let len = inputs[0].len();
    let mut locks = free_locks(region_count(len * 4));
    zero_fill(&mut shared[..]);
    for rank in 0..ranks {
        let (next, _) =
            allreduce_single(&mut locks, &mut shared[..], &inputs[rank][..], rank, ranks, 0);
        assert_eq!(next, locks.len());
    }
    assert!(locks.iter().all(|lock| !lock.is_locked()));
    let mut outputs = vec![vec![-1i32; len]; ranks];
    for rank in 0..ranks {
        copy_out(&mut outputs[rank][..], &shared[..]);
    }
    outputs
}

fn run_multiple_i32(inputs: &[Vec<i32>], result: &mut Vec<i32>) -> Vec<Vec<i32>> {
    let ranks = inputs.len();
    let len = inputs[0].len();
    let stride = stride_of::<i32>(len);
    let mut slots = vec![77i32; stride * ranks];
    zero_fill(&mut result[..]);
    for rank in (0..ranks).rev() {
        publish(&mut slots[..], &inputs[rank][..], rank, ranks);
    }
    for rank in (0..ranks).rev() {
        allreduce_multiple(&slots[..], &mut result[..], rank, ranks);
    }
    let mut outputs = vec![vec![-1i32; len]; ranks];
    for rank in 0..ranks {
        copy_out(&mut outputs[rank][..], &result[..]);
    }
    outputs
}

#[test]
fn single_four_ranks_sixteen_elements() {
    let inputs: Vec<Vec<i32>> = (0..4).map(|rank| ramp_i32(rank, 16)).collect();
    let mut shared = vec![123i32; 16];
    let outputs = run_single_i32(&inputs, &mut shared);
    for output in &outputs {
        for (index, value) in output.iter().enumerate() {
            assert_eq!(*value, 6 + 4 * index as i32);
        }
    }
}

#[test]
fn four_ranks_sixteen_elements_within_tolerance() {
    let inputs: Vec<Vec<i32>> = (0..4).map(|rank| ramp_i32(rank, 16)).collect();
    let mut shared = vec![0i32; 16];
    let mut result = vec![0i32; 16];
    let single = run_single_i32(&inputs, &mut shared);
    let multiple = run_multiple_i32(&inputs, &mut result);
    for rank in 0..4 {
        for index in 0..16 {
            let expected = (6 + 4 * index) as f32;
            assert!((single[rank][index] as f32 - expected).abs() <= 0.001);
            assert!((multiple[rank][index] as f32 - expected).abs() <= 0.001);
        }
    }
}

#[test]
fn multiple_four_ranks_sixteen_elements() {
    let inputs: Vec<Vec<i32>> = (0..4).map(|rank| ramp_i32(rank, 16)).collect();
    let mut result = vec![123i32; 16];
    let outputs = run_multiple_i32(&inputs, &mut result);
    for output in &outputs {
        for (index, value) in output.iter().enumerate() {
            assert_eq!(*value, 6 + 4 * index as i32);
        }
    }
}

#[test]
fn single_matches_closed_form_for_several_groups() {
    for ranks in [1usize, 2, 3, 5, 8] {
        for len in [0usize, 1, 7, 1024, 1025, 3000] {
            let inputs: Vec<Vec<i32>> = (0..ranks).map(|rank| ramp_i32(rank, len)).collect();
            let mut shared = vec![-9i32; len];
            let outputs = run_single_i32(&inputs, &mut shared);
            for output in &outputs {
                assert_eq!(output.len(), len);
                for (index, value) in output.iter().enumerate() {
                    let expected = ranks * (ranks - 1) / 2 + index * ranks;
                    assert_eq!(*value, expected as i32);
                }
            }
        }
    }
}

#[test]
fn algorithms_agree() {
    for ranks in [1usize, 2, 3, 4, 5] {
        for len in [1usize, 16, 1024, 2500, 5000, 5121] {
            let inputs: Vec<Vec<i32>> = (0..ranks)
                .map(|rank| (0..len).map(|index| (index * 31 + rank * 7) as i32 - 1000).collect())
                .collect();
            let mut shared = vec![5i32; len];
            let mut result = vec![6i32; len];
            let single = run_single_i32(&inputs, &mut shared);
            let multiple = run_multiple_i32(&inputs, &mut result);
            assert_eq!(single, multiple);
            for index in 0..len {
                let sum: i32 = inputs.iter().map(|input| input[index]).sum();
                assert_eq!(multiple[0][index], sum);
            }
        }
    }
}

#[test]
fn the_last_element_has_an_owner() {
    for (ranks, len) in [(2usize, 8193usize), (3, 12289), (7, 4096 * 7 + 1), (5, 1)] {
        let inputs: Vec<Vec<i8>> = (0..ranks).map(|_| vec![1i8; len]).collect();
        let stride = stride_of::<i8>(len);
        let span = span_of::<i8>(len, ranks);
        assert!(len <= span * ranks);
        let mut slots = vec![0i8; stride * ranks];
        for rank in 0..ranks {
            publish(&mut slots[..], &inputs[rank][..], rank, ranks);
        }
        let mut result = vec![9i8; len];
        zero_fill(&mut result[..]);
        for rank in 0..ranks {
            allreduce_multiple(&slots[..], &mut result[..], rank, ranks);
        }
        assert_eq!(result, vec![ranks as i8; len]);
        let mut locks = free_locks(region_count(len));
        let mut shared = vec![0i8; len];
        for rank in 0..ranks {
            allreduce_single(&mut locks, &mut shared[..], &inputs[rank][..], rank, ranks, 0);
        }
        assert_eq!(shared, result);
    }
}

#[test]
fn visits_in_any_order_give_the_same_sums() {
    let ranks = 3usize;
    let len = 3000usize;
    let inputs: Vec<Vec<i32>> = (0..ranks).map(|rank| ramp_i32(rank, len)).collect();
    let count = region_count(len * 4);
    assert_eq!(count, 3);
    let mut locks = free_locks(count);
    let mut shared = vec![0i32; len];
    let visits = [(2, 1), (0, 2), (1, 1), (0, 0), (2, 2), (1, 0), (0, 1), (2, 0), (1, 2)];
    for (rank, region) in visits {
        assert!(accumulate_region(&mut locks, &mut shared[..], &inputs[rank][..], region));
    }
    for (index, value) in shared.iter().enumerate() {
        assert_eq!(*value, (3 + 3 * index) as i32);
    }
}

#[test]
fn accumulate_region_touches_one_region_only() {
    let len = 2500usize;
    let send: Vec<i32> = (0..len).map(|index| index as i32 + 1).collect();
    let mut shared = vec![10i32; len];
    let mut locks = free_locks(3);
    assert!(accumulate_region(&mut locks, &mut shared[..], &send[..], 1));
    for index in 0..len {
        let expected = if (1024..2048).contains(&index) { 10 + index as i32 + 1 } else { 10 };
        assert_eq!(shared[index], expected);
    }
    assert!(accumulate_region(&mut locks, &mut shared[..], &send[..], 2));
    assert_eq!(shared[2047], 10 + 2048);
    assert_eq!(shared[2048], 10 + 2049);
    assert_eq!(shared[2499], 10 + 2500);
    assert_eq!(shared[0], 10);
    assert!(locks.iter().all(|lock| !lock.is_locked()));
}

#[test]
fn second_round_owes_nothing_to_the_first() {
    let first: Vec<Vec<i32>> = (0..3).map(|rank| ramp_i32(rank, 40)).collect();
    let second: Vec<Vec<i32>> =
        (0..3).map(|rank| (0..40).map(|index| 1000 * rank as i32 - index as i32).collect()).collect();
    let mut shared = vec![0i32; 40];
    let one = run_single_i32(&first, &mut shared);
    let two = run_single_i32(&second, &mut shared);
    for index in 0..40 {
        assert_eq!(one[0][index], 3 + 3 * index as i32);
        assert_eq!(two[2][index], 3000 - 3 * index as i32);
    }
    let mut result = vec![0i32; 40];
    let one = run_multiple_i32(&first, &mut result);
    let two = run_multiple_i32(&second, &mut result);
    for index in 0..40 {
        assert_eq!(one[1][index], 3 + 3 * index as i32);
        assert_eq!(two[0][index], 3000 - 3 * index as i32);
    }
}

#[test]
fn sums_wrap_around() {
    let inputs: Vec<Vec<i8>> = vec![vec![100, -100, 127], vec![100, -100, 1], vec![0, -100, 0]];
    let mut shared = vec![0i8; 3];
    let mut locks = free_locks(region_count(3));
    for rank in 0..3 {
        assert_eq!(allreduce_single(&mut locks, &mut shared[..], &inputs[rank][..], rank, 3, 0).0, 1);
    }
    assert_eq!(shared, vec![-56i8, -44, -128]);
    let big = vec![vec![i32::MAX, i32::MIN], vec![1, -1]];
    let mut shared = vec![0i32; 2];
    let outputs = run_single_i32(&big, &mut shared);
    assert_eq!(outputs[0], vec![i32::MIN, i32::MAX]);
}

#[test]
fn slotted_reduction_sums_per_owner() {
    let ranks = 2usize;
    let len = 5000usize;
    assert_eq!(stride_of::<i32>(len), 5120);
    assert_eq!(span_of::<i32>(len, ranks), 3072);
    let inputs: Vec<Vec<i32>> = (0..ranks).map(|rank| ramp_i32(rank, len)).collect();
    let stride = stride_of::<i32>(len);
    let mut slots = vec![0i32; stride * ranks];
    publish(&mut slots[..], &inputs[1][..], 1, ranks);
    assert_eq!(slots[5119], 0);
    assert_eq!(slots[5120], 1);
    assert_eq!(slots[5120 + 4999], 5000);
    assert_eq!(slots[0], 0);
    publish(&mut slots[..], &inputs[0][..], 0, ranks);
    assert_eq!(slots[4999], 4999);
    assert_eq!(slots[5000], 0);
    let mut result = vec![1i32; len];
    allreduce_multiple(&slots[..], &mut result[..], 1, ranks);
    assert_eq!(result[3071], 1);
    assert_eq!(result[3072], 1 + 2 * 3072 + 1);
    assert_eq!(result[4999], 1 + 2 * 4999 + 1);
    allreduce_multiple(&slots[..], &mut result[..], 0, ranks);
    assert_eq!(result[0], 2);
    assert_eq!(result[3071], 1 + 2 * 3071 + 1);
}

#[test]
fn a_held_lock_halts_the_round_until_it_is_free() {
    let len = 3000usize;
    let send: Vec<i32> = (0..len).map(|index| index as i32).collect();
    let mut shared = vec![1i32; len];
    let mut locks = free_locks(3);
    assert!(locks[2].try_lock());
    assert!(!accumulate_region(&mut locks, &mut shared[..], &send[..], 2));
    assert_eq!(shared, vec![1i32; len]);
    // Rank 1 of 3 starts at region 1 and halts at its second step, region 2.
    let (next, _) = allreduce_single(&mut locks, &mut shared[..], &send[..], 1, 3, 0);
    assert_eq!(next, 1);
    assert!(locks[2].is_locked());
    assert!(!locks[0].is_locked() && !locks[1].is_locked());
    for index in 0..len {
        let expected = if (1024..2048).contains(&index) { 1 + index as i32 } else { 1 };
        assert_eq!(shared[index], expected);
    }
    assert_eq!(allreduce_single(&mut locks, &mut shared[..], &send[..], 1, 3, next).0, 1);
    locks[2].unlock();
    assert_eq!(allreduce_single(&mut locks, &mut shared[..], &send[..], 1, 3, next).0, 3);
    for index in 0..len {
        assert_eq!(shared[index], 1 + index as i32);
    }
    assert_eq!(allreduce_single(&mut locks, &mut shared[..], &send[..], 1, 3, 3).0, 3);
    assert_eq!(allreduce_single(&mut locks, &mut shared[..], &send[..], 1, 3, 9).0, 9);
    assert_eq!(shared[0], 1);
}

#[test]
fn rank_beyond_the_buffer_owns_nothing() {
    let ranks = 4usize;
    let len = 16usize;
    let stride = stride_of::<i32>(len);
    assert_eq!(stride, 1024);
    let slots = vec![3i32; stride * ranks];
    let mut result = vec![5i32; len];
    allreduce_multiple(&slots[..], &mut result[..], 1, ranks);
    assert_eq!(result, vec![5i32; len]);
    allreduce_multiple(&slots[..], &mut result[..], 0, ranks);
    assert_eq!(result, vec![17i32; len]);
}

#[test]
fn sum_slice_adds_within_bounds_only() {
    let mut shared = vec![1i32, 2, 3, 4, 5];
    let send = vec![10i32, 20, 30, 40, 50];
    sum_slice(&mut shared[..], &send[..], 1, 4);
    assert_eq!(shared, vec![1, 22, 33, 44, 5]);
    sum_slice(&mut shared[..], &send[..], 2, 2);
    assert_eq!(shared, vec![1, 22, 33, 44, 5]);
}

#[test]
fn zero_fill_and_copy_out() {
    let mut buffer = vec![4i8, -3, 2];
    zero_fill(&mut buffer[..]);
    assert_eq!(buffer, vec![0i8, 0, 0]);
    let mut empty: Vec<i32> = Vec::new();
    zero_fill(&mut empty[..]);
    assert!(empty.is_empty());
    let shared = vec![7i32, 8, 9];
    let mut receive = vec![0i32; 3];
    copy_out(&mut receive[..], &shared[..]);
    assert_eq!(receive, shared);
}

#[test]
fn algorithm_is_selected_by_name() {
    assert_eq!(Algorithm::select(None), Some(Algorithm::Single));
    assert_eq!(Algorithm::select(Some("single".as_bytes())), Some(Algorithm::Single));
    assert_eq!(Algorithm::select(Some("multiple".as_bytes())), Some(Algorithm::Multiple));
    assert_eq!(Algorithm::select(Some("Single".as_bytes())), None);
    assert_eq!(Algorithm::select(Some("".as_bytes())), None);
    assert_eq!(Algorithm::select(Some("singles".as_bytes())), None);
    assert_eq!(Algorithm::select(Some("multiplx".as_bytes())), None);
}

#[test]
fn ranks_visit_every_region_once_from_their_own_start() {
    let visits: Vec<usize> = (0..8).map(|step| nth_region(step, 1, 4, 8)).collect();
    assert_eq!(visits, vec![2, 3, 4, 5, 6, 7, 0, 1]);
    let visits: Vec<usize> = (0..8).map(|step| nth_region(step, 0, 4, 8)).collect();
    assert_eq!(visits, vec![0, 1, 2, 3, 4, 5, 6, 7]);
    let visits: Vec<usize> = (0..3).map(|step| nth_region(step, 3, 4, 3)).collect();
    assert_eq!(visits, vec![0, 1, 2]);
    let visits: Vec<usize> = (0..7).map(|step| nth_region(step, 2, 3, 7)).collect();
    assert_eq!(visits, vec![4, 5, 6, 0, 1, 2, 3]);
}

#[test]
fn bounds_of_regions_and_owners() {
    assert_eq!(region_bounds::<i32>(0, 16), (0, 16));
    assert_eq!(region_bounds::<i32>(0, 3000), (0, 1024));
    assert_eq!(region_bounds::<i32>(2, 3000), (2048, 3000));
    assert_eq!(region_bounds::<i8>(1, 5000), (4096, 5000));
    assert_eq!(owner_bounds::<i32>(5000, 0, 2), (0, 3072));
    assert_eq!(owner_bounds::<i32>(5000, 1, 2), (3072, 5000));
    assert_eq!(owner_bounds::<i32>(16, 0, 4), (0, 16));
    assert_eq!(owner_bounds::<i32>(16, 3, 4), (16, 16));
    assert_eq!(owner_bounds::<i8>(12289, 0, 3), (0, 8192));
    assert_eq!(owner_bounds::<i8>(12289, 1, 3), (8192, 12289));
    assert_eq!(owner_bounds::<i8>(12289, 2, 3), (12289, 12289));
    assert_eq!(span_of::<i32>(5121, 5), 2048);
}

#[test]
fn a_round_is_a_permutation_of_the_regions() {
    for ranks in 1..6usize {
        for count in 1..20usize {
            for rank in 0..ranks {
                let mut seen = vec![false; count];
                for step in 0..count {
                    let region = nth_region(step, rank, ranks, count);
                    assert!(!seen[region]);
                    seen[region] = true;
                }
                assert_eq!(nth_region(0, rank, ranks, count), rank * (count / ranks));
            }
        }
    }
}
