use parallel_exec::{exec_partitioned, DeliveryError, Executable, Get, ParallelRun, Partition, ResultMap, SingleThreaded};

pub struct Threshold;

impl Get<u32> for Threshold {
    fn get() -> u32 {
        10u32
    }
}

fn fibs_to_20() -> Vec<u128> {
    [0, 1, 1, 2, 3, 5, 8, 13, 21, 34, 55, 89, 144, 233, 377, 610, 987, 1597, 2584, 4181, 6765]
        .iter()
        .map(|x| *x as u128)
        .collect::<Vec<_>>()
}

#[test]
fn test_single_threaded_computations() {
    let input_data: Vec<u128> = (0..=20).collect();
    let res = SingleThreaded::exec(input_data.clone(), fibonacci);
    println!("Final result (single_threaded): {:?}", res);

    assert_eq!(
        res,
        [0, 1, 1, 2, 3, 5, 8, 13, 21, 34, 55, 89, 144, 233, 377, 610, 987, 1597, 2584, 4181, 6765]
            .iter()
            .map(|x| *x as u128)
            .collect::<Vec<_>>()
    );
}

#[test]
fn test_multi_threaded_computations() {
    let input_data: Vec<u128> = (0..=20).collect();
    let res = exec_partitioned(input_data, fibonacci, Threshold::get());
    println!("Final result (multi_threaded): {:?}", res);

    assert_eq!(
        res,
        [0, 1, 1, 2, 3, 5, 8, 13, 21, 34, 55, 89, 144, 233, 377, 610, 987, 1597, 2584, 4181, 6765]
            .iter()
            .map(|x| *x as u128)
            .collect::<Vec<_>>()
    );
}

pub fn fibonacci(n: u128) -> u128 {
    match n {
        0 => 0,
        1 | 2 => 1,
        _ => (3..=n).fold((1u128, 1u128), |(a, b), _| (b, a + b)).1,
    }
}

#[test]
fn sequential_and_parallel_agree() {
    let input: Vec<u64> = (0..57).collect();
    let square = |v: u64| v * v + 1;
    for t in [1u32, 2, 5, 10, 56, 57, 100] {
        let seq = SingleThreaded::exec(input.clone(), square);
        let par = exec_partitioned(input.clone(), square, t);
        assert_eq!(seq, par);
        assert_eq!(par.len(), input.len());
        for (i, v) in par.iter().enumerate() {
            assert_eq!(*v, square(input[i]));
        }
    }
}

#[test]
fn empty_input_gives_empty_output() {
    for t in [1u32, 10] {
        let run: ParallelRun<u128, u128, fn(u128) -> u128> = ParallelRun::start(vec![], fibonacci, t);
        assert_eq!(run.workers(), 0);
        let local = run.run_local();
        assert_eq!(run.finish(local), Ok(vec![]));
        assert_eq!(exec_partitioned(Vec::<u128>::new(), fibonacci, t), Vec::<u128>::new());
    }
}

#[test]
fn exact_multiple_makes_two_chunks() {
    let p = Partition::new(20, 10);
    assert_eq!(p.chunk_count, 2);
    assert_eq!(p.spawned, 1);
    assert_eq!(p.remainder_start, 10);
    assert_eq!(p.len - p.remainder_start, 10);
    let input: Vec<u128> = (0..20).collect();
    let run = ParallelRun::start(input.clone(), fibonacci, 10);
    assert_eq!(run.workers(), 1);
    assert_eq!(run.worker_input(0), (0..10).collect::<Vec<u128>>());
    assert_eq!(run.run_local().len(), 10);
    assert_eq!(exec_partitioned(input, fibonacci, 10), fibs_to_20()[..20].to_vec());
}

#[test]
fn partition_with_remainder() {
    let p = Partition::new(21, 10);
    assert_eq!(p.chunk_count, 3);
    assert_eq!(p.spawned, 2);
    assert_eq!(p.remainder_start, 20);
    let p = Partition::new(0, 10);
    assert_eq!(p.chunk_count, 0);
    assert_eq!(p.spawned, 0);
    let p = Partition::new(7, 1);
    assert_eq!(p.chunk_count, 7);
    assert_eq!(p.spawned, 6);
    assert_eq!(p.remainder_start, 6);
    let p = Partition::new(usize::MAX, u32::MAX);
    assert_eq!(p.remainder_start + (p.len - p.remainder_start), usize::MAX);
    assert!(p.len - p.remainder_start <= u32::MAX as usize);
}

#[test]
fn small_input_runs_on_the_caller() {
    let input: Vec<u128> = (0..=20).collect();
    for t in [21u32, 30] {
        let run = ParallelRun::start(input.clone(), fibonacci, t);
        assert_eq!(run.workers(), 0);
        let local = run.run_local();
        assert_eq!(local, fibs_to_20());
        assert_eq!(run.finish(local), Ok(fibs_to_20()));
    }
}

#[test]
fn reports_in_any_order_are_merged_by_index() {
    let input: Vec<u128> = (0..=20).collect();
    let mut run = ParallelRun::start(input, fibonacci, 10);
    assert_eq!(run.workers(), 2);
    let second = SingleThreaded::exec(run.worker_input(1), fibonacci);
    let first = SingleThreaded::exec(run.worker_input(0), fibonacci);
    assert_eq!(run.deliver(1, second), Ok(()));
    assert_eq!(run.deliver(0, first), Ok(()));
    let local = run.run_local();
    assert_eq!(local, vec![6765u128]);
    assert_eq!(run.finish(local), Ok(fibs_to_20()));
}

#[test]
fn delivery_errors() {
    let input: Vec<u128> = (0..=20).collect();
    let mut run = ParallelRun::start(input, fibonacci, 10);
    assert_eq!(run.deliver(2, vec![]), Err(DeliveryError::UnknownChunk));
    assert_eq!(run.deliver(0, vec![1, 2]), Ok(()));
    assert_eq!(run.deliver(0, vec![3]), Err(DeliveryError::DuplicateChunk));
    assert_eq!(run.finish(vec![4]), Err(DeliveryError::MissingChunk));
}

#[test]
fn result_map_orders_by_index() {
    let mut m: ResultMap<u8> = ResultMap::new(3);
    assert!(!m.is_complete());
    m.insert(2, vec![5, 6]);
    m.insert(0, vec![1]);
    assert!(m.contains(0));
    assert!(!m.contains(1));
    assert!(!m.contains(7));
    assert!(!m.is_complete());
    m.insert(1, vec![2, 3, 4]);
    assert!(m.is_complete());
    assert_eq!(m.into_ordered(vec![7]), vec![1, 2, 3, 4, 5, 6, 7]);
    let empty: ResultMap<u8> = ResultMap::new(0);
    assert!(empty.is_complete());
    assert_eq!(empty.into_ordered(vec![9]), vec![9]);
}

#[test]
fn unit_threshold_source_is_zero() {
    assert_eq!(<() as Get<u32>>::get(), 0);
    assert_eq!(Threshold::get(), 10);
}
