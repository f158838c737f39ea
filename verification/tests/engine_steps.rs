//! Step-by-step scenarios for the two engines, sort-correctness runs, and
//! the batching (step-count determinism) behaviour.

use sortysort::engine::{Algorithm, Engine, Task};

fn insertion_cursor(e: &Engine) -> usize {
    match e {
        Engine::Insertion { cursor } => *cursor,
        _ => panic!("expected insertion engine"),
    }
}

fn quick_tasks(e: &Engine) -> Vec<Task> {
    match e {
        Engine::Quick { tasks } => tasks.clone(),
        _ => panic!("expected quick engine"),
    }
}

fn run_to_completion(e: &mut Engine, data: &mut Vec<u32>, step: usize) -> usize {
    let mut calls = 0;
    loop {
        let complete = e.advance(data, step);
        calls += 1;
        if complete {
            return calls;
        }
        assert!(calls < 1_000_000, "engine failed to complete");
    }
}

fn is_sorted(data: &[u32]) -> bool {
    data.windows(2).all(|w| w[0] <= w[1])
}

#[test]
fn insertion_small_scenario() {
    let mut data: Vec<u32> = vec![3, 1, 2];
    let mut e = Engine::seed(Algorithm::Insertion, 3);
    assert_eq!(insertion_cursor(&e), 1);

    // step 1: 1 < 3 swaps, cursor cannot go below 1
    assert!(!e.advance(&mut data, 1));
    assert_eq!(data, vec![1, 3, 2]);
    assert_eq!(insertion_cursor(&e), 1);

    // step 2: 3 < 1 is false, cursor moves right
    assert!(!e.advance(&mut data, 1));
    assert_eq!(data, vec![1, 3, 2]);
    assert_eq!(insertion_cursor(&e), 2);

    // step 3: 2 < 3 swaps, cursor moves left
    assert!(!e.advance(&mut data, 1));
    assert_eq!(data, vec![1, 2, 3]);
    assert_eq!(insertion_cursor(&e), 1);

    // step 4: 2 < 1 is false
    assert!(!e.advance(&mut data, 1));
    assert_eq!(insertion_cursor(&e), 2);

    // step 5: 3 < 2 is false, cursor reaches the end: complete
    assert!(e.advance(&mut data, 1));
    assert_eq!(data, vec![1, 2, 3]);
    assert_eq!(insertion_cursor(&e), 3);

    // advancing a completed engine is a no-op
    assert!(e.advance(&mut data, 7));
    assert_eq!(data, vec![1, 2, 3]);
    assert_eq!(insertion_cursor(&e), 3);
}

#[test]
fn quick_small_scenario() {
    let mut data: Vec<u32> = vec![3, 1, 2];
    let mut e = Engine::seed(Algorithm::Quick, 3);
    assert_eq!(
        quick_tasks(&e),
        vec![Task { low: 0, high: 2, scan: 0, compare: 0 }]
    );

    // step 1: pivot 2, data[0] = 3 <= 2 is false, compare moves on
    assert!(!e.advance(&mut data, 1));
    assert_eq!(data, vec![3, 1, 2]);
    assert_eq!(
        quick_tasks(&e),
        vec![Task { low: 0, high: 2, scan: 0, compare: 1 }]
    );

    // step 2: data[1] = 1 <= 2, swap scan/compare
    assert!(!e.advance(&mut data, 1));
    assert_eq!(data, vec![1, 3, 2]);
    assert_eq!(
        quick_tasks(&e),
        vec![Task { low: 0, high: 2, scan: 1, compare: 2 }]
    );

    // step 3: scan finished, pivot placed; left range queued at the front,
    // right range at the back
    assert!(!e.advance(&mut data, 1));
    assert_eq!(data, vec![1, 2, 3]);
    assert_eq!(
        quick_tasks(&e),
        vec![
            Task { low: 0, high: 0, scan: 0, compare: 0 },
            Task { low: 2, high: 2, scan: 2, compare: 2 },
        ]
    );

    // steps 4 and 5: both trivial subranges popped; the queue empties
    assert!(!e.advance(&mut data, 1));
    assert_eq!(
        quick_tasks(&e),
        vec![Task { low: 2, high: 2, scan: 2, compare: 2 }]
    );
    assert!(e.advance(&mut data, 1));
    assert!(quick_tasks(&e).is_empty());
    assert_eq!(data, vec![1, 2, 3]);
}

#[test]
fn insertion_sorts_every_small_input() {
    let cases: Vec<Vec<u32>> = vec![
        vec![],
        vec![42],
        vec![2, 1],
        vec![1, 2],
        vec![5, 5, 5],
        vec![9, 3, 7, 3, 9, 1],
        vec![10, 9, 8, 7, 6, 5, 4, 3, 2, 1],
    ];
    for input in cases {
        let mut data = input.clone();
        let mut e = Engine::seed(Algorithm::Insertion, data.len());
        run_to_completion(&mut e, &mut data, 1);
        assert!(is_sorted(&data), "not sorted: {:?} from {:?}", data, input);
        let mut expected = input.clone();
        expected.sort();
        assert_eq!(data, expected, "values changed from {:?}", input);
    }
}

#[test]
fn quick_sorts_every_small_input() {
    let cases: Vec<Vec<u32>> = vec![
        vec![],
        vec![42],
        vec![2, 1],
        vec![1, 2],
        vec![5, 5, 5],
        vec![9, 3, 7, 3, 9, 1],
        vec![10, 9, 8, 7, 6, 5, 4, 3, 2, 1],
        vec![1, 1, 2, 2, 3, 3, 0, 0],
    ];
    for input in cases {
        let mut data = input.clone();
        let mut e = Engine::seed(Algorithm::Quick, data.len());
        run_to_completion(&mut e, &mut data, 1);
        assert!(is_sorted(&data), "not sorted: {:?} from {:?}", data, input);
        let mut expected = input.clone();
        expected.sort();
        assert_eq!(data, expected, "values changed from {:?}", input);
    }
}

#[test]
fn batching_reaches_the_same_state() {
    let input: Vec<u32> = vec![8, 6, 7, 5, 3, 0, 9, 2, 1, 4];

    // ten single steps
    let mut data_a = input.clone();
    let mut e_a = Engine::seed(Algorithm::Quick, data_a.len());
    for _ in 0..10 {
        e_a.advance(&mut data_a, 1);
    }

    // two batches of five
    let mut data_b = input.clone();
    let mut e_b = Engine::seed(Algorithm::Quick, data_b.len());
    e_b.advance(&mut data_b, 5);
    e_b.advance(&mut data_b, 5);

    assert_eq!(data_a, data_b);
    assert_eq!(quick_tasks(&e_a), quick_tasks(&e_b));

    // the same for the insertion engine
    let mut data_c = input.clone();
    let mut e_c = Engine::seed(Algorithm::Insertion, data_c.len());
    for _ in 0..10 {
        e_c.advance(&mut data_c, 1);
    }
    let mut data_d = input.clone();
    let mut e_d = Engine::seed(Algorithm::Insertion, data_d.len());
    e_d.advance(&mut data_d, 5);
    e_d.advance(&mut data_d, 5);
    assert_eq!(data_c, data_d);
    assert_eq!(insertion_cursor(&e_c), insertion_cursor(&e_d));
}

#[test]
fn large_speed_finishes_in_one_call() {
    let mut data: Vec<u32> = (0..200).rev().collect();
    let mut e = Engine::seed(Algorithm::Insertion, data.len());
    let calls = run_to_completion(&mut e, &mut data, 20000);
    assert!(calls <= 2);
    assert!(is_sorted(&data));
}
