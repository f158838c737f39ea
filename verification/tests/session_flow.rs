//! Controller behaviour: reseeding on viewport and count changes, the
//! Idle/Running transitions, generator bounds, and the render adapter.

use sortysort::dataset::generate;
use sortysort::engine::{Algorithm, Engine};
use sortysort::session::Session;

fn is_sorted(data: &[u32]) -> bool {
    data.windows(2).all(|w| w[0] <= w[1])
}

#[test]
fn generator_respects_bounds() {
    let data = generate(100, 5);
    assert_eq!(data.len(), 5);
    for &v in &data {
        assert!((5..=100).contains(&v), "value {} out of bounds", v);
    }
}

#[test]
fn generator_clamps_at_minimum() {
    // with the smallest allowed ceiling every raw draw lies below the
    // minimum and is pushed up to exactly 5
    let data = generate(5, 64);
    assert_eq!(data.len(), 64);
    for &v in &data {
        assert_eq!(v, 5);
    }
}

#[test]
fn reseed_twice_gives_two_full_datasets() {
    let mut s = Session::new();
    s.reseed(300, 200);
    let first = s.data.clone();
    s.reseed(300, 200);
    let second = s.data.clone();
    assert_eq!(first.len(), 100);
    assert_eq!(second.len(), 100);
    for &v in first.iter().chain(second.iter()) {
        assert!((5..=200).contains(&v));
    }
    assert!(!s.running);
}

#[test]
fn first_tick_reseeds_and_stays_idle() {
    let mut s = Session::new();
    assert_eq!(s.data.len(), 0);
    s.tick(300, 200);
    assert_eq!(s.data.len(), 100);
    assert!(!s.running);
    assert_eq!(s.view_width, 300);
    assert_eq!(s.view_height, 200);
    assert_eq!(s.bar_width, 3);
}

#[test]
fn count_change_triggers_reseed() {
    let mut s = Session::new();
    s.tick(300, 200);
    s.set_count(10);
    s.tick(300, 200);
    assert_eq!(s.data.len(), 10);
    assert_eq!(s.bar_width, 30);
}

#[test]
fn sort_runs_to_completion_and_goes_idle() {
    for &alg in &[Algorithm::Insertion, Algorithm::Quick] {
        let mut s = Session::new();
        s.tick(300, 200);
        s.set_algorithm(alg);
        s.set_speed(20000);
        s.start_sort();
        assert!(s.running);
        let mut ticks = 0;
        while s.running {
            s.tick(300, 200);
            ticks += 1;
            assert!(ticks < 10_000, "sort did not finish");
        }
        assert!(is_sorted(&s.data));
        assert_eq!(s.data.len(), 100);
    }
}

#[test]
fn reseed_mid_sort_forces_idle() {
    let mut s = Session::new();
    s.tick(300, 200);
    s.set_algorithm(Algorithm::Quick);
    s.start_sort();
    s.tick(300, 200);
    assert!(s.running);
    // a viewport change regenerates and stops the run
    s.tick(400, 250);
    assert!(!s.running);
    assert_eq!(s.data.len(), 100);
    assert_eq!(s.view_width, 400);
}

#[test]
fn idle_tick_changes_nothing() {
    let mut s = Session::new();
    s.tick(300, 200);
    let before = s.data.clone();
    s.tick(300, 200);
    assert_eq!(s.data, before);
    assert!(!s.running);
}

#[test]
fn bars_follow_dataset_and_cursor() {
    let mut s = Session::new();
    s.tick(300, 200);
    s.data = vec![7, 9, 8];
    s.engine = Engine::Insertion { cursor: 1 };
    let bars = s.bars();
    assert_eq!(bars.len(), 3);
    assert_eq!(bars[0].height, 7);
    assert_eq!(bars[1].height, 9);
    assert_eq!(bars[2].height, 8);
    assert!(!bars[0].highlighted);
    assert!(bars[1].highlighted);
    assert!(!bars[2].highlighted);
}

#[test]
fn quick_bars_highlight_front_task_pointers() {
    let mut s = Session::new();
    s.tick(300, 200);
    s.set_algorithm(Algorithm::Quick);
    s.start_sort();
    // one comparison step: either the scan or compare pointer moved, and the
    // highlighted bars are exactly the front task's pointers
    s.tick(300, 200);
    let bars = s.bars();
    match &s.engine {
        Engine::Quick { tasks } => {
            let t = tasks[0];
            for (i, b) in bars.iter().enumerate() {
                assert_eq!(b.highlighted, i == t.scan || i == t.compare);
            }
        }
        _ => panic!("expected quick engine"),
    }
}
