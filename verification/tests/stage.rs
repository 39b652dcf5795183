use sortviz::algorithm::{sort, Algorithm};
use sortviz::emitter::{FrameDriver, StepEmitter};
use sortviz::model::{highlighted, ArrayModel};
use sortviz::workload::{ascending, shuffled_permutation};

/// Draws on every `period`-th request and counts both requests and frames.
struct Throttle {
    period: usize,
    requests: usize,
    frames: usize,
    seen: Vec<Option<(usize, usize)>>,
}

impl Throttle {
    fn every(period: usize) -> Throttle {
        Throttle { period, requests: 0, frames: 0, seen: Vec::new() }
    }
}

impl FrameDriver for Throttle {
    fn request_frame(&mut self, _values: &[u32], active_pair: Option<(usize, usize)>) -> bool {
        self.requests += 1;
        self.seen.push(active_pair);
        if self.period != 0 && self.requests % self.period == 0 {
            self.frames += 1;
            true
        } else {
            false
        }
    }
}

#[test]
fn model_reads_and_writes() {
    let mut model = ArrayModel::new(vec![10, 20, 30]);
    assert_eq!(model.len(), 3);
    assert_eq!(model.get(0), 10);
    assert_eq!(model.get(2), 30);
    model.set(1, 25);
    assert_eq!(model.values(), &[10, 25, 30]);
    model.swap(0, 2);
    assert_eq!(model.values(), &[30, 25, 10]);
    model.swap(1, 1);
    assert_eq!(model.values(), &[30, 25, 10]);
    assert_eq!(model.into_values(), vec![30, 25, 10]);
}

#[test]
fn model_of_no_elements() {
    let model = ArrayModel::new(Vec::new());
    assert_eq!(model.len(), 0);
    assert_eq!(model.active_pair(), None);
    assert_eq!(model.values(), &[] as &[u32]);
}

#[test]
fn model_marks_and_clears_the_active_pair() {
    let mut model = ArrayModel::new(vec![1, 2, 3]);
    assert_eq!(model.active_pair(), None);
    model.mark_active(2, 0);
    assert_eq!(model.active_pair(), Some((2, 0)));
    model.set(1, 9);
    assert_eq!(model.active_pair(), Some((2, 0)));
    model.clear_active();
    assert_eq!(model.active_pair(), None);
    assert_eq!(model.values(), &[1, 9, 3]);
}

#[test]
fn highlight_follows_the_active_pair() {
    assert!(highlighted(Some((1, 3)), 1));
    assert!(highlighted(Some((1, 3)), 3));
    assert!(!highlighted(Some((1, 3)), 2));
    assert!(!highlighted(Some((1, 3)), 0));
    assert!(highlighted(Some((2, 2)), 2));
    assert!(!highlighted(None, 0));
    assert!(!highlighted(None, 7));
}

#[test]
fn step_offers_the_snapshot_once_and_keeps_the_values() {
    let mut model = ArrayModel::new(vec![3, 1, 2]);
    model.mark_active(0, 1);
    let mut emitter = StepEmitter::new(Throttle::every(0));
    let rendered = emitter.step(&mut model);
    assert!(!rendered);
    assert_eq!(model.values(), &[3, 1, 2]);
    assert_eq!(model.active_pair(), Some((0, 1)));
    let driver = emitter.into_driver();
    assert_eq!(driver.requests, 1);
    assert_eq!(driver.seen, vec![Some((0, 1))]);
}

#[test]
fn highlight_is_cleared_once_drawn() {
    let mut model = ArrayModel::new(vec![3, 1, 2]);
    model.mark_active(2, 1);
    let mut emitter = StepEmitter::new(Throttle::every(2));
    assert!(!emitter.step(&mut model));
    assert_eq!(model.active_pair(), Some((2, 1)));
    assert!(emitter.step(&mut model));
    assert_eq!(model.active_pair(), None);
    assert!(!emitter.step(&mut model));
    assert_eq!(model.active_pair(), None);
    let driver = emitter.into_driver();
    assert_eq!(driver.seen, vec![Some((2, 1)), Some((2, 1)), None]);
    assert_eq!(driver.frames, 1);
}

#[test]
fn frames_never_outnumber_steps() {
    let algorithms =
        [Algorithm::Insertion, Algorithm::Selection, Algorithm::Merge, Algorithm::Slow];
    for algorithm in algorithms {
        for period in [0usize, 1, 3, 10] {
            let mut model = ArrayModel::new(vec![6, 2, 8, 1, 7, 3, 5, 4]);
            let mut emitter = StepEmitter::new(Throttle::every(period));
            sort(algorithm, &mut model, &mut emitter);
            assert_eq!(model.values(), &[1, 2, 3, 4, 5, 6, 7, 8]);
            let driver = emitter.into_driver();
            assert!(driver.frames <= driver.requests);
            if period != 0 {
                assert_eq!(driver.frames, driver.requests / period);
            } else {
                assert_eq!(driver.frames, 0);
            }
        }
    }
}

#[test]
fn drawing_every_step_does_not_change_the_result() {
    let mut model = ArrayModel::new(vec![5, 3, 4, 1, 2]);
    let mut emitter = StepEmitter::new(Throttle::every(1));
    sort(Algorithm::Selection, &mut model, &mut emitter);
    assert_eq!(model.values(), &[1, 2, 3, 4, 5]);
    assert_eq!(model.active_pair(), None);
}

#[test]
fn ascending_counts_from_one() {
    assert_eq!(ascending(0), Vec::<u32>::new());
    assert_eq!(ascending(1), vec![1]);
    assert_eq!(ascending(5), vec![1, 2, 3, 4, 5]);
}

#[test]
fn shuffled_permutation_holds_each_value_once() {
    for n in [0u32, 1, 2, 50] {
        let mut values = shuffled_permutation(n);
        assert_eq!(values.len(), n as usize);
        values.sort();
        assert_eq!(values, ascending(n));
    }
}

#[test]
fn shuffled_permutation_is_not_left_in_order() {
    let mut moved = false;
    for _ in 0..8 {
        if shuffled_permutation(50) != ascending(50) {
            moved = true;
        }
    }
    assert!(moved);
}

#[test]
fn shuffled_workload_is_sorted_by_every_algorithm() {
    let algorithms =
        [Algorithm::Insertion, Algorithm::Selection, Algorithm::Merge, Algorithm::Slow];
    for algorithm in algorithms {
        let mut model = ArrayModel::new(shuffled_permutation(12));
        let mut emitter = StepEmitter::new(Throttle::every(4));
        sort(algorithm, &mut model, &mut emitter);
        assert_eq!(model.into_values(), ascending(12));
    }
}
