use sortviz::algorithm::{sort, Algorithm};
use sortviz::emitter::{FrameDriver, StepEmitter};
use sortviz::insertion::{insertion_pass, insertion_sort};
use sortviz::merge::{merge, merge_sort, merge_sort_between};
use sortviz::model::ArrayModel;
use sortviz::selection::{select_min, selection_sort};
use sortviz::slow::slow_sort;

type Step = (Vec<u32>, Option<(usize, usize)>);

/// Records every snapshot it is offered and never draws.
struct Recorder {
    steps: Vec<Step>,
}

impl Recorder {
    fn new() -> Recorder {
        Recorder { steps: Vec::new() }
    }
}

impl FrameDriver for Recorder {
    fn request_frame(&mut self, values: &[u32], active_pair: Option<(usize, usize)>) -> bool {
        self.steps.push((values.to_vec(), active_pair));
        false
    }
}

const ALL: [Algorithm; 4] =
    [Algorithm::Insertion, Algorithm::Selection, Algorithm::Merge, Algorithm::Slow];

fn run(algorithm: Algorithm, input: &[u32]) -> (Vec<u32>, Vec<Step>) {
    let mut model = ArrayModel::new(input.to_vec());
    let mut emitter = StepEmitter::new(Recorder::new());
    sort(algorithm, &mut model, &mut emitter);
    (model.into_values(), emitter.into_driver().steps)
}

fn sorted_copy(input: &[u32]) -> Vec<u32> {
    let mut expected = input.to_vec();
    expected.sort();
    expected
}

/// A fixed scramble of `1..=n`.
fn scrambled(n: u32) -> Vec<u32> {
    let mut values: Vec<u32> = (1..=n).collect();
    let mut state: u64 = 0x9E37_79B9_7F4A_7C15;
    for i in (1..values.len()).rev() {
        state = state.wrapping_mul(6364136223846793005).wrapping_add(1442695040888963407);
        let j = (state >> 33) as usize % (i + 1);
        values.swap(i, j);
    }
    values
}

fn slow_steps(n: u64) -> u64 {
    if n < 2 {
        0
    } else {
        slow_steps((n + 1) / 2) + slow_steps(n / 2) + 1 + slow_steps(n - 1)
    }
}

#[test]
fn every_algorithm_sorts_small_inputs() {
    let inputs: Vec<Vec<u32>> = vec![
        vec![],
        vec![7],
        vec![2, 1],
        vec![1, 2],
        vec![3, 1, 2],
        vec![5, 3, 4, 1, 2],
        vec![4, 4, 4, 4],
        vec![2, 3, 2, 1, 3, 1],
        vec![9, 8, 7, 6, 5, 4, 3, 2, 1],
        vec![u32::MAX, 0, u32::MAX, 1],
    ];
    for algorithm in ALL {
        for input in &inputs {
            let (output, _) = run(algorithm, input);
            assert_eq!(output, sorted_copy(input), "{:?} on {:?}", algorithm, input);
        }
    }
}

#[test]
fn empty_and_single_inputs_emit_no_step() {
    for algorithm in ALL {
        let (output, steps) = run(algorithm, &[]);
        assert_eq!(output, Vec::<u32>::new());
        assert_eq!(steps.len(), 0);
        let (output, steps) = run(algorithm, &[42]);
        assert_eq!(output, vec![42]);
        assert_eq!(steps.len(), 0);
    }
}

#[test]
fn all_equal_elements_terminate_unchanged() {
    for algorithm in ALL {
        let (output, _) = run(algorithm, &[6, 6, 6, 6, 6]);
        assert_eq!(output, vec![6, 6, 6, 6, 6]);
    }
}

#[test]
fn thousand_elements_are_sorted() {
    let input = scrambled(1000);
    let expected: Vec<u32> = (1..=1000).collect();
    for algorithm in [Algorithm::Insertion, Algorithm::Selection, Algorithm::Merge] {
        let (output, _) = run(algorithm, &input);
        assert_eq!(output, expected);
    }
}

#[test]
fn slow_sort_sorts_twenty_elements() {
    let input = scrambled(20);
    let expected: Vec<u32> = (1..=20).collect();
    let (output, steps) = run(Algorithm::Slow, &input);
    assert_eq!(output, expected);
    assert_eq!(steps.len() as u64, slow_steps(20));
}

#[test]
fn sorted_input_comes_back_unchanged() {
    let input: Vec<u32> = vec![1, 2, 2, 3, 5, 8, 13];
    for algorithm in ALL {
        let (output, steps) = run(algorithm, &input);
        assert_eq!(output, input);
        for (values, _) in &steps {
            assert_eq!(values, &input);
        }
    }
}

#[test]
fn two_or_more_elements_emit_a_step() {
    for algorithm in ALL {
        let (_, steps) = run(algorithm, &[2, 1]);
        assert!(steps.len() >= 1, "{:?}", algorithm);
        let (_, steps) = run(algorithm, &[3, 1, 2]);
        assert!(steps.len() >= 1, "{:?}", algorithm);
    }
    for algorithm in [Algorithm::Selection, Algorithm::Merge, Algorithm::Slow] {
        let (_, steps) = run(algorithm, &[1, 2]);
        assert!(steps.len() >= 1, "{:?}", algorithm);
    }
}

#[test]
fn insertion_sort_on_sorted_input_emits_nothing() {
    let (output, steps) = run(Algorithm::Insertion, &[1, 2, 3, 4]);
    assert_eq!(output, vec![1, 2, 3, 4]);
    assert_eq!(steps.len(), 0);
}

#[test]
fn step_counts_stay_within_bounds() {
    for n in 0..=12u32 {
        let input = scrambled(n);
        let n = n as usize;
        let pairs = if n == 0 { 0 } else { n * (n - 1) / 2 };
        let (_, steps) = run(Algorithm::Insertion, &input);
        assert!(steps.len() <= pairs);
        let (_, steps) = run(Algorithm::Selection, &input);
        assert!(steps.len() >= pairs && steps.len() <= pairs + n);
        let (_, steps) = run(Algorithm::Merge, &input);
        assert_eq!(steps.len(), n.saturating_sub(1));
        let (_, steps) = run(Algorithm::Slow, &input);
        assert_eq!(steps.len() as u64, slow_steps(n as u64));
    }
}

#[test]
fn insertion_sort_on_reversed_input_shifts_every_pair() {
    let (output, steps) = run(Algorithm::Insertion, &[5, 4, 3, 2, 1]);
    assert_eq!(output, vec![1, 2, 3, 4, 5]);
    assert_eq!(steps.len(), 10);
}

#[test]
fn insertion_sort_passes_match_expected_states() {
    let mut model = ArrayModel::new(vec![5, 3, 4, 1, 2]);
    let mut emitter = StepEmitter::new(Recorder::new());
    assert_eq!(model.values(), &[5, 3, 4, 1, 2]);
    let slot = insertion_pass(&mut model, &mut emitter, 1);
    assert_eq!(slot, 0);
    assert_eq!(model.values(), &[3, 5, 4, 1, 2]);
    let slot = insertion_pass(&mut model, &mut emitter, 2);
    assert_eq!(slot, 1);
    assert_eq!(model.values(), &[3, 4, 5, 1, 2]);
    let slot = insertion_pass(&mut model, &mut emitter, 3);
    assert_eq!(slot, 0);
    assert_eq!(model.values(), &[1, 3, 4, 5, 2]);
    let slot = insertion_pass(&mut model, &mut emitter, 4);
    assert_eq!(slot, 1);
    assert_eq!(model.values(), &[1, 2, 3, 4, 5]);
}

#[test]
fn insertion_sort_emits_each_shift() {
    let mut model = ArrayModel::new(vec![5, 3, 4, 1, 2]);
    let mut emitter = StepEmitter::new(Recorder::new());
    insertion_sort(&mut model, &mut emitter);
    assert_eq!(model.values(), &[1, 2, 3, 4, 5]);
    let steps = emitter.into_driver().steps;
    let expected: Vec<Step> = vec![
        (vec![5, 5, 4, 1, 2], Some((0, 1))),
        (vec![3, 5, 5, 1, 2], Some((1, 2))),
        (vec![3, 4, 5, 5, 2], Some((2, 3))),
        (vec![3, 4, 4, 5, 2], Some((1, 3))),
        (vec![3, 3, 4, 5, 2], Some((0, 3))),
        (vec![1, 3, 4, 5, 5], Some((3, 4))),
        (vec![1, 3, 4, 4, 5], Some((2, 4))),
        (vec![1, 3, 3, 4, 5], Some((1, 4))),
    ];
    assert_eq!(steps, expected);
}

#[test]
fn insertion_pass_keeps_equal_elements_in_front() {
    let mut model = ArrayModel::new(vec![1, 3, 3, 5, 3]);
    let mut emitter = StepEmitter::new(Recorder::new());
    let slot = insertion_pass(&mut model, &mut emitter, 4);
    assert_eq!(slot, 3);
    assert_eq!(model.values(), &[1, 3, 3, 3, 5]);
    assert_eq!(emitter.into_driver().steps.len(), 1);
}

#[test]
fn selection_sort_on_two_elements_compares_then_swaps() {
    let mut model = ArrayModel::new(vec![2, 1]);
    let mut emitter = StepEmitter::new(Recorder::new());
    selection_sort(&mut model, &mut emitter);
    assert_eq!(model.values(), &[1, 2]);
    let steps = emitter.into_driver().steps;
    let expected: Vec<Step> = vec![(vec![2, 1], Some((1, 0))), (vec![1, 2], None)];
    assert_eq!(steps, expected);
}

#[test]
fn selection_sort_steps_on_every_comparison() {
    let (output, steps) = run(Algorithm::Selection, &[1, 2, 3]);
    assert_eq!(output, vec![1, 2, 3]);
    let expected: Vec<Step> = vec![
        (vec![1, 2, 3], Some((1, 0))),
        (vec![1, 2, 3], Some((2, 0))),
        (vec![1, 2, 3], Some((2, 1))),
    ];
    assert_eq!(steps, expected);
}

#[test]
fn select_min_finds_first_least_element() {
    let mut model = ArrayModel::new(vec![0, 4, 2, 7, 2, 9]);
    let mut emitter = StepEmitter::new(Recorder::new());
    let min_index = select_min(&mut model, &mut emitter, 1);
    assert_eq!(min_index, 2);
    assert_eq!(model.values(), &[0, 4, 2, 7, 2, 9]);
    let pairs: Vec<Option<(usize, usize)>> =
        emitter.into_driver().steps.into_iter().map(|step| step.1).collect();
    assert_eq!(pairs, vec![Some((2, 1)), Some((3, 2)), Some((4, 2)), Some((5, 2))]);
}

#[test]
fn merge_joins_two_sorted_runs() {
    let mut model = ArrayModel::new(vec![9, 1, 4, 6, 2, 3, 8, 0]);
    let mut emitter = StepEmitter::new(Recorder::new());
    merge(&mut model, &mut emitter, 1, 4, 7);
    assert_eq!(model.values(), &[9, 1, 2, 3, 4, 6, 8, 0]);
    let steps = emitter.into_driver().steps;
    let expected: Vec<Step> = vec![(vec![9, 1, 2, 3, 4, 6, 8, 0], None)];
    assert_eq!(steps, expected);
}

#[test]
fn merge_with_an_empty_run_keeps_the_other() {
    let mut model = ArrayModel::new(vec![1, 2, 3]);
    let mut emitter = StepEmitter::new(Recorder::new());
    merge(&mut model, &mut emitter, 0, 0, 3);
    assert_eq!(model.values(), &[1, 2, 3]);
    merge(&mut model, &mut emitter, 0, 3, 3);
    assert_eq!(model.values(), &[1, 2, 3]);
    assert_eq!(emitter.into_driver().steps.len(), 2);
}

#[test]
fn merge_sort_emits_one_step_per_merge() {
    let mut model = ArrayModel::new(vec![4, 3, 2, 1]);
    let mut emitter = StepEmitter::new(Recorder::new());
    merge_sort(&mut model, &mut emitter);
    assert_eq!(model.values(), &[1, 2, 3, 4]);
    let steps = emitter.into_driver().steps;
    let expected: Vec<Step> = vec![
        (vec![3, 4, 2, 1], None),
        (vec![3, 4, 1, 2], None),
        (vec![1, 2, 3, 4], None),
    ];
    assert_eq!(steps, expected);
}

#[test]
fn merge_sort_between_leaves_the_rest_alone() {
    let mut model = ArrayModel::new(vec![9, 5, 3, 4, 1, 0]);
    let mut emitter = StepEmitter::new(Recorder::new());
    merge_sort_between(&mut model, &mut emitter, 1, 5);
    assert_eq!(model.values(), &[9, 1, 3, 4, 5, 0]);
    assert_eq!(emitter.into_driver().steps.len(), 3);
}

#[test]
fn slow_sort_on_three_elements() {
    let mut model = ArrayModel::new(vec![3, 1, 2]);
    let mut emitter = StepEmitter::new(Recorder::new());
    slow_sort(&mut model, &mut emitter, 0, 2);
    assert_eq!(model.values(), &[1, 2, 3]);
    let steps = emitter.into_driver().steps;
    let expected: Vec<Step> = vec![
        (vec![1, 3, 2], Some((0, 1))),
        (vec![1, 2, 3], Some((1, 2))),
        (vec![1, 2, 3], Some((0, 1))),
    ];
    assert_eq!(steps, expected);
}

#[test]
fn slow_sort_on_a_range_leaves_the_rest_alone() {
    let mut model = ArrayModel::new(vec![9, 4, 2, 3, 0]);
    let mut emitter = StepEmitter::new(Recorder::new());
    slow_sort(&mut model, &mut emitter, 1, 3);
    assert_eq!(model.values(), &[9, 2, 3, 4, 0]);
    assert_eq!(emitter.into_driver().steps.len() as u64, slow_steps(3));
}

#[test]
fn slow_sort_does_nothing_on_an_empty_range() {
    let mut model = ArrayModel::new(vec![2, 1]);
    let mut emitter = StepEmitter::new(Recorder::new());
    slow_sort(&mut model, &mut emitter, 1, 1);
    slow_sort(&mut model, &mut emitter, 1, 0);
    slow_sort(&mut model, &mut emitter, 5, 5);
    assert_eq!(model.values(), &[2, 1]);
    assert_eq!(emitter.into_driver().steps.len(), 0);
}

#[test]
fn algorithm_codes() {
    assert_eq!(Algorithm::from_code(1), Some(Algorithm::Insertion));
    assert_eq!(Algorithm::from_code(2), Some(Algorithm::Selection));
    assert_eq!(Algorithm::from_code(3), Some(Algorithm::Merge));
    assert_eq!(Algorithm::from_code(4), Some(Algorithm::Slow));
    assert_eq!(Algorithm::from_code(0), None);
    assert_eq!(Algorithm::from_code(5), None);
    assert_eq!(Algorithm::from_code(255), None);
}

#[test]
fn exact_step_counts() {
    let (_, steps) = run(Algorithm::Slow, &scrambled(8));
    assert_eq!(steps.len(), 41);
    let (_, steps) = run(Algorithm::Slow, &[2, 1]);
    assert_eq!(steps.len(), 1);
    let (_, steps) = run(Algorithm::Merge, &scrambled(8));
    assert_eq!(steps.len(), 7);
    let (_, steps) = run(Algorithm::Selection, &[1, 2, 3, 4]);
    assert_eq!(steps.len(), 6);
    let (_, steps) = run(Algorithm::Selection, &[4, 3, 2, 1]);
    assert_eq!(steps.len(), 8);
    let (_, steps) = run(Algorithm::Insertion, &[2, 1, 4, 3]);
    assert_eq!(steps.len(), 2);
}

fn slow_bound(n: u64) -> u64 {
    if n < 2 {
        1
    } else {
        2 * n * slow_bound(n - n / 2)
    }
}

#[test]
fn slow_sort_steps_stay_below_the_closed_bound() {
    assert_eq!(slow_bound(8), 512);
    for n in 0..=14u32 {
        let (_, steps) = run(Algorithm::Slow, &scrambled(n));
        assert!((steps.len() as u64) < slow_bound(n as u64));
    }
}

#[test]
fn every_snapshot_has_all_values_and_a_pair_in_range() {
    let input = scrambled(9);
    for algorithm in ALL {
        let (_, steps) = run(algorithm, &input);
        for (values, pair) in &steps {
            assert_eq!(values.len(), input.len());
            if let Some((a, b)) = pair {
                assert!(*a < input.len() && *b < input.len());
            }
        }
    }
    for algorithm in [Algorithm::Selection, Algorithm::Merge, Algorithm::Slow] {
        let (_, steps) = run(algorithm, &input);
        for (values, _) in &steps {
            assert_eq!(sorted_copy(values), sorted_copy(&input));
        }
    }
}
