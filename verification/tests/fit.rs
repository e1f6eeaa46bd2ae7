use rand::rngs::StdRng;
use rand::SeedableRng;
use ruschio::dataset::Dataset;
use ruschio::fit::{action_of, same_labels, Action, Event, FitError, FitResult, FitState, Phase};
use ruschio::sampling::check_selection;
use ruschio::Kmeans;

fn two_groups() -> Dataset<f32> {
    let points = vec![0.0f32, 0.0, 0.0, 1.0, 1.0, 0.0, 10.0, 10.0, 10.0, 11.0, 11.0, 10.0];
    Dataset::build(points, 2, 6).unwrap()
}

fn distance(a: &[f32], b: &[f32]) -> f32 {
    let mut sum = 0.0f32;
    for (x, y) in a.iter().zip(b.iter()) {
        sum += (x - y) * (x - y);
    }
    sum.sqrt()
}

fn measure(dataset: &Dataset<f32>, centroids: &Vec<Vec<f32>>) -> Dataset<u32> {
    let mut table = Vec::new();
    let mut pass = dataset.iter();
    while let Some(sample) = pass.next() {
        for centroid in centroids {
            table.push(distance(centroid, sample).to_bits());
        }
    }
    Dataset::build(table, centroids.len(), dataset.nsamples()).unwrap()
}

fn average(dataset: &Dataset<f32>, state: &FitState<f32>) -> Vec<Vec<f32>> {
    let mut means = Vec::new();
    for cluster in 0..state.centroids().len() {
        let indices = state.members(cluster);
        let mut mean = Vec::new();
        if !indices.is_empty() {
            for feature in 0..dataset.nfeatures() {
                let mut sum = 0.0f32;
                for &index in &indices {
                    sum += dataset.get(index).unwrap()[feature];
                }
                mean.push(sum / indices.len() as f32);
            }
        }
        means.push(mean);
    }
    means
}

fn run(dataset: &Dataset<f32>, start: (FitState<f32>, Action)) -> FitResult<f32> {
    let (mut state, mut action) = start;
    let mut steps = 0;
    loop {
        let event = match action {
            Action::MeasureDistances => Event::Distances(measure(dataset, state.centroids())),
            Action::AverageClusters => Event::Means(average(dataset, &state)),
            Action::Finish => break,
        };
        (state, action) = state.step(event).unwrap();
        steps += 1;
        assert!(steps <= 1_000);
    }
    state.into_result().unwrap()
}

fn is_two_groups(labels: &[usize]) -> bool {
    labels == [0, 0, 0, 1, 1, 1] || labels == [1, 1, 1, 0, 0, 0]
}

#[test]
fn start_with_copies_the_chosen_samples() {
    let dataset = two_groups();
    let (state, action) = Kmeans::new(2, 10).start_with(&dataset, &[4, 1]).unwrap();
    assert_eq!(action, Action::MeasureDistances);
    assert_eq!(state.phase(), Phase::Assigning);
    assert_eq!(state.pending(), Action::MeasureDistances);
    assert_eq!(state.iterations(), 0);
    assert_eq!(state.centroids(), &vec![vec![10.0, 11.0], vec![0.0, 1.0]]);
    assert_eq!(state.labels(), &vec![0; 6]);
}

#[test]
fn start_with_rejects_no_clusters() {
    let dataset = two_groups();
    let result = Kmeans::new(0, 10).start_with(&dataset, &[]);
    assert_eq!(result.unwrap_err(), FitError::InvalidClusterCount);
}

#[test]
fn start_with_rejects_more_clusters_than_samples() {
    let dataset = two_groups();
    let result = Kmeans::new(7, 10).start_with(&dataset, &[0, 1, 2, 3, 4, 5, 5]);
    assert_eq!(result.unwrap_err(), FitError::InvalidClusterCount);
}

#[test]
fn start_with_accepts_as_many_clusters_as_samples() {
    let dataset = two_groups();
    let (state, _) = Kmeans::new(6, 10).start_with(&dataset, &[5, 4, 3, 2, 1, 0]).unwrap();
    assert_eq!(state.centroids().len(), 6);
    assert_eq!(state.centroids()[0], vec![11.0, 10.0]);
}

#[test]
fn start_with_rejects_a_sample_chosen_twice() {
    let dataset = two_groups();
    let result = Kmeans::new(2, 10).start_with(&dataset, &[3, 3]);
    assert_eq!(result.unwrap_err(), FitError::InvalidSelection);
}

#[test]
fn start_with_rejects_a_sample_that_is_not_there() {
    let dataset = two_groups();
    let result = Kmeans::new(2, 10).start_with(&dataset, &[0, 6]);
    assert_eq!(result.unwrap_err(), FitError::InvalidSelection);
}

#[test]
fn start_with_rejects_the_wrong_number_of_samples() {
    let dataset = two_groups();
    assert_eq!(
        Kmeans::new(2, 10).start_with(&dataset, &[0]).unwrap_err(),
        FitError::InvalidSelection
    );
    assert_eq!(
        Kmeans::new(2, 10).start_with(&dataset, &[0, 1, 2]).unwrap_err(),
        FitError::InvalidSelection
    );
}

#[test]
fn check_selection_tells_valid_from_invalid() {
    assert!(check_selection(&[2, 0, 1], 3, 3));
    assert!(check_selection(&[], 0, 0));
    assert!(check_selection(&[4], 1, 5));
    assert!(!check_selection(&[5], 1, 5));
    assert!(!check_selection(&[1, 1], 2, 5));
    assert!(!check_selection(&[1, 2], 3, 5));
    assert!(!check_selection(&[0, 1, 0], 3, 5));
}

#[test]
fn start_draws_different_samples() {
    let dataset = two_groups();
    for seed in 0..200u64 {
        let mut rng = StdRng::seed_from_u64(seed);
        for k in 1..=6 {
            let (state, action) = Kmeans::new(k, 10).start(&dataset, &mut rng).unwrap();
            assert_eq!(action, Action::MeasureDistances);
            assert_eq!(state.labels(), &vec![0; 6]);
            let centroids = state.centroids();
            assert_eq!(centroids.len(), k);
            let mut picks = Vec::new();
            for centroid in centroids {
                let index = (0..6).find(|&i| dataset.get(i).unwrap() == &centroid[..]);
                picks.push(index.unwrap());
            }
            assert!(check_selection(&picks, k, 6));
        }
    }
}

#[test]
fn start_does_not_always_draw_the_first_samples() {
    let dataset = two_groups();
    let mut seen_other = false;
    for seed in 0..50u64 {
        let mut rng = StdRng::seed_from_u64(seed);
        let (state, _) = Kmeans::new(2, 10).start(&dataset, &mut rng).unwrap();
        if state.centroids() != &vec![vec![0.0, 0.0], vec![0.0, 1.0]] {
            seen_other = true;
        }
    }
    assert!(seen_other);
}

#[test]
fn start_is_repeatable_with_one_seed() {
    let dataset = two_groups();
    let mut first = StdRng::seed_from_u64(42);
    let mut second = StdRng::seed_from_u64(42);
    let (a, _) = Kmeans::new(3, 10).start(&dataset, &mut first).unwrap();
    let (b, _) = Kmeans::new(3, 10).start(&dataset, &mut second).unwrap();
    assert_eq!(a.centroids(), b.centroids());
}

#[test]
fn start_rejects_bad_cluster_counts() {
    let dataset = two_groups();
    let mut rng = StdRng::seed_from_u64(1);
    assert_eq!(
        Kmeans::new(0, 10).start(&dataset, &mut rng).unwrap_err(),
        FitError::InvalidClusterCount
    );
    assert_eq!(
        Kmeans::new(7, 10).start(&dataset, &mut rng).unwrap_err(),
        FitError::InvalidClusterCount
    );
    let empty = Dataset::<f32>::build(vec![], 2, 0).unwrap();
    assert_eq!(
        Kmeans::new(1, 10).start(&empty, &mut rng).unwrap_err(),
        FitError::InvalidClusterCount
    );
}

#[test]
fn no_pass_allowed_returns_the_start() {
    let dataset = two_groups();
    let (state, action) = Kmeans::new(2, 0).start_with(&dataset, &[5, 2]).unwrap();
    assert_eq!(action, Action::Finish);
    assert_eq!(state.phase(), Phase::IterationLimitReached);
    let result = state.into_result().unwrap();
    assert_eq!(result.centroids, vec![vec![11.0, 10.0], vec![1.0, 0.0]]);
    assert_eq!(result.labels, vec![0; 6]);
    assert_eq!(result.iterations, 0);
    assert!(!result.converged);
}

#[test]
fn no_pass_allowed_with_drawn_centroids() {
    let dataset = two_groups();
    let mut rng = StdRng::seed_from_u64(9);
    let (state, action) = Kmeans::new(2, 0).start(&dataset, &mut rng).unwrap();
    assert_eq!(action, Action::Finish);
    let drawn = state.centroids().clone();
    let result = run(&dataset, (state, action));
    assert_eq!(result.centroids, drawn);
    assert_eq!(result.labels, vec![0; 6]);
    assert_eq!(result.iterations, 0);
}

#[test]
fn no_pass_allowed_takes_no_event() {
    let dataset = two_groups();
    let (state, _) = Kmeans::new(2, 0).start_with(&dataset, &[0, 1]).unwrap();
    let table = measure(&dataset, state.centroids());
    assert_eq!(state.step(Event::Distances(table)).unwrap_err(), FitError::UnexpectedEvent);
}

#[test]
fn step_through_one_run() {
    let dataset = two_groups();
    let (state, _) = Kmeans::new(2, 10).start_with(&dataset, &[0, 3]).unwrap();

    let table = measure(&dataset, state.centroids());
    let (state, action) = state.step(Event::Distances(table)).unwrap();
    assert_eq!(action, Action::AverageClusters);
    assert_eq!(state.phase(), Phase::Updating);
    assert_eq!(state.iterations(), 1);
    assert_eq!(state.labels(), &vec![0, 0, 0, 1, 1, 1]);
    assert_eq!(state.centroids(), &vec![vec![0.0, 0.0], vec![10.0, 10.0]]);
    assert_eq!(state.members(0), vec![0, 1, 2]);
    assert_eq!(state.members(1), vec![3, 4, 5]);
    assert!(state.into_result().is_none());

    let (state, _) = Kmeans::new(2, 10).start_with(&dataset, &[0, 3]).unwrap();
    let table = measure(&dataset, state.centroids());
    let (state, _) = state.step(Event::Distances(table)).unwrap();
    let means = average(&dataset, &state);
    let (state, action) = state.step(Event::Means(means)).unwrap();
    assert_eq!(action, Action::MeasureDistances);
    assert_eq!(state.phase(), Phase::Assigning);
    assert_eq!(state.iterations(), 1);
    let third = 1.0f32 / 3.0;
    assert_eq!(state.centroids()[0], vec![third, third]);
    assert_eq!(state.centroids()[1], vec![31.0f32 / 3.0, 31.0f32 / 3.0]);

    let table = measure(&dataset, state.centroids());
    let (state, action) = state.step(Event::Distances(table)).unwrap();
    assert_eq!(action, Action::Finish);
    assert_eq!(state.phase(), Phase::Converged);
    assert_eq!(state.iterations(), 2);
    let result = state.into_result().unwrap();
    assert!(result.converged);
    assert_eq!(result.iterations, 2);
    assert_eq!(result.labels, vec![0, 0, 0, 1, 1, 1]);
    assert_eq!(result.centroids[0], vec![third, third]);
}

#[test]
fn first_pass_that_gives_all_zero_converges_at_once() {
    let dataset = two_groups();
    let (state, _) = Kmeans::new(1, 10).start_with(&dataset, &[4]).unwrap();
    let table = measure(&dataset, state.centroids());
    let (state, action) = state.step(Event::Distances(table)).unwrap();
    assert_eq!(action, Action::Finish);
    let result = state.into_result().unwrap();
    assert!(result.converged);
    assert_eq!(result.iterations, 1);
    assert_eq!(result.centroids, vec![vec![10.0, 11.0]]);
    assert_eq!(result.labels, vec![0; 6]);
}

#[test]
fn iteration_limit_ends_the_run_after_the_update() {
    let dataset = two_groups();
    let (state, _) = Kmeans::new(2, 1).start_with(&dataset, &[0, 3]).unwrap();
    let table = measure(&dataset, state.centroids());
    let (state, action) = state.step(Event::Distances(table)).unwrap();
    assert_eq!(action, Action::AverageClusters);
    let means = average(&dataset, &state);
    let (state, action) = state.step(Event::Means(means)).unwrap();
    assert_eq!(action, Action::Finish);
    assert_eq!(state.phase(), Phase::IterationLimitReached);
    let result = state.into_result().unwrap();
    assert!(!result.converged);
    assert_eq!(result.iterations, 1);
    assert_eq!(result.labels, vec![0, 0, 0, 1, 1, 1]);
    let third = 1.0f32 / 3.0;
    assert_eq!(result.centroids[0], vec![third, third]);
}

#[test]
fn step_refuses_an_event_of_the_wrong_kind() {
    let dataset = two_groups();
    let (state, _) = Kmeans::new(2, 10).start_with(&dataset, &[0, 3]).unwrap();
    let means = vec![vec![0.0f32, 0.0], vec![1.0, 1.0]];
    assert_eq!(state.step(Event::Means(means)).unwrap_err(), FitError::UnexpectedEvent);

    let (state, _) = Kmeans::new(2, 10).start_with(&dataset, &[0, 3]).unwrap();
    let table = measure(&dataset, state.centroids());
    let (state, _) = state.step(Event::Distances(table)).unwrap();
    let table = measure(&dataset, state.centroids());
    assert_eq!(state.step(Event::Distances(table)).unwrap_err(), FitError::UnexpectedEvent);
}

#[test]
fn step_refuses_distances_of_the_wrong_shape() {
    let dataset = two_groups();
    let (state, _) = Kmeans::new(2, 10).start_with(&dataset, &[0, 3]).unwrap();
    let short = Dataset::build(vec![0u32; 10], 2, 5).unwrap();
    assert_eq!(state.step(Event::Distances(short)).unwrap_err(), FitError::ShapeMismatch);

    let (state, _) = Kmeans::new(2, 10).start_with(&dataset, &[0, 3]).unwrap();
    let wide = Dataset::build(vec![0u32; 18], 3, 6).unwrap();
    assert_eq!(state.step(Event::Distances(wide)).unwrap_err(), FitError::ShapeMismatch);
}

#[test]
fn step_refuses_means_of_the_wrong_shape() {
    let dataset = two_groups();
    let after_one_pass = || {
        let (state, _) = Kmeans::new(2, 10).start_with(&dataset, &[0, 3]).unwrap();
        let table = measure(&dataset, state.centroids());
        state.step(Event::Distances(table)).unwrap().0
    };
    let too_few = vec![vec![0.0f32, 0.0]];
    assert_eq!(
        after_one_pass().step(Event::Means(too_few)).unwrap_err(),
        FitError::ShapeMismatch
    );
    let too_narrow = vec![vec![0.0f32, 0.0], vec![1.0]];
    assert_eq!(
        after_one_pass().step(Event::Means(too_narrow)).unwrap_err(),
        FitError::ShapeMismatch
    );
}

#[test]
fn empty_cluster_keeps_its_centroid() {
    let points = vec![0.0f32, 0.0, 1.0, 0.0, 0.0, 1.0];
    let dataset = Dataset::build(points, 2, 3).unwrap();
    let (state, _) = Kmeans::new(2, 10).start_with(&dataset, &[0, 1]).unwrap();
    // Distances that send every sample to the second centroid.
    let table: Vec<u32> = [5.0f32, 1.0, 5.0, 1.0, 5.0, 1.0].iter().map(|d| d.to_bits()).collect();
    let table = Dataset::build(table, 2, 3).unwrap();
    let (state, action) = state.step(Event::Distances(table)).unwrap();
    assert_eq!(action, Action::AverageClusters);
    assert_eq!(state.labels(), &vec![1, 1, 1]);
    assert_eq!(state.members(0), Vec::<usize>::new());
    let means = average(&dataset, &state);
    assert_eq!(means[0], Vec::<f32>::new());
    let (state, _) = state.step(Event::Means(means)).unwrap();
    let third = 1.0f32 / 3.0;
    assert_eq!(state.centroids(), &vec![vec![0.0, 0.0], vec![third, third]]);
}

#[test]
fn two_separated_groups_are_found_from_every_start() {
    let dataset = two_groups();
    for first in 0..6 {
        for second in 0..6 {
            if first == second {
                continue;
            }
            let start = Kmeans::new(2, 100).start_with(&dataset, &[first, second]).unwrap();
            let result = run(&dataset, start);
            assert!(result.converged);
            assert!(result.iterations <= 100);
            assert!(is_two_groups(&result.labels), "{:?}", result.labels);
        }
    }
}

#[test]
fn two_separated_groups_are_found_with_drawn_centroids() {
    let dataset = two_groups();
    for seed in 0..20u64 {
        let mut rng = StdRng::seed_from_u64(seed);
        let start = Kmeans::new(2, 100).start(&dataset, &mut rng).unwrap();
        let result = run(&dataset, start);
        assert!(result.converged);
        assert!(is_two_groups(&result.labels));
        let mut centroids = result.centroids.clone();
        centroids.sort_by(|a, b| a[0].total_cmp(&b[0]));
        assert!((centroids[0][0] - 1.0 / 3.0).abs() < 1e-5);
        assert!((centroids[1][1] - 31.0 / 3.0).abs() < 1e-5);
    }
}

#[test]
fn a_run_takes_at_most_two_events_per_pass() {
    let dataset = two_groups();
    for limit in 0..5usize {
        let (mut state, mut action) =
            Kmeans::new(3, limit).start_with(&dataset, &[0, 1, 2]).unwrap();
        let mut events = 0;
        while action != Action::Finish {
            let event = match action {
                Action::MeasureDistances => Event::Distances(measure(&dataset, state.centroids())),
                _ => Event::Means(average(&dataset, &state)),
            };
            (state, action) = state.step(event).unwrap();
            events += 1;
        }
        assert!(events <= 2 * limit);
        assert!(state.iterations() <= limit);
    }
}

#[test]
fn action_of_every_phase() {
    assert_eq!(action_of(Phase::Assigning), Action::MeasureDistances);
    assert_eq!(action_of(Phase::Updating), Action::AverageClusters);
    assert_eq!(action_of(Phase::Converged), Action::Finish);
    assert_eq!(action_of(Phase::IterationLimitReached), Action::Finish);
}

#[test]
fn same_labels_compares_whole_vectors() {
    assert!(same_labels(&[], &[]));
    assert!(same_labels(&[1, 2, 0], &[1, 2, 0]));
    assert!(!same_labels(&[1, 2, 0], &[1, 2, 1]));
    assert!(!same_labels(&[1, 2], &[1, 2, 0]));
    assert!(!same_labels(&[1, 2, 0], &[1, 2]));
}

fn within_cluster_cost(dataset: &Dataset<f32>, centroids: &Vec<Vec<f32>>, labels: &[usize]) -> f64 {
    let mut cost = 0.0f64;
    for (index, &label) in labels.iter().enumerate() {
        let sample = dataset.get(index).unwrap();
        for (x, c) in sample.iter().zip(centroids[label].iter()) {
            cost += (*x as f64 - *c as f64) * (*x as f64 - *c as f64);
        }
    }
    cost
}

#[test]
fn cost_does_not_rise_from_pass_to_pass() {
    let points = vec![
        0.0f32, 0.0, 0.0, 1.0, 1.0, 0.0, 10.0, 10.0, 10.0, 11.0, 11.0, 10.0, 5.0, 5.0, 4.0, 6.0,
        20.0, 1.0, 19.0, 2.0,
    ];
    let dataset = Dataset::build(points, 2, 10).unwrap();
    for first in 0..10 {
        let picks = [first, (first + 3) % 10, (first + 7) % 10];
        let (mut state, mut action) = Kmeans::new(3, 50).start_with(&dataset, &picks).unwrap();
        let mut last = f64::INFINITY;
        while action != Action::Finish {
            let event = match action {
                Action::MeasureDistances => Event::Distances(measure(&dataset, state.centroids())),
                _ => Event::Means(average(&dataset, &state)),
            };
            let measured = action == Action::MeasureDistances;
            (state, action) = state.step(event).unwrap();
            if measured {
                let cost = within_cluster_cost(&dataset, state.centroids(), state.labels());
                assert!(cost <= last + 1e-3, "{} after {}", cost, last);
                last = cost;
            }
        }
        assert!(state.into_result().unwrap().converged);
    }
}
