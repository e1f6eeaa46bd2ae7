use ruschio::{encode_labels, evaluate, Accuracy, Kmeans};

fn ratio(accuracy: Accuracy) -> f32 {
    accuracy.matching as f32 / accuracy.total as f32
}

#[test]
fn test_accuracy() {
    let truth: Vec<usize> = vec![1, 0];
    let pred: Vec<usize> = vec![1, 0];
    assert_eq!(ratio(evaluate(&pred, &truth)), 1.0);

    let truth: Vec<usize> = vec![1, 0];
    let pred: Vec<usize> = vec![0, 1];
    assert_eq!(ratio(evaluate(&pred, &truth)), 0.0);

    let truth: Vec<usize> = vec![1, 2];
    let pred: Vec<usize> = vec![1, 0];
    assert_eq!(ratio(evaluate(&pred, &truth)), 0.5);
}

#[test]
fn evaluate_counts_agreeing_positions() {
    assert_eq!(evaluate(&vec![1, 0], &vec![1, 0]), Accuracy { matching: 2, total: 2 });
    assert_eq!(evaluate(&vec![0, 1], &vec![1, 0]), Accuracy { matching: 0, total: 2 });
    assert_eq!(evaluate(&vec![1, 0], &vec![1, 2]), Accuracy { matching: 1, total: 2 });
    assert_eq!(evaluate(&vec![3, 3, 1, 3], &vec![3, 0, 1, 3]), Accuracy { matching: 3, total: 4 });
}

#[test]
fn evaluate_of_a_vector_against_itself_is_perfect() {
    let labels = vec![4usize, 0, 2, 2, 1];
    assert_eq!(evaluate(&labels, &labels), Accuracy { matching: 5, total: 5 });
}

#[test]
fn evaluate_counts_the_same_either_way_round() {
    let a = vec![1usize, 2, 3, 1];
    let b = vec![1usize, 0, 3, 2];
    assert_eq!(evaluate(&a, &b).matching, evaluate(&b, &a).matching);
}

#[test]
fn evaluate_of_nothing() {
    assert_eq!(evaluate(&vec![], &vec![]), Accuracy { matching: 0, total: 0 });
    assert!(ratio(evaluate(&vec![], &vec![])).is_nan());
}

#[test]
fn evaluate_compares_only_shared_positions() {
    assert_eq!(evaluate(&vec![1, 0, 5], &vec![1, 0]), Accuracy { matching: 2, total: 2 });
    assert_eq!(evaluate(&vec![1], &vec![1, 0, 5]), Accuracy { matching: 1, total: 3 });
}

#[test]
fn encode_labels_writes_eight_bytes_per_label() {
    assert_eq!(encode_labels(&vec![]), Vec::<u8>::new());
    assert_eq!(encode_labels(&vec![1]), vec![1, 0, 0, 0, 0, 0, 0, 0]);
    assert_eq!(
        encode_labels(&vec![258, 0]),
        vec![2, 1, 0, 0, 0, 0, 0, 0, 0, 0, 0, 0, 0, 0, 0, 0]
    );
}

#[test]
fn encode_labels_agrees_with_std() {
    let labels = vec![0usize, 1, 255, 256, 0x0102_0304, usize::MAX, usize::MAX / 3];
    let mut expected = Vec::new();
    for label in &labels {
        expected.extend_from_slice(&(*label as u64).to_le_bytes());
    }
    assert_eq!(encode_labels(&labels), expected);
}

#[test]
fn kmeans_keeps_its_settings() {
    let kmeans = Kmeans::new(3, 1000);
    assert_eq!(kmeans.n_clusters(), 3);
    assert_eq!(kmeans.max_iterations(), 1000);
}
