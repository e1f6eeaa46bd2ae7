use ruschio::clusters::{members, occupied, update};
use ruschio::lanes::{lane_split, LaneSplit, LANE_WIDTH};

#[test]
fn members_lists_indices_in_dataset_order() {
    let labels = [1usize, 0, 1, 2, 1, 0];
    assert_eq!(members(&labels, 0), vec![1, 5]);
    assert_eq!(members(&labels, 1), vec![0, 2, 4]);
    assert_eq!(members(&labels, 2), vec![3]);
}

#[test]
fn members_of_unused_label_is_empty() {
    let labels = [1usize, 0, 1];
    assert_eq!(members(&labels, 2), Vec::<usize>::new());
    assert_eq!(members(&[], 0), Vec::<usize>::new());
}

#[test]
fn members_share_out_every_sample_once() {
    let labels = [2usize, 0, 1, 2, 2, 0, 1];
    let mut seen = vec![0usize; labels.len()];
    for cluster in 0..3 {
        for index in members(&labels, cluster) {
            assert_eq!(labels[index], cluster);
            seen[index] += 1;
        }
    }
    assert_eq!(seen, vec![1; labels.len()]);
}

#[test]
fn occupied_flags_the_labels_in_use() {
    assert_eq!(occupied(&[0, 2, 2], 4), vec![true, false, true, false]);
    assert_eq!(occupied(&[], 2), vec![false, false]);
    assert_eq!(occupied(&[1, 1], 0), Vec::<bool>::new());
}

#[test]
fn occupied_ignores_labels_past_the_cluster_count() {
    assert_eq!(occupied(&[5, 0], 2), vec![true, false]);
}

#[test]
fn update_moves_occupied_clusters_to_their_means() {
    let previous = vec![vec![0.0f32, 0.0], vec![1.0, 1.0]];
    let means = vec![vec![0.5f32, 0.25], vec![4.0, 5.0]];
    let centroids = update(previous, means.clone(), &[0, 1, 1]);
    assert_eq!(centroids, means);
}

#[test]
fn update_keeps_the_centroid_of_an_empty_cluster() {
    let previous = vec![vec![0.0f32, 0.0], vec![1.0, 1.0], vec![2.0, 2.0]];
    let means = vec![vec![0.5f32, 0.25], vec![], vec![7.0, 8.0]];
    let centroids = update(previous, means, &[0, 2, 2, 0]);
    assert_eq!(centroids, vec![vec![0.5, 0.25], vec![1.0, 1.0], vec![7.0, 8.0]]);
}

#[test]
fn update_without_samples_changes_nothing() {
    let previous = vec![vec![3u32], vec![4]];
    let means = vec![vec![9u32], vec![9]];
    assert_eq!(update(previous.clone(), means, &[]), previous);
}

#[test]
fn lane_width_is_four() {
    assert_eq!(LANE_WIDTH, 4);
}

#[test]
fn lane_split_of_short_samples_is_all_tail() {
    for len in 0..4 {
        assert_eq!(lane_split(len), LaneSplit { groups: 0, tail_start: 0 });
    }
}

#[test]
fn lane_split_covers_every_position_once() {
    assert_eq!(lane_split(4), LaneSplit { groups: 1, tail_start: 4 });
    assert_eq!(lane_split(5), LaneSplit { groups: 1, tail_start: 4 });
    assert_eq!(lane_split(7), LaneSplit { groups: 1, tail_start: 4 });
    assert_eq!(lane_split(8), LaneSplit { groups: 2, tail_start: 8 });
    assert_eq!(lane_split(1023), LaneSplit { groups: 255, tail_start: 1020 });
}

#[test]
fn lane_split_of_the_largest_length() {
    let split = lane_split(usize::MAX);
    assert_eq!(split.groups, usize::MAX / 4);
    assert_eq!(split.tail_start, usize::MAX - 3);
}
