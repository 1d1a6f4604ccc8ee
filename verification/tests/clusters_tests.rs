use podcasts_remove_ads::clusters::{extract_delta_clusters, DeltaCluster};
use podcasts_remove_ads::radix::MatchPair;

fn pair(delta_q: i32, q_frame: u32) -> MatchPair {
    MatchPair { ref_idx: 0, delta_q, q_frame }
}

#[test]
fn small_groups_are_dropped() {
    let pairs = vec![pair(-4, 10), pair(-4, 11), pair(8, 1), pair(8, 2), pair(8, 3)];
    let clusters = extract_delta_clusters(&pairs, 60);
    assert_eq!(clusters, vec![DeltaCluster { delta: 8, start_frame: 1, end_frame: 3, hits: 3 }]);
}

#[test]
fn repeated_frames_count_once_but_count_for_group_size() {
    // Three pairs, but only one distinct frame: the group is kept (size is
    // counted before repeats are removed) and has one hit.
    let pairs = vec![pair(2, 50), pair(2, 50), pair(2, 50)];
    let clusters = extract_delta_clusters(&pairs, 60);
    assert_eq!(clusters, vec![DeltaCluster { delta: 2, start_frame: 50, end_frame: 50, hits: 1 }]);
}

#[test]
fn gaps_split_clusters() {
    let pairs = vec![
        pair(0, 0),
        pair(0, 10),
        pair(0, 70),
        pair(0, 131),
        pair(0, 140),
        pair(6, 5),
        pair(6, 6),
        pair(6, 7),
    ];
    let clusters = extract_delta_clusters(&pairs, 60);
    assert_eq!(
        clusters,
        vec![
            DeltaCluster { delta: 0, start_frame: 0, end_frame: 70, hits: 3 },
            DeltaCluster { delta: 0, start_frame: 131, end_frame: 140, hits: 2 },
            DeltaCluster { delta: 6, start_frame: 5, end_frame: 7, hits: 3 },
        ]
    );
}

#[test]
fn no_pairs_no_clusters() {
    assert!(extract_delta_clusters(&Vec::new(), 60).is_empty());
}
