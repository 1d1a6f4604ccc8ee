use podcasts_remove_ads::clusters::DeltaCluster;
use podcasts_remove_ads::radix::{
    match_clusters_radix_map, match_fingerprints_radix_map,
    match_fingerprints_radix_map_warm_sliding_window, radix_sort_query_landmarks,
    radix_sort_ref_landmarks, MatchPair, QueryLandmark, RefLandmark,
};

#[test]
fn test_radix_sort_ref_landmarks() {
    let mut landmarks = vec![
        RefLandmark { hash: 500, ref_idx: 0, r_frame: 10 },
        RefLandmark { hash: 12, ref_idx: 1, r_frame: 5 },
        RefLandmark { hash: 8000, ref_idx: 0, r_frame: 20 },
        RefLandmark { hash: 12, ref_idx: 0, r_frame: 1 },
    ];
    radix_sort_ref_landmarks(&mut landmarks);
    assert_eq!(landmarks[0].hash, 12);
    assert_eq!(landmarks[1].hash, 12);
    assert_eq!(landmarks[2].hash, 500);
    assert_eq!(landmarks[3].hash, 8000);
}

#[test]
fn test_radix_sort_random() {
    for len in [0, 1, 2, 5, 10, 100, 1000] {
        let mut landmarks: Vec<RefLandmark> = (0..len)
            .map(|i| RefLandmark {
                hash: (i as u32 * 78901) % (1 << 23),
                ref_idx: (i % 256) as u16,
                r_frame: i as u32 * 100,
            })
            .collect();
        let mut expected = landmarks.clone();
        expected.sort_by_key(|l| l.hash);
        radix_sort_ref_landmarks(&mut landmarks);
        assert_eq!(landmarks, expected, "radix sort failed for len={}", len);
    }
}

#[test]
fn test_radix_sort_query_random() {
    for len in [0, 1, 2, 5, 10, 100, 1000] {
        let mut landmarks: Vec<QueryLandmark> = (0..len)
            .map(|i| QueryLandmark {
                hash: (i as u32 * 54321) % (1 << 23),
                q_frame: i as u32 * 50,
            })
            .collect();
        let mut expected = landmarks.clone();
        expected.sort_by_key(|l| l.hash);
        radix_sort_query_landmarks(&mut landmarks);
        assert_eq!(landmarks, expected, "radix sort failed for len={}", len);
    }
}

#[test]
fn test_sliding_window_warm_heuristic() {
    let mut ref_landmarks = Vec::new();
    let mut query_landmarks = Vec::new();

    for i in 0..200000u64 {
        let hash = ((i * 104729 + 13) % 2_000_000) as u32;
        ref_landmarks.push(RefLandmark { hash, ref_idx: 0, r_frame: ((i * 13) % 50000) as u32 });
        query_landmarks.push(QueryLandmark { hash, q_frame: ((i * 37) % 50000) as u32 });
    }

    for f in 5000..5430 {
        for k in 0..6 {
            let hash = 200_000 + f * 10 + k;
            ref_landmarks.push(RefLandmark { hash, ref_idx: 0, r_frame: f });
            query_landmarks.push(QueryLandmark { hash, q_frame: f - 1200 });
        }
    }

    for f in 20000..20430 {
        for k in 0..6 {
            let hash = 400_000 + f * 10 + k;
            ref_landmarks.push(RefLandmark { hash, ref_idx: 0, r_frame: f });
            query_landmarks.push(QueryLandmark { hash, q_frame: (f as i32 + 3500) as u32 });
        }
    }

    let window_sizes = [21, 43, 65, 85];
    let thresholds = [30, 50, 80, 120];

    for &w in &window_sizes {
        for &t in &thresholds {
            let (matches_warm, total_pairs, warm_pairs, _elapsed) =
                match_fingerprints_radix_map_warm_sliding_window(
                    ref_landmarks.clone(),
                    query_landmarks.clone(),
                    200,
                    w,
                    t,
                );

            let emission_pct = (warm_pairs as f64 / total_pairs as f64) * 100.0;
            let omission_pct = 100.0 - emission_pct;
            let has_ad1 = matches_warm.iter().any(|m| m.delta_q == 1200);
            let has_ad2 = matches_warm.iter().any(|m| m.delta_q == -3498);

            println!(
                "W={:2} ({:.1}s) | Thresh={:3} | Emitted: {:5}/{} ({:5.2}%) | Omitted: {:5.2}% | Ads: {}/2",
                w,
                (w * 2) as f64 * 0.04644,
                t,
                warm_pairs,
                total_pairs,
                emission_pct,
                omission_pct,
                (if has_ad1 { 1 } else { 0 }) + (if has_ad2 { 1 } else { 0 }),
            );
        }
    }
}

fn small_episode() -> (Vec<RefLandmark>, Vec<QueryLandmark>) {
    // 30 landmarks that repeat 10 frames later in the reference, plus a
    // hash that is too common to vote.
    let mut refs = Vec::new();
    let mut query = Vec::new();
    for i in 0..30u32 {
        refs.push(RefLandmark { hash: 1000 + i, ref_idx: 3, r_frame: 110 + i });
        query.push(QueryLandmark { hash: 1000 + i, q_frame: 100 + i });
    }
    for i in 0..5u32 {
        refs.push(RefLandmark { hash: 7, ref_idx: 3, r_frame: 500 + i });
    }
    query.push(QueryLandmark { hash: 7, q_frame: 40 });
    (refs, query)
}

#[test]
fn warm_pairs_are_sorted_even_and_counted() {
    let (refs, query) = small_episode();
    let (pairs, total, emitted, _) =
        match_fingerprints_radix_map_warm_sliding_window(refs, query, 4, 21, 20);
    // The common hash (5 occurrences > 4) does not vote: 30 candidate pairs.
    assert_eq!(total, 30);
    assert_eq!(emitted, pairs.len());
    assert_eq!(pairs.len(), 30);
    for (k, p) in pairs.iter().enumerate() {
        assert_eq!(p.ref_idx, 0);
        assert_eq!(p.delta_q % 2, 0);
        // (110 + i) - (100 + i) = 10, already even.
        assert_eq!(p.delta_q, 10);
        assert_eq!(p.q_frame, 100 + k as u32);
    }
}

#[test]
fn offsets_are_rounded_to_even() {
    let refs = vec![RefLandmark { hash: 5, ref_idx: 0, r_frame: 13 }];
    let query = vec![QueryLandmark { hash: 5, q_frame: 10 }];
    // delta = 3 -> (3 + 1) / 2 * 2 = 4
    let (pairs, total, _, _) =
        match_fingerprints_radix_map_warm_sliding_window(refs.clone(), query.clone(), 10, 1, 1);
    assert_eq!(total, 1);
    assert_eq!(pairs, vec![MatchPair { ref_idx: 0, delta_q: 4, q_frame: 10 }]);
    // delta = -3 -> -((2) / 2 * 2) = -2
    let refs2 = vec![RefLandmark { hash: 5, ref_idx: 0, r_frame: 7 }];
    let (pairs2, _, _, _) =
        match_fingerprints_radix_map_warm_sliding_window(refs2, query, 10, 1, 1);
    assert_eq!(pairs2, vec![MatchPair { ref_idx: 0, delta_q: -2, q_frame: 10 }]);
}

#[test]
fn threshold_above_votes_emits_nothing() {
    let (refs, query) = small_episode();
    let (pairs, total, emitted, _) =
        match_fingerprints_radix_map_warm_sliding_window(refs, query, 4, 21, 31);
    assert_eq!(total, 30);
    assert_eq!(emitted, 0);
    assert!(pairs.is_empty());
}

#[test]
fn threshold_zero_keeps_every_candidate() {
    let (refs, query) = small_episode();
    let (pairs, total, _, _) =
        match_fingerprints_radix_map_warm_sliding_window(refs, query, 4, 1, 0);
    assert_eq!(pairs.len(), total);
}

#[test]
fn radix_map_uses_default_window() {
    let (refs, query) = small_episode();
    let (pairs, _) = match_fingerprints_radix_map(refs.clone(), query.clone(), 4);
    assert_eq!(pairs.len(), 30);
    // With the default threshold of 20 votes, 19 pairs are too few.
    let (pairs_few, _) =
        match_fingerprints_radix_map(refs[..19].to_vec(), query[..19].to_vec(), 4);
    assert!(pairs_few.is_empty());
}

#[test]
fn clusters_of_warm_pairs() {
    let (refs, query) = small_episode();
    let clusters = match_clusters_radix_map(refs, query, 4, 21, 20, 60);
    assert_eq!(
        clusters,
        vec![DeltaCluster { delta: 10, start_frame: 100, end_frame: 129, hits: 30 }]
    );
    let (refs, query) = small_episode();
    let split = match_clusters_radix_map(refs, query, 4, 21, 20, 0);
    // Consecutive frames are 1 apart, more than a gap of 0: one cluster each.
    assert_eq!(split.len(), 30);
    assert!(split.iter().all(|c| c.hits == 1 && c.start_frame == c.end_frame));
}

#[test]
fn empty_inputs_match_nothing() {
    let (pairs, total, emitted, _) =
        match_fingerprints_radix_map_warm_sliding_window(Vec::new(), Vec::new(), 200, 21, 20);
    assert!(pairs.is_empty());
    assert_eq!(total, 0);
    assert_eq!(emitted, 0);
}

fn mixed_episode() -> (Vec<RefLandmark>, Vec<QueryLandmark>) {
    let mut refs = Vec::new();
    let mut query = Vec::new();
    for i in 0..60u32 {
        let h = i % 20;
        refs.push(RefLandmark { hash: h, ref_idx: (i % 3) as u16, r_frame: 200 + i * 3 });
        query.push(QueryLandmark { hash: h, q_frame: 150 + i * 3 });
    }
    (refs, query)
}

fn as_sorted(mut v: Vec<MatchPair>) -> Vec<MatchPair> {
    v.sort();
    v
}

fn is_sub_multiset(small: &[MatchPair], big: &[MatchPair]) -> bool {
    let mut rest = big.to_vec();
    for m in small {
        match rest.iter().position(|x| x == m) {
            Some(p) => {
                rest.remove(p);
            }
            None => return false,
        }
    }
    true
}

#[test]
fn higher_threshold_keeps_fewer_pairs() {
    let (refs, query) = mixed_episode();
    let (low, total_low, _, _) =
        match_fingerprints_radix_map_warm_sliding_window(refs.clone(), query.clone(), 3, 5, 2);
    let (_, total_other_window, _, _) =
        match_fingerprints_radix_map_warm_sliding_window(refs.clone(), query.clone(), 3, 31, 40);
    assert_eq!(total_low, total_other_window);
    let (high_same_window, _, _, _) =
        match_fingerprints_radix_map_warm_sliding_window(refs, query, 3, 5, 40);
    assert!(is_sub_multiset(&high_same_window, &low));
}

#[test]
fn more_occurrences_keep_more_pairs() {
    let (refs, query) = mixed_episode();
    let (few, total_few, _, _) =
        match_fingerprints_radix_map_warm_sliding_window(refs.clone(), query.clone(), 2, 9, 3);
    let (many, total_many, _, _) =
        match_fingerprints_radix_map_warm_sliding_window(refs, query, 3, 9, 3);
    assert!(total_few <= total_many);
    assert!(is_sub_multiset(&few, &many));
}

#[test]
fn landmark_order_does_not_matter() {
    let (refs, query) = mixed_episode();
    let mut refs2 = refs.clone();
    refs2.reverse();
    let mut query2 = query.clone();
    query2.rotate_left(17);
    let a = match_fingerprints_radix_map_warm_sliding_window(refs, query, 3, 9, 3);
    let b = match_fingerprints_radix_map_warm_sliding_window(refs2, query2, 3, 9, 3);
    assert_eq!(a.0, b.0);
    assert_eq!(a.1, b.1);
    assert_eq!(a.2, b.2);
    assert_eq!(as_sorted(a.0.clone()), a.0);
}

#[test]
fn radix_map_is_the_engine_with_window_21_and_threshold_20() {
    let (refs, query) = small_episode();
    let (a, _) = match_fingerprints_radix_map(refs.clone(), query.clone(), 4);
    let (b, _, _, _) = match_fingerprints_radix_map_warm_sliding_window(refs, query, 4, 21, 20);
    assert_eq!(a, b);
}
