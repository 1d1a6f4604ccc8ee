use podcasts_remove_ads::segment::{energy_order_key, snap_to_silence, verify_candidate_segment_pct};

fn keys(energies: &[f32]) -> Vec<Option<u32>> {
    energies.iter().map(|e| energy_order_key(e.to_bits())).collect()
}

#[test]
fn test_snap_to_silence_basic() {
    let energies = vec![0.5f32, 0.8, 0.1, 0.9, 0.3];
    // Target frame 2 has lowest energy (0.1), so snap should stay at 2
    let snapped = snap_to_silence(&keys(&energies), 2);
    assert_eq!(snapped, 2);
}

#[test]
fn test_snap_to_silence_near_low() {
    let energies = vec![0.1f32, 0.8, 0.9, 0.5, 0.3];
    // Target frame 0 has the lowest energy in the search window, snap stays at 0
    let snapped = snap_to_silence(&keys(&energies), 0);
    assert_eq!(snapped, 0);
}

#[test]
fn snap_moves_to_earliest_quietest_frame() {
    let mut energies = vec![1.0f32; 40];
    energies[15] = 0.2;
    energies[25] = 0.2;
    energies[31] = 0.0; // outside the window of frame 20
    assert_eq!(snap_to_silence(&keys(&energies), 20), 15);
}

#[test]
fn snap_keeps_target_on_ties_and_past_the_end() {
    let energies = vec![0.3f32, 0.3, 0.3];
    assert_eq!(snap_to_silence(&keys(&energies), 2), 2);
    assert_eq!(snap_to_silence(&keys(&energies), 7), 7);
    assert_eq!(snap_to_silence(&[], 0), 0);
}

fn frames(n: usize, peaks: &[u16]) -> Vec<Vec<u16>> {
    vec![peaks.to_vec(); n]
}

#[test]
fn verify_accepts_matching_segment() {
    let query = frames(30, &[100, 200, 300]);
    let reference = frames(40, &[101, 199, 400]);
    // Two of three peaks lie within one bin: 2/3 >= 40% for every frame.
    assert_eq!(verify_candidate_segment_pct(&query, &reference, 0, 19, 5), Some((20, 20)));
}

#[test]
fn verify_needs_ten_compared_frames() {
    let query = frames(30, &[100]);
    let reference = frames(30, &[100]);
    assert_eq!(verify_candidate_segment_pct(&query, &reference, 0, 8, 0), None);
    assert_eq!(verify_candidate_segment_pct(&query, &reference, 0, 9, 0), Some((10, 10)));
    // Frames past either end are not compared.
    assert_eq!(verify_candidate_segment_pct(&query, &reference, 25, 40, 0), None);
    assert_eq!(verify_candidate_segment_pct(&query, &reference, 10, 5, 0), None);
}

#[test]
fn verify_rejects_dissimilar_segment() {
    let query = frames(20, &[100, 200, 300, 400, 500]);
    let reference = frames(20, &[100, 900, 901, 902, 903]);
    // One of five peaks matches: 20% < 40%, no frame matches.
    assert_eq!(verify_candidate_segment_pct(&query, &reference, 0, 19, 0), None);
}

#[test]
fn verify_needs_half_of_the_frames() {
    let mut query = frames(20, &[100]);
    for f in query.iter_mut().skip(10) {
        *f = vec![500];
    }
    let reference = frames(20, &[100]);
    // 10 of 20 frames match: exactly half is enough.
    assert_eq!(verify_candidate_segment_pct(&query, &reference, 0, 19, 0), Some((10, 20)));
    query[9] = vec![500];
    assert_eq!(verify_candidate_segment_pct(&query, &reference, 0, 19, 0), None);
}

#[test]
fn verify_skips_frames_without_peaks() {
    let mut query = frames(30, &[100]);
    for f in query.iter_mut().take(15) {
        f.clear();
    }
    let reference = frames(30, &[100]);
    assert_eq!(verify_candidate_segment_pct(&query, &reference, 0, 29, 0), Some((15, 15)));
}

#[test]
fn energy_keys_order_as_floats() {
    let k = |x: f32| energy_order_key(x.to_bits());
    assert_eq!(k(0.0), Some(0x8000_0000));
    assert_eq!(k(-0.0), k(0.0));
    assert_eq!(k(1.0), Some(0x8000_0000 + 0x3F80_0000));
    assert_eq!(k(-1.0), Some(0x8000_0000 - 0x3F80_0000));
    assert!(k(-2.0) < k(-1.0));
    assert!(k(-1.0) < k(-0.5));
    assert!(k(-0.5) < k(0.0));
    assert!(k(0.0) < k(0.5));
    assert!(k(f32::NEG_INFINITY) < k(f32::MIN));
    assert!(k(f32::MAX) < k(f32::INFINITY));
    assert_eq!(k(f32::NAN), None);
    assert_eq!(energy_order_key(0xFFC0_0000), None);
}

#[test]
fn snap_orders_negative_energies_by_value() {
    // Bit patterns would put -3.0 above 0.5; by value it is the quietest.
    let energies = vec![0.5f32, -1.0, 0.2, -3.0, 0.9];
    assert_eq!(snap_to_silence(&keys(&energies), 0), 3);
}

#[test]
fn snap_treats_negative_zero_as_a_tie() {
    let energies = vec![0.3f32, -0.0, 0.0, 0.7];
    assert_eq!(snap_to_silence(&keys(&energies), 2), 2);
    assert_eq!(snap_to_silence(&keys(&energies), 0), 1);
}

#[test]
fn snap_keeps_a_nan_target_and_skips_nan_frames() {
    let energies = vec![0.4f32, f32::NAN, 0.1, f32::NAN, 0.2];
    assert_eq!(snap_to_silence(&keys(&energies), 1), 1);
    assert_eq!(snap_to_silence(&keys(&energies), 4), 2);
    let quiet_nan = vec![f32::NAN, 0.6, 0.5];
    assert_eq!(snap_to_silence(&keys(&quiet_nan), 1), 2);
}
