use podcasts_remove_ads::fingerprint::{generate_fingerprints_from_raw_peaks, Fingerprint};

#[test]
fn pairs_anchor_with_targets_three_to_seventeen_frames_later() {
    let mut frames: Vec<Vec<u16>> = vec![Vec::new(); 25];
    frames[0] = vec![10];
    frames[2] = vec![99]; // too close to frame 0
    frames[3] = vec![20];
    frames[17] = vec![30];
    frames[18] = vec![40]; // too far from frame 0
    let fps = generate_fingerprints_from_raw_peaks(&frames, 8);
    let from0: Vec<Fingerprint> = fps.iter().copied().filter(|f| f.frame == 0).collect();
    assert_eq!(from0.len(), 2);
    assert_eq!(from0[0].hash, (10 << 14) | (20 << 5) | 3);
    assert_eq!(from0[1].hash, (10 << 14) | (30 << 5) | 17);
}

#[test]
fn only_the_first_eval_peaks_count() {
    let mut frames: Vec<Vec<u16>> = vec![Vec::new(); 5];
    frames[0] = vec![1, 2, 3];
    frames[4] = vec![4, 5];
    let fps = generate_fingerprints_from_raw_peaks(&frames, 2);
    let hashes: Vec<u32> = fps.iter().map(|f| f.hash).collect();
    assert_eq!(
        hashes,
        vec![(1 << 14) | (4 << 5) | 4, (1 << 14) | (5 << 5) | 4, (2 << 14) | (4 << 5) | 4, (2 << 14) | (5 << 5) | 4]
    );
}

#[test]
fn bins_are_cut_to_nine_bits() {
    let mut frames: Vec<Vec<u16>> = vec![Vec::new(); 4];
    frames[0] = vec![0x3FF];
    frames[3] = vec![0x201];
    let fps = generate_fingerprints_from_raw_peaks(&frames, 8);
    assert_eq!(fps.len(), 1);
    assert_eq!(fps[0].hash, (0x1FF << 14) | (0x001 << 5) | 3);
    assert_eq!(fps[0].hash >> 14, 0x1FF);
}

#[test]
fn no_peaks_no_fingerprints() {
    assert!(generate_fingerprints_from_raw_peaks(&[], 8).is_empty());
    assert!(generate_fingerprints_from_raw_peaks(&vec![vec![1u16]; 30], 0).is_empty());
}

#[test]
fn prefix_fingerprints_are_the_filtered_whole() {
    let frames: Vec<Vec<u16>> = (0..40u16).map(|t| vec![t * 3 % 17, t * 7 % 23 + 100]).collect();
    let whole = generate_fingerprints_from_raw_peaks(&frames, 8);
    for k in [0usize, 1, 5, 20, 33, 40] {
        let prefix = generate_fingerprints_from_raw_peaks(&frames[..k], 8);
        let filtered: Vec<(u32, u32)> = whole
            .iter()
            .filter(|f| (f.frame + (f.hash & 0x1F)) < k as u32)
            .map(|f| (f.hash, f.frame))
            .collect();
        let got: Vec<(u32, u32)> = prefix.iter().map(|f| (f.hash, f.frame)).collect();
        assert_eq!(got, filtered, "k={}", k);
    }
}
