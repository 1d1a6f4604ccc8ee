use podcasts_remove_ads::fp::{decode_raw_peaks, encode_raw_peaks, PeaksFileError, RawAudioPeaksFile};

fn sample() -> RawAudioPeaksFile {
    RawAudioPeaksFile {
        duration_bits: 1234.5f64.to_bits(),
        total_frames: 3,
        frame_peaks: vec![vec![300, 12, 0x1234], vec![], vec![7]],
        frame_energy_bits: vec![0.25f32.to_bits(), 1.5f32.to_bits()],
    }
}

#[test]
fn encoding_layout() {
    let bytes = encode_raw_peaks(&sample());
    assert_eq!(&bytes[0..8], b"AUDIOPEK");
    assert_eq!(&bytes[8..16], &1234.5f64.to_le_bytes());
    assert_eq!(&bytes[16..20], &3u32.to_le_bytes());
    assert_eq!(&bytes[20..24], &8u32.to_le_bytes());
    // First frame: count, energy, peaks in ascending order.
    assert_eq!(bytes[24], 3);
    assert_eq!(&bytes[25..29], &0.25f32.to_le_bytes());
    assert_eq!(&bytes[29..35], &[12, 0, 0x2c, 0x01, 0x34, 0x12]);
    // Second frame: no peaks.
    assert_eq!(bytes[35], 0);
    assert_eq!(&bytes[36..40], &1.5f32.to_le_bytes());
    // Third frame: no energy given, so 0.
    assert_eq!(bytes[40], 1);
    assert_eq!(&bytes[41..45], &[0, 0, 0, 0]);
    assert_eq!(&bytes[45..47], &[7, 0]);
    assert_eq!(bytes.len(), 47);
}

#[test]
fn written_file_reads_back_sorted() {
    let bytes = encode_raw_peaks(&sample());
    let back = decode_raw_peaks(&bytes).expect("decode");
    assert_eq!(f64::from_bits(back.duration_bits), 1234.5);
    assert_eq!(back.total_frames, 3);
    assert_eq!(back.frame_peaks, vec![vec![12, 300, 0x1234], vec![], vec![7]]);
    assert_eq!(back.frame_energy_bits, vec![0.25f32.to_bits(), 1.5f32.to_bits(), 0]);
}

#[test]
fn trailing_bytes_are_ignored() {
    let mut bytes = encode_raw_peaks(&sample());
    bytes.extend_from_slice(&[1, 2, 3]);
    assert_eq!(decode_raw_peaks(&bytes).expect("decode").frame_peaks.len(), 3);
}

#[test]
fn bad_magic() {
    let mut bytes = encode_raw_peaks(&sample());
    bytes[0] = b'X';
    assert_eq!(decode_raw_peaks(&bytes).unwrap_err(), PeaksFileError::BadMagic);
}

#[test]
fn truncated_files() {
    let bytes = encode_raw_peaks(&sample());
    assert_eq!(decode_raw_peaks(&bytes[..5]).unwrap_err(), PeaksFileError::Truncated);
    assert_eq!(decode_raw_peaks(&bytes[..20]).unwrap_err(), PeaksFileError::Truncated);
    assert_eq!(decode_raw_peaks(&bytes[..30]).unwrap_err(), PeaksFileError::Truncated);
    assert_eq!(decode_raw_peaks(&bytes[..46]).unwrap_err(), PeaksFileError::Truncated);
    assert!(decode_raw_peaks(&bytes[..47]).is_ok());
}

#[test]
fn short_garbage_is_truncated_not_bad_magic() {
    assert_eq!(decode_raw_peaks(b"AUD").unwrap_err(), PeaksFileError::Truncated);
    assert_eq!(decode_raw_peaks(b"XXXXXXXX").unwrap_err(), PeaksFileError::BadMagic);
}
