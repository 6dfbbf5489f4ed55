use castavox_core::embed::{from_blob, to_blob, DIMENSIONS};

#[test]
fn blob_round_trip() {
    let vector: Vec<f32> = (0..DIMENSIONS).map(|i| i as f32 / 1000.0).collect();
    let bits: Vec<u32> = vector.iter().map(|value| value.to_bits()).collect();
    let restored = from_blob(&to_blob(&bits)).expect("should decode");
    let restored: Vec<f32> = restored.into_iter().map(f32::from_bits).collect();
    assert_eq!(restored, vector);
}

#[test]
fn a_truncated_blob_is_rejected_rather_than_misread() {
    assert!(from_blob(&[0u8; 16]).is_none());
    assert!(from_blob(&[]).is_none());
}

#[test]
fn a_number_is_written_least_significant_first() {
    assert_eq!(to_blob(&[0.5f32.to_bits()]), 0.5f32.to_le_bytes().to_vec());
    assert_eq!(to_blob(&[0x0403_0201]), vec![1, 2, 3, 4]);
}
