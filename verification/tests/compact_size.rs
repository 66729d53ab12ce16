use bitcoin_tx_codec::BitcoinError;
use bitcoin_tx_codec::CompactSize;

fn assert_round_trip(value: u64, expected_len: usize) {
    let encoded = CompactSize::new(value).to_bytes();
    assert_eq!(encoded.len(), expected_len);
    let (decoded, consumed) = CompactSize::from_bytes(&encoded).unwrap();
    assert_eq!(decoded.value, value);
    assert_eq!(consumed, expected_len);
}

#[test]
fn compact_size_round_trip_boundaries() {
    assert_round_trip(0, 1);
    assert_round_trip(1, 1);
    assert_round_trip(0xFC, 1);
    assert_round_trip(0xFD, 3);
    assert_round_trip(0xFFFF, 3);
    assert_round_trip(0x10000, 5);
    assert_round_trip(0xFFFF_FFFF, 5);
    assert_round_trip(0x1_0000_0000, 9);
    assert_round_trip(u64::MAX, 9);
}

#[test]
fn compact_size_minimal_encoding_bytes() {
    assert_eq!(CompactSize::new(0).to_bytes(), vec![0x00]);
    assert_eq!(CompactSize::new(0xFC).to_bytes(), vec![0xFC]);
    assert_eq!(CompactSize::new(0xFD).to_bytes(), vec![0xFD, 0xFD, 0x00]);
    assert_eq!(CompactSize::new(0x1234).to_bytes(), vec![0xFD, 0x34, 0x12]);
    assert_eq!(CompactSize::new(0xFFFF).to_bytes(), vec![0xFD, 0xFF, 0xFF]);
    assert_eq!(
        CompactSize::new(0x10000).to_bytes(),
        vec![0xFE, 0x00, 0x00, 0x01, 0x00]
    );
    assert_eq!(
        CompactSize::new(0xDEAD_BEEF).to_bytes(),
        vec![0xFE, 0xEF, 0xBE, 0xAD, 0xDE]
    );
    assert_eq!(
        CompactSize::new(0x1_0000_0000).to_bytes(),
        vec![0xFF, 0x00, 0x00, 0x00, 0x00, 0x01, 0x00, 0x00, 0x00]
    );
    assert_eq!(
        CompactSize::new(u64::MAX).to_bytes(),
        vec![0xFF, 0xFF, 0xFF, 0xFF, 0xFF, 0xFF, 0xFF, 0xFF, 0xFF]
    );
}

#[test]
fn compact_size_permissive_wide_decode() {
    let (v, consumed) = CompactSize::from_bytes(&[0xFD, 0x05, 0x00]).unwrap();
    assert_eq!(v.value, 5);
    assert_eq!(consumed, 3);

    let (v, consumed) = CompactSize::from_bytes(&[0xFE, 0x05, 0x00, 0x00, 0x00]).unwrap();
    assert_eq!(v.value, 5);
    assert_eq!(consumed, 5);

    let (v, consumed) =
        CompactSize::from_bytes(&[0xFF, 0x05, 0x00, 0x00, 0x00, 0x00, 0x00, 0x00, 0x00]).unwrap();
    assert_eq!(v.value, 5);
    assert_eq!(consumed, 9);
}

#[test]
fn compact_size_trailing_bytes_ignored() {
    let (v, consumed) = CompactSize::from_bytes(&[0x07, 0xAA, 0xBB]).unwrap();
    assert_eq!(v.value, 7);
    assert_eq!(consumed, 1);
}

#[test]
fn compact_size_truncation_detected() {
    assert_eq!(
        CompactSize::from_bytes(&[]),
        Err(BitcoinError::InsufficientBytes)
    );
    assert_eq!(
        CompactSize::from_bytes(&[0xFD]),
        Err(BitcoinError::InsufficientBytes)
    );
    assert_eq!(
        CompactSize::from_bytes(&[0xFD, 0x05]),
        Err(BitcoinError::InsufficientBytes)
    );
    assert_eq!(
        CompactSize::from_bytes(&[0xFE, 0x01, 0x02, 0x03]),
        Err(BitcoinError::InsufficientBytes)
    );
    assert_eq!(
        CompactSize::from_bytes(&[0xFF, 0x01, 0x02, 0x03, 0x04, 0x05, 0x06, 0x07]),
        Err(BitcoinError::InsufficientBytes)
    );
}

#[test]
fn compact_size_every_truncation_of_every_boundary_value() {
    for value in [0u64, 0xFC, 0xFD, 0xFFFF, 0x10000, 0xFFFF_FFFF, 0x1_0000_0000, u64::MAX] {
        let encoded = CompactSize::new(value).to_bytes();
        for cut in 0..encoded.len() {
            assert_eq!(
                CompactSize::from_bytes(&encoded[..cut]),
                Err(BitcoinError::InsufficientBytes)
            );
        }
    }
}
