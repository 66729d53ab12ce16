use bitcoin_tx_codec::BitcoinError;
use bitcoin_tx_codec::OutPoint;
use bitcoin_tx_codec::Script;

#[test]
fn outpoint_encodes_to_36_bytes() {
    let mut txid = [0u8; 32];
    txid[0] = 0x11;
    txid[31] = 0x22;
    let op = OutPoint::new(txid, 0xDEAD_BEEF);
    let encoded = op.to_bytes();
    assert_eq!(encoded.len(), 36);
    assert_eq!(&encoded[..32], &txid[..]);
    assert_eq!(&encoded[32..], &[0xEF, 0xBE, 0xAD, 0xDE]);
}

#[test]
fn outpoint_round_trip() {
    let op = OutPoint::new([0x5A; 32], 7);
    let encoded = op.to_bytes();
    let (decoded, consumed) = OutPoint::from_bytes(&encoded).unwrap();
    assert_eq!(decoded, op);
    assert_eq!(consumed, 36);
}

#[test]
fn outpoint_trailing_bytes_ignored() {
    let op = OutPoint::new([3; 32], 9);
    let mut buffer = op.to_bytes();
    buffer.extend_from_slice(&[0xAA, 0xBB, 0xCC]);
    let (decoded, consumed) = OutPoint::from_bytes(&buffer).unwrap();
    assert_eq!(decoded, op);
    assert_eq!(consumed, 36);
}

#[test]
fn outpoint_truncation_detected() {
    let encoded = OutPoint::new([1; 32], 2).to_bytes();
    for cut in 0..encoded.len() {
        assert_eq!(
            OutPoint::from_bytes(&encoded[..cut]),
            Err(BitcoinError::InsufficientBytes)
        );
    }
}

#[test]
fn empty_script_is_one_zero_byte() {
    let script = Script::new(vec![]);
    let encoded = script.to_bytes();
    assert_eq!(encoded, vec![0x00]);
    let (decoded, consumed) = Script::from_bytes(&encoded).unwrap();
    assert_eq!(decoded, script);
    assert_eq!(consumed, 1);
}

#[test]
fn script_round_trip_short_payload() {
    let script = Script::new(vec![0x76, 0xA9, 0x14, 0x00, 0xFF]);
    let encoded = script.to_bytes();
    assert_eq!(encoded, vec![0x05, 0x76, 0xA9, 0x14, 0x00, 0xFF]);
    let (decoded, consumed) = Script::from_bytes(&encoded).unwrap();
    assert_eq!(decoded, script);
    assert_eq!(consumed, 6);
}

#[test]
fn script_round_trip_wide_length_prefix() {
    let payload = vec![0xCD; 300];
    let script = Script::new(payload.clone());
    let encoded = script.to_bytes();
    assert_eq!(encoded.len(), 3 + 300);
    assert_eq!(&encoded[..3], &[0xFD, 0x2C, 0x01]);
    let (decoded, consumed) = Script::from_bytes(&encoded).unwrap();
    assert_eq!(decoded.as_bytes(), &payload);
    assert_eq!(consumed, 303);
}

#[test]
fn script_truncation_detected() {
    let script = Script::new((0..=255u8).collect());
    let encoded = script.to_bytes();
    for cut in 0..encoded.len() {
        assert_eq!(
            Script::from_bytes(&encoded[..cut]),
            Err(BitcoinError::InsufficientBytes)
        );
    }
}

#[test]
fn script_declared_length_longer_than_buffer() {
    assert_eq!(
        Script::from_bytes(&[0x03, 0x01, 0x02]),
        Err(BitcoinError::InsufficientBytes)
    );
}
