use bitcoin_tx_codec::BitcoinError;
use bitcoin_tx_codec::BitcoinTransaction;
use bitcoin_tx_codec::OutPoint;
use bitcoin_tx_codec::Script;
use bitcoin_tx_codec::TransactionInput;

fn sample_input() -> TransactionInput {
    TransactionInput::new(
        OutPoint::new([0u8; 32], 0),
        Script::new(vec![]),
        0xFFFF_FFFF,
    )
}

#[test]
fn input_round_trip() {
    let input = TransactionInput::new(
        OutPoint::new([9; 32], 4),
        Script::new(vec![0x51, 0x52]),
        0x0000_00FE,
    );
    let encoded = input.to_bytes();
    assert_eq!(encoded.len(), 36 + 3 + 4);
    let (decoded, consumed) = TransactionInput::from_bytes(&encoded).unwrap();
    assert_eq!(decoded, input);
    assert_eq!(consumed, encoded.len());
}

#[test]
fn input_truncation_detected() {
    let input = TransactionInput::new(
        OutPoint::new([7; 32], 1),
        Script::new(vec![0xAB; 5]),
        0x11223344,
    );
    let encoded = input.to_bytes();
    for cut in 0..encoded.len() {
        assert_eq!(
            TransactionInput::from_bytes(&encoded[..cut]),
            Err(BitcoinError::InsufficientBytes)
        );
    }
}

#[test]
fn empty_transaction_encodes_to_nine_bytes() {
    let tx = BitcoinTransaction::new(1, vec![], 0);
    let encoded = tx.to_bytes();
    assert_eq!(
        encoded,
        vec![0x01, 0x00, 0x00, 0x00, 0x00, 0x00, 0x00, 0x00, 0x00]
    );
    let (decoded, consumed) = BitcoinTransaction::from_bytes(&encoded).unwrap();
    assert_eq!(decoded, tx);
    assert_eq!(consumed, 9);
}

#[test]
fn single_input_transaction_round_trips_byte_for_byte() {
    let tx = BitcoinTransaction::new(2, vec![sample_input()], 500_000);
    let encoded = tx.to_bytes();
    let (decoded, consumed) = BitcoinTransaction::from_bytes(&encoded).unwrap();
    assert_eq!(consumed, encoded.len());
    assert_eq!(decoded, tx);
    assert_eq!(decoded.to_bytes(), encoded);
}

#[test]
fn two_input_transaction_preserves_order() {
    let first = TransactionInput::new(
        OutPoint::new([1; 32], 10),
        Script::new(vec![0x01]),
        111,
    );
    let second = TransactionInput::new(
        OutPoint::new([2; 32], 20),
        Script::new(vec![0x02, 0x03]),
        222,
    );
    let tx = BitcoinTransaction::new(1, vec![first.clone(), second.clone()], 0);
    let (decoded, _) = BitcoinTransaction::from_bytes(&tx.to_bytes()).unwrap();
    assert_eq!(decoded.inputs, vec![first, second]);
}

#[test]
fn transaction_offset_accounting_with_trailing_bytes() {
    let tx = BitcoinTransaction::new(3, vec![sample_input()], 42);
    let encoded = tx.to_bytes();
    let mut buffer = encoded.clone();
    buffer.extend_from_slice(&[0xDE, 0xAD, 0xBE, 0xEF]);
    let (decoded, consumed) = BitcoinTransaction::from_bytes(&buffer).unwrap();
    assert!(consumed < buffer.len());
    assert_eq!(consumed, encoded.len());
    assert_eq!(decoded, tx);
    let (again, again_consumed) = BitcoinTransaction::from_bytes(&buffer[..consumed]).unwrap();
    assert_eq!(again, decoded);
    assert_eq!(again_consumed, consumed);
}

#[test]
fn transaction_truncation_detected_at_every_cut() {
    let tx = BitcoinTransaction::new(2, vec![sample_input(), sample_input()], 500_000);
    let encoded = tx.to_bytes();
    for cut in 0..encoded.len() {
        assert_eq!(
            BitcoinTransaction::from_bytes(&encoded[..cut]),
            Err(BitcoinError::InsufficientBytes)
        );
    }
}

#[test]
fn transaction_declared_count_exceeding_buffer_fails() {
    let buffer = [0x01, 0x00, 0x00, 0x00, 0x01, 0x00, 0x00, 0x00, 0x00];
    assert_eq!(
        BitcoinTransaction::from_bytes(&buffer),
        Err(BitcoinError::InsufficientBytes)
    );
}

#[test]
fn transaction_huge_declared_count_fails_without_panic() {
    let mut buffer = vec![0x01, 0x00, 0x00, 0x00];
    buffer.extend_from_slice(&[0xFF, 0xFF, 0xFF, 0xFF, 0xFF, 0xFF, 0xFF, 0xFF, 0xFF]);
    buffer.extend_from_slice(&[0x00; 16]);
    assert_eq!(
        BitcoinTransaction::from_bytes(&buffer),
        Err(BitcoinError::InsufficientBytes)
    );
}
