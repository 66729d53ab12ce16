use bitcoin_tx_codec::BitcoinError;
use bitcoin_tx_codec::Txid;

#[test]
fn txid_to_hex_is_lowercase_pairs() {
    let mut raw = [0u8; 32];
    raw[0] = 0xAB;
    raw[1] = 0x01;
    raw[31] = 0xFF;
    let text = Txid(raw).to_hex();
    assert_eq!(text.len(), 64);
    assert!(text.starts_with("ab01"));
    assert!(text.ends_with("ff"));
    assert_eq!(&text[4..62], "0".repeat(58));
}

#[test]
fn txid_to_hex_matches_reference_encoder() {
    let mut raw = [0u8; 32];
    for (i, b) in raw.iter_mut().enumerate() {
        *b = (7 * i + 3) as u8;
    }
    assert_eq!(Txid(raw).to_hex(), hex::encode(raw));
}

#[test]
fn txid_hex_round_trip() {
    let mut raw = [0u8; 32];
    for (i, b) in raw.iter_mut().enumerate() {
        *b = (i * 8 + 1) as u8;
    }
    let t = Txid(raw);
    let parsed = Txid::from_hex(&t.to_hex()).unwrap();
    assert_eq!(parsed, t);
}

#[test]
fn txid_from_hex_accepts_uppercase() {
    let text = "AB".repeat(32);
    let t = Txid::from_hex(&text).unwrap();
    assert_eq!(t.0, [0xAB; 32]);
}

#[test]
fn txid_from_hex_wrong_length_is_invalid_format() {
    assert_eq!(Txid::from_hex(""), Err(BitcoinError::InvalidFormat));
    assert_eq!(
        Txid::from_hex(&"00".repeat(31)),
        Err(BitcoinError::InvalidFormat)
    );
    assert_eq!(
        Txid::from_hex(&"00".repeat(33)),
        Err(BitcoinError::InvalidFormat)
    );
    let odd = "0".repeat(63);
    assert_eq!(Txid::from_hex(&odd), Err(BitcoinError::InvalidFormat));
}

#[test]
fn txid_from_hex_bad_digit_is_invalid_format() {
    let mut text = "00".repeat(32);
    text.replace_range(10..11, "g");
    assert_eq!(Txid::from_hex(&text), Err(BitcoinError::InvalidFormat));
}
