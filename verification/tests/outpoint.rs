use bitcoin_codec::{BitcoinError, OutPoint, Txid};

fn sample() -> OutPoint {
    let mut txid = [0u8; 32];
    for (i, byte) in txid.iter_mut().enumerate() {
        *byte = 0xA0 + i as u8;
    }
    OutPoint::new(txid, 0x0102_0304)
}

#[test]
fn outpoint_new_keeps_its_fields() {
    let point = OutPoint::new([7; 32], 9);
    assert_eq!(point.txid, Txid([7; 32]));
    assert_eq!(point.vout, 9);
}

#[test]
fn outpoint_encodes_to_36_bytes() {
    let bytes = sample().to_bytes();
    assert_eq!(bytes.len(), 36);
    let mut expected: Vec<u8> = (0..32).map(|i| 0xA0 + i as u8).collect();
    expected.extend([0x04, 0x03, 0x02, 0x01]);
    assert_eq!(bytes, expected);
}

#[test]
fn outpoint_decode_of_nothing_is_insufficient() {
    assert_eq!(
        OutPoint::from_bytes(&[]),
        Err(BitcoinError::InsufficientBytes)
    );
}

#[test]
fn outpoint_decodes_the_example_vector() {
    let mut bytes = vec![0u8; 32];
    bytes.extend([1, 0, 0, 0]);
    let (point, used) = OutPoint::from_bytes(&bytes).unwrap();
    assert_eq!(point.vout, 1);
    assert_eq!(point.txid, Txid([0; 32]));
    assert_eq!(used, 36);
}

#[test]
fn outpoint_decode_ignores_what_follows() {
    let mut bytes = sample().to_bytes();
    bytes.extend([0xEE; 10]);
    assert_eq!(OutPoint::from_bytes(&bytes), Ok((sample(), 36)));
}

#[test]
fn outpoint_round_trips() {
    for point in [
        sample(),
        OutPoint::new([0; 32], 0),
        OutPoint::new([0xFF; 32], u32::MAX),
    ] {
        let bytes = point.to_bytes();
        assert_eq!(OutPoint::from_bytes(&bytes), Ok((point, bytes.len())));
    }
}

#[test]
fn outpoint_cut_short_is_insufficient() {
    let bytes = sample().to_bytes();
    for keep in 0..bytes.len() {
        assert_eq!(
            OutPoint::from_bytes(&bytes[..keep]),
            Err(BitcoinError::InsufficientBytes)
        );
    }
}
