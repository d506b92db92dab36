use bitcoin_codec::{BitcoinError, BitcoinTransaction, OutPoint, Script, TransactionInput};

fn input(tag: u8, script: Vec<u8>) -> TransactionInput {
    TransactionInput::new(
        OutPoint::new([tag; 32], tag as u32),
        Script::new(script),
        0xFFFF_FFFF,
    )
}

fn sample() -> BitcoinTransaction {
    BitcoinTransaction::new(
        2,
        vec![input(1, vec![0xAA]), input(2, vec![]), input(3, vec![1, 2, 3])],
        0x0005_0000,
    )
}

#[test]
fn transaction_new_keeps_its_fields() {
    let tx = sample();
    assert_eq!(tx.version, 2);
    assert_eq!(tx.inputs.len(), 3);
    assert_eq!(tx.inputs[2], input(3, vec![1, 2, 3]));
    assert_eq!(tx.lock_time, 0x0005_0000);
}

#[test]
fn transaction_without_inputs_matches_the_example_vector() {
    let tx = BitcoinTransaction::new(1, vec![], 0);
    let bytes = tx.to_bytes();
    assert_eq!(bytes, vec![1, 0, 0, 0, 0x00, 0, 0, 0, 0]);
    assert_eq!(BitcoinTransaction::from_bytes(&bytes), Ok((tx, bytes.len())));
}

#[test]
fn transaction_encodes_its_fields_in_order() {
    let tx = BitcoinTransaction::new(0x0102_0304, vec![input(9, vec![0xAB])], 0x0A0B_0C0D);
    let mut expected = vec![0x04, 0x03, 0x02, 0x01];
    expected.push(0x01);
    expected.extend([9u8; 32]);
    expected.extend([9, 0, 0, 0]);
    expected.extend([0x01, 0xAB]);
    expected.extend([0xFF, 0xFF, 0xFF, 0xFF]);
    expected.extend([0x0D, 0x0C, 0x0B, 0x0A]);
    assert_eq!(tx.to_bytes(), expected);
}

#[test]
fn transaction_encoding_is_the_inputs_one_after_the_other() {
    let tx = sample();
    let mut expected = vec![2, 0, 0, 0, 3];
    for input in &tx.inputs {
        expected.extend(input.to_bytes());
    }
    expected.extend([0, 0, 5, 0]);
    assert_eq!(tx.to_bytes(), expected);
}

#[test]
fn transaction_round_trips() {
    let tx = sample();
    let bytes = tx.to_bytes();
    assert_eq!(BitcoinTransaction::from_bytes(&bytes), Ok((tx, bytes.len())));
}

#[test]
fn transaction_with_many_inputs_round_trips() {
    let inputs: Vec<TransactionInput> = (0..300)
        .map(|i| input((i % 256) as u8, vec![i as u8; i % 5]))
        .collect();
    let tx = BitcoinTransaction::new(1, inputs, 7);
    let bytes = tx.to_bytes();
    assert_eq!(&bytes[4..7], &[0xFD, 0x2C, 0x01]);
    assert_eq!(BitcoinTransaction::from_bytes(&bytes), Ok((tx, bytes.len())));
}

#[test]
fn transaction_decode_ignores_what_follows() {
    let tx = sample();
    let mut bytes = tx.to_bytes();
    let len = bytes.len();
    bytes.extend([0xEE; 7]);
    assert_eq!(BitcoinTransaction::from_bytes(&bytes), Ok((tx, len)));
}

#[test]
fn transaction_decodes_a_count_wider_than_needed() {
    let mut bytes = vec![1, 0, 0, 0];
    bytes.extend([0xFD, 0x01, 0x00]);
    bytes.extend(input(4, vec![]).to_bytes());
    bytes.extend([9, 0, 0, 0]);
    let (tx, used) = BitcoinTransaction::from_bytes(&bytes).unwrap();
    assert_eq!(tx, BitcoinTransaction::new(1, vec![input(4, vec![])], 9));
    assert_eq!(used, bytes.len());
    assert_eq!(tx.to_bytes().len(), bytes.len() - 2);
}

#[test]
fn transaction_without_a_version_is_insufficient() {
    assert_eq!(
        BitcoinTransaction::from_bytes(&[]),
        Err(BitcoinError::InsufficientBytes)
    );
    assert_eq!(
        BitcoinTransaction::from_bytes(&[1, 0, 0]),
        Err(BitcoinError::InsufficientBytes)
    );
}

#[test]
fn transaction_without_a_count_is_insufficient() {
    assert_eq!(
        BitcoinTransaction::from_bytes(&[1, 0, 0, 0]),
        Err(BitcoinError::InsufficientBytes)
    );
    assert_eq!(
        BitcoinTransaction::from_bytes(&[1, 0, 0, 0, 0xFD, 0x01]),
        Err(BitcoinError::InsufficientBytes)
    );
}

#[test]
fn transaction_with_fewer_inputs_than_counted_is_insufficient() {
    let mut bytes = vec![1, 0, 0, 0, 0x02];
    bytes.extend(input(1, vec![]).to_bytes());
    bytes.extend([0, 0, 0, 0]);
    assert_eq!(
        BitcoinTransaction::from_bytes(&bytes),
        Err(BitcoinError::InsufficientBytes)
    );
}

#[test]
fn transaction_with_the_largest_count_is_insufficient() {
    let mut bytes = vec![1, 0, 0, 0];
    bytes.extend([0xFF; 9]);
    bytes.extend(input(1, vec![]).to_bytes());
    assert_eq!(
        BitcoinTransaction::from_bytes(&bytes),
        Err(BitcoinError::InsufficientBytes)
    );
}

#[test]
fn transaction_without_a_full_lock_time_is_insufficient() {
    assert_eq!(
        BitcoinTransaction::from_bytes(&[1, 0, 0, 0, 0x00, 0, 0, 0]),
        Err(BitcoinError::InsufficientBytes)
    );
}

#[test]
fn transaction_cut_short_is_insufficient() {
    let bytes = sample().to_bytes();
    for keep in 0..bytes.len() {
        assert_eq!(
            BitcoinTransaction::from_bytes(&bytes[..keep]),
            Err(BitcoinError::InsufficientBytes)
        );
    }
}
