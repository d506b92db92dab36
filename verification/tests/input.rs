use bitcoin_codec::{BitcoinError, OutPoint, Script, TransactionInput};

fn sample(script: Vec<u8>) -> TransactionInput {
    TransactionInput::new(
        OutPoint::new([0x11; 32], 2),
        Script::new(script),
        0xFFFF_FFFE,
    )
}

#[test]
fn input_new_keeps_its_fields() {
    let input = sample(vec![1, 2]);
    assert_eq!(input.previous_output, OutPoint::new([0x11; 32], 2));
    assert_eq!(input.script_sig, Script::new(vec![1, 2]));
    assert_eq!(input.sequence, 0xFFFF_FFFE);
}

#[test]
fn input_encodes_outpoint_script_and_sequence() {
    let mut expected = vec![0x11u8; 32];
    expected.extend([2, 0, 0, 0]);
    expected.extend([0x03, 0xAA, 0xBB, 0xCC]);
    expected.extend([0xFE, 0xFF, 0xFF, 0xFF]);
    assert_eq!(sample(vec![0xAA, 0xBB, 0xCC]).to_bytes(), expected);
}

#[test]
fn input_size_is_the_sum_of_its_fields() {
    assert_eq!(sample(vec![]).to_bytes().len(), 36 + 1 + 4);
    assert_eq!(sample(vec![0; 10]).to_bytes().len(), 36 + 1 + 10 + 4);
    assert_eq!(sample(vec![0; 300]).to_bytes().len(), 36 + 3 + 300 + 4);
}

#[test]
fn input_decodes_and_says_how_much_it_read() {
    let mut bytes = sample(vec![7, 8, 9]).to_bytes();
    let len = bytes.len();
    bytes.extend([0xEE; 5]);
    assert_eq!(
        TransactionInput::from_bytes(&bytes),
        Ok((sample(vec![7, 8, 9]), len))
    );
    assert_eq!(len, 44);
}

#[test]
fn input_round_trips() {
    for len in [0usize, 1, 100, 253, 70_000] {
        let input = sample((0..len).map(|i| (i * 7 % 256) as u8).collect());
        let bytes = input.to_bytes();
        assert_eq!(TransactionInput::from_bytes(&bytes), Ok((input, bytes.len())));
    }
}

#[test]
fn input_without_an_outpoint_is_insufficient() {
    assert_eq!(
        TransactionInput::from_bytes(&[0u8; 35]),
        Err(BitcoinError::InsufficientBytes)
    );
}

#[test]
fn input_without_a_script_is_insufficient() {
    assert_eq!(
        TransactionInput::from_bytes(&[0u8; 36]),
        Err(BitcoinError::InsufficientBytes)
    );
    let mut bytes = vec![0u8; 36];
    bytes.extend([0x02, 0xAA]);
    assert_eq!(
        TransactionInput::from_bytes(&bytes),
        Err(BitcoinError::InsufficientBytes)
    );
}

#[test]
fn input_without_a_full_sequence_is_insufficient() {
    let mut bytes = vec![0u8; 36];
    bytes.extend([0x01, 0xAA]);
    bytes.extend([1, 2, 3]);
    assert_eq!(
        TransactionInput::from_bytes(&bytes),
        Err(BitcoinError::InsufficientBytes)
    );
    bytes.push(4);
    let (input, used) = TransactionInput::from_bytes(&bytes).unwrap();
    assert_eq!(input.sequence, 0x0403_0201);
    assert_eq!(used, 42);
}

#[test]
fn input_cut_short_is_insufficient() {
    let bytes = sample(vec![1, 2, 3, 4, 5]).to_bytes();
    for keep in 0..bytes.len() {
        assert_eq!(
            TransactionInput::from_bytes(&bytes[..keep]),
            Err(BitcoinError::InsufficientBytes)
        );
    }
}
