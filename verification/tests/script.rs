use bitcoin_codec::{BitcoinError, Script};

#[test]
fn script_new_keeps_its_bytes() {
    assert_eq!(Script::new(vec![1, 2, 3]).bytes, vec![1, 2, 3]);
}

#[test]
fn script_reads_as_its_bytes() {
    let script = Script::new(vec![9, 8, 7]);
    assert_eq!(script.len(), 3);
    assert_eq!(script[1], 8);
    assert_eq!(*script, vec![9, 8, 7]);
}

#[test]
fn empty_script_encodes_to_a_zero_length() {
    assert_eq!(Script::new(vec![]).to_bytes(), vec![0x00]);
}

#[test]
fn script_encodes_its_length_then_its_bytes() {
    assert_eq!(
        Script::new(vec![0xDE, 0xAD, 0xBE, 0xEF]).to_bytes(),
        vec![0x04, 0xDE, 0xAD, 0xBE, 0xEF]
    );
}

#[test]
fn long_script_gets_a_wide_prefix() {
    let bytes = Script::new(vec![0x11; 253]).to_bytes();
    assert_eq!(bytes.len(), 3 + 253);
    assert_eq!(&bytes[..3], &[0xFD, 0xFD, 0x00]);
    assert!(bytes[3..].iter().all(|b| *b == 0x11));

    let bytes = Script::new(vec![0x22; 0x1_0000]).to_bytes();
    assert_eq!(bytes.len(), 5 + 0x1_0000);
    assert_eq!(&bytes[..5], &[0xFE, 0x00, 0x00, 0x01, 0x00]);
}

#[test]
fn script_decodes_and_counts_the_prefix() {
    assert_eq!(
        Script::from_bytes(&[0x03, 1, 2, 3, 0xEE, 0xEE]),
        Ok((Script::new(vec![1, 2, 3]), 4))
    );
    assert_eq!(Script::from_bytes(&[0x00, 0xEE]), Ok((Script::new(vec![]), 1)));
}

#[test]
fn script_decodes_with_a_prefix_wider_than_needed() {
    assert_eq!(
        Script::from_bytes(&[0xFD, 0x02, 0x00, 0xAA, 0xBB]),
        Ok((Script::new(vec![0xAA, 0xBB]), 5))
    );
}

#[test]
fn script_round_trips() {
    for len in [0usize, 1, 0xFC, 0xFD, 0x1_0000] {
        let script = Script::new((0..len).map(|i| (i % 251) as u8).collect());
        let bytes = script.to_bytes();
        assert_eq!(Script::from_bytes(&bytes), Ok((script, bytes.len())));
    }
}

#[test]
fn script_decode_of_nothing_is_insufficient() {
    assert_eq!(Script::from_bytes(&[]), Err(BitcoinError::InsufficientBytes));
}

#[test]
fn script_with_a_short_prefix_is_insufficient() {
    assert_eq!(
        Script::from_bytes(&[0xFD, 0x01]),
        Err(BitcoinError::InsufficientBytes)
    );
}

#[test]
fn script_length_claim_beyond_the_buffer_is_insufficient() {
    assert_eq!(
        Script::from_bytes(&[0x05, 1, 2, 3, 4]),
        Err(BitcoinError::InsufficientBytes)
    );
    assert_eq!(
        Script::from_bytes(&[0x01]),
        Err(BitcoinError::InsufficientBytes)
    );
    assert_eq!(
        Script::from_bytes(&[0xFD, 0x00, 0x01, 0xAA]),
        Err(BitcoinError::InsufficientBytes)
    );
}

#[test]
fn script_length_claim_of_the_largest_value_is_insufficient() {
    let mut bytes = vec![0xFF; 9];
    bytes.extend([0u8; 16]);
    assert_eq!(
        Script::from_bytes(&bytes),
        Err(BitcoinError::InsufficientBytes)
    );
}

#[test]
fn script_cut_short_is_insufficient() {
    for len in [0usize, 1, 5, 0xFD] {
        let bytes = Script::new(vec![0x5A; len]).to_bytes();
        for keep in 0..bytes.len() {
            assert_eq!(
                Script::from_bytes(&bytes[..keep]),
                Err(BitcoinError::InsufficientBytes)
            );
        }
    }
}
