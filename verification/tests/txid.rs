use bitcoin_codec::{BitcoinError, Txid};

fn counting() -> [u8; 32] {
    let mut bytes = [0u8; 32];
    for (i, byte) in bytes.iter_mut().enumerate() {
        *byte = i as u8;
    }
    bytes
}

#[test]
fn to_text_is_lowercase_hex_without_separators() {
    assert_eq!(
        Txid(counting()).to_text(),
        "000102030405060708090a0b0c0d0e0f101112131415161718191a1b1c1d1e1f"
    );
    assert_eq!(Txid([0xAB; 32]).to_text(), "ab".repeat(32));
    assert_eq!(Txid([0; 32]).to_text(), "0".repeat(64));
}

#[test]
fn from_text_reads_both_cases() {
    assert_eq!(Txid::from_text(&"ab".repeat(32)), Ok(Txid([0xAB; 32])));
    assert_eq!(Txid::from_text(&"AB".repeat(32)), Ok(Txid([0xAB; 32])));
    assert_eq!(Txid::from_text(&"aB".repeat(32)), Ok(Txid([0xAB; 32])));
    assert_eq!(
        Txid::from_text("000102030405060708090A0B0C0D0E0F101112131415161718191a1b1c1d1e1f"),
        Ok(Txid(counting()))
    );
}

#[test]
fn text_round_trips() {
    let mut bytes = [0u8; 32];
    for (i, byte) in bytes.iter_mut().enumerate() {
        *byte = (i as u8).wrapping_mul(37).wrapping_add(200);
    }
    let id = Txid(bytes);
    assert_eq!(Txid::from_text(&id.to_text()), Ok(id));
}

#[test]
fn from_text_rejects_63_characters() {
    assert_eq!(
        Txid::from_text(&"a".repeat(63)),
        Err(BitcoinError::InvalidFormat)
    );
}

#[test]
fn from_text_rejects_a_character_that_is_not_hex() {
    let mut text = "0".repeat(63);
    text.push('g');
    assert_eq!(Txid::from_text(&text), Err(BitcoinError::InvalidFormat));
    let mut text = "0".repeat(64);
    text.replace_range(10..11, " ");
    assert_eq!(Txid::from_text(&text), Err(BitcoinError::InvalidFormat));
}

#[test]
fn from_text_rejects_other_lengths() {
    assert_eq!(Txid::from_text(""), Err(BitcoinError::InvalidFormat));
    assert_eq!(
        Txid::from_text(&"0".repeat(62)),
        Err(BitcoinError::InvalidFormat)
    );
    assert_eq!(
        Txid::from_text(&"0".repeat(66)),
        Err(BitcoinError::InvalidFormat)
    );
}

#[test]
fn from_text_rejects_text_that_is_not_ascii() {
    let text = "é".repeat(32);
    assert_eq!(text.len(), 64);
    assert_eq!(Txid::from_text(&text), Err(BitcoinError::InvalidFormat));
}
