//! The 32-byte identifier of a transaction.

use crate::error::BitcoinError;
use crate::hex_text::{
    hex_bytes, hex_decode, hex_encode, hex_text, is_hex_text, lemma_hex_round_trip,
};
use vstd::prelude::*;

verus! {

/// A transaction identifier: exactly 32 raw bytes.
#[derive(Debug, PartialEq, Eq, Clone)]
pub struct Txid(pub [u8; 32]);

impl View for Txid {
    type V = Seq<u8>;

    open spec fn view(&self) -> Seq<u8> {
        self.0@
    }
}

/// The first 32 of `bytes` as an array.
pub(crate) fn first_32(bytes: &[u8]) -> (head: [u8; 32])
    requires
        bytes.len() >= 32,
    ensures
        head@ == bytes@.subrange(0, 32),
{
    let mut head: [u8; 32] = [0u8; 32];
    let mut i: usize = 0;
    while i < 32
        invariant
            i <= 32 <= bytes.len(),
            forall|j: int| 0 <= j < i ==> head@[j] == bytes@[j],
        decreases 32 - i,
    {
        head[i] = bytes[i];
        i = i + 1;
    }
    assert(head@ =~= bytes@.subrange(0, 32));
    head
}

impl Txid {
    /// The identifier as 64 lowercase hexadecimal digits.
    pub fn to_text(&self) -> (text: String)
        ensures
            text@ == hex_text(self@),
    {
        hex_encode(self.0.as_slice())
    }

    /// Reads an identifier from hexadecimal text. The text must be exactly
    /// 64 hexadecimal digits, of either case.
    pub fn from_text(text: &str) -> (result: Result<Txid, BitcoinError>)
        ensures
            result is Ok <==> is_hex_text(text@) && text@.len() == 64,
            result matches Ok(id) ==> id@ == hex_bytes(text@),
            result matches Err(e) ==> e == BitcoinError::InvalidFormat,
    {
        match hex_decode(text) {
            Err(_) => Err(BitcoinError::InvalidFormat),
            Ok(bytes) => {
                if bytes.len() != 32 {
                    return Err(BitcoinError::InvalidFormat);
                }
                let id = first_32(bytes.as_slice());
                assert(id@ =~= bytes@);
                Ok(Txid(id))
            },
        }
    }
}

/// The text of an identifier is 64 hexadecimal digits and reads back as the
/// same identifier.
pub proof fn lemma_txid_text_round_trip(id: Txid)
    ensures
        hex_text(id@).len() == 64,
        is_hex_text(hex_text(id@)),
        hex_bytes(hex_text(id@)) == id@,
{
    lemma_hex_round_trip(id@);
}

} // verus!
