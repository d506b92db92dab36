//! The opaque byte buffer that a transaction input carries.

use crate::compact_size::{
    decode_compact_size, encode_compact_size, lemma_compact_size_bounds,
    lemma_compact_size_canonical_len, lemma_compact_size_prefix, lemma_compact_size_round_trip,
    lemma_compact_size_truncated, CompactSize,
};
use crate::error::BitcoinError;
use vstd::prelude::*;
use vstd::slice::{slice_subrange, slice_to_vec};

verus! {

/// A script: bytes that this codec carries without reading them.
#[derive(Debug, PartialEq, Eq, Clone)]
pub struct Script {
    pub bytes: Vec<u8>,
}

impl View for Script {
    type V = Seq<u8>;

    open spec fn view(&self) -> Seq<u8> {
        self.bytes@
    }
}

/// The encoding of a script: its length as a canonical compact size, then
/// its bytes.
pub open spec fn encode_script(script: Seq<u8>) -> Seq<u8> {
    encode_compact_size(script.len()) + script
}

/// What the front of `bytes` decodes to, with the number of bytes it
/// occupies. `None` when the length prefix is cut short, or when it claims
/// more bytes than follow it.
pub open spec fn decode_script(bytes: Seq<u8>) -> Option<(Seq<u8>, nat)> {
    match decode_compact_size(bytes) {
        None => None,
        Some((len, used)) => {
            if bytes.len() < used + len {
                None
            } else {
                Some((bytes.subrange(used as int, (used + len) as int), used + len))
            }
        },
    }
}

impl Script {
    /// A script that holds `bytes`.
    pub fn new(bytes: Vec<u8>) -> (script: Self)
        ensures
            script.bytes == bytes,
    {
        Self { bytes }
    }

    /// Encodes the script with its length in front.
    pub fn to_bytes(&self) -> (bytes: Vec<u8>)
        ensures
            bytes@ == encode_script(self@),
    {
        let mut result = CompactSize::new(self.bytes.len() as u64).to_bytes();
        result.extend_from_slice(self.bytes.as_slice());
        result
    }

    /// Decodes the script at the front of `bytes` and says how many bytes it
    /// occupies, prefix included.
    pub fn from_bytes(bytes: &[u8]) -> (result: Result<(Self, usize), BitcoinError>)
        ensures
            match result {
                Ok((script, used)) => used <= bytes.len() && decode_script(bytes@) == Some(
                    (script@, used as nat),
                ),
                Err(e) => e == BitcoinError::InsufficientBytes && decode_script(bytes@) is None,
            },
    {
        let (len_prefix, consumed) = CompactSize::from_bytes(bytes)?;
        if len_prefix.value > (bytes.len() - consumed) as u64 {
            return Err(BitcoinError::InsufficientBytes);
        }
        let end: usize = consumed + len_prefix.value as usize;
        let script_bytes = slice_to_vec(slice_subrange(bytes, consumed, end));
        Ok((Self::new(script_bytes), end))
    }
}

impl core::ops::Deref for Script {
    type Target = Vec<u8>;

    /// A script reads as its bytes.
    fn deref(&self) -> (bytes: &Vec<u8>)
        ensures
            *bytes == self.bytes,
    {
        &self.bytes
    }
}

/// Decoding the encoding of a script, whatever follows it, gives the script
/// back and consumes exactly the encoding.
pub proof fn lemma_script_round_trip(script: Seq<u8>, tail: Seq<u8>)
    requires
        script.len() <= u64::MAX,
    ensures
        decode_script(encode_script(script) + tail) == Some((script, encode_script(script).len())),
{
    let prefix = encode_compact_size(script.len());
    let bytes = encode_script(script) + tail;
    lemma_compact_size_round_trip(script.len(), script + tail);
    assert(bytes =~= prefix + (script + tail));
    assert(bytes.subrange(prefix.len() as int, (prefix.len() + script.len()) as int) =~= script);
}

/// A decoded script lies within the bytes given, after a prefix of at least
/// one byte.
pub proof fn lemma_script_bounds(bytes: Seq<u8>)
    ensures
        decode_script(bytes) matches Some((script, used)) ==> script.len() < used <= bytes.len()
            && script.len() <= u64::MAX,
{
    lemma_compact_size_bounds(bytes);
}

/// Decoding looks only at the bytes that it consumes: two buffers that agree
/// on them decode alike.
pub proof fn lemma_script_prefix(bytes: Seq<u8>, other: Seq<u8>)
    requires
        decode_script(bytes) is Some,
        other.len() >= decode_script(bytes).unwrap().1,
        other.take(decode_script(bytes).unwrap().1 as int) == bytes.take(
            decode_script(bytes).unwrap().1 as int,
        ),
    ensures
        decode_script(other) == decode_script(bytes),
{
    let end = decode_script(bytes).unwrap().1 as int;
    let used = decode_compact_size(bytes).unwrap().1 as int;
    lemma_compact_size_bounds(bytes);
    assert(other.take(used) =~= other.take(end).take(used));
    assert(bytes.take(used) =~= bytes.take(end).take(used));
    lemma_compact_size_prefix(bytes, other);
    assert(other.subrange(used, end) =~= other.take(end).subrange(used, end));
    assert(bytes.subrange(used, end) =~= bytes.take(end).subrange(used, end));
}

/// Cutting a buffer anywhere inside a script, prefix included, makes
/// decoding fail.
pub proof fn lemma_script_truncated(bytes: Seq<u8>, keep: nat)
    requires
        decode_script(bytes) is Some,
        keep < decode_script(bytes).unwrap().1,
    ensures
        decode_script(bytes.take(keep as int)) is None,
{
    let used = decode_compact_size(bytes).unwrap().1 as int;
    let cut = bytes.take(keep as int);
    if keep < used {
        lemma_compact_size_truncated(bytes, keep);
    } else {
        assert(cut.take(used) =~= bytes.take(used));
        lemma_compact_size_prefix(bytes, cut);
    }
}

/// The encoding of a script is its bytes behind a prefix of one, three, five
/// or nine bytes.
pub proof fn lemma_script_encoding_len(script: Seq<u8>)
    ensures
        encode_script(script).len() == encode_compact_size(script.len()).len() + script.len(),
        encode_compact_size(script.len()).len() == if script.len() <= 0xFC {
            1nat
        } else if script.len() <= 0xFFFF {
            3nat
        } else if script.len() <= 0xFFFF_FFFF {
            5nat
        } else {
            9nat
        },
{
    lemma_compact_size_canonical_len(script.len());
}

/// A length prefix that claims more bytes than follow it makes decoding
/// fail.
pub proof fn lemma_script_length_claim(bytes: Seq<u8>)
    requires
        decode_compact_size(bytes) is Some,
        decode_compact_size(bytes).unwrap().0 > bytes.len() - decode_compact_size(
            bytes,
        ).unwrap().1,
    ensures
        decode_script(bytes) is None,
{
}

/// Round trip: decoding the encoding of a script gives the script back and
/// the length of the encoding.
pub proof fn lemma_script_decode_encode(script: Seq<u8>)
    requires
        script.len() <= u64::MAX,
    ensures
        decode_script(encode_script(script)) == Some((script, encode_script(script).len())),
{
    lemma_script_round_trip(script, Seq::empty());
    assert(encode_script(script) + Seq::<u8>::empty() =~= encode_script(script));
}

/// A buffer that is exactly one script, prefix included, no longer decodes
/// once its last byte is removed.
pub proof fn lemma_script_last_byte_removed(bytes: Seq<u8>)
    requires
        decode_script(bytes) is Some,
        decode_script(bytes).unwrap().1 == bytes.len(),
    ensures
        decode_script(bytes.drop_last()) is None,
{
    lemma_script_bounds(bytes);
    lemma_script_truncated(bytes, (bytes.len() - 1) as nat);
    assert(bytes.take(bytes.len() - 1) =~= bytes.drop_last());
}

} // verus!
