//! The reference to one output of an earlier transaction.

use crate::error::BitcoinError;
use crate::little_endian::{
    le_bytes, le_value, lemma_le_bytes_len, lemma_le_value_of_le_bytes, lemma_pow256_values,
    push_le, read_le,
};
use crate::txid::{first_32, Txid};
use vstd::prelude::*;
use vstd::slice::slice_to_vec;

verus! {

/// An output of an earlier transaction: that transaction's identifier and
/// the index of the output in it.
#[derive(Debug, PartialEq, Eq, Clone)]
pub struct OutPoint {
    pub txid: Txid,
    pub vout: u32,
}

/// What an [`OutPoint`] holds, as plain mathematical values.
pub struct OutPointView {
    pub txid: Seq<u8>,
    pub vout: u32,
}

impl OutPointView {
    /// An identifier is 32 bytes long.
    pub open spec fn wf(self) -> bool {
        self.txid.len() == 32
    }
}

impl View for OutPoint {
    type V = OutPointView;

    open spec fn view(&self) -> OutPointView {
        OutPointView { txid: self.txid@, vout: self.vout }
    }
}

/// The 36 bytes of an outpoint: the identifier as it is, then the index as
/// four little-endian bytes.
pub open spec fn encode_outpoint(point: OutPointView) -> Seq<u8> {
    point.txid + le_bytes(point.vout as nat, 4)
}

/// What the front of `bytes` decodes to, with the number of bytes it
/// occupies, or `None` when fewer than 36 bytes are there.
pub open spec fn decode_outpoint(bytes: Seq<u8>) -> Option<(OutPointView, nat)> {
    if bytes.len() < 36 {
        None
    } else {
        Some(
            (
                OutPointView {
                    txid: bytes.subrange(0, 32),
                    vout: le_value(bytes.subrange(32, 36)) as u32,
                },
                36,
            ),
        )
    }
}

impl OutPoint {
    /// The output at index `vout` of the transaction `txid`.
    pub fn new(txid: [u8; 32], vout: u32) -> (point: Self)
        ensures
            point.txid.0 == txid,
            point.vout == vout,
    {
        Self { txid: Txid(txid), vout }
    }

    /// Encodes the outpoint; the result is always 36 bytes long.
    pub fn to_bytes(&self) -> (bytes: Vec<u8>)
        ensures
            bytes@ == encode_outpoint(self@),
            bytes@.len() == 36,
    {
        let mut bytes = slice_to_vec(self.txid.0.as_slice());
        push_le(&mut bytes, self.vout as u64, 4);
        proof {
            lemma_le_bytes_len(self.vout as nat, 4);
        }
        bytes
    }

    /// Decodes the outpoint at the front of `bytes` and says how many bytes
    /// it occupies.
    pub fn from_bytes(bytes: &[u8]) -> (result: Result<(Self, usize), BitcoinError>)
        ensures
            match result {
                Ok((point, used)) => used <= bytes.len() && decode_outpoint(bytes@) == Some(
                    (point@, used as nat),
                ),
                Err(e) => e == BitcoinError::InsufficientBytes && decode_outpoint(bytes@) is None,
            },
    {
        if bytes.len() < 36 {
            return Err(BitcoinError::InsufficientBytes);
        }
        let txid = first_32(bytes);
        let vout: u64 = read_le(bytes, 32, 4);
        Ok((Self::new(txid, vout as u32), 36))
    }
}

/// Decoding the encoding of an outpoint, whatever follows it, gives the
/// outpoint back and consumes exactly the encoding.
pub proof fn lemma_outpoint_round_trip(point: OutPointView, tail: Seq<u8>)
    requires
        point.wf(),
    ensures
        decode_outpoint(encode_outpoint(point) + tail) == Some(
            (point, encode_outpoint(point).len()),
        ),
        encode_outpoint(point).len() == 36,
{
    let bytes = encode_outpoint(point) + tail;
    lemma_le_bytes_len(point.vout as nat, 4);
    lemma_pow256_values();
    lemma_le_value_of_le_bytes(point.vout as nat, 4);
    assert(bytes.subrange(0, 32) =~= point.txid);
    assert(bytes.subrange(32, 36) =~= le_bytes(point.vout as nat, 4));
}

/// A decoded outpoint is well formed and occupies 36 of the bytes given.
pub proof fn lemma_outpoint_bounds(bytes: Seq<u8>)
    ensures
        decode_outpoint(bytes) matches Some((point, used)) ==> point.wf() && used == 36 && used
            <= bytes.len(),
{
}

/// Decoding looks only at the bytes that it consumes: two buffers that agree
/// on them decode alike.
pub proof fn lemma_outpoint_prefix(bytes: Seq<u8>, other: Seq<u8>)
    requires
        decode_outpoint(bytes) is Some,
        other.len() >= 36,
        other.take(36) == bytes.take(36),
    ensures
        decode_outpoint(other) == decode_outpoint(bytes),
{
    assert(other.subrange(0, 32) =~= other.take(36).subrange(0, 32));
    assert(bytes.subrange(0, 32) =~= bytes.take(36).subrange(0, 32));
    assert(other.subrange(32, 36) =~= other.take(36).subrange(32, 36));
    assert(bytes.subrange(32, 36) =~= bytes.take(36).subrange(32, 36));
}

/// Cutting a buffer anywhere inside an outpoint makes decoding fail.
pub proof fn lemma_outpoint_truncated(bytes: Seq<u8>, keep: nat)
    requires
        decode_outpoint(bytes) is Some,
        keep < 36,
    ensures
        decode_outpoint(bytes.take(keep as int)) is None,
{
}

/// Round trip: decoding the encoding of an outpoint gives the outpoint back
/// and the length of the encoding.
pub proof fn lemma_outpoint_decode_encode(point: OutPointView)
    requires
        point.wf(),
    ensures
        decode_outpoint(encode_outpoint(point)) == Some((point, encode_outpoint(point).len())),
{
    lemma_outpoint_round_trip(point, Seq::empty());
    assert(encode_outpoint(point) + Seq::<u8>::empty() =~= encode_outpoint(point));
}

/// A buffer that is exactly one outpoint no longer decodes once its last
/// byte is removed.
pub proof fn lemma_outpoint_last_byte_removed(bytes: Seq<u8>)
    requires
        decode_outpoint(bytes) is Some,
        decode_outpoint(bytes).unwrap().1 == bytes.len(),
    ensures
        decode_outpoint(bytes.drop_last()) is None,
{
    lemma_outpoint_truncated(bytes, (bytes.len() - 1) as nat);
    assert(bytes.take(bytes.len() - 1) =~= bytes.drop_last());
}

} // verus!
