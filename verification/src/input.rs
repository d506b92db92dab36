//! One input of a transaction.

use crate::error::BitcoinError;
use crate::little_endian::{
    le_bytes, le_value, lemma_le_bytes_len, lemma_le_value_of_le_bytes, lemma_pow256_values,
    push_le, read_le,
};
use crate::outpoint::{
    decode_outpoint, encode_outpoint, lemma_outpoint_prefix, lemma_outpoint_round_trip,
    lemma_outpoint_truncated, OutPoint, OutPointView,
};
use crate::script::{
    decode_script, encode_script, lemma_script_bounds, lemma_script_prefix,
    lemma_script_round_trip, lemma_script_truncated, Script,
};
use vstd::prelude::*;
use vstd::slice::slice_subrange;

verus! {

/// A transaction input: the output it spends, the script that unlocks it,
/// and a sequence number.
#[derive(Debug, PartialEq, Eq, Clone)]
pub struct TransactionInput {
    pub previous_output: OutPoint,
    pub script_sig: Script,
    pub sequence: u32,
}

/// What a [`TransactionInput`] holds, as plain mathematical values.
pub struct TransactionInputView {
    pub previous_output: OutPointView,
    pub script_sig: Seq<u8>,
    pub sequence: u32,
}

impl TransactionInputView {
    /// The outpoint is well formed and the script's length fits the 64 bits
    /// of its prefix.
    pub open spec fn wf(self) -> bool {
        &&& self.previous_output.wf()
        &&& self.script_sig.len() <= u64::MAX
    }
}

impl View for TransactionInput {
    type V = TransactionInputView;

    open spec fn view(&self) -> TransactionInputView {
        TransactionInputView {
            previous_output: self.previous_output@,
            script_sig: self.script_sig@,
            sequence: self.sequence,
        }
    }
}

/// The encoding of an input: the outpoint, the script with its length in
/// front, and the sequence number as four little-endian bytes.
///
/// Opaque, so that proofs about whole transactions stay small: `reveal` it
/// to reason about the fields.
#[verifier::opaque]
pub open spec fn encode_input(input: TransactionInputView) -> Seq<u8> {
    encode_outpoint(input.previous_output) + encode_script(input.script_sig) + le_bytes(
        input.sequence as nat,
        4,
    )
}

/// What the front of `bytes` decodes to, with the number of bytes it
/// occupies, or `None` when any of the three fields is cut short.
///
/// Opaque, like [`encode_input`].
#[verifier::opaque]
pub open spec fn decode_input(bytes: Seq<u8>) -> Option<(TransactionInputView, nat)> {
    match decode_outpoint(bytes) {
        None => None,
        Some((previous_output, used1)) => match decode_script(bytes.skip(used1 as int)) {
            None => None,
            Some((script_sig, used2)) => {
                let end = used1 + used2 + 4;
                if bytes.len() < end {
                    None
                } else {
                    Some(
                        (
                            TransactionInputView {
                                previous_output,
                                script_sig,
                                sequence: le_value(bytes.subrange(end - 4, end as int)) as u32,
                            },
                            end,
                        ),
                    )
                }
            },
        },
    }
}

impl TransactionInput {
    /// An input made of its three fields.
    pub fn new(previous_output: OutPoint, script_sig: Script, sequence: u32) -> (input: Self)
        ensures
            input.previous_output == previous_output,
            input.script_sig == script_sig,
            input.sequence == sequence,
    {
        Self { previous_output, script_sig, sequence }
    }

    /// Encodes the input.
    pub fn to_bytes(&self) -> (bytes: Vec<u8>)
        ensures
            bytes@ == encode_input(self@),
    {
        proof {
            reveal(encode_input);
        }
        let mut result = self.previous_output.to_bytes();
        let script = self.script_sig.to_bytes();
        result.extend_from_slice(script.as_slice());
        push_le(&mut result, self.sequence as u64, 4);
        result
    }

    /// Decodes the input at the front of `bytes` and says how many bytes it
    /// occupies.
    pub fn from_bytes(bytes: &[u8]) -> (result: Result<(Self, usize), BitcoinError>)
        ensures
            match result {
                Ok((input, used)) => used <= bytes.len() && decode_input(bytes@) == Some(
                    (input@, used as nat),
                ),
                Err(e) => e == BitcoinError::InsufficientBytes && decode_input(bytes@) is None,
            },
    {
        proof {
            reveal(decode_input);
        }
        let (outpoint, consumed1) = OutPoint::from_bytes(bytes)?;
        let (script, consumed2) = Script::from_bytes(slice_subrange(bytes, consumed1, bytes.len()))?;
        let start: usize = consumed1 + consumed2;
        if bytes.len() - start < 4 {
            return Err(BitcoinError::InsufficientBytes);
        }
        let sequence: u64 = read_le(bytes, start, 4);
        Ok((Self::new(outpoint, script, sequence as u32), start + 4))
    }
}

/// Decoding the encoding of an input, whatever follows it, gives the input
/// back and consumes exactly the encoding.
pub proof fn lemma_input_round_trip(input: TransactionInputView, tail: Seq<u8>)
    requires
        input.wf(),
    ensures
        decode_input(encode_input(input) + tail) == Some((input, encode_input(input).len())),
{
    reveal(encode_input);
    reveal(decode_input);
    let point = encode_outpoint(input.previous_output);
    let script = encode_script(input.script_sig);
    let sequence = le_bytes(input.sequence as nat, 4);
    let bytes = encode_input(input) + tail;
    lemma_outpoint_round_trip(input.previous_output, script + sequence + tail);
    assert(bytes =~= point + (script + sequence + tail));
    lemma_script_round_trip(input.script_sig, sequence + tail);
    assert(bytes.skip(36) =~= script + (sequence + tail));
    lemma_le_bytes_len(input.sequence as nat, 4);
    lemma_pow256_values();
    lemma_le_value_of_le_bytes(input.sequence as nat, 4);
    let end = 36 + script.len() + 4;
    assert(bytes.subrange(end - 4, end as int) =~= sequence);
}

/// The encoding of an input is 36 bytes of outpoint, the encoded script, and
/// 4 bytes of sequence number.
pub proof fn lemma_input_encoding_len(input: TransactionInputView)
    requires
        input.wf(),
    ensures
        encode_input(input).len() == 36 + encode_script(input.script_sig).len() + 4,
{
    reveal(encode_input);
    lemma_le_bytes_len(input.sequence as nat, 4);
    lemma_le_bytes_len(input.previous_output.vout as nat, 4);
}

/// A decoded input is well formed and lies within the bytes given; it
/// occupies at least the 41 bytes of an input with an empty script.
pub proof fn lemma_input_bounds(bytes: Seq<u8>)
    ensures
        decode_input(bytes) matches Some((input, used)) ==> input.wf() && 41 <= used
            <= bytes.len(),
{
    reveal(decode_input);
    if decode_outpoint(bytes) is Some {
        lemma_script_bounds(bytes.skip(36));
    }
}

/// Decoding looks only at the bytes that it consumes: two buffers that agree
/// on them decode alike.
pub proof fn lemma_input_prefix(bytes: Seq<u8>, other: Seq<u8>)
    requires
        decode_input(bytes) is Some,
        other.len() >= decode_input(bytes).unwrap().1,
        other.take(decode_input(bytes).unwrap().1 as int) == bytes.take(
            decode_input(bytes).unwrap().1 as int,
        ),
    ensures
        decode_input(other) == decode_input(bytes),
{
    reveal(decode_input);
    let end = decode_input(bytes).unwrap().1 as int;
    let used2 = decode_script(bytes.skip(36)).unwrap().1 as int;
    lemma_script_bounds(bytes.skip(36));
    assert(other.take(36) =~= other.take(end).take(36));
    assert(bytes.take(36) =~= bytes.take(end).take(36));
    lemma_outpoint_prefix(bytes, other);
    assert(other.skip(36).take(used2) =~= other.take(end).subrange(36, 36 + used2));
    assert(bytes.skip(36).take(used2) =~= bytes.take(end).subrange(36, 36 + used2));
    lemma_script_prefix(bytes.skip(36), other.skip(36));
    assert(other.subrange(end - 4, end) =~= other.take(end).subrange(end - 4, end));
    assert(bytes.subrange(end - 4, end) =~= bytes.take(end).subrange(end - 4, end));
}

/// Cutting a buffer anywhere inside an input makes decoding fail.
pub proof fn lemma_input_truncated(bytes: Seq<u8>, keep: nat)
    requires
        decode_input(bytes) is Some,
        keep < decode_input(bytes).unwrap().1,
    ensures
        decode_input(bytes.take(keep as int)) is None,
{
    reveal(decode_input);
    let cut = bytes.take(keep as int);
    let used2 = decode_script(bytes.skip(36)).unwrap().1;
    lemma_script_bounds(bytes.skip(36));
    if keep < 36 {
        lemma_outpoint_truncated(bytes, keep);
    } else {
        assert(cut.take(36) =~= bytes.take(36));
        lemma_outpoint_prefix(bytes, cut);
        assert(cut.skip(36) =~= bytes.skip(36).take(keep - 36));
        if keep - 36 < used2 {
            lemma_script_truncated(bytes.skip(36), (keep - 36) as nat);
        } else {
            assert(cut.skip(36).take(used2 as int) =~= bytes.skip(36).take(used2 as int));
            lemma_script_prefix(bytes.skip(36), cut.skip(36));
        }
    }
}

/// Round trip: decoding the encoding of an input gives the input back and
/// the length of the encoding.
pub proof fn lemma_input_decode_encode(input: TransactionInputView)
    requires
        input.wf(),
    ensures
        decode_input(encode_input(input)) == Some((input, encode_input(input).len())),
{
    lemma_input_round_trip(input, Seq::empty());
    assert(encode_input(input) + Seq::<u8>::empty() =~= encode_input(input));
}

/// A buffer that is exactly one input no longer decodes once its last byte
/// is removed.
pub proof fn lemma_input_last_byte_removed(bytes: Seq<u8>)
    requires
        decode_input(bytes) is Some,
        decode_input(bytes).unwrap().1 == bytes.len(),
    ensures
        decode_input(bytes.drop_last()) is None,
{
    lemma_input_bounds(bytes);
    lemma_input_truncated(bytes, (bytes.len() - 1) as nat);
    assert(bytes.take(bytes.len() - 1) =~= bytes.drop_last());
}

} // verus!
