//! A whole transaction in the legacy layout.

use crate::compact_size::{
    decode_compact_size, encode_compact_size, lemma_compact_size_bounds,
    lemma_compact_size_prefix, lemma_compact_size_round_trip, lemma_compact_size_truncated,
    CompactSize,
};
use crate::error::BitcoinError;
use crate::input::{
    decode_input, encode_input, lemma_input_bounds, lemma_input_prefix, lemma_input_round_trip,
    lemma_input_truncated, TransactionInput, TransactionInputView,
};
use crate::little_endian::{
    le_bytes, le_value, lemma_le_bytes_len, lemma_le_value_of_le_bytes, lemma_pow256_values,
    push_le, read_le,
};
use vstd::prelude::*;
use vstd::slice::slice_subrange;

verus! {

/// A transaction: a version, its inputs in order, and a lock time.
#[derive(Debug, PartialEq, Eq, Clone)]
pub struct BitcoinTransaction {
    pub version: u32,
    pub inputs: Vec<TransactionInput>,
    pub lock_time: u32,
}

/// What a [`BitcoinTransaction`] holds, as plain mathematical values.
pub struct BitcoinTransactionView {
    pub version: u32,
    pub inputs: Seq<TransactionInputView>,
    pub lock_time: u32,
}

impl BitcoinTransactionView {
    /// Every input is well formed and their number fits the 64 bits of the
    /// count in front of them.
    pub open spec fn wf(self) -> bool {
        &&& self.inputs.len() <= u64::MAX
        &&& inputs_wf(self.inputs)
    }
}

/// Every one of `inputs` is well formed.
pub open spec fn inputs_wf(inputs: Seq<TransactionInputView>) -> bool {
    forall|i: int| 0 <= i < inputs.len() ==> (#[trigger] inputs[i]).wf()
}

/// The views of a run of inputs, in the same order.
pub open spec fn inputs_view(inputs: Seq<TransactionInput>) -> Seq<TransactionInputView> {
    inputs.map_values(|input: TransactionInput| input@)
}

impl View for BitcoinTransaction {
    type V = BitcoinTransactionView;

    open spec fn view(&self) -> BitcoinTransactionView {
        BitcoinTransactionView {
            version: self.version,
            inputs: inputs_view(self.inputs@),
            lock_time: self.lock_time,
        }
    }
}

/// The encodings of `inputs`, one after the other.
pub open spec fn encode_inputs(inputs: Seq<TransactionInputView>) -> Seq<u8>
    decreases inputs.len(),
{
    if inputs.len() == 0 {
        Seq::empty()
    } else {
        encode_input(inputs.first()) + encode_inputs(inputs.drop_first())
    }
}

/// What the front of `bytes` decodes to when read as `count` inputs in a
/// row, with the number of bytes they occupy together. `None` as soon as one
/// of them is cut short.
pub open spec fn decode_inputs(bytes: Seq<u8>, count: nat) -> Option<
    (Seq<TransactionInputView>, nat),
>
    decreases count,
{
    if count == 0 {
        Some((Seq::empty(), 0))
    } else {
        match decode_input(bytes) {
            None => None,
            Some((first, used)) => match decode_inputs(bytes.skip(used as int), (count - 1) as nat) {
                None => None,
                Some((rest, more)) => Some((seq![first] + rest, used + more)),
            },
        }
    }
}

/// The encoding of a transaction: the version as four little-endian bytes,
/// the number of inputs as a canonical compact size, the inputs, and the
/// lock time as four little-endian bytes.
pub open spec fn encode_transaction(tx: BitcoinTransactionView) -> Seq<u8> {
    le_bytes(tx.version as nat, 4) + encode_compact_size(tx.inputs.len()) + encode_inputs(
        tx.inputs,
    ) + le_bytes(tx.lock_time as nat, 4)
}

/// What the front of `bytes` decodes to, with the number of bytes it
/// occupies, or `None` when any field is cut short.
pub open spec fn decode_transaction(bytes: Seq<u8>) -> Option<(BitcoinTransactionView, nat)> {
    if bytes.len() < 4 {
        None
    } else {
        match decode_compact_size(bytes.skip(4)) {
            None => None,
            Some((count, used1)) => match decode_inputs(bytes.skip(4 + used1 as int), count) {
                None => None,
                Some((inputs, used2)) => {
                    let end = 4 + used1 + used2 + 4;
                    if bytes.len() < end {
                        None
                    } else {
                        Some(
                            (
                                BitcoinTransactionView {
                                    version: le_value(bytes.subrange(0, 4)) as u32,
                                    inputs,
                                    lock_time: le_value(bytes.subrange(end - 4, end as int)) as u32,
                                },
                                end,
                            ),
                        )
                    }
                },
            },
        }
    }
}

impl BitcoinTransaction {
    /// A transaction made of its three fields.
    pub fn new(version: u32, inputs: Vec<TransactionInput>, lock_time: u32) -> (tx: Self)
        ensures
            tx.version == version,
            tx.inputs == inputs,
            tx.lock_time == lock_time,
    {
        Self { version, inputs, lock_time }
    }

    /// Encodes the transaction.
    pub fn to_bytes(&self) -> (bytes: Vec<u8>)
        ensures
            bytes@ == encode_transaction(self@),
    {
        let mut result: Vec<u8> = Vec::new();
        push_le(&mut result, self.version as u64, 4);
        let count = CompactSize::new(self.inputs.len() as u64).to_bytes();
        result.extend_from_slice(count.as_slice());
        let ghost head = result@;
        let mut i: usize = 0;
        while i < self.inputs.len()
            invariant
                i <= self.inputs.len(),
                result@ == head + encode_inputs(self@.inputs.take(i as int)),
            decreases self.inputs.len() - i,
        {
            let encoded = self.inputs[i].to_bytes();
            result.extend_from_slice(encoded.as_slice());
            proof {
                lemma_encode_inputs_push(self@.inputs.take(i as int), self@.inputs[i as int]);
                assert(self@.inputs.take(i + 1) =~= self@.inputs.take(i as int).push(
                    self@.inputs[i as int],
                ));
            }
            i = i + 1;
        }
        assert(self@.inputs.take(i as int) =~= self@.inputs);
        push_le(&mut result, self.lock_time as u64, 4);
        result
    }

    /// Decodes the transaction at the front of `bytes` and says how many
    /// bytes it occupies.
    pub fn from_bytes(bytes: &[u8]) -> (result: Result<(Self, usize), BitcoinError>)
        ensures
            match result {
                Ok((tx, used)) => used <= bytes.len() && decode_transaction(bytes@) == Some(
                    (tx@, used as nat),
                ),
                Err(e) => e == BitcoinError::InsufficientBytes && decode_transaction(bytes@)
                    is None,
            },
    {
        if bytes.len() < 4 {
            return Err(BitcoinError::InsufficientBytes);
        }
        let version: u64 = read_le(bytes, 0, 4);
        let (input_count, consumed1) = CompactSize::from_bytes(
            slice_subrange(bytes, 4, bytes.len()),
        )?;
        let start: usize = 4 + consumed1;
        let ghost body = bytes@.skip(start as int);
        let ghost count = input_count.value as nat;
        let mut inputs: Vec<TransactionInput> = Vec::new();
        let mut offset: usize = start;
        let mut done: u64 = 0;
        while done < input_count.value
            invariant
                start <= offset <= bytes.len(),
                done <= input_count.value,
                count == input_count.value,
                bytes.len() >= 4,
                start == 4 + consumed1,
                decode_compact_size(bytes@.skip(4)) == Some((count, consumed1 as nat)),
                body == bytes@.skip(start as int),
                decode_inputs(body, count) == match decode_inputs(
                    bytes@.skip(offset as int),
                    (count - done) as nat,
                ) {
                    None => None,
                    Some((rest, more)) => Some(
                        (inputs_view(inputs@) + rest, (offset - start + more) as nat),
                    ),
                },
            decreases input_count.value - done,
        {
            let ghost seen = inputs_view(inputs@);
            let (input, consumed) = TransactionInput::from_bytes(
                slice_subrange(bytes, offset, bytes.len()),
            )?;
            proof {
                let here = bytes@.skip(offset as int);
                assert(here.skip(consumed as int) =~= bytes@.skip(offset + consumed));
                assert(inputs_view(inputs@.push(input)) =~= seen.push(input@));
                assert forall|rest: Seq<TransactionInputView>| #![auto]
                    seen + (seq![input@] + rest) == seen.push(input@) + rest by {
                    assert(seen + (seq![input@] + rest) =~= seen.push(input@) + rest);
                }
            }
            inputs.push(input);
            offset = offset + consumed;
            done = done + 1;
        }
        assert(inputs_view(inputs@) + Seq::empty() =~= inputs_view(inputs@));
        if bytes.len() - offset < 4 {
            return Err(BitcoinError::InsufficientBytes);
        }
        let lock_time: u64 = read_le(bytes, offset, 4);
        Ok((Self::new(version as u32, inputs, lock_time as u32), offset + 4))
    }
}

/// Encoding one more input appends its encoding.
pub proof fn lemma_encode_inputs_push(inputs: Seq<TransactionInputView>, last: TransactionInputView)
    ensures
        encode_inputs(inputs.push(last)) == encode_inputs(inputs) + encode_input(last),
    decreases inputs.len(),
{
    let all = inputs.push(last);
    if inputs.len() == 0 {
        assert(all.drop_first() =~= Seq::empty());
        assert(encode_inputs(all) =~= encode_input(last) + encode_inputs(all.drop_first()));
        assert(encode_inputs(all) =~= encode_inputs(inputs) + encode_input(last));
    } else {
        lemma_encode_inputs_push(inputs.drop_first(), last);
        assert(all.drop_first() =~= inputs.drop_first().push(last));
        assert(encode_inputs(all) =~= encode_inputs(inputs) + encode_input(last));
    }
}

/// Decoding the encodings of a run of inputs, whatever follows them, gives
/// the inputs back and consumes exactly their encodings.
pub proof fn lemma_inputs_round_trip(inputs: Seq<TransactionInputView>, tail: Seq<u8>)
    requires
        inputs_wf(inputs),
    ensures
        decode_inputs(encode_inputs(inputs) + tail, inputs.len()) == Some(
            (inputs, encode_inputs(inputs).len()),
        ),
    decreases inputs.len(),
{
    if inputs.len() == 0 {
        assert(inputs =~= Seq::empty());
    } else {
        let first = inputs.first();
        let rest = inputs.drop_first();
        let head = encode_input(first);
        let bytes = encode_inputs(inputs) + tail;
        assert(first.wf());
        assert(inputs_wf(rest)) by {
            assert forall|i: int| 0 <= i < rest.len() implies (#[trigger] rest[i]).wf() by {
                assert(rest[i] == inputs[i + 1]);
            }
        }
        assert(decode_input(bytes) == Some((first, head.len()))) by {
            lemma_input_round_trip(first, encode_inputs(rest) + tail);
            assert(bytes =~= head + (encode_inputs(rest) + tail));
        }
        assert(decode_inputs(bytes.skip(head.len() as int), rest.len()) == Some(
            (rest, encode_inputs(rest).len()),
        )) by {
            lemma_inputs_round_trip(rest, tail);
            assert(bytes.skip(head.len() as int) =~= encode_inputs(rest) + tail);
        }
        assert(seq![first] + rest =~= inputs);
        assert(rest.len() == (inputs.len() - 1) as nat);
    }
}

/// Decoded inputs are as many as were asked for, are well formed, and lie
/// within the bytes given.
pub proof fn lemma_inputs_bounds(bytes: Seq<u8>, count: nat)
    ensures
        decode_inputs(bytes, count) matches Some((inputs, used)) ==> inputs.len() == count
            && inputs_wf(inputs) && used <= bytes.len() && (count == 0 ==> used == 0),
    decreases count,
{
    if count > 0 {
        if let Some((first, used)) = decode_input(bytes) {
            lemma_input_bounds(bytes);
            lemma_inputs_bounds(bytes.skip(used as int), (count - 1) as nat);
        }
    }
}

/// Decoding a run of inputs looks only at the bytes that it consumes.
pub proof fn lemma_inputs_prefix(bytes: Seq<u8>, other: Seq<u8>, count: nat)
    requires
        decode_inputs(bytes, count) is Some,
        other.len() >= decode_inputs(bytes, count).unwrap().1,
        other.take(decode_inputs(bytes, count).unwrap().1 as int) == bytes.take(
            decode_inputs(bytes, count).unwrap().1 as int,
        ),
    ensures
        decode_inputs(other, count) == decode_inputs(bytes, count),
    decreases count,
{
    if count > 0 {
        let end = decode_inputs(bytes, count).unwrap().1 as int;
        let used = decode_input(bytes).unwrap().1 as int;
        let more = decode_inputs(bytes.skip(used), (count - 1) as nat).unwrap().1 as int;
        lemma_input_bounds(bytes);
        lemma_inputs_bounds(bytes.skip(used), (count - 1) as nat);
        assert(other.take(used) =~= other.take(end).take(used));
        assert(bytes.take(used) =~= bytes.take(end).take(used));
        lemma_input_prefix(bytes, other);
        assert(other.skip(used).take(more) =~= other.take(end).subrange(used, end));
        assert(bytes.skip(used).take(more) =~= bytes.take(end).subrange(used, end));
        lemma_inputs_prefix(bytes.skip(used), other.skip(used), (count - 1) as nat);
    }
}

/// Cutting a buffer anywhere inside a run of inputs makes decoding fail.
pub proof fn lemma_inputs_truncated(bytes: Seq<u8>, count: nat, keep: nat)
    requires
        decode_inputs(bytes, count) is Some,
        keep < decode_inputs(bytes, count).unwrap().1,
    ensures
        decode_inputs(bytes.take(keep as int), count) is None,
    decreases count,
{
    let cut = bytes.take(keep as int);
    let used = decode_input(bytes).unwrap().1;
    lemma_input_bounds(bytes);
    lemma_inputs_bounds(bytes.skip(used as int), (count - 1) as nat);
    if keep < used {
        lemma_input_truncated(bytes, keep);
    } else {
        assert(cut.take(used as int) =~= bytes.take(used as int));
        lemma_input_prefix(bytes, cut);
        assert(cut.skip(used as int) =~= bytes.skip(used as int).take(keep - used));
        lemma_inputs_truncated(bytes.skip(used as int), (count - 1) as nat, (keep - used) as nat);
    }
}

/// Decoding the encoding of a transaction, whatever follows it, gives the
/// transaction back and consumes exactly the encoding.
pub proof fn lemma_transaction_round_trip(tx: BitcoinTransactionView, tail: Seq<u8>)
    requires
        tx.wf(),
    ensures
        decode_transaction(encode_transaction(tx) + tail) == Some(
            (tx, encode_transaction(tx).len()),
        ),
{
    let version = le_bytes(tx.version as nat, 4);
    let count = encode_compact_size(tx.inputs.len());
    let inputs = encode_inputs(tx.inputs);
    let lock_time = le_bytes(tx.lock_time as nat, 4);
    let bytes = encode_transaction(tx) + tail;
    let end = 4 + count.len() + inputs.len() + 4;
    lemma_le_bytes_len(tx.version as nat, 4);
    lemma_le_bytes_len(tx.lock_time as nat, 4);
    assert(bytes.len() == end + tail.len());
    assert(le_value(bytes.subrange(0, 4)) == tx.version) by {
        lemma_pow256_values();
        lemma_le_value_of_le_bytes(tx.version as nat, 4);
        assert(bytes.subrange(0, 4) =~= version);
    }
    assert(decode_compact_size(bytes.skip(4)) == Some((tx.inputs.len(), count.len()))) by {
        lemma_compact_size_round_trip(tx.inputs.len(), inputs + lock_time + tail);
        assert(bytes.skip(4) =~= count + (inputs + lock_time + tail));
    }
    assert(decode_inputs(bytes.skip(4 + count.len() as int), tx.inputs.len()) == Some(
        (tx.inputs, inputs.len()),
    )) by {
        lemma_inputs_round_trip(tx.inputs, lock_time + tail);
        assert(bytes.skip(4 + count.len() as int) =~= inputs + (lock_time + tail));
    }
    assert(le_value(bytes.subrange(end - 4, end as int)) == tx.lock_time) by {
        lemma_pow256_values();
        lemma_le_value_of_le_bytes(tx.lock_time as nat, 4);
        assert(bytes.subrange(end - 4, end as int) =~= lock_time);
    }
}

/// The encoding of a transaction is 4 bytes of version, the count of its
/// inputs, the encoded inputs, and 4 bytes of lock time.
pub proof fn lemma_transaction_encoding_len(tx: BitcoinTransactionView)
    ensures
        encode_transaction(tx).len() == 4 + encode_compact_size(tx.inputs.len()).len()
            + encode_inputs(tx.inputs).len() + 4,
{
    lemma_le_bytes_len(tx.version as nat, 4);
    lemma_le_bytes_len(tx.lock_time as nat, 4);
}

/// A decoded transaction is well formed and lies within the bytes given; it
/// occupies at least the nine bytes of a transaction without inputs.
pub proof fn lemma_transaction_bounds(bytes: Seq<u8>)
    ensures
        decode_transaction(bytes) matches Some((tx, used)) ==> tx.wf() && 9 <= used <= bytes.len(),
{
    if bytes.len() >= 4 {
        lemma_compact_size_bounds(bytes.skip(4));
        if let Some((count, used1)) = decode_compact_size(bytes.skip(4)) {
            lemma_inputs_bounds(bytes.skip(4 + used1 as int), count);
        }
    }
}

/// Decoding looks only at the bytes that it consumes: two buffers that agree
/// on them decode alike.
pub proof fn lemma_transaction_prefix(bytes: Seq<u8>, other: Seq<u8>)
    requires
        decode_transaction(bytes) is Some,
        other.len() >= decode_transaction(bytes).unwrap().1,
        other.take(decode_transaction(bytes).unwrap().1 as int) == bytes.take(
            decode_transaction(bytes).unwrap().1 as int,
        ),
    ensures
        decode_transaction(other) == decode_transaction(bytes),
{
    let end = decode_transaction(bytes).unwrap().1 as int;
    let count = decode_compact_size(bytes.skip(4)).unwrap().0;
    let used1 = decode_compact_size(bytes.skip(4)).unwrap().1 as int;
    let used2 = decode_inputs(bytes.skip(4 + used1), count).unwrap().1 as int;
    lemma_compact_size_bounds(bytes.skip(4));
    lemma_inputs_bounds(bytes.skip(4 + used1), count);
    assert(other.subrange(0, 4) =~= other.take(end).subrange(0, 4));
    assert(bytes.subrange(0, 4) =~= bytes.take(end).subrange(0, 4));
    assert(other.skip(4).take(used1) =~= other.take(end).subrange(4, 4 + used1));
    assert(bytes.skip(4).take(used1) =~= bytes.take(end).subrange(4, 4 + used1));
    lemma_compact_size_prefix(bytes.skip(4), other.skip(4));
    assert(other.skip(4 + used1).take(used2) =~= other.take(end).subrange(
        4 + used1,
        4 + used1 + used2,
    ));
    assert(bytes.skip(4 + used1).take(used2) =~= bytes.take(end).subrange(
        4 + used1,
        4 + used1 + used2,
    ));
    lemma_inputs_prefix(bytes.skip(4 + used1), other.skip(4 + used1), count);
    assert(other.subrange(end - 4, end) =~= other.take(end).subrange(end - 4, end));
    assert(bytes.subrange(end - 4, end) =~= bytes.take(end).subrange(end - 4, end));
}

/// Cutting a buffer anywhere inside a transaction makes decoding fail.
pub proof fn lemma_transaction_truncated(bytes: Seq<u8>, keep: nat)
    requires
        decode_transaction(bytes) is Some,
        keep < decode_transaction(bytes).unwrap().1,
    ensures
        decode_transaction(bytes.take(keep as int)) is None,
{
    let cut = bytes.take(keep as int);
    let count = decode_compact_size(bytes.skip(4)).unwrap().0;
    let used1 = decode_compact_size(bytes.skip(4)).unwrap().1 as int;
    let used2 = decode_inputs(bytes.skip(4 + used1), count).unwrap().1 as int;
    lemma_compact_size_bounds(bytes.skip(4));
    lemma_inputs_bounds(bytes.skip(4 + used1), count);
    if keep >= 4 {
        assert(cut.skip(4) =~= bytes.skip(4).take(keep - 4));
        if keep - 4 < used1 {
            lemma_compact_size_truncated(bytes.skip(4), (keep - 4) as nat);
        } else {
            assert(cut.skip(4).take(used1) =~= bytes.skip(4).take(used1));
            lemma_compact_size_prefix(bytes.skip(4), cut.skip(4));
            let body = bytes.skip(4 + used1);
            assert(cut.skip(4 + used1) =~= body.take(keep - 4 - used1));
            if keep - 4 - used1 < used2 {
                lemma_inputs_truncated(body, count, (keep - 4 - used1) as nat);
            } else {
                assert(cut.skip(4 + used1).take(used2) =~= body.take(used2));
                lemma_inputs_prefix(body, cut.skip(4 + used1), count);
            }
        }
    }
}

/// Round trip: decoding the encoding of a transaction gives the transaction
/// back and the length of the encoding.
pub proof fn lemma_transaction_decode_encode(tx: BitcoinTransactionView)
    requires
        tx.wf(),
    ensures
        decode_transaction(encode_transaction(tx)) == Some((tx, encode_transaction(tx).len())),
{
    lemma_transaction_round_trip(tx, Seq::empty());
    assert(encode_transaction(tx) + Seq::<u8>::empty() =~= encode_transaction(tx));
}

/// A buffer that is exactly one transaction no longer decodes once its last
/// byte is removed.
pub proof fn lemma_transaction_last_byte_removed(bytes: Seq<u8>)
    requires
        decode_transaction(bytes) is Some,
        decode_transaction(bytes).unwrap().1 == bytes.len(),
    ensures
        decode_transaction(bytes.drop_last()) is None,
{
    lemma_transaction_bounds(bytes);
    lemma_transaction_truncated(bytes, (bytes.len() - 1) as nat);
    assert(bytes.take(bytes.len() - 1) =~= bytes.drop_last());
}

} // verus!
