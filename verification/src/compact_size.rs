//! The variable-width unsigned integer that prefixes lengths and counts.

use crate::error::BitcoinError;
use crate::little_endian::{
    le_bytes, le_value, lemma_le_bytes_len, lemma_le_bytes_of_le_value, lemma_le_value_bound,
    lemma_le_value_of_le_bytes, lemma_pow256_monotonic, lemma_pow256_values, pow256, push_le,
    read_le,
};
use vstd::prelude::*;

verus! {

/// An unsigned 64-bit count, as the wire format carries it.
#[derive(Debug, PartialEq, Eq, Clone)]
pub struct CompactSize {
    pub value: u64,
}

/// The canonical encoding of `value`: the narrowest of the four forms that
/// holds it.
pub open spec fn encode_compact_size(value: nat) -> Seq<u8> {
    if value <= 0xFC {
        seq![value as u8]
    } else if value <= 0xFFFF {
        seq![0xFDu8] + le_bytes(value, 2)
    } else if value <= 0xFFFF_FFFF {
        seq![0xFEu8] + le_bytes(value, 4)
    } else {
        seq![0xFFu8] + le_bytes(value, 8)
    }
}

/// The number of bytes that an encoding occupies when it starts with `tag`.
pub open spec fn compact_size_len(tag: u8) -> nat {
    if tag <= 0xFC {
        1
    } else if tag == 0xFD {
        3
    } else if tag == 0xFE {
        5
    } else {
        9
    }
}

/// What the front of `bytes` decodes to: the value and the number of bytes
/// it occupies, or `None` when `bytes` ends too early. Any of the four forms
/// is accepted for any value that it can hold.
pub open spec fn decode_compact_size(bytes: Seq<u8>) -> Option<(nat, nat)> {
    if bytes.len() == 0 {
        None
    } else {
        let len = compact_size_len(bytes[0]);
        if bytes.len() < len {
            None
        } else if len == 1 {
            Some((bytes[0] as nat, 1))
        } else {
            Some((le_value(bytes.subrange(1, len as int)), len))
        }
    }
}

impl CompactSize {
    /// The count `value`.
    pub fn new(value: u64) -> (size: Self)
        ensures
            size.value == value,
    {
        Self { value }
    }

    /// Encodes the value in its canonical form.
    pub fn to_bytes(&self) -> (bytes: Vec<u8>)
        ensures
            bytes@ == encode_compact_size(self.value as nat),
    {
        let mut bytes: Vec<u8> = Vec::new();
        if self.value <= 0xFC {
            bytes.push(self.value as u8);
        } else if self.value <= 0xFFFF {
            bytes.push(0xFD);
            push_le(&mut bytes, self.value, 2);
        } else if self.value <= 0xFFFF_FFFF {
            bytes.push(0xFE);
            push_le(&mut bytes, self.value, 4);
        } else {
            bytes.push(0xFF);
            push_le(&mut bytes, self.value, 8);
        }
        bytes
    }

    /// Decodes the value at the front of `bytes` and says how many bytes it
    /// occupies.
    pub fn from_bytes(bytes: &[u8]) -> (result: Result<(Self, usize), BitcoinError>)
        ensures
            match result {
                Ok((size, used)) => used <= bytes.len() && decode_compact_size(bytes@) == Some(
                    (size.value as nat, used as nat),
                ),
                Err(e) => e == BitcoinError::InsufficientBytes && decode_compact_size(bytes@)
                    is None,
            },
    {
        if bytes.len() == 0 {
            return Err(BitcoinError::InsufficientBytes);
        }
        let tag: u8 = bytes[0];
        if tag <= 0xFC {
            return Ok((Self::new(tag as u64), 1));
        }
        let width: usize = if tag == 0xFD {
            2
        } else if tag == 0xFE {
            4
        } else {
            8
        };
        if bytes.len() < 1 + width {
            return Err(BitcoinError::InsufficientBytes);
        }
        let value: u64 = read_le(bytes, 1, width);
        Ok((Self::new(value), 1 + width))
    }
}

/// The length of the canonical encoding, tier by tier.
pub proof fn lemma_compact_size_canonical_len(value: nat)
    ensures
        encode_compact_size(value).len() == if value <= 0xFC {
            1nat
        } else if value <= 0xFFFF {
            3nat
        } else if value <= 0xFFFF_FFFF {
            5nat
        } else {
            9nat
        },
{
    lemma_le_bytes_len(value, 2);
    lemma_le_bytes_len(value, 4);
    lemma_le_bytes_len(value, 8);
}

/// Decoding accepts every form for every value that the form can hold: a
/// tag `0xFD`, `0xFE` or `0xFF` followed by two, four or eight little-endian
/// bytes decodes to their value, also where a narrower form would have held
/// it.
pub proof fn lemma_compact_size_wide_form(value: nat, width: nat, tail: Seq<u8>)
    requires
        width == 2 || width == 4 || width == 8,
        value < pow256(width),
    ensures
        decode_compact_size(
            seq![
                if width == 2 {
                    0xFDu8
                } else if width == 4 {
                    0xFEu8
                } else {
                    0xFFu8
                },
            ] + le_bytes(value, width) + tail,
        ) == Some((value, 1 + width)),
{
    let tag: u8 = if width == 2 {
        0xFD
    } else if width == 4 {
        0xFE
    } else {
        0xFF
    };
    let bytes = seq![tag] + le_bytes(value, width) + tail;
    lemma_le_bytes_len(value, width);
    lemma_le_value_of_le_bytes(value, width);
    assert(bytes.subrange(1, 1 + width as int) =~= le_bytes(value, width));
}

/// Decoding the canonical encoding of a 64-bit value, whatever follows it,
/// gives the value back and consumes exactly the encoding.
pub proof fn lemma_compact_size_round_trip(value: nat, tail: Seq<u8>)
    requires
        value <= u64::MAX,
    ensures
        decode_compact_size(encode_compact_size(value) + tail) == Some(
            (value, encode_compact_size(value).len()),
        ),
{
    lemma_compact_size_canonical_len(value);
    if value > 0xFC {
        let width: nat = if value <= 0xFFFF {
            2
        } else if value <= 0xFFFF_FFFF {
            4
        } else {
            8
        };
        lemma_pow256_values();
        lemma_compact_size_wide_form(value, width, tail);
    }
}

/// The canonical encoding is minimal: no accepted encoding of a value is
/// shorter than the canonical one.
pub proof fn lemma_compact_size_minimal(bytes: Seq<u8>)
    ensures
        decode_compact_size(bytes) matches Some((value, used)) ==> encode_compact_size(
            value,
        ).len() <= used,
{
    if let Some((value, used)) = decode_compact_size(bytes) {
        lemma_compact_size_canonical_len(value);
        lemma_pow256_values();
        if used > 1 {
            lemma_le_value_bound(bytes.subrange(1, used as int));
        }
    }
}

/// The canonical encoding is the only accepted encoding of its length: a
/// buffer that decodes to a value in as many bytes as the canonical
/// encoding has starts with the canonical encoding.
pub proof fn lemma_compact_size_canonical_unique(bytes: Seq<u8>)
    requires
        decode_compact_size(bytes) is Some,
        decode_compact_size(bytes).unwrap().1 == encode_compact_size(
            decode_compact_size(bytes).unwrap().0,
        ).len(),
    ensures
        bytes.take(decode_compact_size(bytes).unwrap().1 as int) == encode_compact_size(
            decode_compact_size(bytes).unwrap().0,
        ),
{
    let (value, used) = decode_compact_size(bytes).unwrap();
    lemma_compact_size_canonical_len(value);
    if used > 1 {
        lemma_le_bytes_of_le_value(bytes.subrange(1, used as int));
    }
    assert(bytes.take(used as int) =~= encode_compact_size(value));
}

/// A decoded value fits in 64 bits and lies within the bytes given.
pub proof fn lemma_compact_size_bounds(bytes: Seq<u8>)
    ensures
        decode_compact_size(bytes) matches Some((value, used)) ==> value <= u64::MAX && 1 <= used
            <= bytes.len(),
{
    if let Some((value, used)) = decode_compact_size(bytes) {
        lemma_pow256_values();
        if used > 1 {
            lemma_le_value_bound(bytes.subrange(1, used as int));
            lemma_pow256_monotonic((used - 1) as nat, 8);
        }
    }
}

/// Decoding looks only at the bytes that it consumes: two buffers that agree
/// on them decode alike.
pub proof fn lemma_compact_size_prefix(bytes: Seq<u8>, other: Seq<u8>)
    requires
        decode_compact_size(bytes) is Some,
        other.len() >= decode_compact_size(bytes).unwrap().1,
        other.take(decode_compact_size(bytes).unwrap().1 as int) == bytes.take(
            decode_compact_size(bytes).unwrap().1 as int,
        ),
    ensures
        decode_compact_size(other) == decode_compact_size(bytes),
{
    let used = decode_compact_size(bytes).unwrap().1 as int;
    assert(other[0] == other.take(used)[0]);
    assert(bytes[0] == bytes.take(used)[0]);
    if used > 1 {
        assert(other.subrange(1, used) =~= other.take(used).subrange(1, used));
        assert(bytes.subrange(1, used) =~= bytes.take(used).subrange(1, used));
    }
}

/// Cutting a buffer anywhere inside an encoding makes decoding fail.
pub proof fn lemma_compact_size_truncated(bytes: Seq<u8>, keep: nat)
    requires
        decode_compact_size(bytes) is Some,
        keep < decode_compact_size(bytes).unwrap().1,
    ensures
        decode_compact_size(bytes.take(keep as int)) is None,
{
}

/// Round trip: decoding the canonical encoding of a 64-bit value gives the
/// value back and the length of the encoding.
pub proof fn lemma_compact_size_decode_encode(value: nat)
    requires
        value <= u64::MAX,
    ensures
        decode_compact_size(encode_compact_size(value)) == Some(
            (value, encode_compact_size(value).len()),
        ),
{
    lemma_compact_size_round_trip(value, Seq::empty());
    assert(encode_compact_size(value) + Seq::<u8>::empty() =~= encode_compact_size(value));
}

/// A buffer that is exactly one encoding, canonical or not, no longer
/// decodes once its last byte is removed.
pub proof fn lemma_compact_size_last_byte_removed(bytes: Seq<u8>)
    requires
        decode_compact_size(bytes) is Some,
        decode_compact_size(bytes).unwrap().1 == bytes.len(),
    ensures
        decode_compact_size(bytes.drop_last()) is None,
{
    lemma_compact_size_truncated(bytes, (bytes.len() - 1) as nat);
    assert(bytes.take(bytes.len() - 1) =~= bytes.drop_last());
}

} // verus!
