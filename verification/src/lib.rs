//! A codec for the legacy Bitcoin transaction wire format.
//!
//! Every wire type has a mathematical encoding (`encode_*`) and a
//! mathematical decoder (`decode_*`), written as spec functions over byte
//! sequences, and its executable `to_bytes` / `from_bytes` pair is proved to
//! compute exactly those. A decoder returns the value at the front of a
//! buffer together with the number of bytes it occupies, so that a caller
//! can go on reading right behind it.
//!
//! Beside each pair stand the laws that hold of it, as proof functions:
//! decoding an encoding gives the value back, whatever follows it
//! (`lemma_*_round_trip`); decoding looks only at the bytes it consumes
//! (`lemma_*_prefix`); and a buffer cut anywhere inside a value fails to
//! decode (`lemma_*_truncated`).
//!
//! Hexadecimal text is written and read by the `hex` crate; what is assumed
//! of it is stated in [`hex_text`].

pub mod compact_size;
pub mod error;
pub mod hex_text;
pub mod input;
pub mod little_endian;
pub mod outpoint;
pub mod report;
pub mod script;
pub mod transaction;
pub mod txid;

pub use compact_size::CompactSize;
pub use error::BitcoinError;
pub use input::TransactionInput;
pub use outpoint::OutPoint;
pub use script::Script;
pub use transaction::BitcoinTransaction;
pub use txid::Txid;
