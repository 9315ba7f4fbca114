//! A binary serialization format for jagged arrays of optional text values.
//!
//! An array is an ordered sequence of rows; a row is an ordered sequence of
//! cells; a cell is either null, empty text, or non-empty text. The byte
//! stream joins rows with `0xFF`, cells with `0xFE`, and writes a null cell
//! as `0xFD`, an empty text cell as `0xFC`, and non-empty text as its raw
//! UTF-8 bytes. The stream carries no header and no length prefix.
//!
//! The `format` module holds the mathematical model of the stream and the
//! round-trip proof; the `codec` module holds the executable encoder and
//! decoder, verified against that model.

pub mod codec;
pub mod format;
pub mod roundtrip;

pub use codec::decode_bsv;
pub use codec::encode_bsv;
pub use format::DecodeError;
pub use roundtrip::lemma_decoded_is_encoding;
pub use roundtrip::lemma_encode_injective;
pub use roundtrip::lemma_round_trip;
