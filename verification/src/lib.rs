//! Crockford base-32: streaming conversion between bytes and symbols, and a
//! fixed-width codec for unsigned integers.

pub mod alphabet;
pub mod decoder;
pub mod encoder;
pub mod error;
pub mod integer;
pub mod regroup;
pub mod source;

pub use alphabet::{crockford_index, CROCKFORD_ALPHABET};
pub use decoder::{CrockfordDecoder, IntoCrockfordDecoder};
pub use encoder::{CrockfordEncoder, CrockfordEncoderIterator, IntoCrockfordEncoder};
pub use error::CrockfordDecodeError;
pub use integer::{decode, encode, UnsignedInteger};
