//! A table-based asymmetric numeral system (tANS) entropy coder.
//!
//! A [`quantize::Quantization`] turns symbol frequencies into integer
//! probabilities that sum to a power-of-two precision `L`. A
//! [`context::Context`] spreads the symbols over the `L` states and holds the
//! encode and decode tables. [`coder::encode`] and [`coder::decode`] move a
//! single state register through those tables, pushing bits to and popping
//! bits from the end of a bit sequence. A [`nibbles::NibbleModel`] codes
//! bytes with them, nibble by nibble, each low nibble in the context of the
//! high nibble before it.

pub mod coder;
pub mod context;
pub mod error;
pub mod nibbles;
pub mod power;
pub mod quantize;
pub mod spread;
pub mod sums;

pub use coder::{decode, encode};
pub use context::Context;
pub use error::{BuildError, DecodeError};
pub use nibbles::NibbleModel;
pub use quantize::Quantization;
