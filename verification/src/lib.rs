//! Friendly universal identifiers (FUIDs).
//!
//! A FUID is a 128-bit unsigned integer, generated like a random UUID but
//! rendered as a short base-62 string over the alphabet `0-9A-Za-z` instead of
//! hyphenated hexadecimal. The crate has two layers:
//!
//! * [`base62`]: the codec pair converting between a `u128` and its base-62
//!   string, with exact contracts for the encoding, the decoding, and both
//!   error cases (invalid symbol, arithmetic overflow);
//! * [`Fuid`]: a copyable value type wrapping the `u128`, built from random
//!   UUID bits, integers or strings, and converted losslessly back out.

pub mod base62;

mod fuid;

pub use fuid::Fuid;
pub use fuid::lemma_fuid_eq;
pub use fuid::lemma_fuid_from_spec;
pub use fuid::lemma_string_round_trip;
pub use fuid::uuid_bits;
