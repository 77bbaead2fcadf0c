//! Verifiable information dispersal (ADVZ): a payload is committed to, split
//! into erasure-coded shares with opening proofs, verified share by share and
//! recovered from any `reconstruction_size` of them.
//!
//! The polynomial commitment scheme and the erasure code are supplied by the
//! caller; this crate decides how their inputs and outputs are put together.

pub mod advz;
pub mod digest;
pub mod error;
pub mod payload;

pub use advz::{eval_point, Advz, RecoveryStep, Shard, Share};
pub use digest::digest_commitments;
pub use error::VidError;
pub use payload::{blocks_to_payload, payload_to_blocks, BLOCK_BYTES, ELEMENT_BYTES};
