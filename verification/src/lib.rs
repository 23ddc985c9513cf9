//! Verified core for preparing Soroban contract-invocation transactions and
//! decoding the ledger's binary storage representation.
//!
//! The crate covers the byte-exact pieces of the pipeline: the strkey address
//! codec, the tagged binary value codec, ledger key construction, unsigned
//! transaction assembly and envelope serialization, merging of simulation
//! results, storage-entry interpretation, and the proof-of-work preimage.
pub mod address;
pub mod api;
pub mod base64;
pub mod bytesutil;
pub mod codec;
pub mod errors;
pub mod hex;
pub mod keys;
pub mod simulate;
pub mod storage;
pub mod txbuild;
pub mod values;
pub mod workhash;
