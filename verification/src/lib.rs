//! A content-addressed chunking and compression engine.
//!
//! The library splits a byte stream into fixed-size blocks, compresses and
//! hashes each block independently, and serializes the resulting chunk set
//! into one self-describing binary bundle.  Decoding validates the bundle
//! structure and restores the logical chunk order; decompression recomputes
//! each chunk's digest and rejects corrupted data.

pub mod cli;
pub mod compression;
pub mod config;
pub mod error;
pub mod fallback;
pub mod p2p;

pub use error::ShrLinkError;
