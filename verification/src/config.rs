//! Tuning parameters for the engine and its collaborators.
//!
//! The values live here as plain data; reading and writing a configuration
//! file is the binary's business, not the library's.

use vstd::prelude::*;

use crate::compression::host_parallelism;

verus! {

/// The whole configuration: peer-to-peer transport, compression, and the
/// HTTP fallback.
#[derive(Debug, Clone)]
pub struct Config {
    pub p2p: P2PConfig,
    pub compression: CompressionConfig,
    pub fallback: FallbackConfig,
}

/// Peer-to-peer transport settings.
#[derive(Debug, Clone)]
pub struct P2PConfig {
    pub bootstrap: Vec<String>,
    pub timeout_ms: u64,
    pub port: Option<u16>,
    pub enable_mdns: bool,
}

/// Compression settings.
#[derive(Debug, Clone)]
pub struct CompressionConfig {
    pub algorithm: String,
    pub block_size: usize,
    pub acceleration: i32,
    pub parallel_workers: Option<usize>,
}

/// HTTP fallback settings.
#[derive(Debug, Clone)]
pub struct FallbackConfig {
    pub region: String,
    pub bucket: String,
    pub expiry_secs: u64,
    pub endpoint: Option<String>,
}

impl Default for Config {
    /// The documented defaults: lz4 over 4 MiB blocks, one worker per
    /// logical CPU, a 5 s peer discovery timeout, a day of fallback file
    /// retention, and a local fallback endpoint.
    fn default() -> (c: Config)
        ensures
            c.compression.algorithm@ == "lz4"@,
            c.compression.block_size == crate::compression::BLOCK_SIZE,
            c.compression.acceleration == crate::compression::LZ4_ACCELERATION,
            c.compression.parallel_workers is None,
            c.p2p.bootstrap@.len() == 2,
            c.p2p.timeout_ms == 5000,
            c.p2p.port is None,
            c.p2p.enable_mdns,
            c.fallback.region@ == ""@,
            c.fallback.bucket@ == ""@,
            c.fallback.expiry_secs == 86400,
            c.fallback.endpoint matches Some(e) && e@ == "http://localhost:8080"@,
    {
        let mut bootstrap: Vec<String> = Vec::new();
        bootstrap.push("/dns4/bootstrap.libp2p.io/tcp/443/quic-v1".to_owned());
        bootstrap.push(
            "/dns4/bootstrap.libp2p.io/tcp/443/quic-v1/p2p/12D3KooWGCYDpyGwFvjNbFWQXCCK9G4RZekkKfXXc2QnP8HWqDek".to_owned(),
        );
        Config {
            p2p: P2PConfig { bootstrap, timeout_ms: 5000, port: None, enable_mdns: true },
            compression: CompressionConfig {
                algorithm: "lz4".to_owned(),
                block_size: crate::compression::BLOCK_SIZE,
                acceleration: crate::compression::LZ4_ACCELERATION,
                parallel_workers: None,
            },
            fallback: FallbackConfig {
                region: "".to_owned(),
                bucket: "".to_owned(),
                expiry_secs: 86400,
                endpoint: Some("http://localhost:8080".to_owned()),
            },
        }
    }
}

impl Config {
    /// The worker count for compression: the configured override, or one
    /// worker per logical CPU.
    pub fn get_parallel_workers(&self) -> (r: usize)
        ensures
            self.compression.parallel_workers matches Some(w) ==> r == w,
            self.compression.parallel_workers is None ==> 1 <= r,
    {
        match self.compression.parallel_workers {
            Some(w) => w,
            None => host_parallelism(),
        }
    }
}

} // verus!
