//! Progress accounting for peer-to-peer chunk transfers.
//!
//! The transport itself — connections, streams, peer discovery — lives at
//! the binary's edge; the library only carries the plain counters.

use vstd::prelude::*;

verus! {

/// Progress of one chunk-transfer session.
#[derive(Debug)]
pub struct TransferProgress {
    pub chunks_sent: usize,
    pub total_chunks: usize,
    pub bytes_sent: usize,
    pub total_bytes: usize,
}

} // verus!
