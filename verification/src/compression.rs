//! Per-block compression and integrity checking.
//!
//! Each raw block is hashed before compression; the digest of the plaintext
//! is the sole integrity anchor.  Decompression recomputes the digest and
//! rejects the payload on any mismatch.

use vstd::prelude::*;

use crate::error::ShrLinkError;

pub mod blocks;
pub mod codec;

pub use codec::create_shr_bundle;
pub use codec::parse_shr_bundle;

use blocks::blocks_of;
use rayon::iter::{IndexedParallelIterator, IntoParallelIterator, ParallelIterator};

verus! {

/// The default plaintext length of one block: 4 MiB.
pub const BLOCK_SIZE: usize = 4 * 1024 * 1024;

/// The default compressor tuning parameter.
pub const LZ4_ACCELERATION: i32 = 1;

/// The compressed image that `lz4_flex::compress_prepend_size` produces for
/// a byte sequence.  The image is a function of the input bytes alone.
pub uninterp spec fn lz4_of(s: Seq<u8>) -> Seq<u8>;

/// What `lz4_flex::decompress_size_prepended` makes of a payload: the
/// decoded bytes, or nothing when the payload is rejected.  The outcome is
/// a function of the payload bytes alone.
pub uninterp spec fn lz4_decoded(s: Seq<u8>) -> Option<Seq<u8>>;

/// The 256-bit digest that `blake3::hash` produces for a byte sequence.
/// The digest is a function of the input bytes alone.
pub uninterp spec fn blake3_of(s: Seq<u8>) -> Seq<u8>;

/// The lowercase hex digit for a value below 16.
pub open spec fn hex_digit(n: int) -> char {
    if n == 0 { '0' } else if n == 1 { '1' } else if n == 2 { '2' }
    else if n == 3 { '3' } else if n == 4 { '4' } else if n == 5 { '5' }
    else if n == 6 { '6' } else if n == 7 { '7' } else if n == 8 { '8' }
    else if n == 9 { '9' } else if n == 10 { 'a' } else if n == 11 { 'b' }
    else if n == 12 { 'c' } else if n == 13 { 'd' } else if n == 14 { 'e' }
    else { 'f' }
}

/// Two lowercase hex digits for each byte, most significant digit first.
pub open spec fn hex_of(s: Seq<u8>) -> Seq<char>
    decreases s.len(),
{
    if s.len() == 0 {
        Seq::empty()
    } else {
        seq![hex_digit((s[0] as int) / 16), hex_digit((s[0] as int) % 16)] + hex_of(s.skip(1))
    }
}

/// One block's compressed payload plus its zero-based ordinal, the digest of
/// the plaintext, and the plaintext length.
#[derive(Debug, Clone)]
pub struct CompressedChunk {
    pub index: usize,
    pub data: Vec<u8>,
    pub hash: [u8; 32],
    pub original_size: usize,
}

/// The chunk carries exactly what compressing `block` as ordinal `i` yields:
/// the digest is over the plaintext, the payload is its compressed image,
/// which decodes back to the block and stays within the codec's documented
/// worst-case growth.
pub open spec fn chunk_of_block(c: CompressedChunk, block: Seq<u8>, i: int) -> bool {
    &&& c.index == i
    &&& c.data@ == lz4_of(block)
    &&& lz4_decoded(c.data@) == Some(block)
    &&& c.data@.len() <= 24 + block.len() * 110 / 100
    &&& c.hash@ == blake3_of(block)
    &&& c.original_size == block.len()
}

/// Relies on `blake3::hash`: the 32-byte digest of the input bytes,
/// deterministic in the input alone.
#[verifier::external_body]
fn blake3_digest(data: &[u8]) -> (r: [u8; 32])
    ensures
        r@ == blake3_of(data@),
{
    blake3::hash(data).into()
}

/// Relies on `lz4_flex::compress_prepend_size`: the compressed image is a
/// function of the input bytes alone, stays within the crate's documented
/// worst-case output size, and `decompress_size_prepended` decodes it back
/// to the input.  The prepended length header is 32 bits, so the input
/// must fit it.
#[verifier::external_body]
fn lz4_compress(data: &[u8]) -> (r: Vec<u8>)
    requires
        data@.len() < 0x1_0000_0000,
    ensures
        r@ == lz4_of(data@),
        lz4_decoded(r@) == Some(data@),
        r@.len() <= 24 + data@.len() * 110 / 100,
{
    lz4_flex::compress_prepend_size(data)
}

/// Relies on `lz4_flex::decompress_size_prepended`: the outcome — decoded
/// bytes or a rejection — is a function of the payload bytes alone, and
/// the safe decoder returns an error on a payload it rejects, it never
/// panics.
#[verifier::external_body]
fn lz4_decompress(data: &[u8]) -> (r: Result<Vec<u8>, ShrLinkError>)
    ensures
        r matches Ok(d) ==> lz4_decoded(data@) == Some(d@),
        r matches Err(e) ==> (e matches ShrLinkError::Compression(_) && lz4_decoded(data@)
            is None),
{
    lz4_flex::decompress_size_prepended(data).map_err(|e| ShrLinkError::Compression(e.to_string()))
}

/// Relies on `hex::encode`: two lowercase hex digits for each input byte.
#[verifier::external_body]
fn to_hex(data: &[u8]) -> (r: String)
    ensures
        r@ == hex_of(data@),
{
    hex::encode(data)
}

/// Relies on `num_cpus::get`: the logical CPU count, documented to always be
/// at least 1.
#[verifier::external_body]
pub(crate) fn host_parallelism() -> (r: usize)
    ensures
        1 <= r,
{
    num_cpus::get()
}

/// Byte-for-byte comparison of two 32-byte digests.
fn digest_eq(a: &[u8; 32], b: &[u8; 32]) -> (r: bool)
    ensures
        r <==> a@ == b@,
{
    let mut i: usize = 0;
    while i < 32
        invariant
            0 <= i <= 32,
            forall|j: int| 0 <= j < i ==> a@[j] == b@[j],
        decreases 32 - i,
    {
        if a[i] != b[i] {
            proof {
                assert(a@[i as int] != b@[i as int]);
            }
            return false;
        }
        i += 1;
    }
    proof {
        assert(a@ =~= b@);
    }
    true
}

/// The payload decodes and the digest of its plaintext matches the stored
/// digest: exactly the condition under which decompression succeeds.
pub open spec fn chunk_verifies(c: CompressedChunk) -> bool {
    lz4_decoded(c.data@) matches Some(x) && blake3_of(x) == c.hash@
}

/// The plaintext of a chunk whose payload decodes.
pub open spec fn plaintext_of(c: CompressedChunk) -> Seq<u8>
    recommends
        lz4_decoded(c.data@) is Some,
{
    lz4_decoded(c.data@).unwrap()
}

/// Every chunk of the list verifies.
pub open spec fn all_chunks_verify(s: Seq<CompressedChunk>) -> bool {
    forall|i: int| 0 <= i < s.len() ==> chunk_verifies(#[trigger] s[i])
}

/// The plaintexts of the chunks, concatenated in list order.
pub open spec fn concat_plaintexts(s: Seq<CompressedChunk>) -> Seq<u8> {
    s.map_values(|c: CompressedChunk| plaintext_of(c)).flatten()
}

/// The chunk list of one compression call, plus aggregate size totals.
/// The totals are simple sums over the list, kept for information only and
/// saturating at `usize::MAX`.
#[derive(Debug)]
pub struct CompressionResult {
    pub chunks: Vec<CompressedChunk>,
    pub total_original_size: usize,
    pub total_compressed_size: usize,
}

/// Every chunk is the compression of the block at its own position: the
/// list is ordered by index, one chunk per block.
pub open spec fn chunks_match_blocks(chunks: Seq<CompressedChunk>, blks: Seq<Seq<u8>>) -> bool {
    &&& chunks.len() == blks.len()
    &&& forall|i: int| 0 <= i < blks.len() ==> chunk_of_block(#[trigger] chunks[i], blks[i], i)
}

/// The sum of the compressed payload lengths of a chunk list.
pub open spec fn sum_compressed(chunks: Seq<CompressedChunk>) -> int
    decreases chunks.len(),
{
    if chunks.len() == 0 {
        0
    } else {
        sum_compressed(chunks.drop_last()) + chunks.last().data@.len()
    }
}

/// `n`, saturated at the largest machine word.
pub open spec fn clamp_usize(n: int) -> int {
    if n <= usize::MAX as int {
        n
    } else {
        usize::MAX as int
    }
}

/// The sum of the compressed payload lengths, saturated at `usize::MAX`.
fn sum_data_lens(chunks: &Vec<CompressedChunk>) -> (r: usize)
    ensures
        r as int == clamp_usize(sum_compressed(chunks@)),
{
    let mut total: usize = 0;
    let mut i: usize = 0;
    while i < chunks.len()
        invariant
            i <= chunks@.len(),
            total as int == clamp_usize(sum_compressed(chunks@.take(i as int))),
        decreases chunks@.len() - i,
    {
        proof {
            assert(chunks@.take(i + 1).drop_last() =~= chunks@.take(i as int));
            assert(chunks@.take(i + 1).last() == chunks@[i as int]);
        }
        let len = chunks[i].data.len();
        if total <= usize::MAX - len {
            total = total + len;
        } else {
            total = usize::MAX;
        }
        i = i + 1;
    }
    proof {
        assert(chunks@.take(i as int) =~= chunks@);
    }
    total
}

/// Compresses and hashes raw blocks independently across a bounded worker
/// pool, and verifies chunk integrity on decompression.
pub struct ParallelCompressor {
    block_size: usize,
    acceleration: i32,
    num_workers: usize,
}

impl ParallelCompressor {
    /// The maximum plaintext length of one block.
    pub closed spec fn spec_block_size(&self) -> usize {
        self.block_size
    }

    /// The compressor tuning parameter.
    pub closed spec fn spec_acceleration(&self) -> i32 {
        self.acceleration
    }

    /// The bound of the worker pool.
    pub closed spec fn spec_num_workers(&self) -> usize {
        self.num_workers
    }

    pub fn new(block_size: usize, acceleration: i32) -> (r: Self)
        ensures
            r.spec_block_size() == block_size,
            r.spec_acceleration() == acceleration,
            1 <= r.spec_num_workers(),
    {
        ParallelCompressor { block_size, acceleration, num_workers: host_parallelism() }
    }

    /// Replaces the worker bound; a degenerate bound of zero is raised to one.
    pub fn with_workers(self, num_workers: usize) -> (r: Self)
        ensures
            r.spec_block_size() == self.spec_block_size(),
            r.spec_acceleration() == self.spec_acceleration(),
            r.spec_num_workers() == if num_workers >= 1 { num_workers as int } else { 1int },
    {
        let w = if num_workers >= 1 { num_workers } else { 1 };
        ParallelCompressor {
            block_size: self.block_size,
            acceleration: self.acceleration,
            num_workers: w,
        }
    }

    /// Hashes the raw block, then compresses it; the digest is always over
    /// the plaintext, never over the compressed payload.  The block must
    /// fit the wire format's 32-bit length fields.
    pub fn compress_chunk(&self, index: usize, chunk: Vec<u8>) -> (r: Result<
        CompressedChunk,
        ShrLinkError,
    >)
        requires
            chunk@.len() < 0x1_0000_0000,
        ensures
            r matches Ok(c) && chunk_of_block(c, chunk@, index as int),
    {
        let original_size = chunk.len();
        let hash = blake3_digest(chunk.as_slice());
        let compressed = lz4_compress(chunk.as_slice());
        Ok(CompressedChunk { index, data: compressed, hash, original_size })
    }

    /// Relies on rayon's `ThreadPoolBuilder::build` and the
    /// order-preserving `collect` of an indexed parallel iterator: on
    /// success the output holds, in input order, exactly the chunk that the
    /// verified `compress_chunk` produces for each block, so the per-chunk
    /// clauses restate `compress_chunk`'s contract and the requirement
    /// restates its precondition; only pool construction can fail.
    #[verifier::external_body]
    fn compress_blocks_parallel(&self, blks: Vec<Vec<u8>>) -> (r: Result<
        Vec<CompressedChunk>,
        ShrLinkError,
    >)
        requires
            forall|i: int| 0 <= i < blks@.len() ==> #[trigger] blks@[i]@.len() < 0x1_0000_0000,
        ensures
            r matches Ok(out) ==> out@.len() == blks@.len() && forall|i: int|
                0 <= i < out@.len() ==> chunk_of_block(#[trigger] out@[i], blks@[i]@, i),
            r matches Err(e) ==> e matches ShrLinkError::Compression(_),
    {
        let pool = match rayon::ThreadPoolBuilder::new().num_threads(self.num_workers).build() {
            Ok(p) => p,
            Err(e) => return Err(ShrLinkError::Compression(e.to_string())),
        };
        pool.install(|| {
            blks.into_par_iter().enumerate().map(|(i, blk)| self.compress_chunk(i, blk)).collect()
        })
    }

    /// Splits the source into blocks and compresses them across the worker
    /// pool.  The chunk list comes back ordered by index and is a function
    /// of the source bytes and the block size alone — never of the worker
    /// count or of the order in which workers complete.  A block size of
    /// zero, or one too large for the wire format's 32-bit length fields,
    /// is rejected before any block is processed; a worker-pool failure
    /// fails the whole batch with no partial result.  The totals are plain
    /// sums, the compressed one saturating at `usize::MAX`.
    pub fn compress(&self, data: &[u8]) -> (r: Result<CompressionResult, ShrLinkError>)
        ensures
            self.spec_block_size() == 0 || self.spec_block_size() >= 0x1_0000_0000 ==> (r matches
                Err(e) && e matches ShrLinkError::InvalidInput(_)),
            r matches Ok(res) ==> {
                &&& 1 <= self.spec_block_size() < 0x1_0000_0000
                &&& chunks_match_blocks(
                    res.chunks@,
                    blocks_of(data@, self.spec_block_size() as int),
                )
                &&& res.chunks@.len() == (data@.len() + self.spec_block_size() - 1) / (
                self.spec_block_size() as int)
                &&& res.total_original_size == data@.len()
                &&& res.total_compressed_size == clamp_usize(sum_compressed(res.chunks@))
            },
            r matches Err(e) ==> (e matches ShrLinkError::InvalidInput(_) || e matches
                ShrLinkError::Compression(_)),
            r matches Err(e) ==> (1 <= self.spec_block_size() < 0x1_0000_0000 ==> e matches
                ShrLinkError::Compression(_)),
    {
        if self.block_size == 0 {
            return Err(ShrLinkError::InvalidInput("block size must be positive".to_owned()));
        }
        if self.block_size as u64 >= 0x1_0000_0000u64 {
            return Err(
                ShrLinkError::InvalidInput(
                    "block size exceeds the 32-bit wire format".to_owned(),
                ),
            );
        }
        let blks = blocks::split_blocks(data, self.block_size);
        let ghost blk_views = blks@.map_values(|v: Vec<u8>| v@);
        proof {
            blocks::lemma_blocks_sizes(data@, self.spec_block_size() as int);
            assert forall|i: int| 0 <= i < blks@.len() implies #[trigger] blks@[i]@.len()
                < 0x1_0000_0000 by {
                assert(blk_views[i] == blks@[i]@);
                assert(blk_views[i] == blocks_of(data@, self.spec_block_size() as int)[i]);
            }
        }
        let chunks = match self.compress_blocks_parallel(blks) {
            Ok(c) => c,
            Err(e) => return Err(e),
        };
        proof {
            blocks::lemma_blocks_count(data@, self.spec_block_size() as int);
            assert forall|i: int| 0 <= i < blk_views.len() implies chunk_of_block(
                #[trigger] chunks@[i],
                blocks_of(data@, self.spec_block_size() as int)[i],
                i,
            ) by {
                assert(blk_views[i] == blocks_of(data@, self.spec_block_size() as int)[i]);
            }
        }
        let total_compressed_size = sum_data_lens(&chunks);
        Ok(
            CompressionResult {
                chunks,
                total_original_size: data.len(),
                total_compressed_size,
            },
        )
    }

    /// Decompresses the payload, recomputes the digest over the result, and
    /// compares it against the stored digest.  Success comes exactly when
    /// the payload decodes and the digest matches; the plaintext is then
    /// returned exactly as originally chunked.  A payload the codec
    /// rejects fails as a compression error before any digest comparison;
    /// a digest mismatch never returns the plaintext and carries both
    /// digests as hex for diagnostics.  `original_size` is never
    /// consulted.
    pub fn decompress_chunk(&self, chunk: &CompressedChunk) -> (r: Result<Vec<u8>, ShrLinkError>)
        ensures
            r matches Ok(p) ==> (lz4_decoded(chunk.data@) == Some(p@) && blake3_of(p@)
                == chunk.hash@),
            chunk_verifies(*chunk) ==> (r matches Ok(p) && p@ == plaintext_of(*chunk)),
            lz4_decoded(chunk.data@) is None ==> (r matches Err(e) && e matches
                ShrLinkError::Compression(_)),
            lz4_decoded(chunk.data@) is Some && !chunk_verifies(*chunk) ==> (r matches Err(e) && e
                matches ShrLinkError::HashMismatch { expected, actual } && expected@ == hex_of(
                chunk.hash@,
            ) && actual@ == hex_of(blake3_of(plaintext_of(*chunk)))),
            r matches Err(e) ==> (e matches ShrLinkError::Compression(_) || e matches
                ShrLinkError::HashMismatch { .. }),
    {
        let data = match lz4_decompress(chunk.data.as_slice()) {
            Ok(d) => d,
            Err(e) => return Err(e),
        };
        let digest = blake3_digest(data.as_slice());
        if digest_eq(&digest, &chunk.hash) {
            Ok(data)
        } else {
            Err(ShrLinkError::HashMismatch {
                expected: to_hex(chunk.hash.as_slice()),
                actual: to_hex(digest.as_slice()),
            })
        }
    }
}

impl ParallelCompressor {
    /// Decompresses a whole chunk list and concatenates the plaintexts in
    /// the given order.  Success comes exactly when every chunk verifies;
    /// the result is then the concatenation of the plaintexts, so on a
    /// chunk list that a compression of some source produced it is that
    /// source exactly.  Any failing chunk fails the whole call, and
    /// nothing is returned in its place.
    #[verifier::loop_isolation(false)]
    pub fn decompress_all(&self, chunks: &[CompressedChunk]) -> (r: Result<Vec<u8>, ShrLinkError>)
        ensures
            r matches Ok(out) ==> (all_chunks_verify(chunks@) && out@ == concat_plaintexts(
                chunks@,
            )),
            all_chunks_verify(chunks@) ==> (r matches Ok(out) && out@ == concat_plaintexts(
                chunks@,
            )),
            r matches Err(e) ==> (!all_chunks_verify(chunks@) && (e matches
                ShrLinkError::Compression(_) || e matches ShrLinkError::HashMismatch { .. })),
            forall|s: Seq<u8>, b: int|
                b >= 1 && chunks_match_blocks(chunks@, #[trigger] blocks_of(s, b)) ==> (r matches
                    Ok(out) && out@ == s),
    {
        let mut out: Vec<u8> = Vec::new();
        let n = chunks.len();
        let mut i: usize = 0;
        while i < n
            invariant
                i <= n,
                n == chunks@.len(),
                forall|j: int| 0 <= j < i ==> chunk_verifies(#[trigger] chunks@[j]),
                out@ == concat_plaintexts(chunks@.take(i as int)),
            decreases n - i,
        {
            let dec = self.decompress_chunk(&chunks[i]);
            let mut p = match dec {
                Ok(p) => p,
                Err(e) => {
                    proof {
                        assert(!chunk_verifies(chunks@[i as int]));
                        assert forall|s: Seq<u8>, b: int|
                            !(b >= 1 && chunks_match_blocks(
                                chunks@,
                                #[trigger] blocks_of(s, b),
                            )) by {
                            if b >= 1 && chunks_match_blocks(chunks@, blocks_of(s, b)) {
                                let blks = blocks_of(s, b);
                                assert(chunk_of_block(chunks@[i as int], blks[i as int], i as int));
                            }
                        }
                    }
                    return Err(e);
                },
            };
            proof {
                assert(chunk_verifies(chunks@[i as int]));
                assert(plaintext_of(chunks@[i as int]) == p@);
                assert(chunks@.take(i + 1).map_values(|c: CompressedChunk| plaintext_of(c))
                    =~= chunks@.take(i as int).map_values(
                    |c: CompressedChunk| plaintext_of(c),
                ).push(p@));
                chunks@.take(i as int).map_values(
                    |c: CompressedChunk| plaintext_of(c),
                ).lemma_flatten_push(p@);
                assert(out@ + p@ == concat_plaintexts(chunks@.take(i + 1)));
            }
            out.append(&mut p);
            i = i + 1;
        }
        proof {
            assert(chunks@.take(n as int) =~= chunks@);
            assert(all_chunks_verify(chunks@));
            assert forall|s: Seq<u8>, b: int|
                b >= 1 && chunks_match_blocks(chunks@, #[trigger] blocks_of(s, b)) implies out@
                    == s by {
                let blks = blocks_of(s, b);
                assert forall|j: int|
                    0 <= j < chunks@.len() implies chunks@.map_values(
                    |c: CompressedChunk| plaintext_of(c),
                )[j] == blks[j] by {
                    assert(chunk_of_block(chunks@[j], blks[j], j));
                }
                assert(chunks@.map_values(|c: CompressedChunk| plaintext_of(c)) =~= blks);
                blocks::lemma_blocks_concat(s, b);
            }
        }
        Ok(out)
    }
}

/// Round trip: in a chunk list produced for a source, every chunk carries
/// the compressed image and the digest of exactly its own block, its
/// payload decodes back to that block, and the blocks concatenated in
/// index order reproduce the source exactly.
pub proof fn lemma_round_trip(chunks: Seq<CompressedChunk>, s: Seq<u8>, b: int)
    requires
        b >= 1,
        chunks_match_blocks(chunks, blocks_of(s, b)),
    ensures
        forall|i: int|
            0 <= i < chunks.len() ==> #[trigger] chunks[i].data@ == lz4_of(blocks_of(s, b)[i])
                && lz4_decoded(chunks[i].data@) == Some(blocks_of(s, b)[i]) && chunks[i].hash@
                == blake3_of(blocks_of(s, b)[i]),
        blocks_of(s, b).flatten() == s,
{
    blocks::lemma_blocks_concat(s, b);
}

/// Worker-count invariance: any two chunk lists produced for the same
/// source and block size agree on `index`, compressed `data`, digest and
/// `original_size` at every position, whatever worker counts produced them.
pub proof fn lemma_worker_count_invariance(
    c1: Seq<CompressedChunk>,
    c2: Seq<CompressedChunk>,
    s: Seq<u8>,
    b: int,
)
    requires
        b >= 1,
        chunks_match_blocks(c1, blocks_of(s, b)),
        chunks_match_blocks(c2, blocks_of(s, b)),
    ensures
        c1.len() == c2.len(),
        forall|i: int|
            0 <= i < c1.len() ==> #[trigger] c1[i].index == c2[i].index && c1[i].data@ == c2[i].data@
                && c1[i].hash@ == c2[i].hash@ && c1[i].original_size == c2[i].original_size,
{
    assert forall|i: int|
        0 <= i < c1.len() implies #[trigger] c1[i].index == c2[i].index && c1[i].data@
        == c2[i].data@ && c1[i].hash@ == c2[i].hash@ && c1[i].original_size
        == c2[i].original_size by {
        assert(chunk_of_block(c1[i], blocks_of(s, b)[i], i));
        assert(chunk_of_block(c2[i], blocks_of(s, b)[i], i));
    }
}

/// Corruption detection: a chunk whose stored digest differs anywhere from
/// the digest of its plaintext still decodes to that plaintext, but can
/// never pass verification — `decompress_chunk` then reports a mismatch
/// and never returns the plaintext.
pub proof fn lemma_corruption_detected(c: CompressedChunk, d: CompressedChunk, x: Seq<u8>)
    requires
        chunk_of_block(c, x, c.index as int),
        d.data@ == c.data@,
        d.hash@ != c.hash@,
    ensures
        lz4_decoded(d.data@) == Some(x),
        blake3_of(x) != d.hash@,
        !chunk_verifies(d),
{
}

impl Default for ParallelCompressor {
    /// A compressor with the 4 MiB default block size, the default tuning
    /// parameter, and one worker per logical CPU.
    fn default() -> (r: Self)
        ensures
            r.spec_block_size() == BLOCK_SIZE,
            r.spec_acceleration() == LZ4_ACCELERATION,
            1 <= r.spec_num_workers(),
    {
        ParallelCompressor {
            block_size: BLOCK_SIZE,
            acceleration: LZ4_ACCELERATION,
            num_workers: host_parallelism(),
        }
    }
}

} // verus!
