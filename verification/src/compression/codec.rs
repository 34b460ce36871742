//! The bundle codec: serializes a chunk list into one self-describing
//! buffer and parses it back.
//!
//! Layout, little-endian throughout: 3 magic bytes and a version byte, a
//! 32-bit chunk count, then one 44-byte metadata record per chunk (index,
//! original size, compressed size, 32-byte digest) in write order, then the
//! payloads, `compressed_size` bytes each, in the same order as the
//! metadata table.  Decoding validates the structure, never reads past the
//! buffer, and restores logical order by sorting on `index`.

use vstd::prelude::*;
use vstd::multiset::Multiset;

use super::CompressedChunk;
use crate::error::ShrLinkError;

verus! {

/// The mathematical content of one chunk.
#[verifier::ext_equal]
pub ghost struct ChunkModel {
    pub index: int,
    pub data: Seq<u8>,
    pub hash: Seq<u8>,
    pub original_size: int,
}

impl View for CompressedChunk {
    type V = ChunkModel;

    open spec fn view(&self) -> ChunkModel {
        ChunkModel {
            index: self.index as int,
            data: self.data@,
            hash: self.hash@,
            original_size: self.original_size as int,
        }
    }
}

/// The models of a chunk list, in order.
pub open spec fn models(s: Seq<CompressedChunk>) -> Seq<ChunkModel> {
    s.map_values(|c: CompressedChunk| c@)
}

/// The four little-endian bytes of a 32-bit value.
pub open spec fn le32(x: int) -> Seq<u8> {
    seq![
        (x % 256) as u8,
        ((x / 256) % 256) as u8,
        ((x / 256 / 256) % 256) as u8,
        ((x / 256 / 256 / 256) % 256) as u8,
    ]
}

/// The value of four little-endian bytes.
pub open spec fn le32_decode(s: Seq<u8>) -> int {
    (s[0] as int) + 256 * (s[1] as int) + 65536 * (s[2] as int) + 16777216 * (s[3] as int)
}

/// Decoding the four little-endian bytes of a 32-bit value gives the value
/// back.
pub proof fn lemma_le32_roundtrip(x: int)
    requires
        0 <= x < 0x1_0000_0000,
    ensures
        le32(x).len() == 4,
        le32_decode(le32(x)) == x,
{
    let r1 = x / 256;
    let r2 = r1 / 256;
    let r3 = r2 / 256;
    vstd::arithmetic::div_mod::lemma_fundamental_div_mod(x, 256);
    vstd::arithmetic::div_mod::lemma_fundamental_div_mod(r1, 256);
    vstd::arithmetic::div_mod::lemma_fundamental_div_mod(r2, 256);
    vstd::arithmetic::div_mod::lemma_mod_bound(x, 256);
    vstd::arithmetic::div_mod::lemma_mod_bound(r1, 256);
    vstd::arithmetic::div_mod::lemma_mod_bound(r2, 256);
    assert(r3 < 256);
    vstd::arithmetic::div_mod::lemma_small_mod(r3 as nat, 256);
}

/// The fixed prologue: the magic bytes, the version byte, and the chunk
/// count.
pub open spec fn header(n: int) -> Seq<u8> {
    seq![83u8, 72u8, 82u8, 1u8] + le32(n)
}

/// The 44-byte metadata record of one chunk.
pub open spec fn meta_record(c: ChunkModel) -> Seq<u8> {
    le32(c.index) + le32(c.original_size) + le32(c.data.len() as int) + c.hash
}

/// All metadata records, in write order.
pub open spec fn meta_table(cs: Seq<ChunkModel>) -> Seq<u8>
    decreases cs.len(),
{
    if cs.len() == 0 {
        Seq::empty()
    } else {
        meta_record(cs.first()) + meta_table(cs.drop_first())
    }
}

/// All payloads, in the same order as the metadata table.
pub open spec fn payload_section(cs: Seq<ChunkModel>) -> Seq<u8>
    decreases cs.len(),
{
    if cs.len() == 0 {
        Seq::empty()
    } else {
        cs.first().data + payload_section(cs.drop_first())
    }
}

/// The whole bundle buffer for a chunk list.
pub open spec fn encode_spec(cs: Seq<ChunkModel>) -> Seq<u8> {
    header(cs.len() as int) + meta_table(cs) + payload_section(cs)
}

/// The chunk's fields fit the 32-bit wire format.
pub open spec fn chunk_encodable(c: ChunkModel) -> bool {
    &&& 0 <= c.index < 0x1_0000_0000
    &&& 0 <= c.original_size < 0x1_0000_0000
    &&& c.data.len() < 0x1_0000_0000
    &&& c.hash.len() == 32
}

/// Every chunk and the chunk count fit the wire format.
pub open spec fn encodable(cs: Seq<ChunkModel>) -> bool {
    &&& cs.len() < 0x1_0000_0000
    &&& forall|i: int| 0 <= i < cs.len() ==> chunk_encodable(#[trigger] cs[i])
}

/// The sum of the payload lengths of the first `i` chunks.
pub open spec fn psum(cs: Seq<ChunkModel>, i: int) -> int
    decreases i,
{
    if i <= 0 {
        0
    } else {
        psum(cs, i - 1) + cs[i - 1].data.len()
    }
}

/// The buffer starts with the magic bytes and the supported version.
pub open spec fn has_magic(b: Seq<u8>) -> bool {
    b[0] == 83u8 && b[1] == 72u8 && b[2] == 82u8 && b[3] == 1u8
}

/// The chunk count stored in the prologue.
pub open spec fn chunk_count(b: Seq<u8>) -> int {
    le32_decode(b.subrange(4, 8))
}

/// Where record `i`'s metadata starts.
pub open spec fn meta_off(i: int) -> int {
    8 + 44 * i
}

/// The stored index of record `i`.
pub open spec fn rec_index(b: Seq<u8>, i: int) -> int {
    le32_decode(b.subrange(meta_off(i), meta_off(i) + 4))
}

/// The stored original size of record `i`.
pub open spec fn rec_orig(b: Seq<u8>, i: int) -> int {
    le32_decode(b.subrange(meta_off(i) + 4, meta_off(i) + 8))
}

/// The stored compressed size of record `i`.
pub open spec fn rec_csize(b: Seq<u8>, i: int) -> int {
    le32_decode(b.subrange(meta_off(i) + 8, meta_off(i) + 12))
}

/// The stored digest of record `i`.
pub open spec fn rec_hash(b: Seq<u8>, i: int) -> Seq<u8> {
    b.subrange(meta_off(i) + 12, meta_off(i) + 44)
}

/// Where record `i`'s payload starts: after the metadata table and the
/// payloads of all earlier records.
pub open spec fn payload_off(b: Seq<u8>, n: int, i: int) -> int
    decreases i,
{
    if i <= 0 {
        8 + 44 * n
    } else {
        payload_off(b, n, i - 1) + rec_csize(b, i - 1)
    }
}

/// Every record's payload lies inside the buffer.
pub open spec fn payloads_fit(b: Seq<u8>, n: int) -> bool {
    forall|i: int|
        0 <= i < n ==> #[trigger] payload_off(b, n, i) + rec_csize(b, i) <= b.len()
}

/// The chunk stored as record `i`.
pub open spec fn record_at(b: Seq<u8>, n: int, i: int) -> ChunkModel {
    ChunkModel {
        index: rec_index(b, i),
        data: b.subrange(payload_off(b, n, i), payload_off(b, n, i) + rec_csize(b, i)),
        hash: rec_hash(b, i),
        original_size: rec_orig(b, i),
    }
}

/// All stored chunks, in write order.
pub open spec fn records_of(b: Seq<u8>, n: int) -> Seq<ChunkModel> {
    Seq::new(n as nat, |i: int| record_at(b, n, i))
}

/// Inserts `c` behind every chunk whose index is at most `c`'s, keeping
/// the arrival order of equal indices.
pub open spec fn insert_by_index(s: Seq<ChunkModel>, c: ChunkModel) -> Seq<ChunkModel>
    decreases s.len(),
{
    if s.len() == 0 {
        seq![c]
    } else if s.last().index <= c.index {
        s + seq![c]
    } else {
        insert_by_index(s.drop_last(), c) + seq![s.last()]
    }
}

/// Stable sort by ascending `index`: chunks with equal indices keep their
/// write order.
pub open spec fn sort_by_index(s: Seq<ChunkModel>) -> Seq<ChunkModel>
    decreases s.len(),
{
    if s.len() == 0 {
        Seq::empty()
    } else {
        insert_by_index(sort_by_index(s.drop_last()), s.last())
    }
}

/// What a buffer parses to: `None` when the prologue is bad, the metadata
/// table is truncated, or any payload runs past the end; otherwise all
/// stored chunks, sorted by index.
pub open spec fn decode_spec(b: Seq<u8>) -> Option<Seq<ChunkModel>> {
    if b.len() < 8 {
        None
    } else if !has_magic(b) {
        None
    } else {
        let n = chunk_count(b);
        if b.len() < 8 + 44 * n {
            None
        } else if !payloads_fit(b, n) {
            None
        } else {
            Some(sort_by_index(records_of(b, n)))
        }
    }
}

/// Appending a chunk appends its metadata record.
pub proof fn lemma_meta_table_push(cs: Seq<ChunkModel>, c: ChunkModel)
    ensures
        meta_table(cs.push(c)) == meta_table(cs) + meta_record(c),
    decreases cs.len(),
{
    if cs.len() == 0 {
        assert(meta_table(cs) == Seq::<u8>::empty());
        assert(cs.push(c).drop_first() =~= cs);
        assert(meta_table(cs.push(c).drop_first()) == Seq::<u8>::empty());
        assert(cs.push(c).first() == c);
        assert(meta_table(cs.push(c)) =~= meta_table(cs) + meta_record(c));
    } else {
        lemma_meta_table_push(cs.drop_first(), c);
        assert(cs.push(c).drop_first() =~= cs.drop_first().push(c));
        assert(cs.push(c).first() == cs.first());
        assert(meta_table(cs.push(c)) =~= meta_table(cs) + meta_record(c));
    }
}

/// Appending a chunk appends its payload.
pub proof fn lemma_payload_section_push(cs: Seq<ChunkModel>, c: ChunkModel)
    ensures
        payload_section(cs.push(c)) == payload_section(cs) + c.data,
    decreases cs.len(),
{
    if cs.len() == 0 {
        assert(payload_section(cs) == Seq::<u8>::empty());
        assert(cs.push(c).drop_first() =~= cs);
        assert(payload_section(cs.push(c).drop_first()) == Seq::<u8>::empty());
        assert(cs.push(c).first() == c);
        assert(payload_section(cs.push(c)) =~= payload_section(cs) + c.data);
    } else {
        lemma_payload_section_push(cs.drop_first(), c);
        assert(cs.push(c).drop_first() =~= cs.drop_first().push(c));
        assert(cs.push(c).first() == cs.first());
        assert(payload_section(cs.push(c)) =~= payload_section(cs) + c.data);
    }
}

/// Serializes the chunk list into one bundle buffer: the prologue, then
/// every metadata record, then every payload, both sections in the given
/// in-memory order.  The fields must fit the 32-bit wire format.
#[verifier::loop_isolation(false)]
pub fn create_shr_bundle(chunks: &[CompressedChunk]) -> (r: Result<Vec<u8>, ShrLinkError>)
    requires
        encodable(models(chunks@)),
    ensures
        r matches Ok(out) && out@ == encode_spec(models(chunks@)),
{
    let ghost cs = models(chunks@);
    let n = chunks.len();
    let mut bundle: Vec<u8> = Vec::new();
    bundle.push(83u8);
    bundle.push(72u8);
    bundle.push(82u8);
    bundle.push(1u8);
    push_le32(&mut bundle, n as u32);
    proof {
        assert(bundle@ =~= header(n as int));
        assert(cs.take(0) =~= Seq::<ChunkModel>::empty());
        assert(bundle@ =~= header(n as int) + meta_table(cs.take(0)));
    }
    let mut k: usize = 0;
    while k < n
        invariant
            n == chunks@.len(),
            cs == models(chunks@),
            encodable(cs),
            k <= n,
            bundle@ == header(n as int) + meta_table(cs.take(k as int)),
        decreases n - k,
    {
        proof {
            assert(cs[k as int] == chunks@[k as int]@);
            assert(chunk_encodable(cs[k as int]));
        }
        let c = &chunks[k];
        push_le32(&mut bundle, c.index as u32);
        push_le32(&mut bundle, c.original_size as u32);
        push_le32(&mut bundle, c.data.len() as u32);
        let ghost pre = bundle@;
        let mut j: usize = 0;
        while j < 32
            invariant
                j <= 32,
                n == chunks@.len(),
                k < n,
                bundle@ == pre + chunks@[k as int].hash@.take(j as int),
            decreases 32 - j,
        {
            bundle.push(c.hash[j]);
            proof {
                assert(chunks@[k as int].hash@.take(j + 1) =~= chunks@[k as int].hash@.take(
                    j as int,
                ).push(chunks@[k as int].hash@[j as int]));
                assert(bundle@ =~= pre + chunks@[k as int].hash@.take(j + 1));
            }
            j = j + 1;
        }
        proof {
            lemma_meta_table_push(cs.take(k as int), cs[k as int]);
            assert(chunks@[k as int].hash@.take(32) =~= chunks@[k as int].hash@);
            assert(cs.take(k + 1) =~= cs.take(k as int).push(cs[k as int]));
            assert(bundle@ =~= header(n as int) + meta_table(cs.take(k + 1)));
        }
        k = k + 1;
    }
    proof {
        assert(cs.take(n as int) =~= cs);
        assert(cs.take(0) =~= Seq::<ChunkModel>::empty());
        assert(bundle@ =~= header(n as int) + meta_table(cs) + payload_section(cs.take(0)));
    }
    k = 0;
    while k < n
        invariant
            n == chunks@.len(),
            cs == models(chunks@),
            encodable(cs),
            k <= n,
            bundle@ == header(n as int) + meta_table(cs) + payload_section(cs.take(k as int)),
        decreases n - k,
    {
        proof {
            assert(cs[k as int] == chunks@[k as int]@);
        }
        let c = &chunks[k];
        let ghost pre = bundle@;
        let len = c.data.len();
        let mut j: usize = 0;
        while j < len
            invariant
                j <= len,
                n == chunks@.len(),
                k < n,
                len == chunks@[k as int].data@.len(),
                bundle@ == pre + chunks@[k as int].data@.take(j as int),
            decreases len - j,
        {
            bundle.push(c.data[j]);
            proof {
                assert(chunks@[k as int].data@.take(j + 1) =~= chunks@[k as int].data@.take(
                    j as int,
                ).push(chunks@[k as int].data@[j as int]));
                assert(bundle@ =~= pre + chunks@[k as int].data@.take(j + 1));
            }
            j = j + 1;
        }
        proof {
            lemma_payload_section_push(cs.take(k as int), cs[k as int]);
            assert(chunks@[k as int].data@.take(len as int) =~= chunks@[k as int].data@);
            assert(cs.take(k + 1) =~= cs.take(k as int).push(cs[k as int]));
            assert(bundle@ =~= header(n as int) + meta_table(cs) + payload_section(cs.take(k + 1)));
        }
        k = k + 1;
    }
    proof {
        assert(cs.take(n as int) =~= cs);
        assert(bundle@ =~= encode_spec(cs));
    }
    Ok(bundle)
}

/// Every metadata record is 44 bytes.
pub proof fn lemma_meta_table_len(cs: Seq<ChunkModel>)
    requires
        forall|i: int| 0 <= i < cs.len() ==> chunk_encodable(#[trigger] cs[i]),
    ensures
        meta_table(cs).len() == 44 * cs.len(),
    decreases cs.len(),
{
    if cs.len() > 0 {
        assert(chunk_encodable(cs[0]));
        assert(meta_record(cs.first()).len() == 44);
        assert forall|i: int| 0 <= i < cs.drop_first().len() implies chunk_encodable(
            #[trigger] cs.drop_first()[i],
        ) by {
            assert(cs.drop_first()[i] == cs[i + 1]);
        }
        lemma_meta_table_len(cs.drop_first());
    }
}

/// Skipping the first chunk drops its payload length from a partial sum.
pub proof fn lemma_psum_drop_first(cs: Seq<ChunkModel>, i: int)
    requires
        1 <= i <= cs.len(),
    ensures
        psum(cs, i) == cs[0].data.len() + psum(cs.drop_first(), i - 1),
    decreases i,
{
    if i == 1 {
        assert(psum(cs, 1) == psum(cs, 0) + cs[0].data.len());
        assert(psum(cs, 0) == 0);
        assert(psum(cs.drop_first(), 0) == 0);
    } else {
        lemma_psum_drop_first(cs, i - 1);
        assert(cs.drop_first()[i - 2] == cs[i - 1]);
        assert(psum(cs, i) == psum(cs, i - 1) + cs[i - 1].data.len());
        assert(psum(cs.drop_first(), i - 1) == psum(cs.drop_first(), i - 2) + cs.drop_first()[i
            - 2].data.len());
    }
}

/// Partial payload sums start at zero and never decrease.
pub proof fn lemma_psum_mono(cs: Seq<ChunkModel>, i: int, j: int)
    requires
        0 <= i <= j,
    ensures
        0 <= psum(cs, 0),
        psum(cs, i) <= psum(cs, j),
    decreases j - i,
{
    if i < j {
        lemma_psum_mono(cs, i, j - 1);
    }
}

/// The payload section is exactly the payload bytes, end to end.
pub proof fn lemma_payload_section_len(cs: Seq<ChunkModel>)
    ensures
        payload_section(cs).len() == psum(cs, cs.len() as int),
    decreases cs.len(),
{
    if cs.len() > 0 {
        lemma_payload_section_len(cs.drop_first());
        lemma_psum_drop_first(cs, cs.len() as int);
    }
}

/// A subrange that falls inside the left part of a concatenation.
pub proof fn lemma_concat_subrange_left(a: Seq<u8>, b: Seq<u8>, x: int, y: int)
    requires
        0 <= x <= y <= a.len(),
    ensures
        (a + b).subrange(x, y) == a.subrange(x, y),
{
    assert((a + b).subrange(x, y) =~= a.subrange(x, y));
}

/// A subrange that falls inside the right part of a concatenation.
pub proof fn lemma_concat_subrange_right(a: Seq<u8>, b: Seq<u8>, x: int, y: int)
    requires
        0 <= x <= y <= b.len(),
    ensures
        (a + b).subrange(a.len() + x, a.len() + y) == b.subrange(x, y),
{
    assert((a + b).subrange(a.len() + x, a.len() + y) =~= b.subrange(x, y));
}

/// Record `i` of the metadata table is the record of chunk `i`.
pub proof fn lemma_meta_table_at(cs: Seq<ChunkModel>, i: int)
    requires
        forall|j: int| 0 <= j < cs.len() ==> chunk_encodable(#[trigger] cs[j]),
        0 <= i < cs.len(),
    ensures
        meta_table(cs).subrange(44 * i, 44 * i + 44) == meta_record(cs[i]),
    decreases i,
{
    lemma_meta_table_len(cs);
    let first = meta_record(cs.first());
    let rest = meta_table(cs.drop_first());
    assert(chunk_encodable(cs[0]));
    assert(first.len() == 44);
    assert forall|j: int| 0 <= j < cs.drop_first().len() implies chunk_encodable(
        #[trigger] cs.drop_first()[j],
    ) by {
        assert(cs.drop_first()[j] == cs[j + 1]);
    }
    lemma_meta_table_len(cs.drop_first());
    if i == 0 {
        lemma_concat_subrange_left(first, rest, 0, 44);
        assert(first.subrange(0, 44) =~= first);
    } else {
        lemma_meta_table_at(cs.drop_first(), i - 1);
        lemma_concat_subrange_right(first, rest, 44 * (i - 1), 44 * (i - 1) + 44);
        assert(cs.drop_first()[i - 1] == cs[i]);
    }
}

/// Payload `i` of the payload section is the data of chunk `i`.
pub proof fn lemma_payload_at(cs: Seq<ChunkModel>, i: int)
    requires
        0 <= i < cs.len(),
    ensures
        payload_section(cs).subrange(psum(cs, i), psum(cs, i) + cs[i].data.len()) == cs[i].data,
    decreases i,
{
    let first = cs.first().data;
    let rest = payload_section(cs.drop_first());
    lemma_payload_section_len(cs.drop_first());
    if i == 0 {
        lemma_concat_subrange_left(first, rest, 0, first.len() as int);
        assert(first.subrange(0, first.len() as int) =~= first);
    } else {
        lemma_payload_at(cs.drop_first(), i - 1);
        lemma_psum_drop_first(cs, i);
        assert(cs.drop_first()[i - 1] == cs[i]);
        assert(psum(cs.drop_first(), i) == psum(cs.drop_first(), i - 1) + cs.drop_first()[i
            - 1].data.len());
        lemma_psum_mono(cs.drop_first(), 0, i - 1);
        assert(psum(cs.drop_first(), 0) == 0);
        lemma_psum_mono(cs.drop_first(), i, cs.drop_first().len() as int);
        lemma_psum_drop_first(cs, cs.len() as int);
        lemma_concat_subrange_right(
            first,
            rest,
            psum(cs.drop_first(), i - 1),
            psum(cs.drop_first(), i - 1) + cs[i].data.len(),
        );
    }
}

/// The payload offsets of a buffer follow from its stored compressed
/// sizes.
pub proof fn lemma_payload_off_from_csizes(b: Seq<u8>, cs: Seq<ChunkModel>, i: int)
    requires
        0 <= i <= cs.len(),
        forall|j: int| 0 <= j < cs.len() ==> rec_csize(b, j) == #[trigger] cs[j].data.len(),
    ensures
        payload_off(b, cs.len() as int, i) == 8 + 44 * cs.len() + psum(cs, i),
    decreases i,
{
    if i > 0 {
        lemma_payload_off_from_csizes(b, cs, i - 1);
    }
}

/// What an encoded buffer stores: its prologue holds the chunk count, its
/// records hold each chunk's fields, and its payload offsets advance by
/// the stored sizes.
pub proof fn lemma_encode_records(cs: Seq<ChunkModel>)
    requires
        encodable(cs),
    ensures
        encode_spec(cs).len() == 8 + 44 * cs.len() + psum(cs, cs.len() as int),
        has_magic(encode_spec(cs)),
        chunk_count(encode_spec(cs)) == cs.len(),
        forall|i: int|
            0 <= i < cs.len() ==> rec_index(encode_spec(cs), i) == #[trigger] cs[i].index,
        forall|i: int|
            0 <= i < cs.len() ==> rec_orig(encode_spec(cs), i) == #[trigger] cs[i].original_size,
        forall|i: int|
            0 <= i < cs.len() ==> rec_csize(encode_spec(cs), i) == #[trigger] cs[i].data.len(),
        forall|i: int| 0 <= i < cs.len() ==> rec_hash(encode_spec(cs), i) == #[trigger] cs[i].hash,
        forall|i: int|
            0 <= i <= cs.len() ==> #[trigger] payload_off(encode_spec(cs), cs.len() as int, i) == 8
                + 44 * cs.len() + psum(cs, i),
{
    let b = encode_spec(cs);
    let n = cs.len() as int;
    let hm = header(n) + meta_table(cs);
    let pays = payload_section(cs);
    lemma_meta_table_len(cs);
    lemma_payload_section_len(cs);
    lemma_le32_roundtrip(n);
    assert(header(n).len() == 8);
    assert(b == hm + pays);
    assert(b.len() == 8 + 44 * n + psum(cs, n));
    assert(b[0] == 83u8 && b[1] == 72u8 && b[2] == 82u8 && b[3] == 1u8);
    assert(b.subrange(4, 8) =~= le32(n));
    assert(chunk_count(b) == n);
    assert forall|i: int| 0 <= i < n implies b.subrange(meta_off(i), meta_off(i) + 44)
        == meta_record(#[trigger] cs[i]) by {
        lemma_meta_table_at(cs, i);
        lemma_concat_subrange_left(hm, pays, meta_off(i), meta_off(i) + 44);
        lemma_concat_subrange_right(header(n), meta_table(cs), 44 * i, 44 * i + 44);
    }
    assert forall|i: int|
        0 <= i < n implies rec_index(b, i) == #[trigger] cs[i].index && rec_orig(b, i)
        == cs[i].original_size && rec_csize(b, i) == cs[i].data.len() && rec_hash(b, i)
        == cs[i].hash by {
        let rec = meta_record(cs[i]);
        assert(chunk_encodable(cs[i]));
        assert(b.subrange(meta_off(i), meta_off(i) + 44) == rec);
        assert(rec.subrange(0, 4) =~= le32(cs[i].index));
        assert(rec.subrange(4, 8) =~= le32(cs[i].original_size));
        assert(rec.subrange(8, 12) =~= le32(cs[i].data.len() as int));
        assert(rec.subrange(12, 44) =~= cs[i].hash);
        assert(b.subrange(meta_off(i), meta_off(i) + 4) =~= rec.subrange(0, 4));
        assert(b.subrange(meta_off(i) + 4, meta_off(i) + 8) =~= rec.subrange(4, 8));
        assert(b.subrange(meta_off(i) + 8, meta_off(i) + 12) =~= rec.subrange(8, 12));
        assert(rec_hash(b, i) =~= rec.subrange(12, 44));
        lemma_le32_roundtrip(cs[i].index);
        lemma_le32_roundtrip(cs[i].original_size);
        lemma_le32_roundtrip(cs[i].data.len() as int);
    }
    assert forall|i: int| 0 <= i <= n implies #[trigger] payload_off(b, n, i) == 8 + 44 * n + psum(
        cs,
        i,
    ) by {
        lemma_payload_off_from_csizes(b, cs, i);
    }
}

/// An encoded buffer passes every structural check and stores back the
/// very chunks that were encoded.
#[verifier::rlimit(60)]
pub proof fn lemma_encode_parses(cs: Seq<ChunkModel>)
    requires
        encodable(cs),
    ensures
        payloads_fit(encode_spec(cs), cs.len() as int),
        records_of(encode_spec(cs), cs.len() as int) == cs,
{
    let b = encode_spec(cs);
    let n = cs.len() as int;
    let hm = header(n) + meta_table(cs);
    lemma_encode_records(cs);
    lemma_meta_table_len(cs);
    lemma_payload_section_len(cs);
    lemma_psum_mono(cs, 0, n);
    assert(psum(cs, 0) == 0);
    assert forall|i: int| 0 <= i < n implies #[trigger] payload_off(b, n, i) + rec_csize(b, i)
        <= b.len() by {
        lemma_psum_mono(cs, i + 1, n);
        assert(psum(cs, i + 1) == psum(cs, i) + cs[i].data.len());
    }
    assert(payloads_fit(b, n));
    assert forall|i: int| 0 <= i < n implies records_of(b, n)[i] == cs[i] by {
        lemma_payload_at(cs, i);
        lemma_psum_mono(cs, 0, i);
        lemma_psum_mono(cs, i + 1, n);
        assert(psum(cs, i + 1) == psum(cs, i) + cs[i].data.len());
        lemma_concat_subrange_right(hm, payload_section(cs), psum(cs, i), psum(cs, i)
            + cs[i].data.len());
        assert(b.subrange(payload_off(b, n, i), payload_off(b, n, i) + rec_csize(b, i))
            == cs[i].data);
        assert(records_of(b, n)[i] =~= cs[i]);
    }
    assert(records_of(b, n) =~= cs);
}

/// Bundle round trip: decoding an encoded chunk list gives back exactly
/// the same chunks, sorted by index — whatever order they were supplied
/// in.
#[verifier::rlimit(60)]
pub proof fn lemma_bundle_round_trip(cs: Seq<ChunkModel>)
    requires
        encodable(cs),
    ensures
        decode_spec(encode_spec(cs)) == Some(sort_by_index(cs)),
{
    let b = encode_spec(cs);
    let n = cs.len() as int;
    lemma_encode_records(cs);
    lemma_psum_mono(cs, 0, n);
    assert(psum(cs, 0) == 0);
    assert(b.len() >= 8 + 44 * n);
    lemma_encode_parses(cs);
    assert(decode_spec(b) == Some(sort_by_index(cs)));
}

/// Malformed-bundle rejection: a valid bundle truncated anywhere after its
/// first four bytes no longer decodes — the missing tail is always
/// noticed, whether it cut the prologue, the metadata table, or a payload.
pub proof fn lemma_truncated_bundle_rejected(cs: Seq<ChunkModel>, t: int)
    requires
        encodable(cs),
        4 <= t < encode_spec(cs).len(),
    ensures
        decode_spec(encode_spec(cs).take(t)) is None,
{
    let b = encode_spec(cs);
    let bt = b.take(t);
    let n = cs.len() as int;
    lemma_encode_records(cs);
    lemma_psum_mono(cs, 0, n);
    if t < 8 {
        assert(bt.len() < 8);
    } else {
        assert(bt[0] == b[0] && bt[1] == b[1] && bt[2] == b[2] && bt[3] == b[3]);
        assert(has_magic(bt));
        assert(bt.subrange(4, 8) =~= b.subrange(4, 8));
        assert(chunk_count(bt) == n);
        if t < 8 + 44 * n {
            assert(bt.len() < 8 + 44 * chunk_count(bt));
        } else {
            assert(psum(cs, n) > 0);
            assert(n >= 1);
            assert forall|j: int| 0 <= j < n implies rec_csize(bt, j)
                == #[trigger] cs[j].data.len() by {
                assert(44 * j + 44 <= 44 * n);
                assert(bt.subrange(meta_off(j) + 8, meta_off(j) + 12) =~= b.subrange(
                    meta_off(j) + 8,
                    meta_off(j) + 12,
                ));
            }
            lemma_payload_off_from_csizes(bt, cs, n - 1);
            assert(psum(cs, n) == psum(cs, n - 1) + cs[n - 1].data.len());
            assert(payload_off(bt, n, n - 1) + rec_csize(bt, n - 1) == 8 + 44 * n + psum(cs, n));
            assert(payload_off(bt, n, n - 1) + rec_csize(bt, n - 1) > bt.len());
            assert(!payloads_fit(bt, n));
        }
    }
}

/// The list is in ascending index order.
pub open spec fn sorted_by_index(s: Seq<ChunkModel>) -> bool {
    forall|i: int, j: int|
        #![trigger s[i], s[j]]
        0 <= i <= j < s.len() ==> s[i].index <= s[j].index
}

/// Inserting keeps the list sorted, grows it by one, and adds exactly the
/// inserted chunk to its contents.
pub proof fn lemma_insert_by_index_sorted(s: Seq<ChunkModel>, c: ChunkModel)
    requires
        sorted_by_index(s),
    ensures
        insert_by_index(s, c).len() == s.len() + 1,
        sorted_by_index(insert_by_index(s, c)),
        insert_by_index(s, c).to_multiset() == s.to_multiset().insert(c),
        forall|k: int|
            0 <= k < insert_by_index(s, c).len() ==> (#[trigger] insert_by_index(s, c)[k] == c
                || s.contains(insert_by_index(s, c)[k])),
    decreases s.len(),
{
    let r = insert_by_index(s, c);
    s.to_multiset_ensures();
    if s.len() == 0 {
        assert(r =~= Seq::<ChunkModel>::empty().push(c));
        Seq::<ChunkModel>::empty().to_multiset_ensures();
        assert(Seq::<ChunkModel>::empty().to_multiset() =~= Multiset::<ChunkModel>::empty());
        assert(r.to_multiset() =~= s.to_multiset().insert(c));
    } else if s.last().index <= c.index {
        assert(r =~= s.push(c));
        assert(r.to_multiset() =~= s.to_multiset().insert(c));
        assert forall|i: int, j: int|
            #![trigger r[i], r[j]]
            0 <= i <= j < r.len() implies r[i].index <= r[j].index by {
            if j < s.len() {
            } else {
                if i < s.len() {
                    assert(s[i].index <= s[s.len() - 1].index);
                }
            }
        }
    } else {
        let dl = s.drop_last();
        assert forall|i: int, j: int|
            #![trigger dl[i], dl[j]]
            0 <= i <= j < dl.len() implies dl[i].index <= dl[j].index by {
            assert(s[i].index <= s[j].index);
        }
        lemma_insert_by_index_sorted(dl, c);
        let r1 = insert_by_index(dl, c);
        assert(r =~= r1.push(s.last()));
        r1.to_multiset_ensures();
        dl.to_multiset_ensures();
        assert(r.to_multiset() =~= r1.to_multiset().insert(s.last()));
        assert(s =~= dl.push(s.last()));
        assert(s.to_multiset() =~= dl.to_multiset().insert(s.last()));
        assert(r.to_multiset() =~= s.to_multiset().insert(c));
        assert forall|k: int| 0 <= k < r.len() implies (#[trigger] r[k] == c || s.contains(
            r[k],
        )) by {
            if k < r1.len() {
                assert(r[k] == r1[k]);
                if r1[k] == c {
                } else {
                    assert(dl.contains(r1[k]));
                    let w = choose|w: int| 0 <= w < dl.len() && dl[w] == r1[k];
                    assert(s[w] == r1[k]);
                }
            } else {
                assert(r[k] == s.last());
                assert(s[s.len() - 1] == s.last());
            }
        }
        assert forall|i: int, j: int|
            #![trigger r[i], r[j]]
            0 <= i <= j < r.len() implies r[i].index <= r[j].index by {
            if j < r1.len() {
            } else {
                assert(r[j] == s.last());
                if i < r1.len() {
                    if r1[i] == c {
                        assert(r[i].index <= r[j].index);
                    } else {
                        assert(dl.contains(r1[i]));
                        let w = choose|w: int| 0 <= w < dl.len() && dl[w] == r1[i];
                        assert(s[w].index <= s[s.len() - 1].index);
                    }
                }
            }
        }
    }
}

/// Sorting gives an ascending list with exactly the same contents.
pub proof fn lemma_sort_by_index_sorted(s: Seq<ChunkModel>)
    ensures
        sort_by_index(s).len() == s.len(),
        sorted_by_index(sort_by_index(s)),
        sort_by_index(s).to_multiset() == s.to_multiset(),
    decreases s.len(),
{
    s.to_multiset_ensures();
    if s.len() == 0 {
        assert(sort_by_index(s) =~= s);
    } else {
        let dl = s.drop_last();
        lemma_sort_by_index_sorted(dl);
        lemma_insert_by_index_sorted(sort_by_index(dl), s.last());
        assert(s =~= dl.push(s.last()));
        dl.to_multiset_ensures();
        assert(dl.push(s.last()).to_multiset() =~= dl.to_multiset().insert(s.last()));
        assert(s.to_multiset() == dl.to_multiset().insert(s.last()));
        assert(sort_by_index(s).to_multiset() =~= s.to_multiset());
    }
}

/// Sorting a list that is already in ascending index order changes
/// nothing: on a compressor's own output the decoder's sort is the
/// identity.
pub proof fn lemma_sort_by_index_of_sorted(s: Seq<ChunkModel>)
    requires
        sorted_by_index(s),
    ensures
        sort_by_index(s) == s,
    decreases s.len(),
{
    if s.len() == 0 {
        assert(sort_by_index(s) =~= s);
    } else {
        let dl = s.drop_last();
        assert forall|i: int, j: int|
            #![trigger dl[i], dl[j]]
            0 <= i <= j < dl.len() implies dl[i].index <= dl[j].index by {
            assert(s[i].index <= s[j].index);
        }
        lemma_sort_by_index_of_sorted(dl);
        if dl.len() == 0 {
            assert(insert_by_index(dl, s.last()) =~= s);
        } else {
            assert(dl.last() == s[s.len() - 2]);
            assert(s[s.len() - 2].index <= s[s.len() - 1].index);
            assert(insert_by_index(dl, s.last()) =~= dl + seq![s.last()]);
            assert(dl + seq![s.last()] =~= s);
        }
    }
}

/// Whatever a buffer decodes to is in ascending index order and holds
/// exactly the records stored in the buffer, nothing more and nothing
/// less.
pub proof fn lemma_decode_sorted(b: Seq<u8>)
    ensures
        decode_spec(b) matches Some(cs) ==> sorted_by_index(cs) && cs.to_multiset() == records_of(
            b,
            chunk_count(b),
        ).to_multiset(),
{
    if decode_spec(b) is Some {
        lemma_sort_by_index_sorted(records_of(b, chunk_count(b)));
    }
}

/// A stable insert lands exactly at the scanned position: if everything
/// from `p` on is strictly greater and the element before `p` (if any) is
/// at most `c`, the insert splits the list at `p`.
pub proof fn lemma_insert_by_index_at(s: Seq<ChunkModel>, c: ChunkModel, p: int)
    requires
        0 <= p <= s.len(),
        p > 0 ==> s[p - 1].index <= c.index,
        forall|j: int| p <= j < s.len() ==> #[trigger] s[j].index > c.index,
    ensures
        insert_by_index(s, c) == s.subrange(0, p) + seq![c] + s.subrange(p, s.len() as int),
    decreases s.len(),
{
    if s.len() == 0 {
        assert(insert_by_index(s, c) =~= s.subrange(0, 0) + seq![c] + s.subrange(0, 0));
    } else if s.last().index <= c.index {
        assert(p == s.len());
        assert(s.subrange(0, p) =~= s);
        assert(insert_by_index(s, c) =~= s.subrange(0, p) + seq![c] + s.subrange(
            p,
            s.len() as int,
        ));
    } else {
        assert(p < s.len());
        lemma_insert_by_index_at(s.drop_last(), c, p);
        assert(s.drop_last().subrange(0, p) =~= s.subrange(0, p));
        assert(insert_by_index(s, c) =~= s.subrange(0, p) + seq![c] + s.subrange(
            p,
            s.len() as int,
        ));
    }
}

/// Restores logical order: a stable insertion sort on the chunk index.
#[verifier::loop_isolation(false)]
fn sort_chunks(chunks: Vec<CompressedChunk>) -> (r: Vec<CompressedChunk>)
    ensures
        models(r@) == sort_by_index(models(chunks@)),
{
    let ghost orig = models(chunks@);
    let mut rest = chunks;
    let mut out: Vec<CompressedChunk> = Vec::new();
    proof {
        assert(models(out@) =~= Seq::<ChunkModel>::empty());
        assert(orig.take(0) =~= Seq::<ChunkModel>::empty());
        assert(models(rest@) =~= orig.skip(0));
    }
    while rest.len() > 0
        invariant
            rest@.len() <= orig.len(),
            models(rest@) == orig.skip(orig.len() - rest@.len()),
            models(out@) == sort_by_index(orig.take(orig.len() - rest@.len())),
        decreases rest@.len(),
    {
        let ghost g = orig.len() - rest@.len();
        let ghost rest_pre = rest@;
        let c = rest.remove(0);
        proof {
            assert(c == rest_pre[0]);
            assert(models(rest_pre)[0] == rest_pre[0]@);
            assert(models(rest_pre)[0] == orig.skip(g)[0]);
            assert(c@ == orig[g]);
            assert forall|j: int| 0 <= j < rest@.len() implies models(rest@)[j] == orig.skip(
                g + 1,
            )[j] by {
                assert(models(rest@)[j] == rest@[j]@);
                assert(rest@[j] == rest_pre[j + 1]);
                assert(models(rest_pre)[j + 1] == rest_pre[j + 1]@);
                assert(models(rest_pre)[j + 1] == orig.skip(g)[j + 1]);
            }
            assert(models(rest@) =~= orig.skip(g + 1));
        }
        let mut p = out.len();
        while p > 0 && out[p - 1].index > c.index
            invariant
                p <= out@.len(),
                forall|j: int| p <= j < out@.len() ==> #[trigger] out@[j].index > c.index,
            decreases p,
        {
            p = p - 1;
        }
        proof {
            let s = models(out@);
            assert forall|j: int| p <= j < s.len() implies #[trigger] s[j].index > c@.index by {
                assert(out@[j].index > c.index);
            }
            if p > 0 {
                assert(s[p - 1].index <= c@.index);
            }
            lemma_insert_by_index_at(s, c@, p as int);
        }
        let ghost out_pre = models(out@);
        out.insert(p, c);
        proof {
            assert(models(out@) =~= out_pre.subrange(0, p as int) + seq![c@] + out_pre.subrange(
                p as int,
                out_pre.len() as int,
            ));
            assert(orig.take(g + 1).drop_last() =~= orig.take(g));
            assert(orig.take(g + 1).last() == orig[g]);
            assert(models(out@) == insert_by_index(sort_by_index(orig.take(g)), orig[g]));
            assert(models(out@) == sort_by_index(orig.take(g + 1)));
        }
    }
    proof {
        assert(orig.take(orig.len() as int) =~= orig);
    }
    out
}

/// Parses a bundle buffer: validates the prologue, checks that the whole
/// metadata table and every payload lie inside the buffer before touching
/// them, and returns the stored chunks sorted by ascending index.  Any
/// structural violation is rejected as a whole; no partial list escapes.
#[verifier::loop_isolation(false)]
pub fn parse_shr_bundle(bundle: &[u8]) -> (r: Result<Vec<CompressedChunk>, ShrLinkError>)
    ensures
        r matches Ok(cs) ==> decode_spec(bundle@) == Some(models(cs@)),
        r matches Err(e) ==> decode_spec(bundle@) is None && e matches
            ShrLinkError::MalformedBundle(_),
{
    let blen = bundle.len();
    if blen < 8 {
        return Err(ShrLinkError::MalformedBundle("bundle too short for header".to_owned()));
    }
    if !(bundle[0] == 83 && bundle[1] == 72 && bundle[2] == 82 && bundle[3] == 1) {
        return Err(ShrLinkError::MalformedBundle("bad magic or version".to_owned()));
    }
    let n32 = read_le32(bundle, 4);
    let n = n32 as usize;
    proof {
        assert(bundle@.subrange(4, 8) == bundle@.subrange(4int, 4int + 4));
        assert(chunk_count(bundle@) == n as int);
    }
    if (blen as u64) < 8u64 + 44u64 * (n as u64) {
        return Err(ShrLinkError::MalformedBundle("bundle too short for metadata".to_owned()));
    }
    let base = 8 + 44 * n;
    let mut off: usize = base;
    let mut out: Vec<CompressedChunk> = Vec::new();
    let mut i: usize = 0;
    while i < n
        invariant
            i <= n,
            out@.len() == i as int,
            off == payload_off(bundle@, n as int, i as int),
            off <= blen,
            forall|j: int|
                0 <= j < i ==> #[trigger] payload_off(bundle@, n as int, j) + rec_csize(
                    bundle@,
                    j,
                ) <= blen,
            forall|j: int| 0 <= j < i ==> models(out@)[j] == record_at(bundle@, n as int, j),
        decreases n - i,
    {
        proof {
            assert(44 * (i as int) + 44 <= 44 * (n as int));
        }
        let m = 8 + 44 * i;
        let idx = read_le32(bundle, m);
        let orig = read_le32(bundle, m + 4);
        let csz = read_le32(bundle, m + 8);
        let mut hash = [0u8; 32];
        let mut j: usize = 0;
        while j < 32
            invariant
                j <= 32,
                forall|jj: int| 0 <= jj < j ==> hash@[jj] == bundle@[m + 12 + jj],
            decreases 32 - j,
        {
            hash[j] = bundle[m + 12 + j];
            j = j + 1;
        }
        if csz as usize > blen - off {
            proof {
                assert(payload_off(bundle@, n as int, i as int) + rec_csize(bundle@, i as int)
                    > bundle@.len());
                assert(!payloads_fit(bundle@, n as int));
            }
            return Err(ShrLinkError::MalformedBundle("bundle too short for chunk data".to_owned()));
        }
        let csz_us = csz as usize;
        let data = vstd::slice::slice_to_vec(vstd::slice::slice_subrange(bundle, off, off + csz_us));
        let ghost out_pre = out@;
        out.push(CompressedChunk { index: idx as usize, data, hash, original_size: orig as usize });
        proof {
            assert(m as int == meta_off(i as int));
            assert(bundle@.subrange(m as int, m + 4) == bundle@.subrange(
                meta_off(i as int),
                meta_off(i as int) + 4,
            ));
            assert(bundle@.subrange(m + 4int, m + 4 + 4) == bundle@.subrange(
                meta_off(i as int) + 4,
                meta_off(i as int) + 8,
            ));
            assert(bundle@.subrange(m + 8int, m + 8 + 4) == bundle@.subrange(
                meta_off(i as int) + 8,
                meta_off(i as int) + 12,
            ));
            assert(hash@ =~= rec_hash(bundle@, i as int));
            assert(models(out@)[i as int] == record_at(bundle@, n as int, i as int));
            assert(forall|j: int|
                0 <= j < i ==> models(out@)[j] == #[trigger] models(out_pre)[j]);
        }
        off = off + csz_us;
        i = i + 1;
    }
    proof {
        assert(payloads_fit(bundle@, n as int));
        assert(models(out@) =~= records_of(bundle@, n as int));
    }
    let sorted = sort_chunks(out);
    Ok(sorted)
}

/// Appends the four little-endian bytes of `x`.
fn push_le32(out: &mut Vec<u8>, x: u32)
    ensures
        final(out)@ == old(out)@ + le32(x as int),
{
    out.push((x % 256) as u8);
    out.push((x / 256 % 256) as u8);
    out.push((x / 256 / 256 % 256) as u8);
    out.push((x / 256 / 256 / 256 % 256) as u8);
    proof {
        assert(out@ =~= old(out)@ + le32(x as int));
    }
}

/// Reads four little-endian bytes starting at `off`.
fn read_le32(b: &[u8], off: usize) -> (r: u32)
    requires
        off + 4 <= b@.len(),
    ensures
        r as int == le32_decode(b@.subrange(off as int, off as int + 4)),
{
    let b0 = b[off] as u32;
    let b1 = b[off + 1] as u32;
    let b2 = b[off + 2] as u32;
    let b3 = b[off + 3] as u32;
    let r = b0 + 256 * b1 + 65536 * b2 + 16777216 * b3;
    proof {
        let s = b@.subrange(off as int, off as int + 4);
        assert(s[0] == b@[off as int]);
        assert(s[1] == b@[off as int + 1]);
        assert(s[2] == b@[off as int + 2]);
        assert(s[3] == b@[off as int + 3]);
    }
    r
}

} // verus!
