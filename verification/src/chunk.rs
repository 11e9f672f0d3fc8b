//! Content-defined chunking and zstd helpers for delta sync.
//!
//! Large files are split into variable-length chunks with boundaries chosen
//! by a rolling fingerprint of the content. Because boundaries follow content
//! rather than fixed offsets, an insertion early in a file only re-chunks the
//! region around the edit instead of shifting every subsequent chunk.

use std::collections::HashMap;

use vstd::prelude::*;
use vstd::string::to_string_from_display_ensures;

use crate::proto::DeltaOpKind;

verus! {

/// A boundary falls where the low 13 bits of the fingerprint are all ones,
/// so roughly every 8 KiB on random data; min/max clamp the tails.
pub const BOUNDARY_MASK: u64 = 8191;

/// No chunk but the last of a file is shorter than this.
pub const MIN_CHUNK: usize = 2048;

/// No chunk is longer than this.
pub const MAX_CHUNK: usize = 65536;

/// The fingerprint of the bytes since the last boundary: each byte shifts
/// what came before it one bit up.
pub open spec fn fingerprint(s: Seq<u8>) -> nat
    decreases s.len(),
{
    if s.len() == 0 {
        0
    } else {
        2 * fingerprint(s.drop_last()) + s.last() as nat
    }
}

/// Whether a chunk that has grown to hold exactly `s` ends here.
pub open spec fn ends_chunk(s: Seq<u8>) -> bool {
    ||| s.len() >= MAX_CHUNK
    ||| s.len() >= MIN_CHUNK && fingerprint(s) % 8192 == 8191
}

/// The first position at or after `end` where the chunk begun at `start` ends.
pub open spec fn first_end(data: Seq<u8>, start: int, end: int) -> int
    decreases data.len() - end,
{
    if end >= data.len() {
        data.len() as int
    } else if ends_chunk(data.subrange(start, end)) {
        end
    } else {
        first_end(data, start, end + 1)
    }
}

/// Where the chunk begun at `start` ends.
pub open spec fn chunk_end(data: Seq<u8>, start: int) -> int {
    first_end(data, start, start + 1)
}

pub proof fn lemma_first_end_bounds(data: Seq<u8>, start: int, end: int)
    requires
        end <= data.len(),
    ensures
        end <= first_end(data, start, end) <= data.len(),
    decreases data.len() - end,
{
    if end < data.len() && !ends_chunk(data.subrange(start, end)) {
        lemma_first_end_bounds(data, start, end + 1);
    }
}

/// The chunks of `data` from the boundary `start` on, as start and end.
pub open spec fn chunks_from(data: Seq<u8>, start: int) -> Seq<(int, int)>
    decreases data.len() - start,
{
    if start >= data.len() {
        Seq::empty()
    } else {
        proof {
            lemma_first_end_bounds(data, start, start + 1);
        }
        seq![(start, chunk_end(data, start))] + chunks_from(data, chunk_end(data, start))
    }
}

/// The content-defined chunks of a file.
pub open spec fn chunks(data: Seq<u8>) -> Seq<(int, int)> {
    chunks_from(data, 0)
}

/// Spans of machine integers, read as numbers.
pub open spec fn as_spans(list: Seq<(usize, usize)>) -> Seq<(int, int)> {
    Seq::new(list.len(), |i: int| (list[i].0 as int, list[i].1 as int))
}

proof fn lemma_fingerprint_step(f: nat, h: u64, b: u8)
    requires
        h == f % 0x1_0000_0000_0000_0000,
    ensures
        (h << 1u64) == (2 * h) % 0x1_0000_0000_0000_0000,
        ((h << 1u64) + b) % 0x1_0000_0000_0000_0000 == (2 * f + b) % 0x1_0000_0000_0000_0000,
{
    assert((h << 1u64) == (2 * h) % 0x1_0000_0000_0000_0000) by (bit_vector);
}

/// Splits `data` into content-defined chunks, returning each chunk's start and
/// end.
pub fn chunk(data: &[u8]) -> (list: Vec<(usize, usize)>)
    ensures
        as_spans(list@) == chunks(data@),
{
    let mut list: Vec<(usize, usize)> = Vec::new();
    let mut start: usize = 0;
    let mut hash: u64 = 0;
    let mut i: usize = 0;
    assert(data@.subrange(0, 0) =~= Seq::<u8>::empty());
    while i < data.len()
        invariant
            start <= i <= data@.len(),
            as_spans(list@) + chunks_from(data@, start as int) =~= chunks(data@),
            hash == fingerprint(data@.subrange(start as int, i as int)) % 0x1_0000_0000_0000_0000,
            i < data@.len() ==> chunk_end(data@, start as int) == first_end(data@, start as int, i + 1),
            i == data@.len() && start < i ==> chunk_end(data@, start as int) == data@.len(),
        decreases data@.len() - i,
    {
        let ghost before = data@.subrange(start as int, i as int);
        let ghost grown = data@.subrange(start as int, i + 1);
        proof {
            assert(grown.drop_last() =~= before);
            lemma_fingerprint_step(fingerprint(before), hash, data@[i as int]);
        }
        // A cheap rolling fingerprint: it need not be cryptographic, only
        // well-distributed enough to place boundaries pseudo-randomly.
        hash = (hash << 1u64).wrapping_add(data[i] as u64);
        assert(hash == fingerprint(grown) % 0x1_0000_0000_0000_0000);
        let len: usize = i - start + 1;
        assert((hash & 8191u64) == hash % 8192) by (bit_vector);
        assert(hash % 8192 == (fingerprint(grown) % 8192) as u64) by {
            assert((fingerprint(grown) % 0x1_0000_0000_0000_0000) % 8192 == fingerprint(grown) % 8192);
        }
        let boundary = len >= MIN_CHUNK && (hash & BOUNDARY_MASK) == BOUNDARY_MASK;
        if boundary || len >= MAX_CHUNK {
            let ghost prev = list@;
            list.push((start, i + 1));
            proof {
                assert(ends_chunk(grown));
                assert(chunk_end(data@, start as int) == i + 1);
                assert(as_spans(list@) =~= as_spans(prev).push((start as int, i + 1)));
                assert(data@.subrange(i + 1, i + 1) =~= Seq::<u8>::empty());
            }
            start = i + 1;
            hash = 0;
        }
        i = i + 1;
    }
    if start < data.len() {
        let ghost prev = list@;
        list.push((start, data.len()));
        assert(as_spans(list@) =~= as_spans(prev).push((start as int, data@.len() as int)));
    }
    assert(chunks_from(data@, data@.len() as int) =~= Seq::<(int, int)>::empty());
    list
}

/// What a well-cut list of chunks looks like: it starts at `start`, leaves no
/// gap, ends with the data, and every chunk keeps to the size limits.
pub open spec fn well_cut(data: Seq<u8>, start: int, list: Seq<(int, int)>) -> bool {
    &&& list.len() == 0 <==> start == data.len()
    &&& list.len() > 0 ==> list[0].0 == start && list.last().1 == data.len()
    &&& forall|i: int|
        0 <= i < list.len() ==> {
            &&& start <= #[trigger] list[i].0 < list[i].1 <= data.len()
            &&& list[i].1 - list[i].0 <= MAX_CHUNK
            &&& i + 1 < list.len() ==> list[i].1 - list[i].0 >= MIN_CHUNK
        }
    &&& forall|i: int, j: int|
        0 <= i < list.len() && j == i + 1 && j < list.len() ==> #[trigger] list[i].1
            == #[trigger] list[j].0
}

proof fn lemma_first_end_size(data: Seq<u8>, start: int, end: int)
    requires
        0 <= start < end <= data.len(),
        end <= start + MAX_CHUNK,
    ensures
        end <= first_end(data, start, end) <= data.len(),
        first_end(data, start, end) <= start + MAX_CHUNK,
        first_end(data, start, end) < data.len() ==> first_end(data, start, end) >= start
            + MIN_CHUNK,
    decreases data.len() - end,
{
    if end < data.len() && !ends_chunk(data.subrange(start, end)) {
        lemma_first_end_size(data, start, end + 1);
    }
}

proof fn lemma_well_cut_from(data: Seq<u8>, start: int)
    requires
        0 <= start <= data.len(),
    ensures
        well_cut(data, start, chunks_from(data, start)),
    decreases data.len() - start,
{
    if start < data.len() {
        lemma_first_end_size(data, start, start + 1);
        let end = chunk_end(data, start);
        lemma_well_cut_from(data, end);
        let tail = chunks_from(data, end);
        let list = chunks_from(data, start);
        assert(list =~= seq![(start, end)] + tail);
        assert forall|i: int| 0 <= i < list.len() implies {
            &&& start <= #[trigger] list[i].0 < list[i].1 <= data.len()
            &&& list[i].1 - list[i].0 <= MAX_CHUNK
            &&& i + 1 < list.len() ==> list[i].1 - list[i].0 >= MIN_CHUNK
        } by {
            if i > 0 {
                assert(list[i] == tail[i - 1]);
            }
        }
        assert forall|i: int, j: int|
            0 <= i < list.len() && j == i + 1 && j < list.len() implies #[trigger] list[i].1
            == #[trigger] list[j].0 by {
            assert(list[j] == tail[i]);
            if i > 0 {
                assert(list[i] == tail[i - 1]);
            }
        }
        if tail.len() > 0 {
            assert(list.last() == tail.last());
        }
    }
}

/// Chunking loses nothing: the chunks of a file are nonempty, lie end to end
/// from its first byte to its last, none exceeds the maximum, and only the
/// last may be shorter than the minimum.
pub proof fn law_chunks_partition_the_file(data: Seq<u8>)
    ensures
        well_cut(data, 0, chunks(data)),
{
    lemma_well_cut_from(data, 0);
}

/// Spans moved by `by`.
pub open spec fn shifted(list: Seq<(int, int)>, by: int) -> Seq<(int, int)> {
    Seq::new(list.len(), |i: int| (list[i].0 + by, list[i].1 + by))
}

proof fn lemma_first_end_follows_content(x: Seq<u8>, p: int, y: Seq<u8>, q: int, n: int)
    requires
        0 <= p <= x.len(),
        0 <= q <= y.len(),
        x.skip(p) == y.skip(q),
        0 <= n,
        p + n <= x.len(),
    ensures
        first_end(x, p, p + n) - p == first_end(y, q, q + n) - q,
    decreases x.len() - p - n,
{
    assert(x.skip(p).len() == x.len() - p);
    assert(y.skip(q).len() == y.len() - q);
    if p + n < x.len() {
        assert(x.subrange(p, p + n) =~= x.skip(p).subrange(0, n));
        assert(y.subrange(q, q + n) =~= y.skip(q).subrange(0, n));
        if !ends_chunk(x.subrange(p, p + n)) {
            lemma_first_end_follows_content(x, p, y, q, n + 1);
        }
    }
}

/// Boundaries follow content, not offsets: where two files have a boundary and
/// hold the same bytes from there on, they have the same chunks from there on,
/// however far the bytes before have shifted them apart.
pub proof fn law_chunks_follow_content(x: Seq<u8>, p: int, y: Seq<u8>, q: int)
    requires
        0 <= p <= x.len(),
        0 <= q <= y.len(),
        x.skip(p) == y.skip(q),
    ensures
        chunks_from(y, q) == shifted(chunks_from(x, p), q - p),
    decreases x.len() - p,
{
    assert(x.skip(p).len() == x.len() - p);
    assert(y.skip(q).len() == y.len() - q);
    if p < x.len() {
        lemma_first_end_follows_content(x, p, y, q, 1);
        lemma_first_end_bounds(x, p, p + 1);
        let e = chunk_end(x, p);
        let f = chunk_end(y, q);
        assert(x.skip(e) =~= x.skip(p).skip(e - p));
        assert(y.skip(f) =~= y.skip(q).skip(f - q));
        law_chunks_follow_content(x, e, y, f);
        assert(chunks_from(y, q) =~= shifted(chunks_from(x, p), q - p));
    } else {
        assert(chunks_from(y, q) =~= shifted(chunks_from(x, p), q - p));
    }
}

/// One chunk's strong hash and length: enough for the receiver to say which
/// chunks it already has and which it needs.
#[derive(Debug, Clone, Copy)]
pub struct ChunkRef {
    pub hash: crate::hash::Hash,
    pub len: u32,
}

impl View for ChunkRef {
    type V = (Seq<u8>, int);

    open spec fn view(&self) -> (Seq<u8>, int) {
        (self.hash@, self.len as int)
    }
}

/// What the references of a signature hold: each chunk's digest and length.
pub open spec fn as_signature(list: Seq<ChunkRef>) -> Seq<(Seq<u8>, int)> {
    Seq::new(list.len(), |i: int| list[i]@)
}

/// The bytes of one span.
pub open spec fn piece(data: Seq<u8>, span: (int, int)) -> Seq<u8> {
    data.subrange(span.0, span.1)
}

/// The chunk signature of a file: the digest and length of each chunk.
pub open spec fn file_signature(data: Seq<u8>) -> Seq<(Seq<u8>, int)> {
    Seq::new(
        chunks(data).len(),
        |i: int|
            (
                crate::hash::blake3_digest(piece(data, chunks(data)[i])),
                chunks(data)[i].1 - chunks(data)[i].0,
            ),
    )
}

/// Produces the chunk reference list (the "signature") for a file's bytes.
pub fn signature(data: &[u8]) -> (list: Vec<ChunkRef>)
    ensures
        as_signature(list@) == file_signature(data@),
{
    let spans = chunk(data);
    proof {
        law_chunks_partition_the_file(data@);
    }
    let mut list: Vec<ChunkRef> = Vec::new();
    let mut i: usize = 0;
    while i < spans.len()
        invariant
            i <= spans@.len(),
            as_spans(spans@) == chunks(data@),
            well_cut(data@, 0, chunks(data@)),
            list@.len() == i,
            forall|j: int| 0 <= j < i ==> #[trigger] list@[j]@ == file_signature(data@)[j],
        decreases spans@.len() - i,
    {
        let (s, e) = spans[i];
        assert(chunks(data@)[i as int] == (s as int, e as int));
        list.push(ChunkRef { hash: crate::hash::Hash::of(&data[s..e]), len: (e - s) as u32 });
        i = i + 1;
    }
    assert(as_signature(list@) =~= file_signature(data@));
    list
}

/// `std::io::Error`, by which the compressor and the archiver report failure.
#[verifier::external_type_specification]
#[verifier::external_body]
pub struct ExIoError(std::io::Error);

/// The zstd frame that `zstd::encode_all` makes of `data` at `level`.
pub uninterp spec fn zstd_encoded(data: Seq<u8>, level: int) -> Seq<u8>;

/// The bytes that `zstd::decode_all` reads back from `frame`, if it holds
/// whole zstd frames.
pub uninterp spec fn zstd_decoded(frame: Seq<u8>) -> Option<Seq<u8>>;

/// Calls `zstd::encode_all`.
///
/// Believed of the crate: a frame that it returns is a function of the data
/// and the level, is not empty, and decodes back to the data. That it returns
/// one at all is not claimed, since zstd reports exhausted memory as an error.
#[verifier::external_body]
fn zstd_encode(data: &[u8], level: i32) -> (frame: Result<Vec<u8>, std::io::Error>)
    ensures
        frame matches Ok(f) ==> f@ == zstd_encoded(data@, level as int),
        frame matches Ok(f) ==> zstd_decoded(f@) == Some(data@),
        frame matches Ok(f) ==> f@.len() > 0,
{
    zstd::encode_all(data, level)
}

/// Calls `zstd::decode_all`.
///
/// Believed of the crate: bytes that it returns are a function of the frame.
/// That it returns them at all is not claimed, since zstd reports exhausted
/// memory as an error.
#[verifier::external_body]
fn zstd_decode(frame: &[u8]) -> (data: Result<Vec<u8>, std::io::Error>)
    ensures
        data matches Ok(d) ==> zstd_decoded(frame@) == Some(d@),
{
    zstd::decode_all(frame)
}

/// Why a payload could not be packed or unpacked, in the codec's own words.
#[derive(Debug, Clone, PartialEq, Eq)]
pub enum CodecError {
    Compress(String),
    Decompress(String),
}

impl CodecError {
    /// What went wrong, in words.
    pub open spec fn text(self) -> Seq<char> {
        match self {
            CodecError::Compress(words) => words@,
            CodecError::Decompress(words) => words@,
        }
    }

    /// What went wrong, in words.
    pub fn message(&self) -> (text: String)
        ensures
            text@ == self.text(),
    {
        match self {
            CodecError::Compress(words) => words.clone(),
            CodecError::Decompress(words) => words.clone(),
        }
    }
}

/// The level every payload is compressed at.
pub const COMPRESSION_LEVEL: i32 = 3;

/// What `compress` makes of the compressor's answer.
pub fn compressed(answer: Result<Vec<u8>, std::io::Error>) -> (frame: Result<Vec<u8>, CodecError>)
    ensures
        match answer {
            Ok(f) => frame == Ok::<Vec<u8>, CodecError>(f),
            Err(e) => frame matches Err(CodecError::Compress(words))
                && to_string_from_display_ensures(&e, words),
        },
{
    match answer {
        Ok(f) => Ok(f),
        Err(e) => Err(CodecError::Compress(e.to_string())),
    }
}

/// What `decompress` makes of the decompressor's answer.
pub fn decompressed(answer: Result<Vec<u8>, std::io::Error>) -> (data: Result<Vec<u8>, CodecError>)
    ensures
        match answer {
            Ok(d) => data == Ok::<Vec<u8>, CodecError>(d),
            Err(e) => data matches Err(CodecError::Decompress(words))
                && to_string_from_display_ensures(&e, words),
        },
{
    match answer {
        Ok(d) => Ok(d),
        Err(e) => Err(CodecError::Decompress(e.to_string())),
    }
}

/// Packs `data` into a zstd frame.
///
/// A frame that comes out decompresses to `data` again.
pub fn compress(data: &[u8]) -> (frame: Result<Vec<u8>, CodecError>)
    ensures
        match frame {
            Ok(f) => {
                &&& f@ == zstd_encoded(data@, COMPRESSION_LEVEL as int)
                &&& zstd_decoded(f@) == Some(data@)
                &&& f@.len() > 0
            },
            Err(e) => e is Compress,
        },
{
    compressed(zstd_encode(data, COMPRESSION_LEVEL))
}

/// Unpacks the zstd frames in `frame`.
pub fn decompress(frame: &[u8]) -> (data: Result<Vec<u8>, CodecError>)
    ensures
        match data {
            Ok(d) => zstd_decoded(frame@) == Some(d@),
            Err(e) => e is Decompress,
        },
{
    decompressed(zstd_decode(frame))
}

/// Where the `i`-th chunk of a signed file begins.
pub open spec fn base_offset(sig: Seq<(Seq<u8>, int)>, i: int) -> int
    decreases i,
{
    if i <= 0 {
        0
    } else {
        base_offset(sig, i - 1) + sig[i - 1].1
    }
}

/// The first chunk at or after the `i`-th whose digest is `digest`.
pub open spec fn first_match(sig: Seq<(Seq<u8>, int)>, digest: Seq<u8>, i: int) -> Option<int>
    decreases sig.len() - i,
{
    if i >= sig.len() {
        None
    } else if sig[i].0 == digest {
        Some(i)
    } else {
        first_match(sig, digest, i + 1)
    }
}

/// How `bytes`, one chunk of a new file, is obtained from a file with the
/// signature `sig`: copied from the first chunk with the same digest if the
/// lengths agree too, else sent.
pub open spec fn delta_op(sig: Seq<(Seq<u8>, int)>, bytes: Seq<u8>) -> DeltaOpKind {
    match first_match(sig, crate::hash::blake3_digest(bytes), 0) {
        Some(i) if sig[i].1 == bytes.len() => DeltaOpKind::Copy {
            offset: base_offset(sig, i) as u64,
            len: bytes.len() as u32,
        },
        _ => DeltaOpKind::Data { len: bytes.len() as u32 },
    }
}

/// The reconstruction plan for `new`: one step per chunk.
pub open spec fn delta_ops(new: Seq<u8>, sig: Seq<(Seq<u8>, int)>) -> Seq<DeltaOpKind> {
    Seq::new(chunks(new).len(), |i: int| delta_op(sig, piece(new, chunks(new)[i])))
}

/// The bytes that the `Data` steps among the first `n` refer to, in order.
pub open spec fn literals_upto(new: Seq<u8>, sig: Seq<(Seq<u8>, int)>, n: int) -> Seq<u8>
    decreases n,
{
    if n <= 0 {
        Seq::empty()
    } else {
        let bytes = piece(new, chunks(new)[n - 1]);
        literals_upto(new, sig, n - 1) + if delta_op(sig, bytes) is Data {
            bytes
        } else {
            Seq::empty()
        }
    }
}

/// The bytes that the `Data` steps of the plan for `new` refer to, in order.
pub open spec fn delta_literals(new: Seq<u8>, sig: Seq<(Seq<u8>, int)>) -> Seq<u8> {
    literals_upto(new, sig, chunks(new).len() as int)
}

proof fn lemma_first_match(sig: Seq<(Seq<u8>, int)>, digest: Seq<u8>, i: int, found: Option<int>)
    requires
        0 <= i <= sig.len(),
        match found {
            Some(j) => {
                &&& i <= j < sig.len()
                &&& sig[j].0 == digest
                &&& forall|k: int| i <= k < j ==> (#[trigger] sig[k]).0 != digest
            },
            None => forall|k: int| i <= k < sig.len() ==> (#[trigger] sig[k]).0 != digest,
        },
    ensures
        first_match(sig, digest, i) == found,
    decreases sig.len() - i,
{
    if i < sig.len() && sig[i].0 != digest {
        lemma_first_match(sig, digest, i + 1, found);
    }
}

proof fn lemma_first_match_sound(sig: Seq<(Seq<u8>, int)>, digest: Seq<u8>, i: int)
    requires
        0 <= i <= sig.len(),
    ensures
        match first_match(sig, digest, i) {
            Some(j) => i <= j < sig.len() && sig[j].0 == digest,
            None => forall|k: int| i <= k < sig.len() ==> (#[trigger] sig[k]).0 != digest,
        },
    decreases sig.len() - i,
{
    if i < sig.len() && sig[i].0 != digest {
        lemma_first_match_sound(sig, digest, i + 1);
    }
}

proof fn lemma_base_offset_monotonic(sig: Seq<(Seq<u8>, int)>, i: int, j: int)
    requires
        0 <= i <= j <= sig.len(),
        forall|k: int| 0 <= k < sig.len() ==> (#[trigger] sig[k]).1 >= 0,
    ensures
        0 <= base_offset(sig, i) <= base_offset(sig, j),
    decreases j,
{
    if i < j {
        lemma_base_offset_monotonic(sig, i, j - 1);
    } else if i > 0 {
        lemma_base_offset_monotonic(sig, i - 1, j - 1);
    }
}

/// The first bytes of a digest as a number.
spec fn short_key(digest: Seq<u8>) -> u64 {
    (digest[0] + 256 * digest[1] + 65536 * digest[2] + 16777216 * digest[3] + 4294967296 * digest[4]
        + 1099511627776 * digest[5] + 281474976710656 * digest[6]) as u64
}

fn short_key_of(hash: &crate::hash::Hash) -> (key: u64)
    ensures
        key == short_key(hash@),
{
    let b = &hash.bytes;
    b[0] as u64 + 256 * (b[1] as u64) + 65536 * (b[2] as u64) + 16777216 * (b[3] as u64)
        + 4294967296 * (b[4] as u64) + 1099511627776 * (b[5] as u64) + 281474976710656 * (
    b[6] as u64)
}

/// The chunks of a signature, found by the first bytes of their digests.
struct ChunkIndex {
    buckets: HashMap<u64, Vec<usize>>,
    offsets: Vec<u64>,
}

impl ChunkIndex {
    spec fn covers(self, sig: Seq<(Seq<u8>, int)>, n: int) -> bool {
        &&& self.offsets@.len() == n
        &&& forall|i: int| 0 <= i < n ==> #[trigger] self.offsets@[i] == base_offset(sig, i)
        &&& forall|i: int| #![trigger sig[i]]
            0 <= i < n ==> {
                &&& self.buckets@.contains_key(short_key(sig[i].0))
                &&& exists|p: int|
                    0 <= p < self.buckets@[short_key(sig[i].0)]@.len()
                        && self.buckets@[short_key(sig[i].0)]@[p] == i
            }
        &&& forall|key: u64, p: int| #![trigger self.buckets@[key]@[p]]
            self.buckets@.contains_key(key) && 0 <= p < self.buckets@[key]@.len() ==> {
                &&& self.buckets@[key]@[p] < n
                &&& short_key(sig[self.buckets@[key]@[p] as int].0) == key
            }
        &&& forall|key: u64, p: int, q: int|
            #![trigger self.buckets@[key]@[p], self.buckets@[key]@[q]]
            self.buckets@.contains_key(key) && 0 <= p < q < self.buckets@[key]@.len()
                ==> self.buckets@[key]@[p] < self.buckets@[key]@[q]
    }

    fn build(base_sig: &[ChunkRef]) -> (index: ChunkIndex)
        requires
            base_offset(as_signature(base_sig@), base_sig@.len() as int) <= u64::MAX,
        ensures
            index.covers(as_signature(base_sig@), base_sig@.len() as int),
    {
        broadcast use vstd::std_specs::hash::group_hash_axioms;

        let ghost sig = as_signature(base_sig@);
        let mut index = ChunkIndex { buckets: HashMap::new(), offsets: Vec::new() };
        let mut offset: u64 = 0;
        let mut i: usize = 0;
        while i < base_sig.len()
            invariant
                i <= base_sig@.len(),
                sig == as_signature(base_sig@),
                base_offset(sig, base_sig@.len() as int) <= u64::MAX,
                offset == base_offset(sig, i as int),
                index.covers(sig, i as int),
            decreases base_sig@.len() - i,
        {
            let ghost before = index;
            let c = &base_sig[i];
            assert(sig[i as int] == c@);
            let key = short_key_of(&c.hash);
            let mut bucket: Vec<usize> = match index.buckets.remove(&key) {
                Some(b) => b,
                None => Vec::new(),
            };
            let ghost old_bucket = bucket@;
            bucket.push(i);
            index.buckets.insert(key, bucket);
            index.offsets.push(offset);
            proof {
                lemma_base_offset_monotonic(sig, i + 1, base_sig@.len() as int);
                assert forall|j: int| #![trigger sig[j]] 0 <= j < i + 1 implies {
                    &&& index.buckets@.contains_key(short_key(sig[j].0))
                    &&& exists|p: int|
                        0 <= p < index.buckets@[short_key(sig[j].0)]@.len()
                            && index.buckets@[short_key(sig[j].0)]@[p] == j
                } by {
                    let k = short_key(sig[j].0);
                    if j < i {
                        let p = choose|p: int|
                            0 <= p < before.buckets@[k]@.len() && before.buckets@[k]@[p] == j;
                        assert(index.buckets@[k]@[p] == j);
                    } else {
                        assert(index.buckets@[k]@[old_bucket.len() as int] == j);
                    }
                }
            }
            offset = offset + c.len as u64;
            i = i + 1;
        }
        index
    }

    fn find(&self, base_sig: &[ChunkRef], hash: &crate::hash::Hash) -> (found: Option<usize>)
        requires
            self.covers(as_signature(base_sig@), base_sig@.len() as int),
        ensures
            match found {
                Some(i) => first_match(as_signature(base_sig@), hash@, 0) == Some(i as int)
                    && i < base_sig@.len(),
                None => first_match(as_signature(base_sig@), hash@, 0) is None,
            },
    {
        broadcast use vstd::std_specs::hash::group_hash_axioms;

        let ghost sig = as_signature(base_sig@);
        let key = short_key_of(hash);
        if let Some(bucket) = self.buckets.get(&key) {
            let mut p: usize = 0;
            while p < bucket.len()
                invariant
                    p <= bucket@.len(),
                    self.covers(sig, base_sig@.len() as int),
                    sig == as_signature(base_sig@),
                    self.buckets@.contains_key(key),
                    self.buckets@[key] == *bucket,
                    key == short_key(hash@),
                    forall|q: int| 0 <= q < p ==> (#[trigger] sig[bucket@[q] as int]).0 != hash@,
                decreases bucket@.len() - p,
            {
                let i = bucket[p];
                assert(self.buckets@[key]@[p as int] == i);
                if base_sig[i].hash == *hash {
                    proof {
                        assert(sig[i as int].0 == hash@);
                        assert forall|k: int| 0 <= k < i implies (#[trigger] sig[k]).0 != hash@ by {
                            if sig[k].0 == hash@ {
                                let q = choose|q: int|
                                    0 <= q < self.buckets@[key]@.len() && self.buckets@[key]@[q]
                                        == k;
                                if q > p {
                                    assert(self.buckets@[key]@[p as int]
                                        < self.buckets@[key]@[q]);
                                }
                                assert(sig[bucket@[q] as int].0 != hash@);
                            }
                        }
                        lemma_first_match(sig, hash@, 0, Some(i as int));
                    }
                    return Some(i);
                }
                p = p + 1;
            }
            proof {
                assert forall|k: int| 0 <= k < sig.len() implies (#[trigger] sig[k]).0 != hash@ by {
                    if sig[k].0 == hash@ {
                        let q = choose|q: int|
                            0 <= q < self.buckets@[key]@.len() && self.buckets@[key]@[q] == k;
                        assert(sig[bucket@[q] as int].0 != hash@);
                    }
                }
            }
        }
        proof {
            assert forall|k: int| 0 <= k < sig.len() implies (#[trigger] sig[k]).0 != hash@ by {
                if sig[k].0 == hash@ {
                    assert(self.buckets@.contains_key(short_key(sig[k].0)));
                }
            }
            lemma_first_match(sig, hash@, 0, None);
        }
        None
    }
}

/// Builds a delta that reconstructs `new` from a file whose content-defined
/// chunk signature is `base_sig` (the daemon's existing copy). Returns the
/// op list plus the literal bytes each `Data` op refers to, in order.
///
/// Because both sides chunk by content, an unchanged region produces the same
/// chunk hashes on both ends and becomes a `Copy`; only genuinely new chunks
/// ship as literals.
pub fn make_delta(new: &[u8], base_sig: &[ChunkRef]) -> (delta: (Vec<DeltaOpKind>, Vec<u8>))
    requires
        base_offset(as_signature(base_sig@), base_sig@.len() as int) <= u64::MAX,
    ensures
        delta.0@ == delta_ops(new@, as_signature(base_sig@)),
        delta.1@ == delta_literals(new@, as_signature(base_sig@)),
{
    let ghost sig = as_signature(base_sig@);
    let index = ChunkIndex::build(base_sig);
    let spans = chunk(new);
    proof {
        law_chunks_partition_the_file(new@);
    }
    let mut ops: Vec<DeltaOpKind> = Vec::new();
    let mut literals: Vec<u8> = Vec::new();
    let mut i: usize = 0;
    while i < spans.len()
        invariant
            i <= spans@.len(),
            sig == as_signature(base_sig@),
            index.covers(sig, base_sig@.len() as int),
            as_spans(spans@) == chunks(new@),
            well_cut(new@, 0, chunks(new@)),
            ops@ =~= delta_ops(new@, sig).take(i as int),
            literals@ == literals_upto(new@, sig, i as int),
        decreases spans@.len() - i,
    {
        let (s, e) = spans[i];
        assert(chunks(new@)[i as int] == (s as int, e as int));
        let bytes = &new[s..e];
        assert(bytes@ == piece(new@, chunks(new@)[i as int]));
        let hash = crate::hash::Hash::of(bytes);
        let op = match index.find(base_sig, &hash) {
            Some(j) => {
                assert(sig[j as int] == base_sig@[j as int]@);
                if base_sig[j].len as usize == bytes.len() {
                    DeltaOpKind::Copy { offset: index.offsets[j], len: base_sig[j].len }
                } else {
                    DeltaOpKind::Data { len: bytes.len() as u32 }
                }
            },
            None => DeltaOpKind::Data { len: bytes.len() as u32 },
        };
        assert(op == delta_op(sig, bytes@));
        if let DeltaOpKind::Data { .. } = op {
            let ghost sent = literals@;
            literals.extend_from_slice(bytes);
            assert(literals@ =~= sent + bytes@);
        }
        ops.push(op);
        i = i + 1;
    }
    (ops, literals)
}

/// The length of the file a signature describes, if it fits in 64 bits.
pub fn signed_len(base_sig: &[ChunkRef]) -> (len: Option<u64>)
    ensures
        match len {
            Some(n) => n == base_offset(as_signature(base_sig@), base_sig@.len() as int),
            None => base_offset(as_signature(base_sig@), base_sig@.len() as int) > u64::MAX,
        },
{
    let ghost sig = as_signature(base_sig@);
    let mut len: u64 = 0;
    let mut i: usize = 0;
    while i < base_sig.len()
        invariant
            i <= base_sig@.len(),
            sig == as_signature(base_sig@),
            len == base_offset(sig, i as int),
        decreases base_sig@.len() - i,
    {
        assert(sig[i as int] == base_sig@[i as int]@);
        match len.checked_add(base_sig[i].len as u64) {
            Some(n) => {
                len = n;
            },
            None => {
                proof {
                    lemma_base_offset_monotonic(sig, i + 1, base_sig@.len() as int);
                }
                return None;
            },
        }
        i = i + 1;
    }
    Some(len)
}

/// Why a delta could not be replayed.
#[derive(Debug, Clone, Copy, PartialEq, Eq, Structural)]
pub enum DeltaError {
    /// A `Copy` step reaches past the end of the old file.
    CopyOutOfBounds,
    /// A `Data` step asks for more literal bytes than were sent.
    DataOutOfBounds,
}

impl DeltaError {
    /// What went wrong, in words.
    pub open spec fn text(self) -> Seq<char> {
        match self {
            DeltaError::CopyOutOfBounds => "delta Copy out of bounds"@,
            DeltaError::DataOutOfBounds => "delta Data out of bounds"@,
        }
    }

    /// What went wrong, in words.
    pub fn message(&self) -> (text: String)
        ensures
            text@ == self.text(),
    {
        match self {
            DeltaError::CopyOutOfBounds => "delta Copy out of bounds".to_owned(),
            DeltaError::DataOutOfBounds => "delta Data out of bounds".to_owned(),
        }
    }
}

/// Replays a plan: the bytes rebuilt and how many literal bytes were used up,
/// or the first step that could not be carried out.
pub open spec fn replay(base: Seq<u8>, ops: Seq<DeltaOpKind>, literals: Seq<u8>) -> Result<
    (Seq<u8>, int),
    DeltaError,
>
    decreases ops.len(),
{
    if ops.len() == 0 {
        Ok((Seq::empty(), 0))
    } else {
        match replay(base, ops.drop_last(), literals) {
            Err(e) => Err(e),
            Ok((out, used)) => match ops.last() {
                DeltaOpKind::Copy { offset, len } => if offset + len > base.len() {
                    Err(DeltaError::CopyOutOfBounds)
                } else {
                    Ok((out + base.subrange(offset as int, offset + len), used))
                },
                DeltaOpKind::Data { len } => if used + len > literals.len() {
                    Err(DeltaError::DataOutOfBounds)
                } else {
                    Ok((out + literals.subrange(used, used + len), used + len))
                },
            },
        }
    }
}

proof fn lemma_replay_error_sticks(base: Seq<u8>, ops: Seq<DeltaOpKind>, literals: Seq<u8>, n: int)
    requires
        0 <= n <= ops.len(),
        replay(base, ops.take(n), literals) is Err,
    ensures
        replay(base, ops, literals) == replay(base, ops.take(n), literals),
    decreases ops.len(),
{
    if n < ops.len() {
        assert(ops.drop_last().take(n) =~= ops.take(n));
        lemma_replay_error_sticks(base, ops.drop_last(), literals, n);
    } else {
        assert(ops.take(n) =~= ops);
    }
}

/// Reconstructs a file from delta ops, the daemon's `base` bytes, and the
/// stream of literal bytes the `Data` ops consume in order.
pub fn apply_delta(base: &[u8], ops: &[DeltaOpKind], literals: &[u8]) -> (rebuilt: Result<
    Vec<u8>,
    DeltaError,
>)
    ensures
        match replay(base@, ops@, literals@) {
            Ok((bytes, _)) => rebuilt matches Ok(out) && out@ == bytes,
            Err(e) => rebuilt == Err::<Vec<u8>, DeltaError>(e),
        },
{
    let mut out: Vec<u8> = Vec::new();
    let mut lit_pos: usize = 0;
    let mut i: usize = 0;
    while i < ops.len()
        invariant
            i <= ops@.len(),
            lit_pos <= literals@.len(),
            replay(base@, ops@.take(i as int), literals@) == Ok::<(Seq<u8>, int), DeltaError>(
                (out@, lit_pos as int),
            ),
        decreases ops@.len() - i,
    {
        let ghost made = out@;
        assert(ops@.take(i + 1).drop_last() =~= ops@.take(i as int));
        match ops[i] {
            DeltaOpKind::Copy { offset, len } => {
                if offset > base.len() as u64 || len as u64 > base.len() as u64 - offset {
                    proof {
                        lemma_replay_error_sticks(base@, ops@, literals@, i + 1);
                    }
                    return Err(DeltaError::CopyOutOfBounds);
                }
                let start = offset as usize;
                let end = start + len as usize;
                out.extend_from_slice(&base[start..end]);
                assert(out@ =~= made + base@.subrange(start as int, end as int));
            },
            DeltaOpKind::Data { len } => {
                if len as u64 > (literals.len() - lit_pos) as u64 {
                    proof {
                        lemma_replay_error_sticks(base@, ops@, literals@, i + 1);
                    }
                    return Err(DeltaError::DataOutOfBounds);
                }
                let end = lit_pos + len as usize;
                out.extend_from_slice(&literals[lit_pos..end]);
                assert(out@ =~= made + literals@.subrange(lit_pos as int, end as int));
                lit_pos = end;
            },
        }
        i = i + 1;
    }
    assert(ops@.take(ops@.len() as int) =~= ops@);
    Ok(out)
}

/// No chunk of `base` shares its digest with a different chunk of `new`.
pub open spec fn no_digest_collision(base: Seq<u8>, new: Seq<u8>) -> bool {
    forall|i: int, j: int|
        #![trigger chunks(base)[i], chunks(new)[j]]
        0 <= i < chunks(base).len() && 0 <= j < chunks(new).len()
            && crate::hash::blake3_digest(piece(base, chunks(base)[i]))
            == crate::hash::blake3_digest(piece(new, chunks(new)[j])) ==> piece(
            base,
            chunks(base)[i],
        ) == piece(new, chunks(new)[j])
}

/// A signature adds up: the chunks before the `i`-th are as long together as
/// the file is before it, and all of them are as long as the file.
pub proof fn law_signature_locates_chunks(data: Seq<u8>, i: int)
    requires
        0 <= i <= chunks(data).len(),
    ensures
        i < chunks(data).len() ==> base_offset(file_signature(data), i) == chunks(data)[i].0,
        base_offset(file_signature(data), chunks(data).len() as int) == data.len(),
{
    lemma_offsets(data, i);
    lemma_offsets(data, chunks(data).len() as int);
}

proof fn lemma_offsets(data: Seq<u8>, i: int)
    requires
        0 <= i <= chunks(data).len(),
    ensures
        base_offset(file_signature(data), i) == if i < chunks(data).len() {
            chunks(data)[i].0
        } else {
            data.len() as int
        },
    decreases i,
{
    law_chunks_partition_the_file(data);
    let list = chunks(data);
    if i > 0 {
        lemma_offsets(data, i - 1);
        assert(file_signature(data)[i - 1].1 == list[i - 1].1 - list[i - 1].0);
        if i < list.len() {
            assert(list[i - 1].1 == list[i].0);
        }
    }
}

proof fn lemma_literals_prefix(new: Seq<u8>, sig: Seq<(Seq<u8>, int)>, m: int, n: int)
    requires
        0 <= m <= n <= chunks(new).len(),
    ensures
        literals_upto(new, sig, m).len() <= literals_upto(new, sig, n).len(),
        literals_upto(new, sig, n).take(literals_upto(new, sig, m).len() as int) == literals_upto(
            new,
            sig,
            m,
        ),
    decreases n,
{
    if m < n {
        lemma_literals_prefix(new, sig, m, n - 1);
        let a = literals_upto(new, sig, m);
        let b = literals_upto(new, sig, n - 1);
        let c = literals_upto(new, sig, n);
        assert(c.take(a.len() as int) =~= b.take(a.len() as int));
    } else {
        assert(literals_upto(new, sig, n).take(literals_upto(new, sig, n).len() as int)
            =~= literals_upto(new, sig, n));
    }
}

proof fn lemma_replay_prefix(base: Seq<u8>, new: Seq<u8>, n: int)
    requires
        no_digest_collision(base, new),
        base.len() <= u64::MAX,
        0 <= n <= chunks(new).len(),
    ensures
        ({
            let sig = file_signature(base);
            let end = if n < chunks(new).len() {
                chunks(new)[n].0
            } else {
                new.len() as int
            };
            replay(base, delta_ops(new, sig).take(n), delta_literals(new, sig)) == Ok::<
                (Seq<u8>, int),
                DeltaError,
            >((new.take(end), literals_upto(new, sig, n).len() as int))
        }),
    decreases n,
{
    let sig = file_signature(base);
    let ops = delta_ops(new, sig);
    let lits = delta_literals(new, sig);
    let list = chunks(new);
    law_chunks_partition_the_file(new);
    law_chunks_partition_the_file(base);
    if n == 0 {
        assert(ops.take(0) =~= Seq::<DeltaOpKind>::empty());
        assert(new.take(0) =~= Seq::<u8>::empty());
        assert(literals_upto(new, sig, 0) =~= Seq::<u8>::empty());
        if list.len() == 0 {
            assert(new.take(new.len() as int) =~= Seq::<u8>::empty());
        }
    } else {
        lemma_replay_prefix(base, new, n - 1);
        assert(ops.take(n).drop_last() =~= ops.take(n - 1));
        let span = list[n - 1];
        let bytes = piece(new, span);
        let digest = crate::hash::blake3_digest(bytes);
        let end = if n < list.len() {
            assert(list[n - 1].1 == list[n].0);
            list[n].0
        } else {
            new.len() as int
        };
        assert(span.1 == end);
        assert(new.take(end) =~= new.take(span.0) + bytes);
        lemma_literals_prefix(new, sig, n - 1, list.len() as int);
        lemma_literals_prefix(new, sig, n, list.len() as int);
        let used = literals_upto(new, sig, n - 1).len() as int;
        lemma_first_match_sound(sig, digest, 0);
        match delta_op(sig, bytes) {
            DeltaOpKind::Copy { offset, len } => {
                let i = first_match(sig, digest, 0)->0;
                assert(sig[i] == file_signature(base)[i]);
                assert(piece(base, chunks(base)[i]) == bytes);
                law_signature_locates_chunks(base, i);
                assert(base.subrange(offset as int, offset + len) == bytes);
            },
            DeltaOpKind::Data { len } => {
                let upto = literals_upto(new, sig, n);
                assert(upto =~= literals_upto(new, sig, n - 1) + bytes);
                assert(lits.subrange(used, used + len) =~= upto.subrange(used, used + len));
                assert(upto.subrange(used, used + len) =~= bytes);
            },
        }
    }
}

/// A delta reconstructs exactly: replaying the plan made for `new` against the
/// signature of `base`, on `base` itself and the literals that came with the
/// plan, yields `new`. It rests on digests telling the chunks of the two files
/// apart.
pub proof fn law_delta_reconstructs(base: Seq<u8>, new: Seq<u8>)
    requires
        no_digest_collision(base, new),
        base.len() <= u64::MAX,
    ensures
        replay(
            base,
            delta_ops(new, file_signature(base)),
            delta_literals(new, file_signature(base)),
        ) == Ok::<(Seq<u8>, int), DeltaError>(
            (new, delta_literals(new, file_signature(base)).len() as int),
        ),
{
    let sig = file_signature(base);
    lemma_replay_prefix(base, new, chunks(new).len() as int);
    assert(delta_ops(new, sig).take(chunks(new).len() as int) =~= delta_ops(new, sig));
    assert(new.take(new.len() as int) =~= new);
}

/// Only genuinely new chunks ship: a chunk of `new` becomes a `Data` step
/// exactly when no chunk of `base` holds the same bytes.
pub proof fn law_delta_sends_only_new_chunks(base: Seq<u8>, new: Seq<u8>, j: int)
    requires
        no_digest_collision(base, new),
        0 <= j < chunks(new).len(),
    ensures
        delta_ops(new, file_signature(base))[j] is Data <==> forall|i: int|
            0 <= i < chunks(base).len() ==> piece(base, #[trigger] chunks(base)[i]) != piece(
                new,
                chunks(new)[j],
            ),
{
    let sig = file_signature(base);
    let bytes = piece(new, chunks(new)[j]);
    let digest = crate::hash::blake3_digest(bytes);
    law_chunks_partition_the_file(base);
    law_chunks_partition_the_file(new);
    lemma_first_match_sound(sig, digest, 0);
    match first_match(sig, digest, 0) {
        Some(i) => {
            assert(sig[i] == file_signature(base)[i]);
            assert(piece(base, chunks(base)[i]) == bytes);
        },
        None => {
            assert forall|i: int| 0 <= i < chunks(base).len() implies piece(
                base,
                #[trigger] chunks(base)[i],
            ) != bytes by {
                assert(sig[i].0 == crate::hash::blake3_digest(piece(base, chunks(base)[i])));
            }
        },
    }
}

proof fn lemma_fingerprint_window(s: Seq<u8>)
    requires
        s.len() >= 13,
    ensures
        exists|high: nat| #[trigger]
            (8192 * high) + (s[s.len() - 1] + 2 * s[s.len() - 2] + 4 * s[s.len() - 3] + 8 * s[s.len()
                - 4] + 16 * s[s.len() - 5] + 32 * s[s.len() - 6] + 64 * s[s.len() - 7] + 128
                * s[s.len() - 8] + 256 * s[s.len() - 9] + 512 * s[s.len() - 10] + 1024 * s[s.len()
                - 11] + 2048 * s[s.len() - 12] + 4096 * s[s.len() - 13]) == fingerprint(s),
{
    let n = s.len() as int;
    assert(s.take(n) =~= s);
    assert(s.take(n).drop_last() =~= s.take(n - 1));
    assert(s.take(n - 1).drop_last() =~= s.take(n - 2));
    assert(s.take(n - 2).drop_last() =~= s.take(n - 3));
    assert(s.take(n - 3).drop_last() =~= s.take(n - 4));
    assert(s.take(n - 4).drop_last() =~= s.take(n - 5));
    assert(s.take(n - 5).drop_last() =~= s.take(n - 6));
    assert(s.take(n - 6).drop_last() =~= s.take(n - 7));
    assert(s.take(n - 7).drop_last() =~= s.take(n - 8));
    assert(s.take(n - 8).drop_last() =~= s.take(n - 9));
    assert(s.take(n - 9).drop_last() =~= s.take(n - 10));
    assert(s.take(n - 10).drop_last() =~= s.take(n - 11));
    assert(s.take(n - 11).drop_last() =~= s.take(n - 12));
    assert(s.take(n - 12).drop_last() =~= s.take(n - 13));
    assert(fingerprint(s.take(n - 12)) == 2 * fingerprint(s.take(n - 13)) + s[n - 13]);
    assert(fingerprint(s.take(n - 11)) == 2 * fingerprint(s.take(n - 12)) + s[n - 12]);
    assert(fingerprint(s.take(n - 10)) == 2 * fingerprint(s.take(n - 11)) + s[n - 11]);
    assert(fingerprint(s.take(n - 9)) == 2 * fingerprint(s.take(n - 10)) + s[n - 10]);
    assert(fingerprint(s.take(n - 8)) == 2 * fingerprint(s.take(n - 9)) + s[n - 9]);
    assert(fingerprint(s.take(n - 7)) == 2 * fingerprint(s.take(n - 8)) + s[n - 8]);
    assert(fingerprint(s.take(n - 6)) == 2 * fingerprint(s.take(n - 7)) + s[n - 7]);
    assert(fingerprint(s.take(n - 5)) == 2 * fingerprint(s.take(n - 6)) + s[n - 6]);
    assert(fingerprint(s.take(n - 4)) == 2 * fingerprint(s.take(n - 5)) + s[n - 5]);
    assert(fingerprint(s.take(n - 3)) == 2 * fingerprint(s.take(n - 4)) + s[n - 4]);
    assert(fingerprint(s.take(n - 2)) == 2 * fingerprint(s.take(n - 3)) + s[n - 3]);
    assert(fingerprint(s.take(n - 1)) == 2 * fingerprint(s.take(n - 2)) + s[n - 2]);
    assert(fingerprint(s.take(n)) == 2 * fingerprint(s.take(n - 1)) + s[n - 1]);
    let high = fingerprint(s.take(n - 13));
    assert((8192 * high) + (s[s.len() - 1] + 2 * s[s.len() - 2] + 4 * s[s.len() - 3] + 8 * s[s.len()
        - 4] + 16 * s[s.len() - 5] + 32 * s[s.len() - 6] + 64 * s[s.len() - 7] + 128 * s[s.len()
        - 8] + 256 * s[s.len() - 9] + 512 * s[s.len() - 10] + 1024 * s[s.len() - 11] + 2048
        * s[s.len() - 12] + 4096 * s[s.len() - 13]) == fingerprint(s));
}

/// Where a chunk ends is a matter of its last thirteen bytes: once it is 2 KiB
/// long it ends exactly where the sum of those bytes, each counting twice as
/// much as the one after it, has its low thirteen bits set, whatever the bytes
/// are. Before that it never ends, and at 64 KiB always.
pub proof fn law_boundary_is_pinned_by_the_window(s: Seq<u8>)
    ensures
        s.len() < 2048 ==> !ends_chunk(s),
        s.len() >= 65536 ==> ends_chunk(s),
        2048 <= s.len() < 65536 ==> (ends_chunk(s) <==> (s[s.len() - 1] + 2 * s[s.len() - 2] + 4
            * s[s.len() - 3] + 8 * s[s.len() - 4] + 16 * s[s.len() - 5] + 32 * s[s.len() - 6] + 64
            * s[s.len() - 7] + 128 * s[s.len() - 8] + 256 * s[s.len() - 9] + 512 * s[s.len() - 10]
            + 1024 * s[s.len() - 11] + 2048 * s[s.len() - 12] + 4096 * s[s.len() - 13]) % 8192
            == 8191),
{
    if s.len() >= 13 {
        lemma_fingerprint_window(s);
        let high = choose|high: nat| #[trigger]
            (8192 * high) + (s[s.len() - 1] + 2 * s[s.len() - 2] + 4 * s[s.len() - 3] + 8 * s[s.len()
                - 4] + 16 * s[s.len() - 5] + 32 * s[s.len() - 6] + 64 * s[s.len() - 7] + 128
                * s[s.len() - 8] + 256 * s[s.len() - 9] + 512 * s[s.len() - 10] + 1024 * s[s.len()
                - 11] + 2048 * s[s.len() - 12] + 4096 * s[s.len() - 13]) == fingerprint(s);
        let low = s[s.len() - 1] + 2 * s[s.len() - 2] + 4 * s[s.len() - 3] + 8 * s[s.len() - 4] + 16
            * s[s.len() - 5] + 32 * s[s.len() - 6] + 64 * s[s.len() - 7] + 128 * s[s.len() - 8]
            + 256 * s[s.len() - 9] + 512 * s[s.len() - 10] + 1024 * s[s.len() - 11] + 2048
            * s[s.len() - 12] + 4096 * s[s.len() - 13];
        assert((8192 * high + low) % 8192 == low % 8192) by (nonlinear_arith);
    }
}

proof fn lemma_first_end_is_first(data: Seq<u8>, start: int, end: int)
    requires
        0 <= start < end <= data.len(),
    ensures
        ({
            let e = first_end(data, start, end);
            &&& e < data.len() ==> ends_chunk(data.subrange(start, e))
            &&& forall|k: int| end <= k < e ==> !ends_chunk(#[trigger] data.subrange(start, k))
        }),
    decreases data.len() - end,
{
    if end < data.len() && !ends_chunk(data.subrange(start, end)) {
        lemma_first_end_is_first(data, start, end + 1);
    }
}

proof fn lemma_chunks_from_nth(data: Seq<u8>, start: int, i: int)
    requires
        0 <= start <= data.len(),
        0 <= i < chunks_from(data, start).len(),
    ensures
        ({
            let (s, e) = chunks_from(data, start)[i];
            &&& start <= s < data.len()
            &&& e == chunk_end(data, s)
            &&& chunks_from(data, s) == chunks_from(data, start).skip(i)
        }),
    decreases data.len() - start,
{
    let e = chunk_end(data, start);
    lemma_first_end_bounds(data, start, start + 1);
    let all = chunks_from(data, start);
    let tail = chunks_from(data, e);
    if i > 0 {
        assert(all[i] == tail[i - 1]);
        lemma_chunks_from_nth(data, e, i - 1);
        assert(all.skip(i) =~= tail.skip(i - 1));
    } else {
        assert(all.skip(0) =~= all);
    }
}

/// A file's chunks are cut by its content alone: each ends at the first window
/// of thirteen bytes that marks a boundary at least 2 KiB into it, failing that
/// at 64 KiB, and failing that with the file.
pub proof fn law_chunk_ends_at_its_first_window(data: Seq<u8>, i: int)
    requires
        0 <= i < chunks(data).len(),
    ensures
        ({
            let (s, e) = chunks(data)[i];
            &&& 0 <= s < e <= data.len()
            &&& e - s <= 65536
            &&& forall|k: int|
                s + 2047 <= k < e - 1 ==> (#[trigger] data[k] + 2 * data[k - 1] + 4 * data[k - 2] + 8
                    * data[k - 3] + 16 * data[k - 4] + 32 * data[k - 5] + 64 * data[k - 6] + 128
                    * data[k - 7] + 256 * data[k - 8] + 512 * data[k - 9] + 1024 * data[k - 10] + 2048
                    * data[k - 11] + 4096 * data[k - 12]) % 8192 != 8191
            &&& e < data.len() && e - s < 65536 ==> {
                let k = e - 1;
                &&& e - s >= 2048
                &&& (data[k] + 2 * data[k - 1] + 4 * data[k - 2] + 8 * data[k - 3] + 16 * data[k - 4]
                    + 32 * data[k - 5] + 64 * data[k - 6] + 128 * data[k - 7] + 256 * data[k - 8]
                    + 512 * data[k - 9] + 1024 * data[k - 10] + 2048 * data[k - 11] + 4096 * data[k
                    - 12]) % 8192 == 8191
            }
        }),
{
    law_chunks_partition_the_file(data);
    lemma_chunks_from_nth(data, 0, i);
    let (s, e) = chunks(data)[i];
    lemma_first_end_is_first(data, s, s + 1);
    lemma_first_end_size(data, s, s + 1);
    assert forall|k: int| s + 2047 <= k < e - 1 implies (#[trigger] data[k] + 2 * data[k - 1] + 4
        * data[k - 2] + 8 * data[k - 3] + 16 * data[k - 4] + 32 * data[k - 5] + 64 * data[k - 6] + 128
        * data[k - 7] + 256 * data[k - 8] + 512 * data[k - 9] + 1024 * data[k - 10] + 2048 * data[k
        - 11] + 4096 * data[k - 12]) % 8192 != 8191 by {
        let part = data.subrange(s, k + 1);
        assert(!ends_chunk(part));
        law_boundary_is_pinned_by_the_window(part);
        assert(part[part.len() - 1] == data[k]);
    }
    if e < data.len() && e - s < 65536 {
        let part = data.subrange(s, e);
        assert(ends_chunk(part));
        law_boundary_is_pinned_by_the_window(part);
    }
}

/// An edit does not reach past the next common boundary: where a chunk of one
/// file and a chunk of another begin at the same distance from a common tail,
/// all chunks from there on are the same bytes in the same order.
#[verifier::rlimit(30)]
pub proof fn law_common_tail_has_common_chunks(x: Seq<u8>, i: int, y: Seq<u8>, j: int)
    requires
        0 <= i < chunks(x).len(),
        0 <= j < chunks(y).len(),
        x.skip(chunks(x)[i].0) == y.skip(chunks(y)[j].0),
    ensures
        chunks(x).len() - i == chunks(y).len() - j,
        forall|k: int|
            0 <= k < chunks(x).len() - i ==> x.subrange(
                (#[trigger] chunks(x)[i + k]).0,
                chunks(x)[i + k].1,
            ) == y.subrange(chunks(y)[j + k].0, chunks(y)[j + k].1),
{
    law_chunks_partition_the_file(x);
    law_chunks_partition_the_file(y);
    lemma_chunks_from_nth(x, 0, i);
    lemma_chunks_from_nth(y, 0, j);
    let p = chunks(x)[i].0;
    let q = chunks(y)[j].0;
    law_chunks_follow_content(x, p, y, q);
    let a = chunks(x).skip(i);
    let b = chunks(y).skip(j);
    assert(b == shifted(a, q - p));
    assert forall|k: int| 0 <= k < chunks(x).len() - i implies x.subrange(
        (#[trigger] chunks(x)[i + k]).0,
        chunks(x)[i + k].1,
    ) == y.subrange(chunks(y)[j + k].0, chunks(y)[j + k].1) by {
        assert(a[k] == chunks(x)[i + k]);
        assert(b[k] == chunks(y)[j + k]);
        let (s, e) = chunks(x)[i + k];
        assert(s >= p) by {
            lemma_starts_grow(x, i, i + k);
        }
        assert(s < e <= x.len());
        assert(0 <= p <= x.len() && 0 <= q <= y.len());
        assert(x.skip(p).len() == x.len() - p);
        assert(y.skip(q).len() == y.len() - q);
        assert(x.subrange(s, e) =~= x.skip(p).subrange(s - p, e - p));
        assert(y.subrange(s + q - p, e + q - p) =~= y.skip(q).subrange(s - p, e - p));
        assert(chunks(y)[j + k] == (s + q - p, e + q - p));
    }
}

proof fn lemma_starts_grow(data: Seq<u8>, i: int, j: int)
    requires
        0 <= i <= j < chunks(data).len(),
    ensures
        chunks(data)[i].0 <= chunks(data)[j].0,
    decreases j - i,
{
    law_chunks_partition_the_file(data);
    if i < j {
        lemma_starts_grow(data, i, j - 1);
        assert(chunks(data)[j - 1].1 == chunks(data)[j].0);
    }
}

/// A signature names every chunk of the file in order, by the digest of its
/// bytes and by its length.
pub proof fn law_signature_names_every_chunk(data: Seq<u8>, i: int)
    requires
        0 <= i < chunks(data).len(),
    ensures
        file_signature(data).len() == chunks(data).len(),
        file_signature(data)[i].0 == crate::hash::blake3_digest(
            data.subrange(chunks(data)[i].0, chunks(data)[i].1),
        ),
        file_signature(data)[i].1 == data.subrange(chunks(data)[i].0, chunks(data)[i].1).len(),
{
    law_chunks_partition_the_file(data);
}

/// How many bytes the first `n` steps of a plan rebuild, and how many of them are
/// literals.
pub open spec fn step_sums(ops: Seq<DeltaOpKind>, n: int) -> (int, int)
    decreases n,
{
    if n <= 0 || n > ops.len() {
        (0, 0)
    } else {
        let (bytes, used) = step_sums(ops, n - 1);
        match ops[n - 1] {
            DeltaOpKind::Copy { len, .. } => (bytes + len, used),
            DeltaOpKind::Data { len } => (bytes + len, used + len),
        }
    }
}

/// Whether the `i`-th step can be carried out: what it copies lies inside the old
/// file, or the literals suffice for it.
pub open spec fn step_fits(
    base: Seq<u8>,
    ops: Seq<DeltaOpKind>,
    literals: Seq<u8>,
    i: int,
) -> bool {
    match ops[i] {
        DeltaOpKind::Copy { offset, len } => offset + len <= base.len(),
        DeltaOpKind::Data { len } => step_sums(ops, i).1 + len <= literals.len(),
    }
}

/// Whether the `i`-th step shows up in its place: a copy as the bytes it names,
/// a data step as the next literals.
pub open spec fn step_shows(
    base: Seq<u8>,
    ops: Seq<DeltaOpKind>,
    literals: Seq<u8>,
    out: Seq<u8>,
    i: int,
) -> bool {
    let (at, used) = step_sums(ops, i);
    match ops[i] {
        DeltaOpKind::Copy { offset, len } => out.subrange(at, at + len) == base.subrange(
            offset as int,
            offset + len,
        ),
        DeltaOpKind::Data { len } => out.subrange(at, at + len) == literals.subrange(
            used,
            used + len,
        ),
    }
}

proof fn lemma_replay_sums(base: Seq<u8>, ops: Seq<DeltaOpKind>, literals: Seq<u8>)
    ensures
        replay(base, ops, literals) matches Ok((out, used)) ==> (out.len() as int, used)
            == step_sums(ops, ops.len() as int),
    decreases ops.len(),
{
    if ops.len() > 0 {
        let init = ops.drop_last();
        let n = init.len() as int;
        lemma_replay_sums(base, init, literals);
        lemma_step_sums_prefix(ops, n);
        lemma_step_sums_grow(ops, n, n);
        if replay(base, ops, literals) is Ok {
            let (made, used) = replay(base, init, literals)->Ok_0;
            let (out, _) = replay(base, ops, literals)->Ok_0;
            assert(ops.last() == ops[n]);
            match ops[n] {
                DeltaOpKind::Copy { offset, len } => {
                    assert(out.len() == made.len() + len);
                },
                DeltaOpKind::Data { len } => {
                    assert(literals.subrange(used, used + len).len() == len);
                    assert(out.len() == made.len() + len);
                },
            }
        }
    }
}

proof fn lemma_replay_succeeds(base: Seq<u8>, ops: Seq<DeltaOpKind>, literals: Seq<u8>)
    ensures
        replay(base, ops, literals) is Ok <==> forall|i: int|
            0 <= i < ops.len() ==> #[trigger] step_fits(base, ops, literals, i),
    decreases ops.len(),
{
    if ops.len() > 0 {
        let init = ops.drop_last();
        let n = init.len() as int;
        lemma_replay_succeeds(base, init, literals);
        lemma_replay_sums(base, init, literals);
        assert forall|i: int| 0 <= i < n implies step_fits(base, ops, literals, i)
            == #[trigger] step_fits(base, init, literals, i) by {
            lemma_step_sums_prefix(ops, i);
        }
        lemma_step_sums_prefix(ops, n);
        if replay(base, init, literals) is Ok {
            assert(replay(base, ops, literals) is Ok <==> step_fits(base, ops, literals, n));
            if step_fits(base, ops, literals, n) {
                assert forall|i: int| 0 <= i < ops.len() implies #[trigger] step_fits(
                    base,
                    ops,
                    literals,
                    i,
                ) by {
                    if i < n {
                        assert(step_fits(base, init, literals, i));
                    }
                }
            }
        } else {
            let bad = choose|i: int|
                0 <= i < init.len() && !#[trigger] step_fits(base, init, literals, i);
            assert(!step_fits(base, ops, literals, bad));
        }
    }
}

proof fn lemma_replay_shows(base: Seq<u8>, ops: Seq<DeltaOpKind>, literals: Seq<u8>, i: int)
    requires
        replay(base, ops, literals) is Ok,
        0 <= i < ops.len(),
    ensures
        step_shows(base, ops, literals, replay(base, ops, literals)->Ok_0.0, i),
    decreases ops.len(),
{
    let init = ops.drop_last();
    let n = init.len() as int;
    let (made, used) = replay(base, init, literals)->Ok_0;
    let (out, _) = replay(base, ops, literals)->Ok_0;
    lemma_replay_sums(base, init, literals);
    lemma_step_sums_prefix(ops, i);
    lemma_step_sums_grow(ops, i, i);
    let at = step_sums(ops, i).0;
    if i < n {
        lemma_replay_shows(base, init, literals, i);
        assert(init[i] == ops[i]);
        lemma_step_sums_grow(init, i + 1, n);
        let len = match ops[i] {
            DeltaOpKind::Copy { len, .. } => len as int,
            DeltaOpKind::Data { len } => len as int,
        };
        assert(step_sums(init, i + 1).0 == at + len);
        assert(out.subrange(at, at + len) =~= made.subrange(at, at + len));
    } else {
        match ops[i] {
            DeltaOpKind::Copy { offset, len } => {
                assert(out.subrange(at, at + len) =~= base.subrange(offset as int, offset + len));
            },
            DeltaOpKind::Data { len } => {
                assert(out.subrange(at, at + len) =~= literals.subrange(used, used + len));
            },
        }
    }
}

/// Replaying a plan puts every step's bytes in its place, or refuses the plan:
/// it succeeds exactly when every step can be carried out, and then every step
/// shows up in its place, one after the other and nothing else.
pub proof fn law_replay_places_every_step(base: Seq<u8>, ops: Seq<DeltaOpKind>, literals: Seq<u8>)
    ensures
        replay(base, ops, literals) is Ok <==> forall|i: int|
            0 <= i < ops.len() ==> #[trigger] step_fits(base, ops, literals, i),
        replay(base, ops, literals) matches Ok((out, used)) ==> {
            &&& (out.len() as int, used) == step_sums(ops, ops.len() as int)
            &&& forall|i: int|
                0 <= i < ops.len() ==> #[trigger] step_shows(base, ops, literals, out, i)
        },
{
    lemma_replay_succeeds(base, ops, literals);
    lemma_replay_sums(base, ops, literals);
    if replay(base, ops, literals) is Ok {
        let out = replay(base, ops, literals)->Ok_0.0;
        assert forall|i: int| 0 <= i < ops.len() implies #[trigger] step_shows(
            base,
            ops,
            literals,
            out,
            i,
        ) by {
            lemma_replay_shows(base, ops, literals, i);
        }
    }
}

proof fn lemma_step_sums_prefix(ops: Seq<DeltaOpKind>, n: int)
    requires
        0 <= n < ops.len(),
    ensures
        step_sums(ops, n) == step_sums(ops.drop_last(), n),
    decreases n,
{
    if n > 0 {
        lemma_step_sums_prefix(ops, n - 1);
    }
}

proof fn lemma_step_sums_grow(ops: Seq<DeltaOpKind>, m: int, n: int)
    requires
        0 <= m <= n <= ops.len(),
    ensures
        0 <= step_sums(ops, m).0 <= step_sums(ops, n).0,
        0 <= step_sums(ops, m).1 <= step_sums(ops, n).1,
    decreases n,
{
    if m < n {
        lemma_step_sums_grow(ops, m, n - 1);
    } else if n > 0 {
        lemma_step_sums_grow(ops, n - 1, n - 1);
    }
}

/// A chunk is copied from the first place in the old file that holds a chunk with
/// its digest, if the two are equally long; otherwise, and where no chunk has its
/// digest, its bytes are sent.
pub proof fn law_known_chunks_are_copied(sig: Seq<(Seq<u8>, int)>, bytes: Seq<u8>, i: int)
    requires
        0 <= i <= sig.len(),
        forall|j: int|
            0 <= j < i ==> (#[trigger] sig[j]).0 != crate::hash::blake3_digest(bytes),
        i < sig.len() ==> sig[i].0 == crate::hash::blake3_digest(bytes),
    ensures
        delta_op(sig, bytes) == if i < sig.len() && sig[i].1 == bytes.len() {
            DeltaOpKind::Copy { offset: base_offset(sig, i) as u64, len: bytes.len() as u32 }
        } else {
            DeltaOpKind::Data { len: bytes.len() as u32 }
        },
{
    lemma_first_match_is(sig, crate::hash::blake3_digest(bytes), 0, i);
}

proof fn lemma_first_match_is(sig: Seq<(Seq<u8>, int)>, digest: Seq<u8>, from: int, i: int)
    requires
        0 <= from <= i <= sig.len(),
        forall|j: int| from <= j < i ==> (#[trigger] sig[j]).0 != digest,
        i < sig.len() ==> sig[i].0 == digest,
    ensures
        first_match(sig, digest, from) == if i < sig.len() {
            Some(i)
        } else {
            None
        },
    decreases i - from,
{
    if from < i {
        assert(sig[from].0 != digest);
        lemma_first_match_is(sig, digest, from + 1, i);
    }
}

/// A plan has one step for every chunk, and the literals are the bytes of exactly
/// those chunks whose step sends them, in order.
pub proof fn law_literals_are_the_sent_chunks(new: Seq<u8>, sig: Seq<(Seq<u8>, int)>, n: int)
    requires
        0 <= n < chunks(new).len(),
    ensures
        delta_ops(new, sig).len() == chunks(new).len(),
        delta_ops(new, sig)[n] == delta_op(
            sig,
            new.subrange(chunks(new)[n].0, chunks(new)[n].1),
        ),
        literals_upto(new, sig, 0) == Seq::<u8>::empty(),
        literals_upto(new, sig, n + 1) == literals_upto(new, sig, n) + (if delta_ops(
            new,
            sig,
        )[n] is Data {
            new.subrange(chunks(new)[n].0, chunks(new)[n].1)
        } else {
            Seq::<u8>::empty()
        }),
        delta_literals(new, sig) == literals_upto(new, sig, chunks(new).len() as int),
{
}

/// A list of references shows each chunk's digest and length, in order.
pub proof fn law_every_reference_shows(list: Seq<ChunkRef>, i: int)
    requires
        0 <= i < list.len(),
    ensures
        as_signature(list).len() == list.len(),
        as_signature(list)[i].0 == list[i].hash@,
        as_signature(list)[i].1 == list[i].len,
{
}

/// Steps are carried out one by one: the first that cannot be is what a replay fails
/// with, a copy past the end of the old file or data past the end of the literals,
/// and each that can be puts its bytes behind those of the steps before it.
pub proof fn law_replay_goes_step_by_step(
    base: Seq<u8>,
    ops: Seq<DeltaOpKind>,
    op: DeltaOpKind,
    literals: Seq<u8>,
)
    ensures
        replay(base, Seq::empty(), literals) == Ok::<(Seq<u8>, int), DeltaError>(
            (Seq::empty(), 0),
        ),
        replay(base, ops, literals) matches Err(e) ==> replay(base, ops.push(op), literals) == Err::<
            (Seq<u8>, int),
            DeltaError,
        >(e),
        replay(base, ops, literals) matches Ok((out, used)) ==> replay(base, ops.push(op), literals)
            == match op {
            DeltaOpKind::Copy { offset, len } => if offset + len <= base.len() {
                Ok((out + base.subrange(offset as int, offset + len), used))
            } else {
                Err(DeltaError::CopyOutOfBounds)
            },
            DeltaOpKind::Data { len } => if used + len <= literals.len() {
                Ok((out + literals.subrange(used, used + len), used + len))
            } else {
                Err(DeltaError::DataOutOfBounds)
            },
        },
{
    assert(ops.push(op).drop_last() =~= ops);
}

} // verus!
