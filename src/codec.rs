use vstd::prelude::*;
use crate::error::ArchiveError;
use crate::header::{StreamBatchHeader, HEADER_LEN, lemma_header_round_trip};
use crate::times::{non_decreasing, packed_times, unpacked_times, pack_times, unpack_times, lemma_times_round_trip};

verus! {

/// Effort level of the payload compressor.
pub const COMPRESSION_LEVEL: i32 = 8;

/// What zstd's one-shot compressor makes of `data` at `level`; `None` where it fails.
pub uninterp spec fn zstd_compressed_of(data: Seq<u8>, level: int) -> Option<Seq<u8>>;

/// What zstd's one-shot decompressor makes of `data` with room for `capacity` bytes.
pub uninterp spec fn zstd_decompressed_of(data: Seq<u8>, capacity: nat) -> Option<Seq<u8>>;

/// bitcode's encoding of a list of byte strings.
pub uninterp spec fn bitcode_of(items: Seq<Seq<u8>>) -> Seq<u8>;

/// bitcode's reading of `b` as a list of byte strings; `None` where it fails.
pub uninterp spec fn bitcode_decoded_of(b: Seq<u8>) -> Option<Seq<Seq<u8>>>;

/// Relies on zstd::bulk::compress: a deterministic, lossless one-shot compression
/// of `data`; decompressing the result with room for `data` gives `data` back.
#[verifier::external_body]
fn zstd_compress(data: &[u8], level: i32) -> (r: Option<Vec<u8>>)
    ensures
        match r {
            Some(v) => zstd_compressed_of(data@, level as int) == Some(v@)
                && zstd_decompressed_of(v@, data@.len()) == Some(data@),
            None => zstd_compressed_of(data@, level as int).is_none(),
        },
{
    zstd::bulk::compress(data, level).ok()
}

/// Relies on zstd::bulk::decompress: one-shot decompression into at most `capacity` bytes.
#[verifier::external_body]
fn zstd_decompress(data: &[u8], capacity: usize) -> (r: Option<Vec<u8>>)
    ensures
        match r {
            Some(v) => zstd_decompressed_of(data@, capacity as nat) == Some(v@),
            None => zstd_decompressed_of(data@, capacity as nat).is_none(),
        },
{
    zstd::bulk::decompress(data, capacity).ok()
}

/// Relies on bitcode::encode for `Vec<Vec<u8>>`; bitcode::decode reads the
/// encoding back as the same value.
#[verifier::external_body]
fn bitcode_encode(items: &Vec<Vec<u8>>) -> (r: Vec<u8>)
    ensures
        r@ == bitcode_of(items.deep_view()),
        bitcode_decoded_of(r@) == Some(items.deep_view()),
{
    bitcode::encode(items)
}

/// Relies on bitcode::decode for `Vec<Vec<u8>>`.
#[verifier::external_body]
fn bitcode_decode(b: &[u8]) -> (r: Option<Vec<Vec<u8>>>)
    ensures
        match r {
            Some(v) => bitcode_decoded_of(b@) == Some(v.deep_view()),
            None => bitcode_decoded_of(b@).is_none(),
        },
{
    bitcode::decode::<Vec<Vec<u8>>>(b).ok()
}

/// The bytes of one batch: header, packed timestamps, compressed payload block.
pub open spec fn batch_frame(times: Seq<u8>, compressed: Seq<u8>, data_len: u32) -> Seq<u8> {
    StreamBatchHeader {
        times_len: times.len() as u32,
        times_bits_len: (8 * times.len()) as u32,
        data_compressed_len: compressed.len() as u32,
        data_uncompressed_len: data_len,
    }.spec_encode() + times + compressed
}

/// What encoding a batch gives: its bytes, or why it cannot be written.
pub open spec fn encoded_batch(ts: Seq<u64>, items: Seq<Seq<u8>>) -> Result<Seq<u8>, ArchiveError> {
    let times = packed_times(ts);
    let data = bitcode_of(items);
    match zstd_compressed_of(data, COMPRESSION_LEVEL as int) {
        None => Err(ArchiveError::CompressionFailed),
        Some(c) => if 8 * times.len() > u32::MAX || c.len() > u32::MAX || data.len() > u32::MAX {
            Err(ArchiveError::BatchTooLarge)
        } else {
            Ok(batch_frame(times, c, data.len() as u32))
        },
    }
}

/// Whether `s` starts with a well-formed batch frame (payload block not yet read).
pub open spec fn frame_ok(s: Seq<u8>) -> bool {
    s.len() >= HEADER_LEN && {
        let h = StreamBatchHeader::spec_decode(s);
        &&& h.times_bits_len == 8 * h.times_len
        &&& HEADER_LEN + h.times_len + h.data_compressed_len <= s.len()
        &&& unpacked_times(s.subrange(HEADER_LEN as int, HEADER_LEN + h.times_len)).is_some()
    }
}

/// The compressed payload block of a well-formed frame.
pub open spec fn frame_data(s: Seq<u8>) -> Seq<u8> {
    let h = StreamBatchHeader::spec_decode(s);
    s.subrange(HEADER_LEN + h.times_len, HEADER_LEN + h.times_len + h.data_compressed_len)
}

/// The timestamps of a well-formed frame.
pub open spec fn frame_times(s: Seq<u8>) -> Seq<u64> {
    let h = StreamBatchHeader::spec_decode(s);
    unpacked_times(s.subrange(HEADER_LEN as int, HEADER_LEN + h.times_len)).unwrap()
}

/// Length in bytes of a well-formed frame.
pub open spec fn frame_len(s: Seq<u8>) -> nat {
    let h = StreamBatchHeader::spec_decode(s);
    (HEADER_LEN + h.times_len + h.data_compressed_len) as nat
}

/// What reading the batch at the start of `s` gives: timestamps, payloads, bytes used.
pub open spec fn decoded_batch(s: Seq<u8>) -> Option<(Seq<u64>, Seq<Seq<u8>>, nat)> {
    if !frame_ok(s) {
        None
    } else {
        let h = StreamBatchHeader::spec_decode(s);
        match zstd_decompressed_of(frame_data(s), h.data_uncompressed_len as nat) {
            None => None,
            Some(d) => if d.len() != h.data_uncompressed_len {
                None
            } else {
                match bitcode_decoded_of(d) {
                    None => None,
                    Some(items) => if items.len() != frame_times(s).len() {
                        None
                    } else {
                        Some((frame_times(s), items, frame_len(s)))
                    },
                }
            },
        }
    }
}

/// Encodes one batch of samples: timestamps in order, one payload each.
pub fn encode_batch(ts: &Vec<u64>, items: &Vec<Vec<u8>>) -> (r: Result<Vec<u8>, ArchiveError>)
    requires
        non_decreasing(ts@),
        ts@.len() == items@.len(),
    ensures
        match r {
            Ok(v) => encoded_batch(ts@, items.deep_view()) == Ok::<Seq<u8>, ArchiveError>(v@),
            Err(e) => encoded_batch(ts@, items.deep_view()) == Err::<Seq<u8>, ArchiveError>(e),
        },
        r matches Ok(v) ==> forall|rest: Seq<u8>| #[trigger] decoded_batch(v@ + rest) == Some(
            (ts@, items.deep_view(), v@.len()),
        ),
{
    let mut times = pack_times(ts);
    let data = bitcode_encode(items);
    let compressed = zstd_compress(data.as_slice(), COMPRESSION_LEVEL);
    let mut compressed = match compressed {
        None => return Err(ArchiveError::CompressionFailed),
        Some(c) => c,
    };
    if times.len() > 0x1FFF_FFFF || compressed.len() > 0xFFFF_FFFF || data.len() > 0xFFFF_FFFF {
        return Err(ArchiveError::BatchTooLarge);
    }
    let header = StreamBatchHeader {
        times_len: times.len() as u32,
        times_bits_len: (8 * times.len()) as u32,
        data_compressed_len: compressed.len() as u32,
        data_uncompressed_len: data.len() as u32,
    };
    let mut out = header.encode();
    out.append(&mut times);
    out.append(&mut compressed);
    proof {
        assert forall|rest: Seq<u8>| #[trigger] decoded_batch(out@ + rest) == Some(
            (ts@, items.deep_view(), out@.len()),
        ) by {
            lemma_batch_round_trip(ts@, items.deep_view(), rest);
        }
    }
    Ok(out)
}

/// Where the parts of a batch frame lie.
pub struct FrameInfo {
    pub header: StreamBatchHeader,
    pub times: Vec<u64>,
    pub data_start: usize,
    pub next: usize,
}

/// Reads the header and timestamps of the batch frame that starts at `pos`.
pub fn decode_frame(b: &[u8], pos: usize) -> (r: Result<FrameInfo, ArchiveError>)
    requires
        pos <= b@.len(),
    ensures
        r.is_ok() == frame_ok(b@.skip(pos as int)),
        r matches Err(e) ==> e == ArchiveError::DecodeCorruption,
        r matches Ok(f) ==> {
            let s = b@.skip(pos as int);
            &&& f.header == StreamBatchHeader::spec_decode(s)
            &&& f.times@ == frame_times(s)
            &&& f.data_start == pos + HEADER_LEN + f.header.times_len
            &&& f.next == pos + frame_len(s)
            &&& b@.subrange(f.data_start as int, f.next as int) == frame_data(s)
        },
{
    let ghost s = b@.skip(pos as int);
    if b.len() - pos < HEADER_LEN {
        return Err(ArchiveError::DecodeCorruption);
    }
    let h = StreamBatchHeader::decode(b, pos);
    let tl = h.times_len as usize;
    let cl = h.data_compressed_len as usize;
    if h.times_bits_len as u64 != 8 * (h.times_len as u64) {
        return Err(ArchiveError::DecodeCorruption);
    }
    if b.len() - pos - HEADER_LEN < tl || b.len() - pos - HEADER_LEN - tl < cl {
        return Err(ArchiveError::DecodeCorruption);
    }
    let start = pos + HEADER_LEN;
    let times = unpack_times(vstd::slice::slice_subrange(b, start, start + tl));
    assert(b@.subrange(start as int, start + tl) =~= s.subrange(HEADER_LEN as int, HEADER_LEN + tl));
    match times {
        None => Err(ArchiveError::DecodeCorruption),
        Some(t) => {
            assert(b@.subrange((start + tl) as int, (start + tl + cl) as int) =~= frame_data(s));
            Ok(FrameInfo { header: h, times: t, data_start: start + tl, next: start + tl + cl })
        },
    }
}

/// Reads the batch that starts at `pos`: its timestamps, its payloads and where the next begins.
pub fn decode_batch(b: &[u8], pos: usize) -> (r: Result<(Vec<u64>, Vec<Vec<u8>>, usize), ArchiveError>)
    requires
        pos <= b@.len(),
    ensures
        match r {
            Ok((ts, items, next)) => decoded_batch(b@.skip(pos as int)) == Some(
                (ts@, items.deep_view(), (next - pos) as nat),
            ) && pos <= next,
            Err(e) => e == ArchiveError::DecodeCorruption && decoded_batch(b@.skip(pos as int)).is_none(),
        },
{
    let f = match decode_frame(b, pos) {
        Err(e) => return Err(e),
        Ok(f) => f,
    };
    let ulen = f.header.data_uncompressed_len as usize;
    let data = match zstd_decompress(vstd::slice::slice_subrange(b, f.data_start, f.next), ulen) {
        None => return Err(ArchiveError::DecodeCorruption),
        Some(d) => d,
    };
    if data.len() != ulen {
        return Err(ArchiveError::DecodeCorruption);
    }
    let items = match bitcode_decode(data.as_slice()) {
        None => return Err(ArchiveError::DecodeCorruption),
        Some(v) => v,
    };
    if items.len() != f.times.len() {
        return Err(ArchiveError::DecodeCorruption);
    }
    Ok((f.times, items, f.next))
}

/// A frame written for non-decreasing timestamps reads back as those timestamps and
/// the same compressed block, whatever bytes follow it.
pub proof fn lemma_frame_round_trip(ts: Seq<u64>, compressed: Seq<u8>, data_len: u32, rest: Seq<u8>)
    requires
        non_decreasing(ts),
        8 * packed_times(ts).len() <= u32::MAX,
        compressed.len() <= u32::MAX,
    ensures
        ({
            let s = batch_frame(packed_times(ts), compressed, data_len) + rest;
            &&& frame_ok(s)
            &&& frame_times(s) == ts
            &&& frame_data(s) == compressed
            &&& frame_len(s) == batch_frame(packed_times(ts), compressed, data_len).len()
            &&& StreamBatchHeader::spec_decode(s).data_uncompressed_len == data_len
        }),
{
    let p = packed_times(ts);
    let h = StreamBatchHeader {
        times_len: p.len() as u32,
        times_bits_len: (8 * p.len()) as u32,
        data_compressed_len: compressed.len() as u32,
        data_uncompressed_len: data_len,
    };
    let s = batch_frame(p, compressed, data_len) + rest;
    lemma_header_round_trip(h, p + compressed + rest);
    assert(s =~= h.spec_encode() + (p + compressed + rest));
    lemma_times_round_trip(ts);
    assert(s.subrange(HEADER_LEN as int, HEADER_LEN + p.len()) =~= p);
    assert(frame_data(s) =~= compressed);
}

/// Decoding an encoded batch, whatever bytes follow it, gives back its
/// timestamps and payloads in order, wherever the compressor and bitcode read
/// back what they wrote (as `encode_batch`'s calls to them establish).
pub proof fn lemma_batch_round_trip(ts: Seq<u64>, items: Seq<Seq<u8>>, rest: Seq<u8>)
    requires
        non_decreasing(ts),
        ts.len() == items.len(),
        encoded_batch(ts, items) is Ok,
        ({
            let data = bitcode_of(items);
            let c = zstd_compressed_of(data, COMPRESSION_LEVEL as int).unwrap();
            &&& zstd_decompressed_of(c, data.len()) == Some(data)
            &&& bitcode_decoded_of(data) == Some(items)
        }),
    ensures
        decoded_batch(encoded_batch(ts, items).unwrap() + rest) == Some(
            (ts, items, encoded_batch(ts, items).unwrap().len()),
        ),
{
    let data = bitcode_of(items);
    let c = zstd_compressed_of(data, COMPRESSION_LEVEL as int).unwrap();
    lemma_frame_round_trip(ts, c, data.len() as u32, rest);
}

} // verus!
