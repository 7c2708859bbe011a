use vstd::prelude::*;
use vstd::bytes::*;

verus! {

/// Fixed-size description of one encoded stream batch.
#[derive(Clone, Copy, Debug, PartialEq, Eq, Structural)]
pub struct StreamBatchHeader {
    pub times_len: u32,
    pub times_bits_len: u32,
    pub data_compressed_len: u32,
    pub data_uncompressed_len: u32,
}

pub const HEADER_LEN: usize = 16;

impl StreamBatchHeader {
    pub open spec fn spec_encode(self) -> Seq<u8> {
        spec_u32_to_le_bytes(self.times_len) + spec_u32_to_le_bytes(self.times_bits_len)
            + spec_u32_to_le_bytes(self.data_compressed_len) + spec_u32_to_le_bytes(
            self.data_uncompressed_len,
        )
    }

    pub fn encode(&self) -> (r: Vec<u8>)
        ensures
            r@ == self.spec_encode(),
            r@.len() == HEADER_LEN,
    {
        proof { lemma_auto_spec_u32_to_from_le_bytes(); }
        let mut r = u32_to_le_bytes(self.times_len);
        let mut b = u32_to_le_bytes(self.times_bits_len);
        r.append(&mut b);
        let mut c = u32_to_le_bytes(self.data_compressed_len);
        r.append(&mut c);
        let mut d = u32_to_le_bytes(self.data_uncompressed_len);
        r.append(&mut d);
        r
    }

    /// Reads a header from the first sixteen bytes of `b`.
    pub open spec fn spec_decode(b: Seq<u8>) -> StreamBatchHeader {
        StreamBatchHeader {
            times_len: spec_u32_from_le_bytes(b.subrange(0, 4)),
            times_bits_len: spec_u32_from_le_bytes(b.subrange(4, 8)),
            data_compressed_len: spec_u32_from_le_bytes(b.subrange(8, 12)),
            data_uncompressed_len: spec_u32_from_le_bytes(b.subrange(12, 16)),
        }
    }

    /// Reads the header that starts at `pos`.
    pub fn decode(b: &[u8], pos: usize) -> (r: StreamBatchHeader)
        requires
            pos + HEADER_LEN <= b@.len(),
        ensures
            r == Self::spec_decode(b@.skip(pos as int)),
    {
        let ghost s = b@.skip(pos as int);
        let n: usize = b.len();
        assert(pos + 16 <= n);
        let a = u32_from_le_bytes(vstd::slice::slice_subrange(b, pos, pos + 4));
        let c = u32_from_le_bytes(vstd::slice::slice_subrange(b, pos + 4, pos + 8));
        let d = u32_from_le_bytes(vstd::slice::slice_subrange(b, pos + 8, pos + 12));
        let e = u32_from_le_bytes(vstd::slice::slice_subrange(b, pos + 12, pos + 16));
        assert(b@.subrange(pos as int, pos + 4) =~= s.subrange(0, 4));
        assert(b@.subrange(pos + 4, pos + 8) =~= s.subrange(4, 8));
        assert(b@.subrange(pos + 8, pos + 12) =~= s.subrange(8, 12));
        assert(b@.subrange(pos + 12, pos + 16) =~= s.subrange(12, 16));
        StreamBatchHeader {
            times_len: a,
            times_bits_len: c,
            data_compressed_len: d,
            data_uncompressed_len: e,
        }
    }
}

/// Reading an encoded header, whatever follows it, gives back the header.
pub proof fn lemma_header_round_trip(h: StreamBatchHeader, rest: Seq<u8>)
    ensures
        StreamBatchHeader::spec_decode(h.spec_encode() + rest) == h,
        h.spec_encode().len() == HEADER_LEN,
{
    lemma_auto_spec_u32_to_from_le_bytes();
    let b = h.spec_encode() + rest;
    assert(b.subrange(0, 4) =~= spec_u32_to_le_bytes(h.times_len));
    assert(b.subrange(4, 8) =~= spec_u32_to_le_bytes(h.times_bits_len));
    assert(b.subrange(8, 12) =~= spec_u32_to_le_bytes(h.data_compressed_len));
    assert(b.subrange(12, 16) =~= spec_u32_to_le_bytes(h.data_uncompressed_len));
}

} // verus!
