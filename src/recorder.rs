use vstd::prelude::*;
use crate::codec::{encode_batch, encoded_batch, decoded_batch};
use crate::error::ArchiveError;
use crate::times::non_decreasing;

verus! {

/// Number of samples that fills a batch.
pub const BATCH_SIZE: usize = 200;

/// Gathers stream samples into batches and encodes each batch once it is full.
pub struct StreamRecorder {
    pub times: Vec<u64>,
    pub payloads: Vec<Vec<u8>>,
    /// Length in bytes of every batch written so far.
    pub lens: Vec<usize>,
}

impl StreamRecorder {
    /// The buffer holds fewer samples than a batch, in time order, one payload each.
    pub open spec fn wf(&self) -> bool {
        &&& self.times@.len() == self.payloads@.len()
        &&& self.times@.len() < BATCH_SIZE
        &&& non_decreasing(self.times@)
    }

    pub fn new() -> (r: StreamRecorder)
        ensures
            r.wf(),
            r.times@.len() == 0,
            r.lens@.len() == 0,
    {
        StreamRecorder { times: Vec::new(), payloads: Vec::new(), lens: Vec::new() }
    }

    /// Buffers one sample; once the buffer fills a batch it is encoded and returned.
    pub fn write_item(&mut self, time: u64, payload: Vec<u8>) -> (r: Result<Option<Vec<u8>>, ArchiveError>)
        requires
            old(self).wf(),
            old(self).times@.len() > 0 ==> old(self).times@.last() <= time,
        ensures
            final(self).wf(),
            ({
                let ts = old(self).times@.push(time);
                let items = old(self).payloads.deep_view().push(payload@);
                if ts.len() < BATCH_SIZE {
                    r == Ok::<Option<Vec<u8>>, ArchiveError>(None) && final(self).times@ == ts
                        && final(self).payloads.deep_view() == items && final(self).lens@ == old(self).lens@
                } else {
                    final(self).times@.len() == 0 && match r {
                        Ok(Some(b)) => encoded_batch(ts, items) == Ok::<Seq<u8>, ArchiveError>(b@)
                            && decoded_batch(b@) == Some((ts, items, b@.len()))
                            && final(self).lens@ == old(self).lens@.push(b@.len() as usize),
                        Ok(None) => false,
                        Err(e) => encoded_batch(ts, items) == Err::<Seq<u8>, ArchiveError>(e)
                            && final(self).lens@ == old(self).lens@,
                    }
                }
            }),
    {
        let ghost items = self.payloads.deep_view().push(payload@);
        let ghost before = self.payloads@;
        let ghost pv = payload@;
        self.times.push(time);
        self.payloads.push(payload);
        proof {
            assert(self.payloads@.last().deep_view() =~= pv);
            assert forall|i: int| 0 <= i < items.len() implies self.payloads.deep_view()[i] == items[i] by {
                if i < before.len() {
                    assert(self.payloads@[i] == before[i]);
                }
            }
            assert(self.payloads.deep_view() =~= items);
            assert(non_decreasing(self.times@)) by {
                assert forall|i: int, j: int| 0 <= i <= j < self.times@.len() implies self.times@[i] <= self.times@[j] by {
                    if j == self.times@.len() - 1 && i < j {
                        assert(old(self).times@[i] <= old(self).times@.last());
                    }
                }
            }
        }
        if self.times.len() >= BATCH_SIZE {
            match self.flush() {
                Ok(b) => Ok(Some(b)),
                Err(e) => Err(e),
            }
        } else {
            Ok(None)
        }
    }

    /// Encodes whatever the buffer holds as one batch, however short, and empties it.
    pub fn flush(&mut self) -> (r: Result<Vec<u8>, ArchiveError>)
        requires
            old(self).times@.len() == old(self).payloads@.len(),
            non_decreasing(old(self).times@),
        ensures
            final(self).wf(),
            final(self).times@.len() == 0,
            match r {
                Ok(b) => encoded_batch(old(self).times@, old(self).payloads.deep_view()) == Ok::<Seq<u8>, ArchiveError>(b@)
                    && decoded_batch(b@) == Some((old(self).times@, old(self).payloads.deep_view(), b@.len()))
                    && final(self).lens@ == old(self).lens@.push(b@.len() as usize),
                Err(e) => encoded_batch(old(self).times@, old(self).payloads.deep_view()) == Err::<Seq<u8>, ArchiveError>(e)
                    && final(self).lens@ == old(self).lens@,
            },
    {
        let r = encode_batch(&self.times, &self.payloads);
        self.times = Vec::new();
        self.payloads = Vec::new();
        match r {
            Ok(b) => {
                assert(b@ + Seq::<u8>::empty() =~= b@);
                assert(decoded_batch(b@ + Seq::<u8>::empty()) == Some((old(self).times@, old(self).payloads.deep_view(), b@.len())));
                self.lens.push(b.len());
                Ok(b)
            },
            Err(e) => Err(e),
        }
    }
}

} // verus!
