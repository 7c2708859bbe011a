use vstd::prelude::*;
use crate::codec::{decode_batch, decoded_batch};
use crate::error::ArchiveError;

verus! {

/// Spacing of the samples that a stream query yields.
pub const STREAM_STEP: i64 = 3;

/// The stream's samples: timestamps and one payload each.
pub struct StreamSeries {
    pub times: Vec<u64>,
    pub payloads: Vec<Vec<u8>>,
}

/// One stream sample in a response.
pub struct StreamRow {
    pub valid_from: i64,
    pub data: Vec<u8>,
}

/// What reading a whole stream file gives: every batch, in order, to the end.
pub open spec fn series_of(s: Seq<u8>) -> Option<(Seq<u64>, Seq<Seq<u8>>)>
    decreases s.len(),
{
    if s.len() == 0 {
        Some((Seq::empty(), Seq::empty()))
    } else {
        match decoded_batch(s) {
            None => None,
            Some((ts, items, used)) => if used == 0 || used > s.len() {
                None
            } else {
                match series_of(s.skip(used as int)) {
                    None => None,
                    Some((rt, ri)) => Some((ts + rt, items + ri)),
                }
            },
        }
    }
}

/// Index of the last sample among the first `n` timed at or before `at`.
pub open spec fn last_at_or_before(times: Seq<u64>, at: i64, n: nat) -> Option<int>
    decreases n,
{
    if n == 0 {
        None
    } else if times[n - 1] as int <= at {
        Some(n - 1)
    } else {
        last_at_or_before(times, at, (n - 1) as nat)
    }
}

/// The stream sampled at `start, start + 3, ...` (the first `n` of those times):
/// at each, the payload of the last sample at or before it; `None` where some time
/// has no sample at or before it.
pub open spec fn sampled(times: Seq<u64>, payloads: Seq<Seq<u8>>, start: i64, n: nat) -> Option<Seq<(i64, Seq<u8>)>>
    decreases n,
{
    if n == 0 {
        Some(Seq::empty())
    } else {
        let at = (start + 3 * (n - 1)) as i64;
        match sampled(times, payloads, start, (n - 1) as nat) {
            None => None,
            Some(prev) => match last_at_or_before(times, at, times.len()) {
                Some(j) => Some(prev.push((at, payloads[j]))),
                None => None,
            },
        }
    }
}

proof fn lemma_sampled_stays_none(times: Seq<u64>, payloads: Seq<Seq<u8>>, start: i64, i: nat, n: nat)
    requires
        i <= n,
        sampled(times, payloads, start, i) is None,
    ensures
        sampled(times, payloads, start, n) is None,
    decreases n - i,
{
    if i < n {
        lemma_sampled_stays_none(times, payloads, start, i + 1, n);
    }
}

pub open spec fn stream_rows_view(s: Seq<StreamRow>) -> Seq<(i64, Seq<u8>)> {
    s.map_values(|r: StreamRow| (r.valid_from, r.data@))
}

/// Number of sample times `start, start + 3, ...` below `end`.
pub open spec fn sample_count(start: i64, end: i64) -> nat {
    if end <= start {
        0
    } else {
        ((end - start + 2) / 3) as nat
    }
}

/// Keeps a value within the range of `i64`.
pub open spec fn clamp_i64(x: int) -> i64 {
    if x < i64::MIN {
        i64::MIN
    } else if x > i64::MAX {
        i64::MAX
    } else {
        x as i64
    }
}

/// The window `[start, end)` of a stream query. A missing bound is the other bound
/// moved by `count` steps; with neither, the window ends at the far end of time.
pub open spec fn spec_stream_window(after: Option<i64>, before: Option<i64>, count: nat) -> (i64, i64) {
    let span = 3 * count;
    let start = match after {
        Some(a) => a,
        None => clamp_i64(
            match before {
                Some(b) => b as int,
                None => i64::MAX as int,
            } - span,
        ),
    };
    let end = match before {
        Some(b) => b,
        None => clamp_i64(
            match after {
                Some(a) => a as int,
                None => 0int,
            } + span,
        ),
    };
    (start, end)
}

impl StreamSeries {
    pub open spec fn wf(&self) -> bool {
        self.times@.len() == self.payloads@.len()
    }

    /// Reads a stream file: batches one after another up to the end of the bytes.
    pub fn from_bytes(b: &[u8]) -> (r: Result<StreamSeries, ArchiveError>)
        ensures
            match r {
                Ok(s) => s.wf() && series_of(b@) == Some((s.times@, s.payloads.deep_view())),
                Err(e) => e == ArchiveError::DecodeCorruption && series_of(b@).is_none(),
            },
    {
        let mut times: Vec<u64> = Vec::new();
        let mut payloads: Vec<Vec<u8>> = Vec::new();
        let mut pos: usize = 0;
        assert(b@.skip(0) =~= b@);
        while pos < b.len()
            invariant
                pos <= b@.len(),
                times@.len() == payloads@.len(),
                series_of(b@) == (match series_of(b@.skip(pos as int)) {
                    Some((rt, ri)) => Some((times@ + rt, payloads.deep_view() + ri)),
                    None => None,
                }),
            decreases b.len() - pos,
        {
            let ghost rest = b@.skip(pos as int);
            let (mut ts, mut items, next) = match decode_batch(b, pos) {
                Err(e) => return Err(e),
                Ok(v) => v,
            };
            if next <= pos || next > b.len() {
                return Err(ArchiveError::DecodeCorruption);
            }
            assert(rest.skip(next - pos) =~= b@.skip(next as int));
            let ghost old_times = times@;
            let ghost old_payloads = payloads.deep_view();
            let ghost its = items.deep_view();
            times.append(&mut ts);
            payloads.append(&mut items);
            proof {
                assert(payloads.deep_view() =~= old_payloads + its);
                if let Some((rt, ri)) = series_of(b@.skip(next as int)) {
                    assert(old_times + (times@.subrange(old_times.len() as int, times@.len() as int) + rt) =~= times@ + rt);
                    assert(old_payloads + (its + ri) =~= payloads.deep_view() + ri);
                }
            }
            pos = next;
        }
        assert(b@.skip(pos as int) =~= Seq::<u8>::empty());
        assert(times@ + Seq::<u64>::empty() =~= times@);
        assert(payloads.deep_view() + Seq::<Seq<u8>>::empty() =~= payloads.deep_view());
        Ok(StreamSeries { times, payloads })
    }

    /// Index of the last sample timed at or before `at`.
    pub fn sample_at(&self, at: i64) -> (r: Option<usize>)
        ensures
            match r {
                Some(j) => last_at_or_before(self.times@, at, self.times@.len()) == Some(j as int),
                None => last_at_or_before(self.times@, at, self.times@.len()) is None,
            },
            r matches Some(j) ==> j < self.times@.len(),
    {
        let mut i: usize = self.times.len();
        while i > 0
            invariant
                i <= self.times@.len(),
                last_at_or_before(self.times@, at, self.times@.len()) == last_at_or_before(self.times@, at, i as nat),
            decreases i,
        {
            if self.times[i - 1] as i128 <= at as i128 {
                return Some(i - 1);
            }
            i = i - 1;
        }
        None
    }
}

/// The sample times `start, start + 3, ...` that lie below `end`.
pub fn stream_sample_times(start: i64, end: i64) -> (r: Vec<i64>)
    ensures
        r@.len() == sample_count(start, end),
        forall|k: int| 0 <= k < r@.len() ==> r@[k] == start + 3 * k && r@[k] < end,
{
    let mut out: Vec<i64> = Vec::new();
    if end <= start {
        return out;
    }
    let mut t: i64 = start;
    loop
        invariant_except_break
            out@.len() * 3 == t - start,
        invariant
            start <= t < end,
            forall|k: int| 0 <= k < out@.len() ==> out@[k] == start + 3 * k && out@[k] < end,
        ensures
            out@.len() == sample_count(start, end),
        decreases end - t,
    {
        out.push(t);
        if (end as i128) - (t as i128) <= 3 {
            assert(out@.len() == sample_count(start, end));
            break;
        }
        t = t + STREAM_STEP;
    }
    out
}

/// The window `[start, end)` of a stream query.
pub fn stream_window(after: Option<i64>, before: Option<i64>, count: usize) -> (r: (i64, i64))
    ensures
        r == spec_stream_window(after, before, count as nat),
{
    let span: i128 = 3 * (count as i128);
    let start = match after {
        Some(a) => a,
        None => {
            let b: i128 = match before {
                Some(b) => b as i128,
                None => i64::MAX as i128,
            };
            clamp(b - span)
        },
    };
    let end = match before {
        Some(b) => b,
        None => {
            let a: i128 = match after {
                Some(a) => a as i128,
                None => 0,
            };
            clamp(a + span)
        },
    };
    (start, end)
}

fn clamp(x: i128) -> (r: i64)
    ensures
        r == clamp_i64(x as int),
{
    if x < i64::MIN as i128 {
        i64::MIN
    } else if x > i64::MAX as i128 {
        i64::MAX
    } else {
        x as i64
    }
}

/// The stream sampled every three time units over `[start, end)`: at each time,
/// the payload of the last sample at or before it. A time before the first sample
/// fails the whole answer with `NoVersionAtTime`.
pub fn stream_rows(series: &StreamSeries, start: i64, end: i64) -> (r: Result<Vec<StreamRow>, ArchiveError>)
    requires
        series.wf(),
    ensures
        match r {
            Ok(v) => sampled(series.times@, series.payloads.deep_view(), start, sample_count(start, end))
                == Some(stream_rows_view(v@)) && v@.len() == sample_count(start, end),
            Err(e) => e == ArchiveError::NoVersionAtTime
                && sampled(series.times@, series.payloads.deep_view(), start, sample_count(start, end)) is None,
        },
{
    let times = stream_sample_times(start, end);
    let mut out: Vec<StreamRow> = Vec::new();
    let mut i: usize = 0;
    assert(stream_rows_view(out@) =~= Seq::<(i64, Seq<u8>)>::empty());
    while i < times.len()
        invariant
            series.wf(),
            i <= times@.len(),
            out@.len() == i,
            times@.len() == sample_count(start, end),
            forall|k: int| 0 <= k < times@.len() ==> times@[k] == start + 3 * k && times@[k] < end,
            sampled(series.times@, series.payloads.deep_view(), start, i as nat) == Some(stream_rows_view(out@)),
        decreases times.len() - i,
    {
        let at = times[i];
        let ghost before = stream_rows_view(out@);
        assert(at == (start + 3 * ((i + 1) as nat - 1)) as i64);
        assert(((i + 1) as nat - 1) as nat == i as nat);
        match series.sample_at(at) {
            None => {
                proof {
                    assert(sampled(series.times@, series.payloads.deep_view(), start, (i + 1) as nat) is None);
                    lemma_sampled_stays_none(series.times@, series.payloads.deep_view(), start, (i + 1) as nat, sample_count(start, end));
                }
                return Err(ArchiveError::NoVersionAtTime);
            },
            Some(j) => {
                let data = series.payloads[j].clone();
                proof {
                    assert(data@ =~= series.payloads.deep_view()[j as int]);
                }
                let ghost dv = data@;
                out.push(StreamRow { valid_from: at, data });
                assert(last_at_or_before(series.times@, at, series.times@.len()) == Some(j as int));
                assert(stream_rows_view(out@) =~= before.push((at, dv)));
            },
        }
        i = i + 1;
    }
    Ok(out)
}

/// Reading the same stream bytes twice gives the same series: a read depends on
/// the bytes alone.
pub proof fn lemma_reread_agrees(b: Seq<u8>, first: StreamSeries, second: StreamSeries)
    requires
        series_of(b) == Some((first.times@, first.payloads.deep_view())),
        series_of(b) == Some((second.times@, second.payloads.deep_view())),
    ensures
        first.times@ == second.times@,
        first.payloads.deep_view() == second.payloads.deep_view(),
{
}

} // verus!
