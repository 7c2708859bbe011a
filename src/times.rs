use vstd::prelude::*;
use vstd::bytes::*;

verus! {

/// Marker for a delta too large for the two-byte form.
pub const WIDE_DELTA: u16 = 0xFFFF;

/// Timestamps that never decrease.
pub open spec fn non_decreasing(ts: Seq<u64>) -> bool {
    forall|i: int, j: int| 0 <= i <= j < ts.len() ==> ts[i] <= ts[j]
}

/// One delta: two bytes when it is below the marker, else the marker and eight bytes.
pub open spec fn delta_bytes(d: u64) -> Seq<u8> {
    if d < WIDE_DELTA as u64 {
        spec_u16_to_le_bytes(d as u16)
    } else {
        spec_u16_to_le_bytes(WIDE_DELTA) + spec_u64_to_le_bytes(d)
    }
}

/// The deltas of `ts`, each taken against the value before it (`prev` for the first).
pub open spec fn deltas_bytes(ts: Seq<u64>, prev: u64) -> Seq<u8>
    decreases ts.len(),
{
    if ts.len() == 0 {
        Seq::empty()
    } else {
        delta_bytes((ts[0] - prev) as u64) + deltas_bytes(ts.drop_first(), ts[0])
    }
}

/// Packed form of a timestamp column: the first value in full, then the deltas.
pub open spec fn packed_times(ts: Seq<u64>) -> Seq<u8> {
    if ts.len() == 0 {
        Seq::empty()
    } else {
        spec_u64_to_le_bytes(ts[0]) + deltas_bytes(ts.drop_first(), ts[0])
    }
}

/// Reading of a delta stream that follows `prev`.
pub open spec fn parse_deltas(b: Seq<u8>, prev: u64) -> Option<Seq<u64>>
    decreases b.len(),
{
    if b.len() == 0 {
        Some(Seq::empty())
    } else if b.len() < 2 {
        None
    } else {
        let short = spec_u16_from_le_bytes(b.take(2));
        let (d, used) = if short != WIDE_DELTA {
            (short as int, 2int)
        } else if b.len() < 10 {
            (-1int, 0int)
        } else {
            (spec_u64_from_le_bytes(b.subrange(2, 10)) as int, 10int)
        };
        if used == 0 || prev + d > u64::MAX {
            None
        } else {
            let t = (prev + d) as u64;
            match parse_deltas(b.skip(used), t) {
                Some(rest) => Some(seq![t] + rest),
                None => None,
            }
        }
    }
}

/// Reading of a packed timestamp column.
pub open spec fn unpacked_times(b: Seq<u8>) -> Option<Seq<u64>> {
    if b.len() == 0 {
        Some(Seq::empty())
    } else if b.len() < 8 {
        None
    } else {
        let t0 = spec_u64_from_le_bytes(b.take(8));
        match parse_deltas(b.skip(8), t0) {
            Some(rest) => Some(seq![t0] + rest),
            None => None,
        }
    }
}

proof fn lemma_deltas_append(ts: Seq<u64>, prev: u64, t: u64)
    requires
        ts.len() > 0 ==> ts.last() <= t,
        ts.len() == 0 ==> prev <= t,
    ensures
        deltas_bytes(ts.push(t), prev) == deltas_bytes(ts, prev) + delta_bytes(
            (t - (if ts.len() == 0 { prev } else { ts.last() })) as u64,
        ),
    decreases ts.len(),
{
    if ts.len() == 0 {
        assert(ts.push(t).drop_first() =~= Seq::<u64>::empty());
        assert(deltas_bytes(Seq::<u64>::empty(), t) == Seq::<u8>::empty());
        assert(deltas_bytes(ts.push(t), prev) =~= delta_bytes((t - prev) as u64));
    } else {
        lemma_deltas_append(ts.drop_first(), ts[0], t);
        assert(ts.push(t).drop_first() =~= ts.drop_first().push(t));
        let rest = deltas_bytes(ts.drop_first(), ts[0]);
        let last = delta_bytes((t - ts.last()) as u64);
        if ts.len() == 1 {
            assert(ts.drop_first().len() == 0);
        } else {
            assert(ts.drop_first().last() == ts.last());
        }
        assert(deltas_bytes(ts.push(t), prev) =~= delta_bytes((ts[0] - prev) as u64) + rest
            + last);
    }
}

proof fn lemma_parse_deltas_round_trip(ts: Seq<u64>, prev: u64)
    requires
        non_decreasing(ts),
        ts.len() > 0 ==> prev <= ts[0],
    ensures
        parse_deltas(deltas_bytes(ts, prev), prev) == Some(ts),
    decreases ts.len(),
{
    lemma_auto_spec_u16_to_from_le_bytes();
    lemma_auto_spec_u64_to_from_le_bytes();
    if ts.len() == 0 {
    } else {
        let d = (ts[0] - prev) as u64;
        let rest = ts.drop_first();
        lemma_parse_deltas_round_trip(rest, ts[0]);
        let b = deltas_bytes(ts, prev);
        let rb = deltas_bytes(rest, ts[0]);
        if d < WIDE_DELTA as u64 {
            assert(b.take(2) =~= spec_u16_to_le_bytes(d as u16));
            assert(b.skip(2) =~= rb);
        } else {
            assert(b.take(2) =~= spec_u16_to_le_bytes(WIDE_DELTA));
            assert(b.subrange(2, 10) =~= spec_u64_to_le_bytes(d));
            assert(b.skip(10) =~= rb);
        }
        assert(seq![ts[0]] + rest =~= ts);
    }
}

/// Reading a packed column gives back the timestamps that were packed.
pub proof fn lemma_times_round_trip(ts: Seq<u64>)
    requires
        non_decreasing(ts),
    ensures
        unpacked_times(packed_times(ts)) == Some(ts),
{
    lemma_auto_spec_u64_to_from_le_bytes();
    if ts.len() > 0 {
        let b = packed_times(ts);
        lemma_parse_deltas_round_trip(ts.drop_first(), ts[0]);
        assert(b.take(8) =~= spec_u64_to_le_bytes(ts[0]));
        assert(b.skip(8) =~= deltas_bytes(ts.drop_first(), ts[0]));
        assert(seq![ts[0]] + ts.drop_first() =~= ts);
    }
}

/// Packs a non-decreasing timestamp column.
pub fn pack_times(ts: &Vec<u64>) -> (r: Vec<u8>)
    requires
        non_decreasing(ts@),
    ensures
        r@ == packed_times(ts@),
{
    let mut out: Vec<u8> = Vec::new();
    if ts.len() == 0 {
        return out;
    }
    proof {
        lemma_auto_spec_u16_to_from_le_bytes();
        lemma_auto_spec_u64_to_from_le_bytes();
    }
    let mut first = u64_to_le_bytes(ts[0]);
    out.append(&mut first);
    let mut i: usize = 1;
    while i < ts.len()
        invariant
            1 <= i <= ts.len(),
            non_decreasing(ts@),
            out@ == spec_u64_to_le_bytes(ts@[0]) + deltas_bytes(ts@.subrange(1, i as int), ts@[0]),
        decreases ts.len() - i,
    {
        let d: u64 = ts[i] - ts[i - 1];
        proof {
            let pre = ts@.subrange(1, i as int);
            lemma_deltas_append(pre, ts@[0], ts@[i as int]);
            assert(ts@.subrange(1, i as int + 1) =~= pre.push(ts@[i as int]));
            if i > 1 {
                assert(pre.last() == ts@[i - 1]);
            }
        }
        if d < WIDE_DELTA as u64 {
            let mut b = u16_to_le_bytes(d as u16);
            out.append(&mut b);
        } else {
            let mut m = u16_to_le_bytes(WIDE_DELTA);
            let mut b = u64_to_le_bytes(d);
            out.append(&mut m);
            out.append(&mut b);
            proof {
                assert(out@ =~= spec_u64_to_le_bytes(ts@[0]) + deltas_bytes(ts@.subrange(1, i as int), ts@[0]) + delta_bytes(d));
            }
        }
        i = i + 1;
    }
    assert(ts@.subrange(1, ts.len() as int) =~= ts@.drop_first());
    out
}

/// Reads a packed timestamp column; `None` where the bytes are not one.
pub fn unpack_times(b: &[u8]) -> (r: Option<Vec<u64>>)
    ensures
        match r {
            Some(v) => unpacked_times(b@) == Some(v@),
            None => unpacked_times(b@).is_none(),
        },
{
    let mut out: Vec<u64> = Vec::new();
    if b.len() == 0 {
        assert(out@ =~= Seq::<u64>::empty());
        return Some(out);
    }
    if b.len() < 8 {
        return None;
    }
    let mut prev = u64_from_le_bytes(vstd::slice::slice_subrange(b, 0, 8));
    out.push(prev);
    let mut pos: usize = 8;
    assert(b@.subrange(0, 8) =~= b@.take(8));
    while pos < b.len()
        invariant
            8 <= pos <= b.len(),
            out@.len() > 0,
            out@.last() == prev,
            unpacked_times(b@) == (match parse_deltas(b@.skip(pos as int), prev) {
                Some(rest) => Some(out@ + rest),
                None => None::<Seq<u64>>,
            }),
        decreases b.len() - pos,
    {
        let rest = Ghost(b@.skip(pos as int));
        if b.len() - pos < 2 {
            return None;
        }
        let short = u16_from_le_bytes(vstd::slice::slice_subrange(b, pos, pos + 2));
        assert(b@.subrange(pos as int, pos + 2) =~= rest@.take(2));
        let d: u64;
        let used: usize;
        if short != WIDE_DELTA {
            d = short as u64;
            used = 2;
        } else {
            if b.len() - pos < 10 {
                return None;
            }
            d = u64_from_le_bytes(vstd::slice::slice_subrange(b, pos + 2, pos + 10));
            assert(b@.subrange(pos + 2, pos + 10) =~= rest@.subrange(2, 10));
            used = 10;
        }
        if d > u64::MAX - prev {
            return None;
        }
        let t = prev + d;
        assert(b@.skip(pos + used) =~= rest@.skip(used as int));
        proof {
            let inner = parse_deltas(rest@.skip(used as int), t);
            if let Some(tail) = inner {
                assert(out@ + (seq![t] + tail) =~= out@.push(t) + tail);
            }
        }
        out.push(t);
        prev = t;
        pos = pos + used;
    }
    assert(b@.skip(pos as int) =~= Seq::<u8>::empty());
    assert(out@ + Seq::<u64>::empty() =~= out@);
    Some(out)
}

} // verus!
