use vstd::prelude::*;
use crate::error::ArchiveError;

verus! {

/// One field of an entity value set to a new content.
#[derive(Clone, Copy, Debug, PartialEq, Eq, Structural)]
pub struct FieldChange {
    pub field: u64,
    pub value: i64,
}

/// A structural diff recorded at `time`: field changes applied in order.
#[derive(Clone, Debug)]
pub struct TapeDiff {
    pub time: i64,
    pub changes: Vec<FieldChange>,
}

/// One entity's history: a baseline at `base_time` and a chain of diffs.
#[derive(Clone, Debug)]
pub struct Tape {
    pub base_time: i64,
    pub baseline: Vec<i64>,
    pub diffs: Vec<TapeDiff>,
}

/// One reconstructed version of an entity.
#[derive(Clone, Debug)]
pub struct Version {
    pub time: i64,
    pub value: Vec<i64>,
}

impl View for Version {
    type V = (i64, Seq<i64>);

    open spec fn view(&self) -> (i64, Seq<i64>) {
        (self.time, self.value@)
    }
}

pub open spec fn versions_view(s: Seq<Version>) -> Seq<(i64, Seq<i64>)> {
    s.map_values(|v: Version| v@)
}

/// Applies the changes in order; `None` where one names a field the value lacks.
pub open spec fn patched(v: Seq<i64>, cs: Seq<FieldChange>) -> Option<Seq<i64>>
    decreases cs.len(),
{
    if cs.len() == 0 {
        Some(v)
    } else if cs[0].field < v.len() {
        patched(v.update(cs[0].field as int, cs[0].value), cs.drop_first())
    } else {
        None
    }
}

/// Folds `v` through the diffs whose time is at most `t`, in chain order.
pub open spec fn fold_until(v: Seq<i64>, ds: Seq<TapeDiff>, t: i64) -> Option<Seq<i64>>
    decreases ds.len(),
{
    if ds.len() == 0 {
        Some(v)
    } else if ds[0].time <= t {
        match patched(v, ds[0].changes@) {
            Some(w) => fold_until(w, ds.drop_first(), t),
            None => None,
        }
    } else {
        fold_until(v, ds.drop_first(), t)
    }
}

/// Folds `v` through the diffs whose time lies in `(t1, t2]`, in chain order.
pub open spec fn fold_between(v: Seq<i64>, ds: Seq<TapeDiff>, t1: i64, t2: i64) -> Option<Seq<i64>>
    decreases ds.len(),
{
    if ds.len() == 0 {
        Some(v)
    } else if t1 < ds[0].time && ds[0].time <= t2 {
        match patched(v, ds[0].changes@) {
            Some(w) => fold_between(w, ds.drop_first(), t1, t2),
            None => None,
        }
    } else {
        fold_between(v, ds.drop_first(), t1, t2)
    }
}

/// The versions that the diffs make from `v`, those timed in `[start, end)`, up to
/// the first diff at or after `end`. Diffs that share a time make one version: the
/// value after the last of them.
pub open spec fn versions_from(v: Seq<i64>, ds: Seq<TapeDiff>, start: i64, end: i64) -> Option<
    Seq<(i64, Seq<i64>)>,
>
    decreases ds.len(),
{
    if ds.len() == 0 || ds[0].time >= end {
        Some(Seq::empty())
    } else {
        match patched(v, ds[0].changes@) {
            None => None,
            Some(w) => match versions_from(w, ds.drop_first(), start, end) {
                None => None,
                Some(rest) => Some(
                    if start <= ds[0].time && (ds.len() == 1 || ds[1].time != ds[0].time) {
                        seq![(ds[0].time, w)] + rest
                    } else {
                        rest
                    },
                ),
            },
        }
    }
}

/// Time of the newest version at or before `t`: the latest diff time up to `t`,
/// or `base` where there is none.
pub open spec fn newest_time(base: i64, ds: Seq<TapeDiff>, t: i64) -> i64
    decreases ds.len(),
{
    if ds.len() == 0 {
        base
    } else if ds[0].time <= t {
        newest_time(ds[0].time, ds.drop_first(), t)
    } else {
        newest_time(base, ds.drop_first(), t)
    }
}

pub open spec fn sorted_diffs(ds: Seq<TapeDiff>) -> bool {
    forall|i: int, j: int| 0 <= i <= j < ds.len() ==> ds[i].time <= ds[j].time
}

impl Tape {
    /// Diffs come in time order, none before the baseline.
    pub open spec fn wf(&self) -> bool {
        &&& sorted_diffs(self.diffs@)
        &&& forall|i: int| 0 <= i < self.diffs@.len() ==> self.base_time <= #[trigger] self.diffs@[i].time
    }

    /// The entity as it stood at `t`.
    pub open spec fn spec_reconstruct_at(&self, t: i64) -> Result<Seq<i64>, ArchiveError> {
        if t < self.base_time {
            Err(ArchiveError::NoVersionAtTime)
        } else {
            match fold_until(self.baseline@, self.diffs@, t) {
                Some(v) => Ok(v),
                None => Err(ArchiveError::DecodeCorruption),
            }
        }
    }

    /// Time from which the version that stands at `t` is valid.
    pub open spec fn spec_valid_from(&self, t: i64) -> i64 {
        newest_time(self.base_time, self.diffs@, t)
    }

    /// Every version timed in `[start, end)`, baseline first, in chain order.
    pub open spec fn spec_versions_in_range(&self, start: i64, end: i64) -> Result<
        Seq<(i64, Seq<i64>)>,
        ArchiveError,
    > {
        let head: Seq<(i64, Seq<i64>)> = if start <= self.base_time && self.base_time < end
            && (self.diffs@.len() == 0 || self.diffs@[0].time != self.base_time) {
            seq![(self.base_time, self.baseline@)]
        } else {
            Seq::empty()
        };
        match versions_from(self.baseline@, self.diffs@, start, end) {
            Some(rest) => Ok(head + rest),
            None => Err(ArchiveError::DecodeCorruption),
        }
    }

    /// Reconstructs the entity at `t` by folding the baseline through the diffs up to `t`.
    pub fn reconstruct_at(&self, t: i64) -> (r: Result<Vec<i64>, ArchiveError>)
        ensures
            match r {
                Ok(v) => self.spec_reconstruct_at(t) == Ok::<Seq<i64>, ArchiveError>(v@),
                Err(e) => self.spec_reconstruct_at(t) == Err::<Seq<i64>, ArchiveError>(e),
            },
    {
        if t < self.base_time {
            return Err(ArchiveError::NoVersionAtTime);
        }
        let mut cur = self.baseline.clone();
        let mut i: usize = 0;
        assert(cur@ =~= self.baseline@);
        assert(self.diffs@.skip(0) =~= self.diffs@);
        while i < self.diffs.len()
            invariant
                i <= self.diffs@.len(),
                self.base_time <= t,
                fold_until(self.baseline@, self.diffs@, t) == fold_until(cur@, self.diffs@.skip(i as int), t),
            decreases self.diffs.len() - i,
        {
            let ghost rest = self.diffs@.skip(i as int);
            assert(rest.drop_first() =~= self.diffs@.skip(i + 1));
            assert(rest[0] == self.diffs@[i as int]);
            if self.diffs[i].time <= t {
                match patch(&cur, &self.diffs[i].changes) {
                    None => {
                        assert(fold_until(cur@, rest, t).is_none());
                        return Err(ArchiveError::DecodeCorruption);
                    },
                    Some(w) => {
                        cur = w;
                    },
                }
            }
            i = i + 1;
        }
        assert(self.diffs@.skip(i as int) =~= Seq::<TapeDiff>::empty());
        Ok(cur)
    }

    /// Time from which the version that stands at `t` is valid.
    pub fn valid_from(&self, t: i64) -> (r: i64)
        ensures
            r == self.spec_valid_from(t),
    {
        let mut cur: i64 = self.base_time;
        let mut i: usize = 0;
        assert(self.diffs@.skip(0) =~= self.diffs@);
        while i < self.diffs.len()
            invariant
                i <= self.diffs@.len(),
                self.spec_valid_from(t) == newest_time(cur, self.diffs@.skip(i as int), t),
            decreases self.diffs.len() - i,
        {
            let ghost rest = self.diffs@.skip(i as int);
            assert(rest.drop_first() =~= self.diffs@.skip(i + 1));
            assert(rest[0] == self.diffs@[i as int]);
            if self.diffs[i].time <= t {
                cur = self.diffs[i].time;
            }
            i = i + 1;
        }
        assert(self.diffs@.skip(i as int) =~= Seq::<TapeDiff>::empty());
        cur
    }

    /// Every version timed in `[start, end)`, in ascending order.
    pub fn versions_in_range(&self, start: i64, end: i64) -> (r: Result<Vec<Version>, ArchiveError>)
        requires
            self.wf(),
        ensures
            match r {
                Ok(v) => self.spec_versions_in_range(start, end) == Ok::<Seq<(i64, Seq<i64>)>, ArchiveError>(versions_view(v@)),
                Err(e) => self.spec_versions_in_range(start, end) == Err::<Seq<(i64, Seq<i64>)>, ArchiveError>(e),
            },
            r matches Ok(v) ==> forall|a: int, b: int| 0 <= a < b < v@.len() ==> v@[a].time < v@[b].time,
    {
        let mut out: Vec<Version> = Vec::new();
        if start <= self.base_time && self.base_time < end
            && (self.diffs.len() == 0 || self.diffs[0].time != self.base_time) {
            out.push(Version { time: self.base_time, value: self.baseline.clone() });
        }
        let ghost head = versions_view(out@);
        assert(head =~= (if start <= self.base_time && self.base_time < end
            && (self.diffs@.len() == 0 || self.diffs@[0].time != self.base_time) {
            seq![(self.base_time, self.baseline@)]
        } else {
            Seq::<(i64, Seq<i64>)>::empty()
        }));
        let mut cur = self.baseline.clone();
        let mut i: usize = 0;
        assert(cur@ =~= self.baseline@);
        assert(self.diffs@.skip(0) =~= self.diffs@);
        while i < self.diffs.len()
            invariant
                i <= self.diffs@.len(),
                self.wf(),
                forall|a: int, b: int| 0 <= a < b < out@.len() ==> out@[a].time < out@[b].time,
                i < self.diffs@.len() ==> forall|a: int| 0 <= a < out@.len() ==> out@[a].time < self.diffs@[i as int].time,
                self.spec_versions_in_range(start, end) == (match versions_from(cur@, self.diffs@.skip(i as int), start, end) {
                    Some(rest) => Ok(versions_view(out@) + rest),
                    None => Err(ArchiveError::DecodeCorruption),
                }),
            decreases self.diffs.len() - i,
        {
            let ghost rest = self.diffs@.skip(i as int);
            assert(rest.drop_first() =~= self.diffs@.skip(i + 1));
            assert(rest[0] == self.diffs@[i as int]);
            assert(i + 1 < self.diffs@.len() ==> rest[1] == self.diffs@[i + 1]);
            if self.diffs[i].time >= end {
                assert(versions_view(out@) + Seq::<(i64, Seq<i64>)>::empty() =~= versions_view(out@));
                return Ok(out);
            }
            match patch(&cur, &self.diffs[i].changes) {
                None => return Err(ArchiveError::DecodeCorruption),
                Some(w) => {
                    let time = self.diffs[i].time;
                    if start <= time && (i + 1 == self.diffs.len() || self.diffs[i + 1].time != time) {
                        let ghost before = versions_view(out@);
                        out.push(Version { time, value: w.clone() });
                        proof {
                            assert(versions_view(out@) =~= before.push((time, w@)));
                            if let Some(tail) = versions_from(w@, self.diffs@.skip(i + 1), start, end) {
                                assert(before + (seq![(time, w@)] + tail) =~= before.push((time, w@)) + tail);
                            }
                        }
                    }
                    cur = w;
                    assert(i + 1 < self.diffs@.len() ==> self.diffs@[i as int].time <= self.diffs@[i + 1].time);
                },
            }
            i = i + 1;
        }
        assert(self.diffs@.skip(i as int) =~= Seq::<TapeDiff>::empty());
        assert(versions_view(out@) + Seq::<(i64, Seq<i64>)>::empty() =~= versions_view(out@));
        Ok(out)
    }
}

/// Applies a diff's changes to a value.
pub fn patch(v: &Vec<i64>, cs: &Vec<FieldChange>) -> (r: Option<Vec<i64>>)
    ensures
        match r {
            Some(w) => patched(v@, cs@) == Some(w@),
            None => patched(v@, cs@).is_none(),
        },
{
    let mut cur = v.clone();
    let mut i: usize = 0;
    assert(cur@ =~= v@);
    assert(cs@.skip(0) =~= cs@);
    while i < cs.len()
        invariant
            i <= cs@.len(),
            cur@.len() == v@.len(),
            patched(v@, cs@) == patched(cur@, cs@.skip(i as int)),
        decreases cs.len() - i,
    {
        assert(cs@.skip(i as int).drop_first() =~= cs@.skip(i + 1));
        let c = cs[i];
        if c.field >= cur.len() as u64 {
            return None;
        }
        cur.set(c.field as usize, c.value);
        i = i + 1;
    }
    assert(cs@.skip(i as int) =~= Seq::<FieldChange>::empty());
    Some(cur)
}

/// The changes that turn `old` into `new`, field by field.
pub fn diff(old: &Vec<i64>, new: &Vec<i64>) -> (r: Vec<FieldChange>)
    requires
        old@.len() == new@.len(),
    ensures
        patched(old@, r@) == Some(new@),
        forall|k: int| 0 <= k < r@.len() ==> old@[r@[k].field as int] != new@[r@[k].field as int],
{
    let mut out: Vec<FieldChange> = Vec::new();
    let mut i: usize = 0;
    while i < old.len()
        invariant
            i <= old@.len(),
            old@.len() == new@.len(),
            forall|k: int| 0 <= k < out@.len() ==> out@[k].field < i,
            forall|k: int| 0 <= k < out@.len() ==> old@[out@[k].field as int] != new@[out@[k].field as int],
            patched(old@, out@) == Some(new@.take(i as int) + old@.skip(i as int)),
        decreases old.len() - i,
    {
        let ghost mid = new@.take(i as int) + old@.skip(i as int);
        if old[i] != new[i] {
            let c = FieldChange { field: i as u64, value: new[i] };
            proof { lemma_patched_push(old@, out@, c); }
            out.push(c);
        }
        assert(mid.update(i as int, new@[i as int]) =~= new@.take(i + 1) + old@.skip(i + 1));
        assert(old@[i as int] == new@[i as int] ==> mid =~= new@.take(i + 1) + old@.skip(i + 1));
        i = i + 1;
    }
    assert(new@.take(old@.len() as int) + old@.skip(old@.len() as int) =~= new@);
    out
}

proof fn lemma_fold_after(v: Seq<i64>, ds: Seq<TapeDiff>, t1: i64, t2: i64)
    requires
        forall|i: int| 0 <= i < ds.len() ==> t1 < #[trigger] ds[i].time,
    ensures
        fold_until(v, ds, t1) == Some(v),
        fold_until(v, ds, t2) == fold_between(v, ds, t1, t2),
    decreases ds.len(),
{
    if ds.len() > 0 {
        assert(t1 < ds[0].time);
        assert forall|i: int| 0 <= i < ds.drop_first().len() implies t1 < #[trigger] ds.drop_first()[i].time by {
            assert(ds.drop_first()[i] == ds[i + 1]);
        }
        lemma_fold_after(v, ds.drop_first(), t1, t2);
        if let Some(w) = patched(v, ds[0].changes@) {
            lemma_fold_after(w, ds.drop_first(), t1, t2);
        }
    }
}

proof fn lemma_fold_split(v: Seq<i64>, ds: Seq<TapeDiff>, t1: i64, t2: i64)
    requires
        sorted_diffs(ds),
        t1 <= t2,
    ensures
        fold_until(v, ds, t2) == (match fold_until(v, ds, t1) {
            Some(w) => fold_between(w, ds, t1, t2),
            None => None,
        }),
    decreases ds.len(),
{
    if ds.len() > 0 {
        let rest = ds.drop_first();
        assert(sorted_diffs(rest)) by {
            assert forall|i: int, j: int| 0 <= i <= j < rest.len() implies rest[i].time <= rest[j].time by {
                assert(rest[i] == ds[i + 1] && rest[j] == ds[j + 1]);
            }
        }
        if ds[0].time <= t1 {
            if let Some(w) = patched(v, ds[0].changes@) {
                lemma_fold_split(w, rest, t1, t2);
                if let Some(x) = fold_until(w, rest, t1) {
                    assert(fold_between(x, ds, t1, t2) == fold_between(x, rest, t1, t2));
                }
            }
        } else {
            assert forall|i: int| 0 <= i < ds.len() implies t1 < #[trigger] ds[i].time by {
                assert(ds[0].time <= ds[i].time);
            }
            lemma_fold_after(v, ds, t1, t2);
        }
    }
}

/// For two times within a tape's span, the later reconstruction is the earlier one
/// folded through the diffs timed in between.
pub proof fn lemma_reconstruct_split(tape: &Tape, t1: i64, t2: i64)
    requires
        tape.wf(),
        tape.base_time <= t1 <= t2,
    ensures
        tape.spec_reconstruct_at(t2) == (match tape.spec_reconstruct_at(t1) {
            Ok(v) => match fold_between(v, tape.diffs@, t1, t2) {
                Some(w) => Ok(w),
                None => Err(ArchiveError::DecodeCorruption),
            },
            Err(e) => Err(e),
        }),
{
    lemma_fold_split(tape.baseline@, tape.diffs@, t1, t2);
}

proof fn lemma_patched_push(v: Seq<i64>, cs: Seq<FieldChange>, c: FieldChange)
    requires
        patched(v, cs) is Some,
    ensures
        patched(v, cs.push(c)) == (if c.field < patched(v, cs).unwrap().len() {
            Some(patched(v, cs).unwrap().update(c.field as int, c.value))
        } else {
            None
        }),
    decreases cs.len(),
{
    if cs.len() == 0 {
        assert(cs.push(c).drop_first() =~= Seq::<FieldChange>::empty());
        assert(cs.push(c)[0] == c);
        if c.field < v.len() {
            assert(patched(v.update(c.field as int, c.value), Seq::<FieldChange>::empty()) == Some(v.update(c.field as int, c.value)));
        }
    } else {
        assert(cs.push(c)[0] == cs[0]);
        assert(cs.push(c).drop_first() =~= cs.drop_first().push(c));
        lemma_patched_push(v.update(cs[0].field as int, cs[0].value), cs.drop_first(), c);
    }
}

proof fn lemma_fold_push(v: Seq<i64>, ds: Seq<TapeDiff>, d: TapeDiff, t: i64)
    ensures
        fold_until(v, ds.push(d), t) == (match fold_until(v, ds, t) {
            None => None,
            Some(w) => if d.time <= t { patched(w, d.changes@) } else { Some(w) },
        }),
    decreases ds.len(),
{
    if ds.len() == 0 {
        assert(ds.push(d).drop_first() =~= Seq::<TapeDiff>::empty());
        assert(ds.push(d)[0] == d);
        if d.time <= t {
            if let Some(w) = patched(v, d.changes@) {
                assert(fold_until(w, Seq::<TapeDiff>::empty(), t) == Some(w));
            }
        } else {
            assert(fold_until(v, Seq::<TapeDiff>::empty(), t) == Some(v));
        }
    } else {
        assert(ds.push(d).drop_first() =~= ds.drop_first().push(d));
        assert(ds.push(d)[0] == ds[0]);
        lemma_fold_push(v, ds.drop_first(), d, t);
        if let Some(w) = patched(v, ds[0].changes@) {
            lemma_fold_push(w, ds.drop_first(), d, t);
        }
    }
}

/// Builds a tape by recording an entity's successive values; each new value is
/// stored as the diff against the one before.
pub struct TapeBuilder {
    pub tape: Tape,
    pub latest: Vec<i64>,
}

impl TapeBuilder {
    /// Time of the newest version.
    pub open spec fn last_time(&self) -> i64 {
        if self.tape.diffs@.len() == 0 {
            self.tape.base_time
        } else {
            self.tape.diffs@.last().time
        }
    }

    /// The tape is well formed, and from its newest version on it reads as `latest`.
    pub open spec fn wf(&self) -> bool {
        &&& self.tape.wf()
        &&& forall|t: i64| t >= self.last_time() ==> #[trigger] fold_until(self.tape.baseline@, self.tape.diffs@, t) == Some(self.latest@)
    }

    /// Starts a tape whose baseline is `value` at `time`.
    pub fn new(time: i64, value: Vec<i64>) -> (r: TapeBuilder)
        ensures
            r.wf(),
            r.tape.base_time == time,
            r.tape.baseline@ == value@,
            r.tape.diffs@.len() == 0,
            r.latest@ == value@,
    {
        let latest = value.clone();
        assert(latest@ =~= value@);
        TapeBuilder { tape: Tape { base_time: time, baseline: value, diffs: Vec::new() }, latest }
    }

    /// Records the entity's value at `time`, no earlier than the newest version.
    /// Every earlier time reads as before; from `time` on the tape reads as `value`.
    pub fn record(&mut self, time: i64, value: Vec<i64>)
        requires
            old(self).wf(),
            time >= old(self).last_time(),
            value@.len() == old(self).latest@.len(),
        ensures
            final(self).wf(),
            final(self).latest@ == value@,
            final(self).tape.base_time == old(self).tape.base_time,
            final(self).tape.baseline@ == old(self).tape.baseline@,
            final(self).tape.diffs@.len() == old(self).tape.diffs@.len() + 1,
            forall|t: i64| t < time ==> #[trigger] final(self).tape.spec_reconstruct_at(t) == old(self).tape.spec_reconstruct_at(t),
            forall|t: i64| t >= time ==> #[trigger] final(self).tape.spec_reconstruct_at(t) == Ok::<Seq<i64>, ArchiveError>(value@),
    {
        let changes = diff(&self.latest, &value);
        let d = TapeDiff { time, changes };
        let ghost old_diffs = self.tape.diffs@;
        let ghost old_latest = self.latest@;
        let ghost dd = d;
        self.tape.diffs.push(d);
        self.latest = value;
        proof {
            let base = self.tape.baseline@;
            assert(self.tape.diffs@ == old_diffs.push(dd));
            assert(time >= old(self).tape.base_time);
            assert forall|t: i64| #![auto] true implies fold_until(base, self.tape.diffs@, t) == (if t >= time {
                Some(self.latest@)
            } else {
                fold_until(base, old_diffs, t)
            }) by {
                lemma_fold_push(base, old_diffs, dd, t);
                if t >= time {
                    assert(fold_until(base, old_diffs, t) == Some(old_latest));
                }
            }
            assert(sorted_diffs(self.tape.diffs@)) by {
                assert forall|i: int, j: int| 0 <= i <= j < self.tape.diffs@.len() implies self.tape.diffs@[i].time <= self.tape.diffs@[j].time by {
                    if j == old_diffs.len() && i < j {
                        assert(old_diffs[i].time <= old_diffs.last().time);
                    }
                }
            }
            assert forall|i: int| 0 <= i < self.tape.diffs@.len() implies self.tape.base_time <= #[trigger] self.tape.diffs@[i].time by {
                if i < old_diffs.len() {
                    assert(self.tape.diffs@[i] == old_diffs[i]);
                }
            }
            assert(self.last_time() == time);
        }
    }
}

} // verus!
