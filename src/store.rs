use vstd::prelude::*;
use crate::error::ArchiveError;
use crate::tape::{Tape, Version, versions_view};

verus! {

/// Where one entity's tape lies within its store.
#[derive(Clone, Copy, Debug, PartialEq, Eq, Structural)]
pub struct EntityLocation {
    pub tape: usize,
}

/// One row of the location index.
#[derive(Clone, Copy, Debug, PartialEq, Eq, Structural)]
pub struct IndexEntry {
    pub key: u128,
    pub location: EntityLocation,
}

/// The location recorded for `key`: the first row that names it.
pub open spec fn located(entries: Seq<IndexEntry>, key: u128) -> Option<EntityLocation>
    decreases entries.len(),
{
    if entries.len() == 0 {
        None
    } else if entries[0].key == key {
        Some(entries[0].location)
    } else {
        located(entries.drop_first(), key)
    }
}

pub open spec fn keys_of(entries: Seq<IndexEntry>) -> Seq<u128> {
    entries.map_values(|e: IndexEntry| e.key)
}

proof fn lemma_located_index(entries: Seq<IndexEntry>, key: u128)
    ensures
        located(entries, key) is Some <==> keys_of(entries).contains(key),
        located(entries, key) matches Some(l) ==> exists|i: int|
            0 <= i < entries.len() && entries[i].key == key && entries[i].location == l,
    decreases entries.len(),
{
    if entries.len() == 0 {
        assert(keys_of(entries).len() == 0);
    } else {
        let rest = entries.drop_first();
        lemma_located_index(rest, key);
        assert(keys_of(entries) =~= seq![entries[0].key] + keys_of(rest));
        if entries[0].key != key {
            if let Some(l) = located(rest, key) {
                let i = choose|i: int| 0 <= i < rest.len() && rest[i].key == key && rest[i].location == l;
                assert(entries[i + 1] == rest[i]);
                let j = choose|j: int| 0 <= j < keys_of(rest).len() && keys_of(rest)[j] == key;
                assert(keys_of(entries)[j + 1] == key);
            }
            if keys_of(entries).contains(key) {
                let j = choose|j: int| 0 <= j < keys_of(entries).len() && keys_of(entries)[j] == key;
                assert(j > 0);
                assert(keys_of(rest)[j - 1] == key);
            }
        } else {
            assert(keys_of(entries)[0] == key);
        }
    }
}

proof fn lemma_located_push(entries: Seq<IndexEntry>, e: IndexEntry, key: u128)
    requires
        !keys_of(entries).contains(e.key),
    ensures
        located(entries.push(e), key) == (if key == e.key { Some(e.location) } else { located(entries, key) }),
    decreases entries.len(),
{
    if entries.len() == 0 {
        assert(entries.push(e).drop_first() =~= Seq::<IndexEntry>::empty());
        assert(entries.push(e)[0] == e);
        assert(located(entries.push(e).drop_first(), key) is None);
    } else {
        let rest = entries.drop_first();
        assert(entries.push(e)[0] == entries[0]);
        assert(entries.push(e).drop_first() =~= rest.push(e));
        assert(keys_of(entries)[0] == entries[0].key);
        assert forall|j: int| 0 <= j < keys_of(rest).len() implies keys_of(rest)[j] != e.key by {
            assert(keys_of(rest)[j] == keys_of(entries)[j + 1]);
        }
        lemma_located_push(rest, e, key);
        assert(entries[0].key != e.key);
    }
}

/// Tapes of one entity type with the index that locates them.
pub struct TapeStore {
    pub entries: Vec<IndexEntry>,
    pub tapes: Vec<Tape>,
}

impl TapeStore {
    /// Keys are unique, every location names a tape, every tape is well formed.
    pub open spec fn wf(&self) -> bool {
        &&& keys_of(self.entries@).no_duplicates()
        &&& self.tapes@.len() == self.entries@.len()
        &&& forall|i: int| 0 <= i < self.entries@.len() ==> (#[trigger] self.entries@[i]).location.tape == i
        &&& forall|i: int| 0 <= i < self.tapes@.len() ==> (#[trigger] self.tapes@[i]).wf()
    }

    /// The tape of `id`, if the store knows it.
    pub open spec fn spec_tape(&self, id: u128) -> Option<Tape> {
        match located(self.entries@, id) {
            Some(l) => Some(self.tapes@[l.tape as int]),
            None => None,
        }
    }

    /// `id` as it stood at `t`.
    pub open spec fn spec_reconstruct_at(&self, id: u128, t: i64) -> Result<Seq<i64>, ArchiveError> {
        match self.spec_tape(id) {
            Some(tape) => tape.spec_reconstruct_at(t),
            None => Err(ArchiveError::NotFound),
        }
    }

    /// The version of `id` that stands at `t`, with the time it is valid from.
    pub open spec fn spec_version_at(&self, id: u128, t: i64) -> Result<(i64, Seq<i64>), ArchiveError> {
        match self.spec_tape(id) {
            Some(tape) => match tape.spec_reconstruct_at(t) {
                Ok(v) => Ok((tape.spec_valid_from(t), v)),
                Err(e) => Err(e),
            },
            None => Err(ArchiveError::NotFound),
        }
    }

    /// The versions of `id` timed in `[start, end)`.
    pub open spec fn spec_versions_in_range(&self, id: u128, start: i64, end: i64) -> Result<
        Seq<(i64, Seq<i64>)>,
        ArchiveError,
    > {
        match self.spec_tape(id) {
            Some(tape) => tape.spec_versions_in_range(start, end),
            None => Err(ArchiveError::NotFound),
        }
    }

    pub fn new() -> (r: TapeStore)
        ensures
            r.wf(),
            forall|id: u128| r.spec_tape(id).is_none(),
    {
        TapeStore { entries: Vec::new(), tapes: Vec::new() }
    }

    /// Looks `id` up in the location index.
    pub fn lookup(&self, id: u128) -> (r: Option<EntityLocation>)
        ensures
            r == located(self.entries@, id),
    {
        let mut i: usize = 0;
        assert(self.entries@.skip(0) =~= self.entries@);
        while i < self.entries.len()
            invariant
                i <= self.entries@.len(),
                located(self.entries@, id) == located(self.entries@.skip(i as int), id),
            decreases self.entries.len() - i,
        {
            let ghost rest = self.entries@.skip(i as int);
            assert(rest.drop_first() =~= self.entries@.skip(i + 1));
            assert(rest[0] == self.entries@[i as int]);
            if self.entries[i].key == id {
                return Some(self.entries[i].location);
            }
            i = i + 1;
        }
        None
    }

    /// Stores the tape of `id`, replacing any it had.
    pub fn insert(&mut self, id: u128, tape: Tape)
        requires
            old(self).wf(),
            tape.wf(),
        ensures
            final(self).wf(),
            final(self).spec_tape(id) == Some(tape),
            forall|other: u128| other != id ==> final(self).spec_tape(other) == old(self).spec_tape(other),
            forall|other: u128| keys_of(final(self).entries@).contains(other) <==> (other == id || keys_of(old(self).entries@).contains(other)),
    {
        proof { lemma_located_index(self.entries@, id); }
        match self.lookup(id) {
            Some(loc) => {
                proof {
                    let i = choose|i: int| 0 <= i < self.entries@.len() && self.entries@[i].key == id && self.entries@[i].location == loc;
                    assert(self.entries@[i].location.tape < self.tapes@.len());
                }
                self.tapes.set(loc.tape, tape);
                proof {
                    assert forall|other: u128| other != id implies self.spec_tape(other) == old(self).spec_tape(other) by {
                        lemma_located_index(self.entries@, other);
                        if let Some(l) = located(self.entries@, other) {
                            let i = choose|i: int| 0 <= i < self.entries@.len() && self.entries@[i].key == other && self.entries@[i].location == l;
                            let j = choose|j: int| 0 <= j < self.entries@.len() && self.entries@[j].key == id && self.entries@[j].location == loc;
                            assert(keys_of(self.entries@)[i] == other && keys_of(self.entries@)[j] == id);
                            assert(i != j);
                        }
                    }
                }
            },
            None => {
                let e = IndexEntry { key: id, location: EntityLocation { tape: self.tapes.len() } };
                let ghost old_entries = self.entries@;
                self.tapes.push(tape);
                self.entries.push(e);
                proof {
                    assert(keys_of(self.entries@) =~= keys_of(old_entries).push(id));
                    assert forall|other: u128| #![auto] other != id implies self.spec_tape(other) == old(self).spec_tape(other) by {
                        lemma_located_push(old_entries, e, other);
                        lemma_located_index(old_entries, other);
                        if let Some(l) = located(old_entries, other) {
                            let i = choose|i: int| 0 <= i < old_entries.len() && old_entries[i].key == other && old_entries[i].location == l;
                            assert(old_entries[i] == self.entries@[i]);
                        }
                    }
                    lemma_located_push(old_entries, e, id);
                    assert forall|other: u128| keys_of(self.entries@).contains(other) <==> (other == id || keys_of(old_entries).contains(other)) by {
                        if keys_of(old_entries).contains(other) {
                            let j = choose|j: int| 0 <= j < keys_of(old_entries).len() && keys_of(old_entries)[j] == other;
                            assert(keys_of(self.entries@)[j] == other);
                        }
                        if other == id {
                            assert(keys_of(self.entries@)[old_entries.len() as int] == id);
                        }
                    }
                    assert forall|i: int| 0 <= i < self.entries@.len() implies (#[trigger] self.entries@[i]).location.tape == i by {
                        if i < old_entries.len() {
                            assert(self.entries@[i] == old_entries[i]);
                        }
                    }
                }
            },
        }
    }

    /// Reconstructs `id` at `t`.
    pub fn reconstruct_at(&self, id: u128, t: i64) -> (r: Result<Vec<i64>, ArchiveError>)
        requires
            self.wf(),
        ensures
            match r {
                Ok(v) => self.spec_reconstruct_at(id, t) == Ok::<Seq<i64>, ArchiveError>(v@),
                Err(e) => self.spec_reconstruct_at(id, t) == Err::<Seq<i64>, ArchiveError>(e),
            },
    {
        proof { lemma_located_index(self.entries@, id); }
        match self.lookup(id) {
            None => Err(ArchiveError::NotFound),
            Some(loc) => {
                proof {
                    let i = choose|i: int| 0 <= i < self.entries@.len() && self.entries@[i].key == id && self.entries@[i].location == loc;
                    assert(self.entries@[i].location.tape == i);
                    assert(loc.tape < self.tapes@.len());
                }
                self.tapes[loc.tape].reconstruct_at(t)
            },
        }
    }

    /// The version of `id` that stands at `t`, with the time it is valid from.
    pub fn version_at(&self, id: u128, t: i64) -> (r: Result<Version, ArchiveError>)
        requires
            self.wf(),
        ensures
            match r {
                Ok(v) => self.spec_version_at(id, t) == Ok::<(i64, Seq<i64>), ArchiveError>(v@),
                Err(e) => self.spec_version_at(id, t) == Err::<(i64, Seq<i64>), ArchiveError>(e),
            },
    {
        proof { lemma_located_index(self.entries@, id); }
        match self.lookup(id) {
            None => Err(ArchiveError::NotFound),
            Some(loc) => {
                proof {
                    let i = choose|i: int| 0 <= i < self.entries@.len() && self.entries@[i].key == id && self.entries@[i].location == loc;
                    assert(self.entries@[i].location.tape == i);
                    assert(loc.tape < self.tapes@.len());
                }
                let tape = &self.tapes[loc.tape];
                match tape.reconstruct_at(t) {
                    Err(e) => Err(e),
                    Ok(value) => Ok(Version { time: tape.valid_from(t), value }),
                }
            },
        }
    }

    /// The versions of `id` timed in `[start, end)`, in ascending order.
    pub fn versions_in_range(&self, id: u128, start: i64, end: i64) -> (r: Result<Vec<Version>, ArchiveError>)
        requires
            self.wf(),
        ensures
            match r {
                Ok(v) => self.spec_versions_in_range(id, start, end) == Ok::<Seq<(i64, Seq<i64>)>, ArchiveError>(versions_view(v@)),
                Err(e) => self.spec_versions_in_range(id, start, end) == Err::<Seq<(i64, Seq<i64>)>, ArchiveError>(e),
            },
            r matches Ok(v) ==> forall|a: int, b: int| 0 <= a < b < v@.len() ==> v@[a].time < v@[b].time,
    {
        proof { lemma_located_index(self.entries@, id); }
        match self.lookup(id) {
            None => Err(ArchiveError::NotFound),
            Some(loc) => {
                proof {
                    let i = choose|i: int| 0 <= i < self.entries@.len() && self.entries@[i].key == id && self.entries@[i].location == loc;
                    assert(self.entries@[i].location.tape == i);
                    assert(loc.tape < self.tapes@.len());
                }
                self.tapes[loc.tape].versions_in_range(start, end)
            },
        }
    }

    /// Every id the store knows, each once.
    pub fn all_ids(&self) -> (r: Vec<u128>)
        requires
            self.wf(),
        ensures
            r@ == keys_of(self.entries@),
            r@.no_duplicates(),
            forall|id: u128| r@.contains(id) <==> self.spec_tape(id) is Some,
    {
        let mut out: Vec<u128> = Vec::new();
        let mut i: usize = 0;
        while i < self.entries.len()
            invariant
                i <= self.entries@.len(),
                out@ == keys_of(self.entries@.take(i as int)),
            decreases self.entries.len() - i,
        {
            out.push(self.entries[i].key);
            assert(self.entries@.take(i + 1) =~= self.entries@.take(i as int).push(self.entries@[i as int]));
            assert(keys_of(self.entries@.take(i + 1)) =~= keys_of(self.entries@.take(i as int)).push(self.entries@[i as int].key));
            i = i + 1;
        }
        assert(self.entries@.take(i as int) =~= self.entries@);
        proof {
            assert forall|id: u128| out@.contains(id) <==> self.spec_tape(id) is Some by {
                lemma_located_index(self.entries@, id);
            }
        }
        out
    }
}

} // verus!
