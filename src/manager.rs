use vstd::prelude::*;
use crate::error::ArchiveError;
use crate::store::{TapeStore, keys_of};

verus! {

/// One registered entity type and its store.
pub struct StoreEntry {
    pub tag: String,
    pub store: TapeStore,
}

/// The store registered under `tag`: the first entry that names it.
pub open spec fn registered(entries: Seq<StoreEntry>, tag: Seq<char>) -> Option<TapeStore>
    decreases entries.len(),
{
    if entries.len() == 0 {
        None
    } else if entries[0].tag@ == tag {
        Some(entries[0].store)
    } else {
        registered(entries.drop_first(), tag)
    }
}

proof fn lemma_registered_update(entries: Seq<StoreEntry>, i: int, e: StoreEntry, tag: Seq<char>)
    requires
        0 <= i < entries.len(),
        entries[i].tag@ == e.tag@,
        forall|j: int| 0 <= j < i ==> entries[j].tag@ != e.tag@,
    ensures
        registered(entries.update(i, e), tag) == (if tag == e.tag@ { Some(e.store) } else { registered(entries, tag) }),
    decreases entries.len(),
{
    let u = entries.update(i, e);
    if i == 0 {
        assert(u.drop_first() =~= entries.drop_first());
    } else {
        assert(u.drop_first() =~= entries.drop_first().update(i - 1, e));
        assert forall|j: int| 0 <= j < i - 1 implies entries.drop_first()[j].tag@ != e.tag@ by {
            assert(entries.drop_first()[j] == entries[j + 1]);
        }
        lemma_registered_update(entries.drop_first(), i - 1, e, tag);
        assert(entries[0].tag@ != e.tag@);
    }
}

proof fn lemma_registered_push(entries: Seq<StoreEntry>, e: StoreEntry, tag: Seq<char>)
    requires
        registered(entries, e.tag@) is None,
    ensures
        registered(entries.push(e), tag) == (if tag == e.tag@ { Some(e.store) } else { registered(entries, tag) }),
    decreases entries.len(),
{
    if entries.len() == 0 {
        assert(entries.push(e).drop_first() =~= Seq::<StoreEntry>::empty());
    } else {
        assert(entries.push(e).drop_first() =~= entries.drop_first().push(e));
        lemma_registered_push(entries.drop_first(), e, tag);
    }
}

/// Registry from entity-type tag to the store of that type.
pub struct DatabaseManager {
    pub stores: Vec<StoreEntry>,
}

impl DatabaseManager {
    /// Every registered store is well formed.
    pub open spec fn wf(&self) -> bool {
        forall|i: int| 0 <= i < self.stores@.len() ==> (#[trigger] self.stores@[i]).store.wf()
    }

    /// The store of the entity type `tag`.
    pub open spec fn spec_store(&self, tag: Seq<char>) -> Option<TapeStore> {
        registered(self.stores@, tag)
    }

    pub fn new() -> (r: DatabaseManager)
        ensures
            r.wf(),
            forall|tag: Seq<char>| r.spec_store(tag).is_none(),
    {
        DatabaseManager { stores: Vec::new() }
    }

    fn position(&self, tag: &String) -> (r: Option<usize>)
        ensures
            match r {
                Some(i) => i < self.stores@.len() && self.stores@[i as int].tag@ == tag@
                    && forall|j: int| 0 <= j < i ==> self.stores@[j].tag@ != tag@,
                None => registered(self.stores@, tag@).is_none(),
            },
            r matches Some(i) ==> registered(self.stores@, tag@) == Some(self.stores@[i as int].store),
    {
        let mut i: usize = 0;
        assert(self.stores@.skip(0) =~= self.stores@);
        while i < self.stores.len()
            invariant
                i <= self.stores@.len(),
                registered(self.stores@, tag@) == registered(self.stores@.skip(i as int), tag@),
                forall|j: int| 0 <= j < i ==> self.stores@[j].tag@ != tag@,
            decreases self.stores.len() - i,
        {
            let ghost rest = self.stores@.skip(i as int);
            assert(rest.drop_first() =~= self.stores@.skip(i + 1));
            assert(rest[0] == self.stores@[i as int]);
            if self.stores[i].tag == *tag {
                return Some(i);
            }
            i = i + 1;
        }
        None
    }

    /// Registers `store` under `tag`, replacing any store it had.
    pub fn register(&mut self, tag: String, store: TapeStore)
        requires
            old(self).wf(),
            store.wf(),
        ensures
            final(self).wf(),
            final(self).spec_store(tag@) == Some(store),
            forall|other: Seq<char>| other != tag@ ==> final(self).spec_store(other) == old(self).spec_store(other),
    {
        let ghost t = tag@;
        let ghost s = store;
        let e = StoreEntry { tag, store };
        match self.position(&e.tag) {
            Some(i) => {
                let ghost before = self.stores@;
                self.stores.set(i, e);
                proof {
                    assert forall|other: Seq<char>| #![auto] true implies registered(self.stores@, other) == (if other == t { Some(s) } else { registered(before, other) }) by {
                        lemma_registered_update(before, i as int, self.stores@[i as int], other);
                    }
                }
            },
            None => {
                let ghost before = self.stores@;
                self.stores.push(e);
                proof {
                    assert forall|other: Seq<char>| #![auto] true implies registered(self.stores@, other) == (if other == t { Some(s) } else { registered(before, other) }) by {
                        lemma_registered_push(before, self.stores@.last(), other);
                    }
                }
            },
        }
        assert(self.spec_store(t) == Some(s));
    }

    /// The store of the entity type `tag`.
    pub fn store_for(&self, tag: &String) -> (r: Result<&TapeStore, ArchiveError>)
        requires
            self.wf(),
        ensures
            match r {
                Ok(s) => self.spec_store(tag@) == Some(*s) && s.wf(),
                Err(e) => e == ArchiveError::EntityTypeNotFound && self.spec_store(tag@).is_none(),
            },
    {
        match self.position(tag) {
            None => Err(ArchiveError::EntityTypeNotFound),
            Some(i) => Ok(&self.stores[i].store),
        }
    }

    /// Every id of the entity type `tag`.
    pub fn all_entity_ids(&self, tag: &String) -> (r: Result<Vec<u128>, ArchiveError>)
        requires
            self.wf(),
        ensures
            match r {
                Ok(ids) => self.spec_store(tag@) matches Some(s) && ids@ == keys_of(s.entries@) && ids@.no_duplicates()
                    && forall|id: u128| ids@.contains(id) <==> s.spec_tape(id) is Some,
                Err(e) => e == ArchiveError::EntityTypeNotFound && self.spec_store(tag@).is_none(),
            },
    {
        match self.store_for(tag) {
            Err(e) => Err(e),
            Ok(s) => Ok(s.all_ids()),
        }
    }
}

} // verus!
