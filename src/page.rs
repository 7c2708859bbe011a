use vstd::prelude::*;
use crate::error::ArchiveError;
use crate::store::TapeStore;
use crate::tape::Version;

verus! {

/// What a page answers for each of its ids.
#[derive(Clone, Copy, Debug, PartialEq, Eq, Structural)]
pub enum Query {
    /// The entity as it stood at `at`.
    Entities { at: i64 },
    /// Every version timed in `[after, before)`.
    Versions { before: i64, after: i64 },
}

/// One entity version in a response.
#[derive(Debug)]
pub struct Row {
    pub entity_id: u128,
    pub valid_from: i64,
    pub data: Vec<i64>,
}

impl View for Row {
    type V = (u128, i64, Seq<i64>);

    open spec fn view(&self) -> (u128, i64, Seq<i64>) {
        (self.entity_id, self.valid_from, self.data@)
    }
}

pub open spec fn rows_view(s: Seq<Row>) -> Seq<(u128, i64, Seq<i64>)> {
    s.map_values(|r: Row| r@)
}

/// The rows that `query` yields for one id; an unknown id, or one without a
/// version at the time asked, yields none.
pub open spec fn rows_for(store: TapeStore, query: Query, id: u128) -> Result<
    Seq<(u128, i64, Seq<i64>)>,
    ArchiveError,
> {
    match query {
        Query::Entities { at } => match store.spec_version_at(id, at) {
            Ok(v) => Ok(seq![(id, v.0, v.1)]),
            Err(ArchiveError::NotFound) => Ok(Seq::empty()),
            Err(ArchiveError::NoVersionAtTime) => Ok(Seq::empty()),
            Err(e) => Err(e),
        },
        Query::Versions { before, after } => match store.spec_versions_in_range(id, after, before) {
            Ok(vs) => Ok(vs.map_values(|v: (i64, Seq<i64>)| (id, v.0, v.1))),
            Err(ArchiveError::NotFound) => Ok(Seq::empty()),
            Err(e) => Err(e),
        },
    }
}

/// The rows for each id in turn; the first failure stops it.
pub open spec fn rows_for_ids(store: TapeStore, query: Query, ids: Seq<u128>) -> Result<
    Seq<(u128, i64, Seq<i64>)>,
    ArchiveError,
>
    decreases ids.len(),
{
    if ids.len() == 0 {
        Ok(Seq::empty())
    } else {
        match rows_for_ids(store, query, ids.drop_last()) {
            Err(e) => Err(e),
            Ok(a) => match rows_for(store, query, ids.last()) {
                Err(e) => Err(e),
                Ok(b) => Ok(a + b),
            },
        }
    }
}

/// A cursor over the ids of one query.
pub struct Page {
    pub ids: Vec<u128>,
    pub pos: usize,
    pub query: Query,
}

pub open spec fn min(a: int, b: int) -> int {
    if a <= b { a } else { b }
}

impl Page {
    pub open spec fn wf(&self) -> bool {
        self.pos <= self.ids@.len()
    }

    /// The ids not yet handed out.
    pub open spec fn remaining(&self) -> Seq<u128> {
        self.ids@.skip(self.pos as int)
    }

    /// A snapshot query at `at` over `ids`.
    pub fn entities(at: i64, ids: Vec<u128>) -> (r: Page)
        ensures
            r.wf(),
            r.remaining() == ids@,
            r.query == (Query::Entities { at }),
    {
        let r = Page { ids, pos: 0, query: Query::Entities { at } };
        assert(r.ids@.skip(0) =~= r.ids@);
        r
    }

    /// A version-range query over `[after, before)` and `ids`.
    pub fn versions(before: i64, after: i64, ids: Vec<u128>) -> (r: Page)
        ensures
            r.wf(),
            r.remaining() == ids@,
            r.query == (Query::Versions { before, after }),
    {
        let r = Page { ids, pos: 0, query: Query::Versions { before, after } };
        assert(r.ids@.skip(0) =~= r.ids@);
        r
    }

    /// Whether every id has been handed out.
    pub fn is_empty(&self) -> (r: bool)
        requires
            self.wf(),
        ensures
            r == (self.remaining().len() == 0),
    {
        self.pos >= self.ids.len()
    }

    /// Hands out the next `n` ids (fewer where fewer are left) with their rows.
    /// On failure the page is left as it was.
    pub fn take_n(&mut self, store: &TapeStore, n: usize) -> (r: Result<Vec<Row>, ArchiveError>)
        requires
            old(self).wf(),
            store.wf(),
        ensures
            final(self).wf(),
            final(self).ids == old(self).ids,
            final(self).query == old(self).query,
            ({
                let k = min(n as int, old(self).remaining().len() as int);
                let taken = old(self).remaining().take(k);
                match r {
                    Ok(rows) => rows_for_ids(*store, old(self).query, taken) == Ok::<Seq<(u128, i64, Seq<i64>)>, ArchiveError>(rows_view(rows@))
                        && final(self).remaining() == old(self).remaining().skip(k),
                    Err(e) => rows_for_ids(*store, old(self).query, taken) == Err::<Seq<(u128, i64, Seq<i64>)>, ArchiveError>(e)
                        && *final(self) == *old(self),
                }
            }),
    {
        let left: usize = self.ids.len() - self.pos;
        let k: usize = if n < left { n } else { left };
        let ghost start = self.pos as int;
        let mut out: Vec<Row> = Vec::new();
        let mut j: usize = self.pos;
        let end: usize = self.pos + k;
        assert(self.ids@.subrange(start, start) =~= Seq::<u128>::empty());
        assert(rows_view(out@) =~= Seq::<(u128, i64, Seq<i64>)>::empty());
        while j < end
            invariant
                self.pos == start,
                end == start + k,
                self.wf(),
                k == min(n as int, self.remaining().len() as int),
                start <= j <= start + k <= self.ids@.len(),
                store.wf(),
                rows_for_ids(*store, self.query, self.ids@.subrange(start, j as int)) == Ok::<Seq<(u128, i64, Seq<i64>)>, ArchiveError>(rows_view(out@)),
            decreases start + k - j,
        {
            let id = self.ids[j];
            let ghost pre = self.ids@.subrange(start, j as int);
            let ghost next = self.ids@.subrange(start, j + 1);
            assert(next.drop_last() =~= pre);
            assert(next.last() == id);
            let ghost before = rows_view(out@);
            match self.query {
                Query::Entities { at } => {
                    match store.version_at(id, at) {
                        Ok(v) => {
                            let ghost vv = v@;
                            out.push(Row { entity_id: id, valid_from: v.time, data: v.value });
                            assert(rows_view(out@) =~= before + seq![(id, vv.0, vv.1)]);
                        },
                        Err(ArchiveError::NotFound) => {
                            assert(before + Seq::<(u128, i64, Seq<i64>)>::empty() =~= before);
                        },
                        Err(ArchiveError::NoVersionAtTime) => {
                            assert(before + Seq::<(u128, i64, Seq<i64>)>::empty() =~= before);
                        },
                        Err(e) => {
                            proof { self.lemma_prefix_err(store, start, j as int + 1, k as int, e); }
                            return Err(e);
                        },
                    }
                },
                Query::Versions { before: end, after } => {
                    match store.versions_in_range(id, after, end) {
                        Ok(vs) => {
                            let ghost vsv = vs@.map_values(|v: Version| v@);
                            let mut i: usize = 0;
                            while i < vs.len()
                                invariant
                                    i <= vs@.len(),
                                    vsv == vs@.map_values(|v: Version| v@),
                                    rows_view(out@) == before + vsv.take(i as int).map_values(|v: (i64, Seq<i64>)| (id, v.0, v.1)),
                                decreases vs.len() - i,
                            {
                                let t = vs[i].time;
                                let d = vs[i].value.clone();
                                proof {
                                    assert(d@ =~= vs@[i as int].value@);
                                    assert(vsv[i as int] == (t, d@));
                                }
                                let ghost prev_rows = rows_view(out@);
                                let ghost dv = d@;
                                out.push(Row { entity_id: id, valid_from: t, data: d });
                                assert(rows_view(out@) =~= prev_rows.push((id, t, dv)));
                                assert(vsv.take(i + 1) =~= vsv.take(i as int).push(vsv[i as int]));
                                assert(vsv.take(i + 1).map_values(|v: (i64, Seq<i64>)| (id, v.0, v.1)) =~= vsv.take(i as int).map_values(|v: (i64, Seq<i64>)| (id, v.0, v.1)).push((id, t, dv)));
                                assert(rows_view(out@) =~= before + vsv.take(i + 1).map_values(|v: (i64, Seq<i64>)| (id, v.0, v.1)));
                                i = i + 1;
                            }
                            assert(vsv.take(i as int) =~= vsv);
                        },
                        Err(ArchiveError::NotFound) => {
                            assert(before + Seq::<(u128, i64, Seq<i64>)>::empty() =~= before);
                        },
                        Err(e) => {
                            proof { self.lemma_prefix_err(store, start, j as int + 1, k as int, e); }
                            return Err(e);
                        },
                    }
                },
            }
            j = j + 1;
        }
        self.pos = self.pos + k;
        assert(self.ids@.subrange(start, start + k) =~= old(self).remaining().take(k as int));
        assert(self.remaining() =~= old(self).remaining().skip(k as int));
        Ok(out)
    }

    proof fn lemma_prefix_err(&self, store: &TapeStore, start: int, j: int, k: int, e: ArchiveError)
        requires
            0 <= start <= j <= start + k <= self.ids@.len(),
            rows_for_ids(*store, self.query, self.ids@.subrange(start, j)) == Err::<Seq<(u128, i64, Seq<i64>)>, ArchiveError>(e),
        ensures
            rows_for_ids(*store, self.query, self.ids@.subrange(start, start + k)) == Err::<Seq<(u128, i64, Seq<i64>)>, ArchiveError>(e),
            self.ids@.subrange(start, start + k) == self.ids@.skip(start).take(k),
        decreases start + k - j,
    {
        assert(self.ids@.subrange(start, start + k) =~= self.ids@.skip(start).take(k));
        if j < start + k {
            assert(self.ids@.subrange(start, j + 1).drop_last() =~= self.ids@.subrange(start, j));
            self.lemma_prefix_err(store, start, j + 1, k, e);
        }
    }
}

/// The groups of ids that successive `take_n(n)` calls hand out, from a page whose
/// remaining ids are `ids`, until none is left.
pub open spec fn pages_of(ids: Seq<u128>, n: nat) -> Seq<Seq<u128>>
    decreases ids.len(),
{
    if ids.len() == 0 || n == 0 {
        Seq::empty()
    } else {
        let k = min(n as int, ids.len() as int);
        seq![ids.take(k)] + pages_of(ids.skip(k), n)
    }
}

/// Paging through `ids` with any page size of at least one hands out every id
/// exactly once and in order: the pages, joined, are the ids; none is empty or
/// longer than the page size.
pub proof fn lemma_pages_cover(ids: Seq<u128>, n: nat)
    requires
        n >= 1,
    ensures
        pages_of(ids, n).flatten() == ids,
        forall|i: int| 0 <= i < pages_of(ids, n).len() ==> 0 < #[trigger] pages_of(ids, n)[i].len() <= n,
    decreases ids.len(),
{
    if ids.len() > 0 {
        let k = min(n as int, ids.len() as int);
        lemma_pages_cover(ids.skip(k), n);
        let ps = pages_of(ids, n);
        assert(ps.drop_first() =~= pages_of(ids.skip(k), n));
        assert(ps.first() == ids.take(k));
        assert(ids.take(k) + ids.skip(k) =~= ids);
        assert forall|i: int| 0 <= i < ps.len() implies 0 < #[trigger] ps[i].len() <= n by {
            if i > 0 {
                assert(ps[i] == pages_of(ids.skip(k), n)[i - 1]);
            }
        }
    }
}

/// Live pages, each under the token that is its slot's number. A slot that is
/// emptied is never filled again, so no token is handed out twice.
pub struct PageManager {
    pub slots: Vec<Option<Page>>,
}

impl PageManager {
    /// Every live page is well formed and still has ids to hand out.
    pub open spec fn wf(&self) -> bool {
        forall|i: int| 0 <= i < self.slots@.len() ==> ((#[trigger] self.slots@[i]) matches Some(p) ==> p.wf() && p.remaining().len() > 0)
    }

    /// The live page under `token`.
    pub open spec fn live(&self, token: u64) -> Option<Page> {
        if token < self.slots@.len() {
            self.slots@[token as int]
        } else {
            None
        }
    }

    pub fn new() -> (r: PageManager)
        ensures
            r.wf(),
            r.slots@.len() == 0,
    {
        PageManager { slots: Vec::new() }
    }

    /// Registers a page that still has ids and returns its new token.
    pub fn add_page(&mut self, page: Page) -> (r: u64)
        requires
            old(self).wf(),
            page.wf(),
            page.remaining().len() > 0,
            old(self).slots@.len() < u64::MAX,
        ensures
            final(self).wf(),
            r == old(self).slots@.len(),
            final(self).live(r) == Some(page),
            final(self).slots@.len() == old(self).slots@.len() + 1,
            forall|t: u64| t != r ==> final(self).live(t) == old(self).live(t),
    {
        let r = self.slots.len() as u64;
        self.slots.push(Some(page));
        r
    }

    /// The live page under `token`.
    pub fn get_page(&self, token: u64) -> (r: Result<&Page, ArchiveError>)
        ensures
            match r {
                Ok(p) => self.live(token) == Some(*p),
                Err(e) => e == ArchiveError::InvalidPageToken && self.live(token).is_none(),
            },
    {
        if token >= self.slots.len() as u64 {
            return Err(ArchiveError::InvalidPageToken);
        }
        match &self.slots[token as usize] {
            Some(p) => Ok(p),
            None => Err(ArchiveError::InvalidPageToken),
        }
    }

    /// Takes the next `n` ids of the page under `token`. Returns the rows and
    /// whether the page still has ids; an exhausted page is dropped, and its
    /// token is rejected from then on.
    pub fn take_n(&mut self, token: u64, store: &TapeStore, n: usize) -> (r: Result<(Vec<Row>, bool), ArchiveError>)
        requires
            old(self).wf(),
            store.wf(),
        ensures
            final(self).wf(),
            final(self).slots@.len() == old(self).slots@.len(),
            forall|t: u64| t != token ==> final(self).live(t) == old(self).live(t),
            match old(self).live(token) {
                None => r == Err::<(Vec<Row>, bool), ArchiveError>(ArchiveError::InvalidPageToken) && final(self).live(token).is_none(),
                Some(p) => {
                    let k = min(n as int, p.remaining().len() as int);
                    let taken = p.remaining().take(k);
                    match r {
                        Ok((rows, more)) => rows_for_ids(*store, p.query, taken) == Ok::<Seq<(u128, i64, Seq<i64>)>, ArchiveError>(rows_view(rows@))
                            && more == (k < p.remaining().len())
                            && (more ==> (final(self).live(token) matches Some(q) && q.remaining() == p.remaining().skip(k) && q.query == p.query))
                            && (!more ==> final(self).live(token).is_none()),
                        Err(e) => rows_for_ids(*store, p.query, taken) == Err::<Seq<(u128, i64, Seq<i64>)>, ArchiveError>(e)
                            && final(self).live(token) == Some(p),
                    }
                },
            },
    {
        if token >= self.slots.len() as u64 {
            return Err(ArchiveError::InvalidPageToken);
        }
        let i = token as usize;
        let mut slot: Option<Page> = None;
        self.slots.set_and_swap(i, &mut slot);
        let mut page = match slot {
            None => {
                return Err(ArchiveError::InvalidPageToken);
            },
            Some(p) => p,
        };
        assert(old(self).slots@[i as int] matches Some(p) && p.wf());
        match page.take_n(store, n) {
            Err(e) => {
                self.slots.set(i, Some(page));
                Err(e)
            },
            Ok(rows) => {
                if page.is_empty() {
                    Ok((rows, false))
                } else {
                    self.slots.set(i, Some(page));
                    Ok((rows, true))
                }
            },
        }
    }
}

/// A token that no call has handed out, because it is past every slot, names no page.
pub proof fn lemma_unissued_token_rejected(m: &PageManager, token: u64)
    requires
        token >= m.slots@.len(),
    ensures
        m.live(token).is_none(),
{
}

} // verus!
