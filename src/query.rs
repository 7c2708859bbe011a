use vstd::prelude::*;
use crate::error::ArchiveError;
use crate::manager::DatabaseManager;
use crate::page::{Page, PageManager, Query, Row, rows_for_ids, rows_view, min};
use crate::store::keys_of;
use crate::stream::{StreamSeries, StreamRow, stream_rows, stream_window, spec_stream_window, sample_count, sampled, stream_rows_view};

verus! {

/// Page size when a request names none.
pub const DEFAULT_COUNT: usize = 100;

/// An entities request: the entity type, the time of the snapshot, one id or all,
/// a page token to continue from, and a page size.
pub struct EntitiesRequest {
    pub ty: String,
    pub at: Option<i64>,
    pub id: Option<u128>,
    pub page: Option<u64>,
    pub count: Option<usize>,
}

/// A versions request: like an entities request, with a window `[after, before)`.
pub struct VersionsRequest {
    pub ty: String,
    pub before: Option<i64>,
    pub after: Option<i64>,
    pub id: Option<u128>,
    pub page: Option<u64>,
    pub count: Option<usize>,
}

/// One page of results and the token of the next, if any.
pub struct Response {
    pub data: Vec<Row>,
    pub samples: Vec<StreamRow>,
    pub next_page: Option<u64>,
}

/// What `str::to_lowercase` makes of a string.
pub uninterp spec fn lower_of(s: Seq<char>) -> Seq<char>;

/// Relies on str::to_lowercase: the lower-case form of each character.
#[verifier::external_body]
fn lowercase(s: &str) -> (r: String)
    ensures
        r@ == lower_of(s@),
{
    s.to_lowercase()
}

pub open spec fn count_of(count: Option<usize>) -> nat {
    match count {
        Some(c) => c as nat,
        None => DEFAULT_COUNT as nat,
    }
}

/// Continuing a live page: the rows for its next ids, and its token while it has
/// more. The page advances past those ids, and is dropped once it has none left;
/// on failure it stays as it was. No other token changes and the table keeps its
/// length.
pub open spec fn continued(old_pages: PageManager, new_pages: PageManager, token: u64, db: DatabaseManager, ty: Seq<char>, count: nat, r: Result<Response, ArchiveError>) -> bool {
    &&& new_pages.slots@.len() == old_pages.slots@.len()
    &&& forall|t: u64| t != token ==> #[trigger] new_pages.live(t) == old_pages.live(t)
    &&& match old_pages.live(token) {
        None => r == Err::<Response, ArchiveError>(ArchiveError::InvalidPageToken) && new_pages.slots@ == old_pages.slots@,
        Some(p) => match db.spec_store(ty) {
            None => r == Err::<Response, ArchiveError>(ArchiveError::EntityTypeNotFound) && new_pages.slots@ == old_pages.slots@,
            Some(s) => {
                let k = min(count as int, p.remaining().len() as int);
                match r {
                    Ok(resp) => rows_for_ids(s, p.query, p.remaining().take(k)) == Ok::<Seq<(u128, i64, Seq<i64>)>, ArchiveError>(rows_view(resp.data@))
                        && resp.samples@.len() == 0
                        && resp.next_page == (if k < p.remaining().len() { Some(token) } else { None::<u64> })
                        && (if k < p.remaining().len() {
                            new_pages.live(token) matches Some(q) && q.remaining() == p.remaining().skip(k) && q.query == p.query
                        } else {
                            new_pages.live(token) is None
                        }),
                    Err(e) => rows_for_ids(s, p.query, p.remaining().take(k)) == Err::<Seq<(u128, i64, Seq<i64>)>, ArchiveError>(e)
                        && new_pages.live(token) == Some(p),
                }
            },
        },
    }
}

/// A fresh query over `id`, or over every id of the type: the rows for the first
/// `count` ids, and a new token while more are left. Only that new token is added
/// to the table; without one, or on failure, the table is left as it was.
pub open spec fn started(old_pages: PageManager, new_pages: PageManager, db: DatabaseManager, ty: Seq<char>, id: Option<u128>, query: Query, count: nat, r: Result<Response, ArchiveError>) -> bool {
    match db.spec_store(ty) {
        None => r == Err::<Response, ArchiveError>(ArchiveError::EntityTypeNotFound) && new_pages.slots@ == old_pages.slots@,
        Some(s) => {
            let ids = match id {
                Some(i) => seq![i],
                None => keys_of(s.entries@),
            };
            let k = min(count as int, ids.len() as int);
            let token = old_pages.slots@.len() as u64;
            match r {
                Ok(resp) => rows_for_ids(s, query, ids.take(k)) == Ok::<Seq<(u128, i64, Seq<i64>)>, ArchiveError>(rows_view(resp.data@))
                    && resp.samples@.len() == 0
                    && (if k < ids.len() {
                        &&& resp.next_page == Some(token)
                        &&& new_pages.slots@.len() == old_pages.slots@.len() + 1
                        &&& new_pages.live(token) matches Some(p)
                        &&& p.remaining() == ids.skip(k)
                        &&& p.query == query
                        &&& forall|t: u64| t != token ==> #[trigger] new_pages.live(t) == old_pages.live(t)
                    } else {
                        resp.next_page.is_none() && new_pages.slots@ == old_pages.slots@
                    }),
                Err(e) => rows_for_ids(s, query, ids.take(k)) == Err::<Seq<(u128, i64, Seq<i64>)>, ArchiveError>(e)
                    && new_pages.slots@ == old_pages.slots@,
            }
        },
    }
}

/// Continues the live page under `token` with `count` more ids of the entity type
/// `ety` (already in lower case).
pub fn continue_page(token: u64, ety: &String, count: usize, db: &DatabaseManager, pages: &mut PageManager) -> (r: Result<Response, ArchiveError>)
    requires
        db.wf(),
        old(pages).wf(),
    ensures
        final(pages).wf(),
        continued(*old(pages), *final(pages), token, *db, ety@, count as nat, r),
{
    match pages.get_page(token) {
        Err(e) => return Err(e),
        Ok(_) => {},
    }
    let store = match db.store_for(ety) {
        Err(e) => return Err(e),
        Ok(s) => s,
    };
    match pages.take_n(token, store, count) {
        Err(e) => Err(e),
        Ok((data, more)) => Ok(Response {
            data,
            samples: Vec::new(),
            next_page: if more { Some(token) } else { None },
        }),
    }
}

/// Starts a query over `id`, or over every id of the entity type `ety` (already in
/// lower case), and answers its first `count` ids.
pub fn start_page(ety: &String, id: Option<u128>, query: Query, count: usize, db: &DatabaseManager, pages: &mut PageManager) -> (r: Result<Response, ArchiveError>)
    requires
        db.wf(),
        old(pages).wf(),
        old(pages).slots@.len() < u64::MAX,
    ensures
        final(pages).wf(),
        final(pages).slots@.len() <= old(pages).slots@.len() + 1,
        started(*old(pages), *final(pages), *db, ety@, id, query, count as nat, r),
{
    let store = match db.store_for(ety) {
        Err(e) => return Err(e),
        Ok(s) => s,
    };
    let ids = match id {
        Some(i) => {
            let v = vec![i];
            assert(v@ =~= seq![i]);
            v
        },
        None => store.all_ids(),
    };
    let mut page = match query {
        Query::Entities { at } => Page::entities(at, ids),
        Query::Versions { before, after } => Page::versions(before, after, ids),
    };
    let data = match page.take_n(store, count) {
        Err(e) => return Err(e),
        Ok(d) => d,
    };
    let next_page = if !page.is_empty() {
        Some(pages.add_page(page))
    } else {
        None
    };
    Ok(Response { data, samples: Vec::new(), next_page })
}

/// Answers an entities request: each id as it stood at `at` (the far end of time
/// when none is given), a page at a time.
pub fn entities(req: &EntitiesRequest, db: &DatabaseManager, pages: &mut PageManager) -> (r: Result<Response, ArchiveError>)
    requires
        db.wf(),
        old(pages).wf(),
        old(pages).slots@.len() < u64::MAX,
    ensures
        final(pages).wf(),
        match req.page {
            Some(token) => continued(*old(pages), *final(pages), token, *db, lower_of(req.ty@), count_of(req.count), r),
            None => started(*old(pages), *final(pages), *db, lower_of(req.ty@), req.id, Query::Entities {
                at: match req.at {
                    Some(a) => a,
                    None => i64::MAX,
                },
            }, count_of(req.count), r),
        },
{
    let ety = lowercase(req.ty.as_str());
    let count = match req.count {
        Some(c) => c,
        None => DEFAULT_COUNT,
    };
    match req.page {
        Some(token) => continue_page(token, &ety, count, db, pages),
        None => {
            let at = match req.at {
                Some(a) => a,
                None => i64::MAX,
            };
            start_page(&ety, req.id, Query::Entities { at }, count, db, pages)
        },
    }
}

/// The answer to a stream query: a sample every three time units over the window,
/// or `NoVersionAtTime` where a time of the window precedes every sample.
pub open spec fn stream_answer(stream: StreamSeries, after: Option<i64>, before: Option<i64>, count: nat, r: Result<Response, ArchiveError>) -> bool {
    let (start, end) = spec_stream_window(after, before, count);
    match sampled(stream.times@, stream.payloads.deep_view(), start, sample_count(start, end)) {
        Some(rows) => r matches Ok(resp) && resp.data@.len() == 0 && resp.next_page.is_none()
            && stream_rows_view(resp.samples@) == rows && resp.samples@.len() == sample_count(start, end),
        None => r == Err::<Response, ArchiveError>(ArchiveError::NoVersionAtTime),
    }
}

/// Answers a versions request: every version of each id timed in `[after, before)`
/// (from the start to the far end of time where a bound is missing), a page at a
/// time. The `stream` type is sampled from the stream series instead.
pub fn versions(req: &VersionsRequest, db: &DatabaseManager, stream: &StreamSeries, pages: &mut PageManager) -> (r: Result<Response, ArchiveError>)
    requires
        db.wf(),
        stream.wf(),
        old(pages).wf(),
        old(pages).slots@.len() < u64::MAX,
    ensures
        final(pages).wf(),
        match req.page {
            Some(token) => continued(*old(pages), *final(pages), token, *db, lower_of(req.ty@), count_of(req.count), r),
            None => if lower_of(req.ty@) == "stream"@ {
                stream_answer(*stream, req.after, req.before, match req.count {
                    Some(c) => c as nat,
                    None => 1,
                }, r) && *final(pages) == *old(pages)
            } else {
                started(*old(pages), *final(pages), *db, lower_of(req.ty@), req.id, Query::Versions {
                    before: match req.before {
                        Some(b) => b,
                        None => i64::MAX,
                    },
                    after: match req.after {
                        Some(a) => a,
                        None => 0,
                    },
                }, count_of(req.count), r)
            },
        },
{
    let ety = lowercase(req.ty.as_str());
    let count = match req.count {
        Some(c) => c,
        None => DEFAULT_COUNT,
    };
    match req.page {
        Some(token) => continue_page(token, &ety, count, db, pages),
        None => {
            let stream_tag = "stream".to_owned();
            proof { reveal_strlit("stream"); }
            if ety == stream_tag {
                let samples = match req.count {
                    Some(c) => c,
                    None => 1,
                };
                let (start, end) = stream_window(req.after, req.before, samples);
                return match stream_rows(stream, start, end) {
                    Ok(rows) => Ok(Response { data: Vec::new(), samples: rows, next_page: None }),
                    Err(e) => Err(e),
                };
            }
            let before = match req.before {
                Some(b) => b,
                None => i64::MAX,
            };
            let after = match req.after {
                Some(a) => a,
                None => 0,
            };
            start_page(&ety, req.id, Query::Versions { before, after }, count, db, pages)
        },
    }
}

} // verus!
