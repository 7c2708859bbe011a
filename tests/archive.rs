use vcr_archive::codec::{decode_batch, decode_frame, encode_batch};
use vcr_archive::error::ArchiveError;
use vcr_archive::header::StreamBatchHeader;
use vcr_archive::manager::DatabaseManager;
use vcr_archive::page::{Page, PageManager};
use vcr_archive::page::Query;
use vcr_archive::query::{continue_page, entities, start_page, versions, EntitiesRequest, VersionsRequest};
use vcr_archive::recorder::{StreamRecorder, BATCH_SIZE};
use vcr_archive::schemas::Playoffs;
use vcr_archive::store::TapeStore;
use vcr_archive::stream::{stream_rows, stream_sample_times, stream_window, StreamSeries};
use vcr_archive::tape::{diff, patch, FieldChange, Tape, TapeBuilder, TapeDiff};
use vcr_archive::times::{pack_times, unpack_times};

fn payloads(n: usize) -> Vec<Vec<u8>> {
    (0..n).map(|i| vec![(i % 251) as u8, 7, (i / 251) as u8]).collect()
}

fn sample_tape() -> Tape {
    Tape {
        base_time: 0,
        baseline: vec![1],
        diffs: vec![TapeDiff { time: 10, changes: vec![FieldChange { field: 0, value: 2 }] }],
    }
}

fn sample_store() -> TapeStore {
    let mut s = TapeStore::new();
    s.insert(1, sample_tape());
    s.insert(
        2,
        Tape {
            base_time: 5,
            baseline: vec![7, 8],
            diffs: vec![
                TapeDiff { time: 6, changes: vec![FieldChange { field: 1, value: 9 }] },
                TapeDiff { time: 20, changes: vec![FieldChange { field: 0, value: 0 }] },
            ],
        },
    );
    s.insert(3, sample_tape());
    s.insert(4, sample_tape());
    s.insert(5, sample_tape());
    s
}

fn sample_manager() -> DatabaseManager {
    let mut m = DatabaseManager::new();
    m.register("playoffs".to_string(), sample_store());
    m
}

#[test]
fn header_bytes_are_little_endian() {
    let h = StreamBatchHeader { times_len: 1, times_bits_len: 8, data_compressed_len: 0x0102, data_uncompressed_len: 4 };
    let b = h.encode();
    assert_eq!(b, vec![1, 0, 0, 0, 8, 0, 0, 0, 2, 1, 0, 0, 4, 0, 0, 0]);
    assert_eq!(StreamBatchHeader::decode(&b, 0), h);
}

#[test]
fn times_pack_exact_bytes() {
    let b = pack_times(&vec![1000, 1000, 1005]);
    assert_eq!(b, vec![0xe8, 3, 0, 0, 0, 0, 0, 0, 0, 0, 5, 0]);
    assert_eq!(unpack_times(&b), Some(vec![1000, 1000, 1005]));
}

#[test]
fn times_pack_wide_delta() {
    let b = pack_times(&vec![0, 70000]);
    assert_eq!(b, vec![0, 0, 0, 0, 0, 0, 0, 0, 0xff, 0xff, 0x70, 0x11, 1, 0, 0, 0, 0, 0]);
    assert_eq!(unpack_times(&b), Some(vec![0, 70000]));
    assert_eq!(pack_times(&vec![]), Vec::<u8>::new());
    assert_eq!(unpack_times(&[]), Some(vec![]));
}

#[test]
fn times_unpack_rejects_truncated() {
    assert_eq!(unpack_times(&[1, 2, 3]), None);
    assert_eq!(unpack_times(&[0, 0, 0, 0, 0, 0, 0, 0, 5]), None);
    assert_eq!(unpack_times(&[0, 0, 0, 0, 0, 0, 0, 0, 0xff, 0xff, 1]), None);
}

#[test]
fn batch_with_duplicate_timestamps_round_trips() {
    let ts = vec![1000, 1000, 1005];
    let items = vec![vec![1, 2, 3], vec![], vec![9; 40]];
    let b = encode_batch(&ts, &items).unwrap();
    let (rt, ri, next) = decode_batch(&b, 0).unwrap();
    assert_eq!(rt, ts);
    assert_eq!(ri, items);
    assert_eq!(next, b.len());
    let f = decode_frame(&b, 0).ok().unwrap();
    assert_eq!(f.header.times_len, 12);
    assert_eq!(f.header.times_bits_len, 96);
}

#[test]
fn batch_round_trip_around_batch_size() {
    for n in [1usize, BATCH_SIZE - 1, BATCH_SIZE, BATCH_SIZE + 1] {
        let ts: Vec<u64> = (0..n as u64).map(|i| 5000 + i * 3 + (i % 2)).collect();
        let items = payloads(n);
        let b = encode_batch(&ts, &items).unwrap();
        let (rt, ri, next) = decode_batch(&b, 0).unwrap();
        assert_eq!(rt, ts);
        assert_eq!(ri, items);
        assert_eq!(next, b.len());
    }
}

#[test]
fn corrupt_header_is_rejected() {
    let b = encode_batch(&vec![1, 2], &payloads(2)).unwrap();
    let mut bad = b.clone();
    bad[0] = 200;
    assert_eq!(decode_batch(&bad, 0).err(), Some(ArchiveError::DecodeCorruption));
    let short = b[..b.len() - 1].to_vec();
    assert_eq!(decode_batch(&short, 0).err(), Some(ArchiveError::DecodeCorruption));
    assert_eq!(decode_batch(&b[..5], 0).err(), Some(ArchiveError::DecodeCorruption));
}

#[test]
fn recorder_flushes_full_and_short_batches() {
    let mut r = StreamRecorder::new();
    let mut file = Vec::new();
    for i in 0..(BATCH_SIZE as u64 + 3) {
        let out = r.write_item(i, vec![i as u8]).unwrap();
        if i + 1 == BATCH_SIZE as u64 {
            file.extend(out.unwrap());
        } else {
            assert!(out.is_none());
        }
    }
    file.extend(r.flush().unwrap());
    assert_eq!(r.lens.len(), 2);
    let series = StreamSeries::from_bytes(&file).ok().unwrap();
    assert_eq!(series.times, (0..(BATCH_SIZE as u64 + 3)).collect::<Vec<u64>>());
    assert_eq!(series.payloads[BATCH_SIZE + 2], vec![(BATCH_SIZE + 2) as u8]);
}

#[test]
fn rereading_archive_is_identical() {
    let mut file = encode_batch(&vec![1, 4], &payloads(2)).unwrap();
    file.extend(encode_batch(&vec![9], &payloads(1)).unwrap());
    let a = StreamSeries::from_bytes(&file).ok().unwrap();
    let b = StreamSeries::from_bytes(&file).ok().unwrap();
    assert_eq!(a.times, b.times);
    assert_eq!(a.payloads, b.payloads);
    let store = sample_store();
    assert_eq!(store.reconstruct_at(2, 7), store.reconstruct_at(2, 7));
    assert_eq!(store.reconstruct_at(2, 7), Ok(vec![7, 9]));
}

#[test]
fn reconstruct_scenario() {
    let t = sample_tape();
    assert_eq!(t.reconstruct_at(5), Ok(vec![1]));
    assert_eq!(t.reconstruct_at(10), Ok(vec![2]));
    assert_eq!(t.reconstruct_at(11), Ok(vec![2]));
    assert_eq!(t.reconstruct_at(-1), Err(ArchiveError::NoVersionAtTime));
    assert_eq!(t.valid_from(5), 0);
    assert_eq!(t.valid_from(12), 10);
}

#[test]
fn reconstruct_folds_between_times() {
    let store = sample_store();
    let t1 = store.reconstruct_at(2, 6).unwrap();
    let t2 = store.reconstruct_at(2, 25).unwrap();
    assert_eq!(t1, vec![7, 9]);
    assert_eq!(patch(&t1, &vec![FieldChange { field: 0, value: 0 }]), Some(t2));
}

#[test]
fn bad_diff_is_corruption() {
    let t = Tape {
        base_time: 0,
        baseline: vec![1],
        diffs: vec![TapeDiff { time: 3, changes: vec![FieldChange { field: 4, value: 2 }] }],
    };
    assert_eq!(t.reconstruct_at(2), Ok(vec![1]));
    assert_eq!(t.reconstruct_at(3), Err(ArchiveError::DecodeCorruption));
}

#[test]
fn diff_then_patch() {
    let old = vec![1, 2, 3];
    let new = vec![1, 5, 4];
    let d = diff(&old, &new);
    assert_eq!(d, vec![FieldChange { field: 1, value: 5 }, FieldChange { field: 2, value: 4 }]);
    assert_eq!(patch(&old, &d), Some(new));
}

#[test]
fn versions_in_range_half_open() {
    let store = sample_store();
    let v = store.versions_in_range(2, 5, 20).unwrap();
    let got: Vec<(i64, Vec<i64>)> = v.into_iter().map(|x| (x.time, x.value)).collect();
    assert_eq!(got, vec![(5, vec![7, 8]), (6, vec![7, 9])]);
    let v = store.versions_in_range(2, 6, 21).unwrap();
    let got: Vec<(i64, Vec<i64>)> = v.into_iter().map(|x| (x.time, x.value)).collect();
    assert_eq!(got, vec![(6, vec![7, 9]), (20, vec![0, 9])]);
    assert_eq!(store.versions_in_range(99, 0, 10).err(), Some(ArchiveError::NotFound));
}

#[test]
fn store_lookup_and_ids() {
    let store = sample_store();
    assert_eq!(store.reconstruct_at(42, 5), Err(ArchiveError::NotFound));
    assert_eq!(store.all_ids(), vec![1, 2, 3, 4, 5]);
    assert!(store.lookup(3).is_some());
    assert!(store.lookup(6).is_none());
}

#[test]
fn unknown_type_is_rejected() {
    let m = sample_manager();
    let mut pages = PageManager::new();
    let req = EntitiesRequest { ty: "nothing".to_string(), at: None, id: None, page: None, count: None };
    assert_eq!(entities(&req, &m, &mut pages).err(), Some(ArchiveError::EntityTypeNotFound));
    assert_eq!(m.all_entity_ids(&"nothing".to_string()).err(), Some(ArchiveError::EntityTypeNotFound));
}

fn drain(m: usize, n: usize) -> Vec<u128> {
    let store = {
        let mut s = TapeStore::new();
        for i in 0..m {
            s.insert(i as u128 + 100, sample_tape());
        }
        s
    };
    let mut manager = DatabaseManager::new();
    manager.register("teams".to_string(), store);
    let mut pages = PageManager::new();
    let mut seen = Vec::new();
    let req = EntitiesRequest { ty: "Teams".to_string(), at: Some(5), id: None, page: None, count: Some(n) };
    let mut resp = entities(&req, &manager, &mut pages).ok().unwrap();
    loop {
        assert!(resp.data.len() <= n);
        seen.extend(resp.data.iter().map(|r| r.entity_id));
        match resp.next_page {
            None => break,
            Some(tok) => {
                let req = EntitiesRequest { ty: "teams".to_string(), at: None, id: None, page: Some(tok), count: Some(n) };
                resp = entities(&req, &manager, &mut pages).ok().unwrap();
            }
        }
    }
    seen
}

#[test]
fn pagination_yields_each_entity_once() {
    assert_eq!(drain(0, 3), Vec::<u128>::new());
    assert_eq!(drain(2, 5), vec![100, 101]);
    assert_eq!(drain(3, 1), vec![100, 101, 102]);
    assert_eq!(drain(5, 2), vec![100, 101, 102, 103, 104]);
}

#[test]
fn exhausted_and_unknown_tokens_are_rejected() {
    let m = sample_manager();
    let mut pages = PageManager::new();
    let req = EntitiesRequest { ty: "playoffs".to_string(), at: Some(30), id: None, page: None, count: Some(3) };
    let first = entities(&req, &m, &mut pages).ok().unwrap();
    assert_eq!(first.data.len(), 3);
    let tok = first.next_page.unwrap();
    let again = EntitiesRequest { ty: "playoffs".to_string(), at: None, id: None, page: Some(tok), count: Some(3) };
    let second = entities(&again, &m, &mut pages).ok().unwrap();
    assert_eq!(second.data.len(), 2);
    assert_eq!(second.next_page, None);
    assert_eq!(entities(&again, &m, &mut pages).err(), Some(ArchiveError::InvalidPageToken));
    assert_eq!(pages.get_page(tok).err(), Some(ArchiveError::InvalidPageToken));
    assert_eq!(pages.get_page(tok + 1000).err(), Some(ArchiveError::InvalidPageToken));
}

#[test]
fn page_take_n_directly() {
    let store = sample_store();
    let mut p = Page::entities(7, vec![2, 1, 99]);
    let rows = p.take_n(&store, 2).ok().unwrap();
    let got: Vec<(u128, i64, Vec<i64>)> = rows.into_iter().map(|r| (r.entity_id, r.valid_from, r.data)).collect();
    assert_eq!(got, vec![(2, 6, vec![7, 9]), (1, 0, vec![1])]);
    assert!(!p.is_empty());
    assert!(p.take_n(&store, 5).ok().unwrap().is_empty());
    assert!(p.is_empty());
}

#[test]
fn versions_request_for_one_id() {
    let m = sample_manager();
    let mut pages = PageManager::new();
    let stream = StreamSeries { times: vec![], payloads: vec![] };
    let req = VersionsRequest { ty: "playoffs".to_string(), before: None, after: None, id: Some(2), page: None, count: None };
    let resp = versions(&req, &m, &stream, &mut pages).ok().unwrap();
    let got: Vec<i64> = resp.data.iter().map(|r| r.valid_from).collect();
    assert_eq!(got, vec![5, 6, 20]);
    assert_eq!(resp.next_page, None);
}

#[test]
fn stream_versions_step_three() {
    let m = sample_manager();
    let mut pages = PageManager::new();
    let stream = StreamSeries { times: vec![0, 4], payloads: vec![vec![1], vec![2]] };
    let req = VersionsRequest { ty: "Stream".to_string(), before: Some(9), after: Some(0), id: None, page: None, count: None };
    let resp = versions(&req, &m, &stream, &mut pages).ok().unwrap();
    let got: Vec<(i64, Vec<u8>)> = resp.samples.into_iter().map(|r| (r.valid_from, r.data)).collect();
    assert_eq!(got, vec![(0, vec![1]), (3, vec![1]), (6, vec![2])]);
    assert_eq!(resp.next_page, None);
}

#[test]
fn stream_window_and_times() {
    assert_eq!(stream_window(Some(0), Some(9), 1), (0, 9));
    assert_eq!(stream_window(Some(10), None, 2), (10, 16));
    assert_eq!(stream_window(None, Some(10), 2), (4, 10));
    assert_eq!(stream_window(None, None, 1), (i64::MAX - 3, 3));
    assert_eq!(stream_window(None, Some(i64::MIN + 1), 5), (i64::MIN, i64::MIN + 1));
    assert_eq!(stream_sample_times(0, 9), vec![0, 3, 6]);
    assert_eq!(stream_sample_times(0, 10), vec![0, 3, 6, 9]);
    assert_eq!(stream_sample_times(5, 5), Vec::<i64>::new());
    let series = StreamSeries { times: vec![5], payloads: vec![vec![3]] };
    assert_eq!(stream_rows(&series, 0, 9).err(), Some(ArchiveError::NoVersionAtTime));
    let rows = stream_rows(&series, 6, 12).ok().unwrap();
    assert_eq!(rows.iter().map(|r| (r.valid_from, r.data.clone())).collect::<Vec<(i64, Vec<u8>)>>(), vec![(6, vec![3]), (9, vec![3])]);
}

#[test]
fn playoffs_id_prefers_underscore_id() {
    let mut p = Playoffs {
        v: None,
        id: Some(7),
        bracket: None,
        playoffs_id: Some(9),
        name: "x".to_string(),
        number_of_rounds: 1,
        playoff_day: 0,
        round: None,
        rounds: vec![],
        season: 1,
        tomorrow_round: None,
        tournament: None,
        winner: None,
    };
    assert_eq!(p.id(), 7);
    p.id = None;
    assert_eq!(p.id(), 9);
}

#[test]
fn payload_block_is_compressed() {
    let ts: Vec<u64> = (0..50).collect();
    let items: Vec<Vec<u8>> = (0..50).map(|_| vec![42u8; 64]).collect();
    let b = encode_batch(&ts, &items).unwrap();
    let f = decode_frame(&b, 0).ok().unwrap();
    assert_eq!(f.next, b.len());
    // a zstd frame opens with its magic number
    assert_eq!(b[f.data_start..f.data_start + 4].to_vec(), vec![0x28, 0xb5, 0x2f, 0xfd]);
}

#[test]
fn garbage_payload_block_is_rejected() {
    let h = StreamBatchHeader { times_len: 8, times_bits_len: 64, data_compressed_len: 4, data_uncompressed_len: 4 };
    let mut b = h.encode();
    b.extend(pack_times(&vec![3]));
    b.extend(vec![1, 2, 3, 4]);
    assert!(decode_frame(&b, 0).is_ok());
    assert_eq!(decode_batch(&b, 0).err(), Some(ArchiveError::DecodeCorruption));
    let bad_bits = StreamBatchHeader { times_len: 8, times_bits_len: 63, data_compressed_len: 0, data_uncompressed_len: 0 };
    let mut c = bad_bits.encode();
    c.extend(pack_times(&vec![3]));
    assert_eq!(decode_batch(&c, 0).err(), Some(ArchiveError::DecodeCorruption));
}

#[test]
fn second_batch_decodes_from_offset() {
    let a = encode_batch(&vec![1, 2], &payloads(2)).unwrap();
    let b = encode_batch(&vec![7], &vec![vec![5, 5]]).unwrap();
    let mut file = a.clone();
    file.extend(b.clone());
    let (ts, items, next) = decode_batch(&file, a.len()).unwrap();
    assert_eq!(ts, vec![7]);
    assert_eq!(items, vec![vec![5, 5]]);
    assert_eq!(next, file.len());
}

#[test]
fn builder_records_diffs() {
    let mut b = TapeBuilder::new(0, vec![1, 5]);
    b.record(10, vec![2, 5]);
    b.record(10, vec![2, 6]);
    b.record(30, vec![2, 6]);
    assert_eq!(b.tape.diffs.len(), 3);
    assert_eq!(b.tape.diffs[0].changes, vec![FieldChange { field: 0, value: 2 }]);
    assert!(b.tape.diffs[2].changes.is_empty());
    assert_eq!(b.tape.reconstruct_at(5), Ok(vec![1, 5]));
    assert_eq!(b.tape.reconstruct_at(10), Ok(vec![2, 6]));
    assert_eq!(b.tape.reconstruct_at(-1), Err(ArchiveError::NoVersionAtTime));
    let v = b.tape.versions_in_range(0, 31).unwrap();
    let got: Vec<(i64, Vec<i64>)> = v.into_iter().map(|x| (x.time, x.value)).collect();
    assert_eq!(got, vec![(0, vec![1, 5]), (10, vec![2, 6]), (30, vec![2, 6])]);
}

#[test]
fn stream_query_before_first_sample_fails() {
    let m = sample_manager();
    let mut pages = PageManager::new();
    let stream = StreamSeries { times: vec![4], payloads: vec![vec![1]] };
    let req = VersionsRequest { ty: "stream".to_string(), before: Some(9), after: Some(0), id: None, page: None, count: None };
    assert_eq!(versions(&req, &m, &stream, &mut pages).err(), Some(ArchiveError::NoVersionAtTime));
    let req = VersionsRequest { ty: "stream".to_string(), before: None, after: Some(6), id: None, page: None, count: Some(2) };
    let resp = versions(&req, &m, &stream, &mut pages).ok().unwrap();
    assert_eq!(resp.samples.iter().map(|r| r.valid_from).collect::<Vec<i64>>(), vec![6, 9]);
}

#[test]
fn equal_time_diffs_make_one_version() {
    let t = Tape {
        base_time: 0,
        baseline: vec![1, 1],
        diffs: vec![
            TapeDiff { time: 0, changes: vec![FieldChange { field: 0, value: 2 }] },
            TapeDiff { time: 4, changes: vec![FieldChange { field: 1, value: 3 }] },
            TapeDiff { time: 4, changes: vec![FieldChange { field: 0, value: 5 }] },
        ],
    };
    let got: Vec<(i64, Vec<i64>)> = t.versions_in_range(0, 10).unwrap().into_iter().map(|x| (x.time, x.value)).collect();
    assert_eq!(got, vec![(0, vec![2, 1]), (4, vec![5, 3])]);
    assert_eq!(t.reconstruct_at(4), Ok(vec![5, 3]));
}

#[test]
fn page_table_after_continuations() {
    let m = sample_manager();
    let mut pages = PageManager::new();
    let tag = "playoffs".to_string();
    let first = start_page(&tag, None, Query::Entities { at: 30 }, 2, &m, &mut pages).ok().unwrap();
    let tok = first.next_page.unwrap();
    assert_eq!(pages.slots.len(), 1);
    assert_eq!(pages.get_page(tok).ok().unwrap().ids.len() - pages.get_page(tok).ok().unwrap().pos, 3);
    // an unknown type leaves the page as it was
    assert_eq!(continue_page(tok, &"nothing".to_string(), 2, &m, &mut pages).err(), Some(ArchiveError::EntityTypeNotFound));
    assert_eq!(pages.get_page(tok).ok().unwrap().pos, 2);
    let second = continue_page(tok, &tag, 2, &m, &mut pages).ok().unwrap();
    assert_eq!(second.data.iter().map(|r| r.entity_id).collect::<Vec<u128>>(), vec![3, 4]);
    assert_eq!(second.next_page, Some(tok));
    let third = continue_page(tok, &tag, 2, &m, &mut pages).ok().unwrap();
    assert_eq!(third.data.iter().map(|r| r.entity_id).collect::<Vec<u128>>(), vec![5]);
    assert_eq!(third.next_page, None);
    assert_eq!(pages.slots.len(), 1);
    assert!(pages.get_page(tok).is_err());
    // a query that fits one page adds no page; a new one gets a fresh token
    let single = start_page(&tag, Some(2), Query::Entities { at: 30 }, 2, &m, &mut pages).ok().unwrap();
    assert_eq!(single.next_page, None);
    assert_eq!(pages.slots.len(), 1);
    let again = start_page(&tag, None, Query::Entities { at: 30 }, 1, &m, &mut pages).ok().unwrap();
    assert_ne!(again.next_page, Some(tok));
    assert_eq!(pages.slots.len(), 2);
}

#[test]
fn empty_type_adds_no_page() {
    let mut m = DatabaseManager::new();
    m.register("teams".to_string(), TapeStore::new());
    let mut pages = PageManager::new();
    let req = EntitiesRequest { ty: "teams".to_string(), at: None, id: None, page: None, count: Some(4) };
    let resp = entities(&req, &m, &mut pages).ok().unwrap();
    assert!(resp.data.is_empty());
    assert_eq!(resp.next_page, None);
    assert_eq!(pages.slots.len(), 0);
}
