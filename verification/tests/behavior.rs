use data_query::record::DataRecord;
use data_query::store::{finish_load, Store};
use data_query::supported_extension;

fn csv(store: &mut Store, content: &[u8], saved: &Vec<DataRecord>) -> u32 {
    store.ingest_delimited(&content.to_vec(), saved)
}

fn no_saved() -> Vec<DataRecord> {
    Vec::new()
}

#[test]
fn verify_exactly_once() {
    let mut store = Store::new();
    csv(&mut store, b"id,link\nA,http://x\n", &no_saved());
    let first = store
        .verify_record_at(&"A".to_string(), "2024-01-02 03:04:05".to_string())
        .expect("first verification succeeds");
    assert!(first.is_verified);
    assert_eq!(first.verify_time.as_deref(), Some("2024-01-02 03:04:05"));
    let second = store.verify_record_at(&"A".to_string(), "2024-01-02 03:04:06".to_string());
    assert_eq!(second.unwrap_err(), "record already verified");
    let rec = &store.records()[0];
    assert_eq!(rec.query_count, first.query_count);
    assert_eq!(rec.verify_time.as_deref(), Some("2024-01-02 03:04:05"));
}

#[test]
fn verify_unknown_id_fails() {
    let mut store = Store::new();
    csv(&mut store, b"id,link\nA,http://x\n", &no_saved());
    let r = store.verify_record_at(&"B".to_string(), "2024-01-01 00:00:00".to_string());
    assert_eq!(r.unwrap_err(), "record not found");
}

#[test]
fn usage_state_survives_reload() {
    let saved = vec![DataRecord {
        id: "A".to_string(),
        link: "http://old".to_string(),
        all_columns: vec!["A".to_string(), "http://old".to_string()],
        query_count: 5,
        is_verified: true,
        verify_time: Some("2023-12-31 23:59:59".to_string()),
    }];
    let mut store = Store::new();
    let count = csv(&mut store, b"id,link,extra\nA,http://new,E1\n", &saved);
    assert_eq!(count, 1);
    let rec = &store.records()[0];
    assert_eq!(rec.link, "http://new");
    assert_eq!(rec.all_columns, vec!["A", "http://new", "E1"]);
    assert_eq!(rec.query_count, 5);
    assert!(rec.is_verified);
    assert_eq!(rec.verify_time.as_deref(), Some("2023-12-31 23:59:59"));
}

#[test]
fn round_trip_usage_state() {
    let mut store = Store::new();
    csv(&mut store, b"id,link\nA,http://a\nB,http://b\n", &no_saved());
    store.query_data_at(&"A".to_string(), "t1".to_string());
    store.query_data_at(&"A".to_string(), "t2".to_string());
    store
        .verify_record_at(&"B".to_string(), "t3".to_string())
        .unwrap();
    // a snapshot of the records acts as the saved state of a new load
    let saved: Vec<DataRecord> = store
        .records()
        .iter()
        .map(|r| DataRecord {
            id: r.id.clone(),
            link: r.link.clone(),
            all_columns: r.all_columns.clone(),
            query_count: r.query_count,
            is_verified: r.is_verified,
            verify_time: r.verify_time.clone(),
        })
        .collect();
    let mut store2 = Store::new();
    csv(&mut store2, b"id,link\nA,http://a\nB,http://b\n", &saved);
    for (old, new) in saved.iter().zip(store2.records().iter()) {
        assert_eq!(old.id, new.id);
        assert_eq!(old.query_count, new.query_count);
        assert_eq!(old.is_verified, new.is_verified);
        assert_eq!(old.verify_time, new.verify_time);
    }
}

#[test]
fn duplicate_ids_flagged_first_wins() {
    let mut store = Store::new();
    let count = csv(&mut store, b"id,link\nA,first\nA,second\n", &no_saved());
    assert_eq!(count, 1);
    assert_eq!(store.records().len(), 1);
    assert_eq!(store.records()[0].link, "first");
    let r = store.query_data_at(&"A".to_string(), "t".to_string());
    assert!(r.found);
    assert!(r.is_duplicate);
    assert_eq!(r.record.unwrap().link, "first");
}

#[test]
fn duplicate_ids_across_two_files() {
    let mut store = Store::new();
    csv(&mut store, b"id,link\nA,first\n", &no_saved());
    csv(&mut store, b"id,link\nA,second\n", &no_saved());
    assert_eq!(store.records().len(), 1);
    assert_eq!(store.records()[0].link, "first");
    let r = store.query_data_at(&"A".to_string(), "t".to_string());
    assert!(r.is_duplicate);
}

#[test]
fn cross_column_lookup() {
    let mut store = Store::new();
    csv(&mut store, b"h1,h2,h3,h4\nA1,http://x,B1,C1\n", &no_saved());
    let by_c1 = store.query_data_at(&"C1".to_string(), "t1".to_string());
    assert!(by_c1.found);
    assert_eq!(by_c1.matched_column, Some(3));
    let rec_c1 = by_c1.record.unwrap();
    let by_a1 = store.query_data_at(&"A1".to_string(), "t2".to_string());
    assert!(by_a1.found);
    assert_eq!(by_a1.matched_column, Some(0));
    let rec_a1 = by_a1.record.unwrap();
    assert_eq!(rec_c1.id, rec_a1.id);
    assert_eq!(rec_c1.link, "http://x");
    assert_eq!(rec_c1.query_count, 1);
    assert_eq!(rec_a1.query_count, 2); // two lookups of the same record
}

#[test]
fn miss_is_logged_without_duplicate_flag() {
    let mut store = Store::new();
    csv(&mut store, b"id,link\nA,x\nA,y\n", &no_saved());
    let r = store.query_data_at(&"nope".to_string(), "t".to_string());
    assert!(!r.found);
    assert!(!r.is_duplicate);
    assert!(r.record.is_none());
    assert!(r.matched_column.is_none());
    let h = store.get_history();
    assert_eq!(h.len(), 1);
    assert_eq!(h[0].query_key, "nope");
    assert_eq!(h[0].query_result, None);
    assert!(!h[0].is_verified);
}

#[test]
fn history_capped_at_hundred_most_recent_first() {
    let mut store = Store::new();
    csv(&mut store, b"id,link\nA,x\n", &no_saved());
    for i in 0..150 {
        store.query_data_at(&format!("k{}", i), format!("t{}", i));
    }
    let h = store.get_history();
    assert_eq!(h.len(), 100);
    for (pos, entry) in h.iter().enumerate() {
        assert_eq!(entry.query_key, format!("k{}", 149 - pos));
    }
    let mut ids: Vec<u64> = h.iter().map(|e| e.id).collect();
    let len_before = ids.len();
    ids.dedup();
    assert_eq!(ids.len(), len_before);
}

#[test]
fn history_clear_and_delete() {
    let mut store = Store::new();
    csv(&mut store, b"id,link\nA,x\n", &no_saved());
    store.query_data_at(&"A".to_string(), "t1".to_string());
    store.query_data_at(&"gone".to_string(), "t2".to_string());
    store.query_data_at(&"A".to_string(), "t3".to_string());
    assert_eq!(store.get_history().len(), 3);
    let middle_id = store.get_history()[1].id;
    store.delete_history_item(middle_id);
    let h = store.get_history();
    assert_eq!(h.len(), 2);
    assert_eq!(h[0].query_key, "A");
    assert_eq!(h[0].query_time, "t3");
    assert_eq!(h[1].query_time, "t1");
    store.clear_history();
    assert_eq!(store.get_history().len(), 0);
}

#[test]
fn hit_entry_snapshots_link_and_verified() {
    let mut store = Store::new();
    csv(&mut store, b"id,link\nA,http://x\n", &no_saved());
    store.query_data_at(&"A".to_string(), "t1".to_string());
    store
        .verify_record_at(&"A".to_string(), "t2".to_string())
        .unwrap();
    store.query_data_at(&"A".to_string(), "t3".to_string());
    let h = store.get_history();
    assert_eq!(h[0].query_result.as_deref(), Some("http://x"));
    assert!(h[0].is_verified);
    assert_eq!(h[1].query_result.as_deref(), Some("http://x"));
    assert!(!h[1].is_verified);
    assert_eq!(store.records()[0].query_count, 2);
}

#[test]
fn legacy_encoded_file_is_recovered() {
    let text = "\u{7f16}\u{53f7},\u{94fe}\u{63a5}\nC001,http://legacy\n\u{6d4b}\u{8bd5},v\n";
    let (bytes, _, had_errors) = encoding_rs::GBK.encode(text);
    assert!(!had_errors);
    let bytes = bytes.into_owned();
    assert!(String::from_utf8(bytes.clone()).is_err());
    let mut store = Store::new();
    let count = store.ingest_delimited(&bytes, &no_saved());
    assert_eq!(count, 2);
    let r = store.query_data_at(&"\u{6d4b}\u{8bd5}".to_string(), "t".to_string());
    assert!(r.found);
    assert_eq!(r.record.unwrap().link, "v");
}

#[test]
fn utf8_decodes_as_is() {
    assert_eq!(
        data_query::codec::decode_text(&b"hello, \xe4\xb8\x96\xe7\x95\x8c".to_vec()),
        "hello, \u{4e16}\u{754c}"
    );
}

#[test]
fn undecodable_bytes_fall_back_lossy() {
    // "A" followed by a truncated double-byte sequence: the clean legacy
    // decode reports an error, so the lossy last resort is used.
    let bytes = vec![0x41u8, 0x81];
    let (_, _, gbk_errors) = encoding_rs::GBK.decode(&bytes);
    assert!(gbk_errors);
    assert_eq!(data_query::codec::decode_text(&bytes), "A\u{fffd}");
}

#[test]
fn short_and_empty_rows_are_ignored() {
    let mut store = Store::new();
    let count = csv(&mut store, b"id,link\nonly-one-cell\n,empty-id\n\n", &no_saved());
    assert_eq!(count, 0);
    assert_eq!(store.records().len(), 0);
    let r = store.query_data_at(&"empty-id".to_string(), "t".to_string());
    assert!(!r.found);
}

#[test]
fn delimiter_sniffing() {
    let mut tabbed = Store::new();
    csv(&mut tabbed, b"id\tlink\nT1\thttp://t\n", &no_saved());
    assert_eq!(tabbed.records()[0].id, "T1");
    assert_eq!(tabbed.records()[0].link, "http://t");

    let mut semi = Store::new();
    csv(&mut semi, b"id;link\nS1;http://s\n", &no_saved());
    assert_eq!(semi.records()[0].link, "http://s");

    let mut comma = Store::new();
    csv(&mut comma, b"id,link\nC1,http://c\n", &no_saved());
    assert_eq!(comma.records()[0].link, "http://c");
}

#[test]
fn crlf_and_flexible_rows() {
    let mut store = Store::new();
    let count = csv(&mut store, b"h1,h2\r\nA,x,extra\r\nB,y\r\n", &no_saved());
    assert_eq!(count, 2);
    let a = &store.records()[0];
    assert_eq!(a.id, "A");
    assert_eq!(a.all_columns, vec!["A", "x", "extra"]);
    let b = &store.records()[1];
    assert_eq!(b.link, "y");
}

#[test]
fn cells_are_trimmed() {
    let mut store = Store::new();
    csv(&mut store, b"id,link\n  A \t, http://x \n", &no_saved());
    let rec = &store.records()[0];
    assert_eq!(rec.id, "A");
    assert_eq!(rec.link, "http://x");
    let r = store.query_data_at(&"A".to_string(), "t".to_string());
    assert!(r.found);
}

#[test]
fn begin_load_clears_tables_keeps_history() {
    let mut store = Store::new();
    csv(&mut store, b"id,link\nA,x\nA,y\n", &no_saved());
    store.query_data_at(&"A".to_string(), "t".to_string());
    store.begin_load();
    assert_eq!(store.records().len(), 0);
    assert_eq!(store.get_history().len(), 1);
    let r = store.query_data_at(&"A".to_string(), "t2".to_string());
    assert!(!r.found);
    assert!(!r.is_duplicate);
}

#[test]
fn unreadable_spreadsheet_is_rejected() {
    let mut store = Store::new();
    let garbage = b"this is not a spreadsheet".to_vec();
    assert!(store.ingest_xlsx(&garbage, &no_saved()).is_none());
    assert!(store.ingest_xls(&garbage, &no_saved()).is_none());
    assert_eq!(store.records().len(), 0);
}

#[test]
fn load_without_files_fails() {
    let r = finish_load(0, 0, Vec::new());
    assert_eq!(r.unwrap_err(), "no valid data files");
}

#[test]
fn load_reports_counts_and_skips() {
    let skipped = vec!["bad.xlsx".to_string()];
    let l = finish_load(2, 7, skipped.clone()).unwrap();
    assert_eq!(l.file_count, 2);
    assert_eq!(l.record_count, 7);
    assert_eq!(l.skipped_files, skipped);
}

#[test]
fn extension_dispatch() {
    assert!(supported_extension("csv"));
    assert!(supported_extension("txt"));
    assert!(supported_extension("xlsx"));
    assert!(supported_extension("xls"));
    assert!(!supported_extension("pdf"));
    assert!(!supported_extension(""));
}

#[test]
fn trimming_matches_whitespace() {
    assert_eq!(data_query::text::trim_string(&"  a b\t\n".to_string()), "a b");
    assert_eq!(data_query::text::trim_string(&"\u{3000}x\u{a0}".to_string()), "x");
    assert_eq!(data_query::text::trim_string(&"   ".to_string()), "");
}

#[test]
fn parse_delimited_shapes() {
    let rows = data_query::text::parse_delimited(&"h1,h2\na,b,c\nd\n".to_string());
    assert_eq!(
        rows,
        vec![
            vec!["a".to_string(), "b".to_string(), "c".to_string()],
            vec!["d".to_string()],
            vec!["".to_string()],
        ]
    );
}

#[test]
fn restore_history_round_trip() {
    let mut store = Store::new();
    csv(&mut store, b"id,link\nA,x\n", &no_saved());
    store.query_data_at(&"A".to_string(), "t1".to_string());
    store.query_data_at(&"miss".to_string(), "t2".to_string());
    let snapshot: Vec<data_query::record::HistoryRecord> = store
        .get_history()
        .iter()
        .map(|h| data_query::record::HistoryRecord {
            id: h.id,
            query_time: h.query_time.clone(),
            query_key: h.query_key.clone(),
            query_result: h.query_result.clone(),
            is_verified: h.is_verified,
        })
        .collect();
    let max_id = snapshot.iter().map(|h| h.id).max().unwrap();
    let mut store2 = Store::new();
    store2.restore_history(snapshot, max_id + 1);
    let h = store2.get_history();
    assert_eq!(h.len(), 2);
    assert_eq!(h[0].query_key, "miss");
    assert_eq!(h[1].query_key, "A");
    store2.query_data_at(&"again".to_string(), "t3".to_string());
    assert_eq!(store2.get_history().len(), 3);
    assert_eq!(store2.get_history()[0].query_key, "again");
}

#[test]
fn wall_clock_verification_stamps_time() {
    let mut store = Store::new();
    csv(&mut store, b"id,link\nA,x\n", &no_saved());
    let rec = store.verify_record(&"A".to_string()).unwrap();
    assert!(rec.is_verified);
    let stamp = rec.verify_time.unwrap();
    assert_eq!(stamp.len(), 19); // "YYYY-MM-DD HH:MM:SS"
    let r = store.query_data(&"A".to_string());
    assert!(r.found);
    assert_eq!(r.record.unwrap().query_count, 1);
}

#[test]
fn value_collision_last_insert_wins() {
    let mut store = Store::new();
    csv(&mut store, b"id,link,tag\nA,http://a,shared\nB,http://b,shared\n", &no_saved());
    let r = store.query_data_at(&"shared".to_string(), "t".to_string());
    assert!(r.found);
    assert_eq!(r.record.unwrap().id, "B");
    let a = store.query_data_at(&"A".to_string(), "t2".to_string());
    assert_eq!(a.record.unwrap().link, "http://a");
}
