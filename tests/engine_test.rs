use feodb::codec::{append_record, read_u64};
use feodb::engine::segment_path;
use feodb::{Config, DbError, SegmentImage, SegmentRef, DB};
use serde_json::Value;

fn small_db(mem: u64, seg: u64) -> DB {
    DB::create_with_config(
        Config {
            mem_table_max_size: mem,
            max_segment_size: seg,
        },
        Vec::new(),
        Vec::new(),
    )
    .unwrap()
}

fn images(db: &DB) -> Vec<SegmentImage> {
    db.segments
        .iter()
        .map(|s| SegmentImage {
            path: s.path.clone(),
            data: s.data.clone(),
            created: s.created,
        })
        .collect()
}

fn reopen(db: &DB) -> DB {
    DB::create_with_config(
        Config {
            mem_table_max_size: db.config.mem_table_max_size,
            max_segment_size: db.config.max_segment_size,
        },
        db.main_segment.data.clone(),
        images(db),
    )
    .unwrap()
}

fn doc(db: &DB, key: u64) -> Option<Value> {
    db.find_by_id(&key).unwrap()
}

#[test]
fn round_trip_after_reopen() {
    let mut db = small_db(1000, 100000);
    db.insert(42, "{\"a\":[1,2,3]}".to_string()).unwrap();
    db.flush().unwrap();
    let db2 = reopen(&db);
    let expected: Value = serde_json::from_str("{\"a\":[1,2,3]}").unwrap();
    assert_eq!(doc(&db2, 42), Some(expected));
}

#[test]
fn last_write_wins_before_and_after_rotation() {
    let mut db = small_db(1000, 100000);
    db.insert(1, "\"first\"".to_string()).unwrap();
    db.insert(1, "\"second\"".to_string()).unwrap();
    db.flush().unwrap();
    assert_eq!(doc(&db, 1), Some(Value::from("second")));
    db.rotate().unwrap();
    let db2 = reopen(&db);
    assert_eq!(doc(&db2, 1), Some(Value::from("second")));
}

#[test]
fn newer_segment_shadows_older() {
    let mut db = small_db(1000, 100000);
    db.insert(7, "\"A\"".to_string()).unwrap();
    db.flush().unwrap();
    db.rotate().unwrap();
    db.insert(7, "\"B\"".to_string()).unwrap();
    db.flush().unwrap();
    assert_eq!(db.segments.len(), 1);
    assert_eq!(doc(&db, 7), Some(Value::from("B")));
    db.rotate().unwrap();
    assert_eq!(db.segments.len(), 2);
    assert_eq!(doc(&db, 7), Some(Value::from("B")));
    assert_eq!(doc(&reopen(&db), 7), Some(Value::from("B")));
}

#[test]
fn range_is_complete_and_without_duplicates() {
    let mut db = small_db(200, 2000);
    for key in 1..1001u64 {
        db.insert(key, format!("{}", key)).unwrap();
    }
    for key in 50..60u64 {
        db.insert(key, format!("{}", key * 1000)).unwrap();
    }
    assert!(db.segments.len() > 1);
    let raw = db.find_raw_range(11, 100);
    assert_eq!(raw.len(), 90);
    let mut keys: Vec<u64> = raw.iter().map(|e| e.0).collect();
    keys.sort();
    keys.dedup();
    assert_eq!(keys, (11..101).collect::<Vec<u64>>());
    let docs = db.find_by_id_range(&11, &100).unwrap();
    assert_eq!(docs.len(), 90);
    assert!(docs.contains(&Value::from(55000)));
    assert!(!docs.contains(&Value::from(55)));
}

#[test]
fn range_outside_all_keys_is_empty() {
    let mut db = small_db(1000, 100000);
    db.insert(5, "1".to_string()).unwrap();
    db.flush().unwrap();
    assert_eq!(db.find_by_id_range(&6, &u64::MAX).unwrap().len(), 0);
    assert_eq!(db.find_by_id_range(&0, &u64::MAX).unwrap().len(), 1);
}

#[test]
fn absent_key_is_not_found() {
    let mut db = small_db(1000, 100000);
    db.insert(1, "null".to_string()).unwrap();
    assert_eq!(db.find_by_id(&2).unwrap(), None);
    assert_eq!(db.find_by_id(&1).unwrap(), Some(Value::Null));
    db.flush().unwrap();
    assert_eq!(db.find_by_id(&2).unwrap(), None);
}

#[test]
fn reopen_gives_same_answers() {
    let mut db = small_db(100, 600);
    for key in 0..200u64 {
        db.insert(key % 70, format!("[{}]", key)).unwrap();
    }
    db.flush().unwrap();
    let db2 = reopen(&db);
    for key in 0..80u64 {
        assert_eq!(doc(&db, key), doc(&db2, key));
    }
}

#[test]
fn compaction_keeps_live_documents_and_shrinks() {
    let mut db = small_db(1000, 100000);
    for round in 0..5u64 {
        for key in 0..10u64 {
            db.insert(key, format!("{}", round * 100 + key)).unwrap();
        }
        db.flush().unwrap();
    }
    let before: Vec<Option<Value>> = (0..10).map(|k| doc(&db, k)).collect();
    let old_len = db.main_segment.data.len();
    db.compact(SegmentRef::Main).unwrap();
    assert!(db.main_segment.data.len() < old_len);
    assert_eq!(db.main_segment.data.len(), 10 * (16 + 3));
    let after: Vec<Option<Value>> = (0..10).map(|k| doc(&db, k)).collect();
    assert_eq!(before, after);
    assert_eq!(doc(&reopen(&db), 9), Some(Value::from(409)));
}

#[test]
fn compacting_a_sealed_segment_leaves_main_alone() {
    let mut db = small_db(1000, 100000);
    db.insert(1, "1".to_string()).unwrap();
    db.flush().unwrap();
    db.insert(1, "2".to_string()).unwrap();
    db.flush().unwrap();
    db.rotate().unwrap();
    db.insert(3, "3".to_string()).unwrap();
    db.flush().unwrap();
    let main_before = db.main_segment.data.clone();
    db.compact(SegmentRef::Sealed(0)).unwrap();
    assert_eq!(db.main_segment.data, main_before);
    assert_eq!(db.segments[0].data.len(), 17);
    assert_eq!(doc(&db, 1), Some(Value::from(2)));
    assert_eq!(doc(&db, 3), Some(Value::from(3)));
}

#[test]
fn compacting_a_missing_segment_fails() {
    let mut db = small_db(1000, 100000);
    assert_eq!(db.compact(SegmentRef::Sealed(0)), Err(DbError::NoSuchSegment));
    assert_eq!(db.compact(SegmentRef::Main), Ok(()));
}

#[test]
fn oversized_value_is_taken_alone() {
    let mut db = small_db(10, 100000);
    let big = "\"0123456789abcdef\"".to_string();
    db.insert(1, big.clone()).unwrap();
    assert_eq!(db.mem_table.len(), 1);
    assert_eq!(db.mem_table.size, 18);
    assert_eq!(db.main_segment.data.len(), 0);
    db.insert(2, "2".to_string()).unwrap();
    assert_eq!(db.mem_table.len(), 1);
    assert_eq!(db.mem_table.size, 1);
    assert_eq!(db.main_segment.data.len(), 16 + 18);
    assert_eq!(doc(&db, 1), Some(Value::from("0123456789abcdef")));
}

#[test]
fn flush_happens_when_threshold_is_passed() {
    let mut db = small_db(10, 100000);
    db.insert(1, "123456".to_string()).unwrap();
    db.insert(2, "1234".to_string()).unwrap();
    assert_eq!(db.main_segment.data.len(), 0);
    assert_eq!(db.mem_table.size, 10);
    db.insert(3, "1".to_string()).unwrap();
    assert_eq!(db.main_segment.data.len(), 16 + 6 + 16 + 4);
    assert_eq!(db.mem_table.size, 1);
}

#[test]
fn rotation_happens_when_segment_would_grow_too_large() {
    let mut db = small_db(4, 30);
    db.insert(1, "1111".to_string()).unwrap();
    db.insert(2, "2222".to_string()).unwrap();
    assert_eq!(db.segments.len(), 0);
    assert_eq!(db.main_segment.data.len(), 20);
    db.insert(3, "3333".to_string()).unwrap();
    assert_eq!(db.segments.len(), 0);
    assert_eq!(db.main_segment.data.len(), 40);
    db.insert(4, "4444".to_string()).unwrap();
    assert_eq!(db.segments.len(), 1);
    assert_eq!(db.segments[0].data.len(), 40);
    assert_eq!(db.main_segment.data.len(), 20);
    assert_eq!(doc(&db, 1), Some(Value::from(1111)));
    assert_eq!(doc(&db, 3), Some(Value::from(3333)));
}

#[test]
fn record_layout_is_key_length_payload() {
    let mut db = small_db(1000, 100000);
    db.insert(7, "\"ab\"".to_string()).unwrap();
    db.flush().unwrap();
    let mut expected = 7u64.to_ne_bytes().to_vec();
    expected.extend_from_slice(&4u64.to_ne_bytes());
    expected.extend_from_slice(b"\"ab\"");
    assert_eq!(db.main_segment.data, expected);
    assert_eq!(read_u64(&db.main_segment.data, 0), 7);
    assert_eq!(read_u64(&db.main_segment.data, 8), 4);
}

#[test]
fn appended_records_read_back() {
    let mut data = Vec::new();
    append_record(&mut data, 0x0102030405060708, b"xyz");
    assert_eq!(data.len(), 19);
    assert_eq!(read_u64(&data, 0), 0x0102030405060708);
    assert_eq!(read_u64(&data, 8), 3);
    assert_eq!(&data[16..], b"xyz");
}

#[test]
fn truncated_images_are_corrupt() {
    let cfg = || Config {
        mem_table_max_size: 10,
        max_segment_size: 100,
    };
    assert!(matches!(
        DB::create_with_config(cfg(), vec![1, 2, 3, 4, 5], Vec::new()),
        Err(DbError::CorruptSegment)
    ));
    let mut data = Vec::new();
    append_record(&mut data, 1, b"12");
    data.truncate(17);
    assert!(matches!(
        DB::create_with_config(cfg(), data, Vec::new()),
        Err(DbError::CorruptSegment)
    ));
    let sealed = vec![SegmentImage {
        path: "s".to_string(),
        data: vec![0; 9],
        created: 1,
    }];
    assert!(matches!(
        DB::create_with_config(cfg(), Vec::new(), sealed),
        Err(DbError::CorruptSegment)
    ));
}

#[test]
fn recovery_orders_sealed_segments_by_creation() {
    let mut older = Vec::new();
    append_record(&mut older, 9, b"\"old\"");
    let mut newer = Vec::new();
    append_record(&mut newer, 9, b"\"new\"");
    let sealed = vec![
        SegmentImage { path: "b".to_string(), data: newer, created: 20 },
        SegmentImage { path: "a".to_string(), data: older, created: 10 },
    ];
    let db = DB::new(Vec::new(), sealed).unwrap();
    assert_eq!(db.segments[0].created, 10);
    assert_eq!(db.segments[1].created, 20);
    assert_eq!(doc(&db, 9), Some(Value::from("new")));
    assert_eq!(db.config.mem_table_max_size, 64000);
    assert_eq!(db.config.max_segment_size, 6400000);
}

#[test]
fn recovery_keeps_latest_offset_of_each_key() {
    let mut data = Vec::new();
    append_record(&mut data, 1, b"1");
    append_record(&mut data, 2, b"2");
    append_record(&mut data, 1, b"3");
    let db = DB::new(data, Vec::new()).unwrap();
    assert_eq!(db.main_segment.index.get(&1), Some(&34));
    assert_eq!(db.main_segment.index.get(&2), Some(&17));
    assert_eq!(doc(&db, 1), Some(Value::from(3)));
}

#[test]
fn non_json_payload_is_a_decode_error() {
    let mut db = small_db(1000, 100000);
    db.insert(1, "not json".to_string()).unwrap();
    db.insert(2, "[2]".to_string()).unwrap();
    assert_eq!(db.find_by_id(&1), Err(DbError::Decode));
    assert_eq!(db.find_raw(1), Some(b"not json".to_vec()));
    assert!(matches!(db.find_by_id_range(&0, &5), Err(DbError::Decode)));
    db.flush().unwrap();
    assert_eq!(db.find_by_id(&1), Err(DbError::Decode));
    assert_eq!(doc(&db, 2), Some(Value::from(vec![2])));
}

#[test]
fn range_groups_by_structure_most_recent_first() {
    let mut db = small_db(1000, 100000);
    db.insert(9, "9".to_string()).unwrap();
    db.insert(1, "1".to_string()).unwrap();
    db.flush().unwrap();
    db.rotate().unwrap();
    db.insert(6, "6".to_string()).unwrap();
    db.insert(5, "5".to_string()).unwrap();
    db.insert(9, "90".to_string()).unwrap();
    db.flush().unwrap();
    db.insert(3, "3".to_string()).unwrap();
    db.insert(2, "2".to_string()).unwrap();
    let keys: Vec<u64> = db.find_raw_range(0, 10).iter().map(|e| e.0).collect();
    assert_eq!(keys, vec![2, 3, 5, 6, 9, 1]);
    let docs = db.find_by_id_range(&0, &10).unwrap();
    let expected: Vec<Value> = [2, 3, 5, 6, 90, 1].iter().map(|v| Value::from(*v)).collect();
    assert_eq!(docs, expected);
}

#[test]
fn range_with_bounds_inside_a_segment() {
    let mut db = small_db(1000, 100000);
    for key in 1..21u64 {
        db.insert(key, format!("{}", key)).unwrap();
    }
    db.flush().unwrap();
    let keys: Vec<u64> = db.find_raw_range(5, 7).iter().map(|e| e.0).collect();
    assert_eq!(keys, vec![5, 6, 7]);
    assert_eq!(db.find_by_id_range(&7, &5).unwrap().len(), 0);
}

#[test]
fn flush_appends_records_in_key_order() {
    let mut db = small_db(1000, 100000);
    db.insert(2, "\"b\"".to_string()).unwrap();
    db.flush().unwrap();
    let before = db.main_segment.data.clone();
    db.insert(9, "9".to_string()).unwrap();
    db.insert(4, "4".to_string()).unwrap();
    assert_eq!(db.main_segment.data, before);
    db.flush().unwrap();
    let mut expected = before.clone();
    append_record(&mut expected, 4, b"4");
    append_record(&mut expected, 9, b"9");
    assert_eq!(db.main_segment.data, expected);
    assert_eq!(db.main_segment.index.get(&4), Some(&(before.len() as u64)));
    assert_eq!(db.mem_table.len(), 0);
}

#[test]
fn rotation_moves_main_image_to_a_new_segment_file() {
    let mut db = small_db(1000, 100000);
    db.insert(1, "1".to_string()).unwrap();
    db.flush().unwrap();
    let image = db.main_segment.data.clone();
    db.rotate().unwrap();
    db.rotate().unwrap();
    assert_eq!(db.segments.len(), 2);
    assert_eq!(db.segments[0].data, image);
    assert!(db.segments[0].created < db.segments[1].created);
    let path = &db.segments[0].path;
    assert!(path.starts_with("./segments/segment_"));
    assert!(path.ends_with(".db"));
    assert_ne!(db.segments[0].path, db.segments[1].path);
    assert_eq!(db.main_segment.path, "main_segment.db");
    assert_eq!(db.main_segment.data.len(), 0);
}

#[test]
fn segment_path_has_directory_and_suffix() {
    assert_eq!(segment_path("abc"), "./segments/segment_abc.db");
}

#[test]
fn compacting_twice_changes_nothing_more() {
    let mut db = small_db(1000, 100000);
    for round in 0..3u64 {
        db.insert(1, format!("{}", round)).unwrap();
        db.insert(2, format!("{}", round + 10)).unwrap();
        db.flush().unwrap();
    }
    db.compact(SegmentRef::Main).unwrap();
    let once = db.main_segment.data.clone();
    let mut expected = Vec::new();
    append_record(&mut expected, 1, b"2");
    append_record(&mut expected, 2, b"12");
    assert_eq!(once, expected);
    db.compact(SegmentRef::Main).unwrap();
    assert_eq!(db.main_segment.data, once);
}

#[test]
fn largest_recency_key_is_refused_on_open() {
    let sealed = vec![SegmentImage {
        path: "s".to_string(),
        data: Vec::new(),
        created: u64::MAX,
    }];
    assert!(matches!(DB::new(Vec::new(), sealed), Err(DbError::RecencyExhausted)));
}

#[test]
fn rotation_without_recency_key_changes_nothing() {
    let mut db = small_db(1000, 100000);
    db.insert(1, "1".to_string()).unwrap();
    db.flush().unwrap();
    db.next_created = u64::MAX;
    assert_eq!(db.rotate(), Err(DbError::RecencyExhausted));
    assert_eq!(db.segments.len(), 0);
    assert_eq!(doc(&db, 1), Some(Value::from(1)));
}

#[test]
fn equal_recency_keys_keep_their_given_order() {
    let mut first = Vec::new();
    append_record(&mut first, 3, b"\"first\"");
    let mut second = Vec::new();
    append_record(&mut second, 3, b"\"second\"");
    let sealed = vec![
        SegmentImage { path: "a".to_string(), data: first, created: 4 },
        SegmentImage { path: "b".to_string(), data: second, created: 4 },
    ];
    let db = DB::new(Vec::new(), sealed).unwrap();
    assert_eq!(db.segments[0].path, "a");
    assert_eq!(db.segments[1].path, "b");
    assert_eq!(doc(&db, 3), Some(Value::from("second")));
    assert_eq!(db.next_created, 5);
}

#[test]
fn compaction_writes_records_in_ascending_key_order() {
    let mut data = Vec::new();
    append_record(&mut data, 5, b"\"five\"");
    append_record(&mut data, 3, b"\"three\"");
    append_record(&mut data, 5, b"\"FIVE\"");
    let mut db = DB::new(data, Vec::new()).unwrap();
    db.compact(SegmentRef::Main).unwrap();
    let mut expected = Vec::new();
    append_record(&mut expected, 3, b"\"three\"");
    append_record(&mut expected, 5, b"\"FIVE\"");
    assert_eq!(db.main_segment.data, expected);
    assert_eq!(db.main_segment.index.get(&3), Some(&0));
    assert_eq!(db.main_segment.index.get(&5), Some(&23));
    assert_eq!(doc(&db, 5), Some(Value::from("FIVE")));
}

#[test]
fn rotation_avoids_names_already_taken() {
    let mut db = small_db(1000, 100000);
    for _ in 0..3 {
        db.rotate().unwrap();
    }
    let mut paths: Vec<String> = db.segments.iter().map(|s| s.path.clone()).collect();
    paths.sort();
    paths.dedup();
    assert_eq!(paths.len(), 3);
}

#[test]
fn opening_sets_next_recency_key_above_the_largest() {
    let db = DB::new(Vec::new(), Vec::new()).unwrap();
    assert_eq!(db.next_created, 0);
    let sealed = vec![
        SegmentImage { path: "a".to_string(), data: Vec::new(), created: 9 },
        SegmentImage { path: "b".to_string(), data: Vec::new(), created: 2 },
    ];
    let db = DB::new(Vec::new(), sealed).unwrap();
    assert_eq!(db.next_created, 10);
}
