use kvs::kv::entry::{CmdKind, Entry};
use kvs::kv::storage::{data_file_name, merge_file_name, COMPACTION_THRESHOLD, STORAGE_FILE_PREFIX};
use kvs::{FileUpdate, KvsError, SimplifiedBitcask, Storage};

fn put_bytes(key: &str, value: &str) -> Vec<u8> {
    Entry::new(key.to_string(), value.to_string(), CmdKind::PUT).encode()
}

fn del_bytes(key: &str) -> Vec<u8> {
    Entry::new(key.to_string(), String::new(), CmdKind::DEL).encode()
}

fn log_of(parts: &[Vec<u8>]) -> Vec<u8> {
    let mut log = Vec::new();
    for part in parts {
        log.extend_from_slice(part);
    }
    log
}

fn open(log: Vec<u8>) -> SimplifiedBitcask {
    match SimplifiedBitcask::open(log) {
        Ok(engine) => engine,
        Err(e) => panic!("open failed: {:?}", e),
    }
}

fn open_error(log: Vec<u8>) -> KvsError {
    match SimplifiedBitcask::open(log) {
        Ok(_) => panic!("open succeeded"),
        Err(e) => e,
    }
}

fn apply(disk: &mut Vec<u8>, update: FileUpdate) {
    match update {
        FileUpdate::Unchanged => {}
        FileUpdate::Append(bytes) => disk.extend_from_slice(&bytes),
        FileUpdate::Replace(bytes) => *disk = bytes,
    }
}

#[test]
fn file_names() {
    assert_eq!(STORAGE_FILE_PREFIX, "miniDB");
    assert_eq!(data_file_name(), "miniDB.data");
    assert_eq!(merge_file_name(), "miniDB.merge");
}

#[test]
fn threshold_is_64_kib() {
    assert_eq!(COMPACTION_THRESHOLD, 1 << 16);
}

#[test]
fn open_on_no_bytes() {
    let mut engine = open(Vec::new());
    assert_eq!(engine.data().len(), 0);
    assert_eq!(engine.pending_compact(), 0);
    assert_eq!(engine.get("missing".to_string()), Ok(None));
}

#[test]
fn put_appends_the_encoded_record() {
    let mut engine = open(Vec::new());
    assert_eq!(engine.put("k".to_string(), "v".to_string()), Ok(()));
    assert_eq!(engine.data(), &put_bytes("k", "v"));
    assert_eq!(engine.put("k2".to_string(), "v2".to_string()), Ok(()));
    assert_eq!(engine.data(), &log_of(&[put_bytes("k", "v"), put_bytes("k2", "v2")]));
    assert_eq!(engine.pending_compact(), 0);
}

#[test]
fn get_reads_what_was_put() {
    let mut engine = open(Vec::new());
    engine.put("k".to_string(), "v".to_string()).unwrap();
    engine.put("other".to_string(), "thing".to_string()).unwrap();
    assert_eq!(engine.get("k".to_string()), Ok(Some("v".to_string())));
    assert_eq!(engine.get("other".to_string()), Ok(Some("thing".to_string())));
    assert_eq!(engine.get("k".to_string()), Ok(Some("v".to_string())));
    assert_eq!(engine.get("none".to_string()), Ok(None));
}

#[test]
fn get_leaves_the_log_alone() {
    let mut engine = open(put_bytes("k", "v"));
    let before = engine.data().clone();
    engine.get("k".to_string()).unwrap();
    engine.get("missing".to_string()).unwrap();
    assert_eq!(engine.data(), &before);
    assert_eq!(engine.pending_compact(), 0);
}

#[test]
fn overwrite_counts_the_superseded_record() {
    let mut engine = open(Vec::new());
    engine.put("key".to_string(), "first".to_string()).unwrap();
    assert_eq!(engine.pending_compact(), 0);
    engine.put("key".to_string(), "second value".to_string()).unwrap();
    assert_eq!(engine.pending_compact(), 17 + 3 + 5);
    engine.put("key".to_string(), "3".to_string()).unwrap();
    assert_eq!(engine.pending_compact(), (17 + 3 + 5) + (17 + 3 + 12));
    assert_eq!(engine.get("key".to_string()), Ok(Some("3".to_string())));
    assert_eq!(
        engine.data(),
        &log_of(&[
            put_bytes("key", "first"),
            put_bytes("key", "second value"),
            put_bytes("key", "3")
        ])
    );
}

#[test]
fn remove_appends_a_del_record() {
    let mut engine = open(Vec::new());
    engine.put("k".to_string(), "v".to_string()).unwrap();
    assert_eq!(engine.remove("k".to_string()), Ok(()));
    assert_eq!(engine.data(), &log_of(&[put_bytes("k", "v"), del_bytes("k")]));
    assert_eq!(engine.pending_compact(), 19);
    assert_eq!(engine.get("k".to_string()), Ok(None));
}

#[test]
fn remove_of_a_missing_key_writes_nothing() {
    let mut engine = open(Vec::new());
    engine.put("a".to_string(), "1".to_string()).unwrap();
    engine.put("b".to_string(), "2".to_string()).unwrap();
    let before = engine.data().clone();
    assert_eq!(engine.remove("c".to_string()), Err(KvsError::KeyNotFound));
    assert_eq!(engine.data(), &before);
    assert_eq!(engine.pending_compact(), 0);
    assert_eq!(engine.get("a".to_string()), Ok(Some("1".to_string())));
    assert_eq!(engine.get("b".to_string()), Ok(Some("2".to_string())));
}

#[test]
fn remove_twice_fails_the_second_time() {
    let mut engine = open(Vec::new());
    engine.put("k".to_string(), "v".to_string()).unwrap();
    assert_eq!(engine.remove("k".to_string()), Ok(()));
    let before = engine.data().clone();
    assert_eq!(engine.remove("k".to_string()), Err(KvsError::KeyNotFound));
    assert_eq!(engine.data(), &before);
}

#[test]
fn put_after_remove_brings_the_key_back() {
    let mut engine = open(Vec::new());
    engine.put("k".to_string(), "v".to_string()).unwrap();
    engine.remove("k".to_string()).unwrap();
    engine.put("k".to_string(), "w".to_string()).unwrap();
    assert_eq!(engine.get("k".to_string()), Ok(Some("w".to_string())));
    assert_eq!(engine.pending_compact(), 19);
}

#[test]
fn empty_key_and_empty_value() {
    let mut engine = open(Vec::new());
    engine.put(String::new(), String::new()).unwrap();
    assert_eq!(engine.data().len(), 17);
    assert_eq!(engine.get(String::new()), Ok(Some(String::new())));
    engine.remove(String::new()).unwrap();
    assert_eq!(engine.get(String::new()), Ok(None));
}

#[test]
fn values_that_are_not_ascii() {
    let mut engine = open(Vec::new());
    let key = "cl\u{e9}".to_string();
    let value = "\u{65e5}\u{672c}\u{8a9e} \u{1f600}".to_string();
    engine.put(key.clone(), value.clone()).unwrap();
    assert_eq!(engine.get(key.clone()), Ok(Some(value.clone())));
    let mut again = open(engine.data().clone());
    assert_eq!(again.get(key), Ok(Some(value)));
}

#[test]
fn replay_takes_the_latest_record_of_each_key() {
    let log = log_of(&[
        put_bytes("a", "1"),
        put_bytes("b", "2"),
        put_bytes("a", "3"),
        del_bytes("b"),
        put_bytes("c", "4"),
        del_bytes("zzz"),
    ]);
    let mut engine = open(log.clone());
    assert_eq!(engine.data(), &log);
    assert_eq!(engine.pending_compact(), 0);
    assert_eq!(engine.get("a".to_string()), Ok(Some("3".to_string())));
    assert_eq!(engine.get("b".to_string()), Ok(None));
    assert_eq!(engine.get("c".to_string()), Ok(Some("4".to_string())));
    assert_eq!(engine.get("zzz".to_string()), Ok(None));
}

#[test]
fn writer_continues_at_the_end_after_replay() {
    let log = log_of(&[put_bytes("a", "1"), put_bytes("b", "2")]);
    let mut engine = open(log.clone());
    engine.put("c".to_string(), "3".to_string()).unwrap();
    assert_eq!(engine.data(), &log_of(&[log, put_bytes("c", "3")]));
    assert_eq!(engine.get("c".to_string()), Ok(Some("3".to_string())));
    assert_eq!(engine.get("a".to_string()), Ok(Some("1".to_string())));
}

#[test]
fn reopening_shows_the_same_state() {
    let mut engine = open(Vec::new());
    engine.put("a".to_string(), "1".to_string()).unwrap();
    engine.put("b".to_string(), "2".to_string()).unwrap();
    engine.put("a".to_string(), "one".to_string()).unwrap();
    engine.remove("b".to_string()).unwrap();
    engine.put("c".to_string(), "3".to_string()).unwrap();
    let mut again = open(engine.data().clone());
    for key in ["a", "b", "c", "d"] {
        assert_eq!(again.get(key.to_string()), engine.get(key.to_string()));
    }
    assert_eq!(again.get("a".to_string()), Ok(Some("one".to_string())));
    assert_eq!(again.get("b".to_string()), Ok(None));
    assert_eq!(again.remove("b".to_string()), Err(KvsError::KeyNotFound));
}

#[test]
fn open_fails_on_a_header_cut_short() {
    let mut log = put_bytes("k", "v");
    log.extend_from_slice(&[0, 0, 0]);
    assert_eq!(open_error(log), KvsError::SliceDecode);
    assert_eq!(open_error(vec![1]), KvsError::SliceDecode);
    assert_eq!(open_error(vec![0; 16]), KvsError::SliceDecode);
}

#[test]
fn open_fails_on_an_unknown_kind() {
    assert_eq!(open_error(vec![0; 17]), KvsError::ReprDecode);
    let mut log = put_bytes("k", "v");
    log[16] = 9;
    assert_eq!(open_error(log), KvsError::ReprDecode);
}

#[test]
fn open_fails_on_a_key_cut_short() {
    let mut log = put_bytes("key", "");
    log.truncate(17 + 2);
    assert_eq!(open_error(log), KvsError::IO);
}

#[test]
fn open_fails_on_a_value_cut_short() {
    let mut log = log_of(&[put_bytes("a", "1"), put_bytes("key", "value")]);
    log.pop();
    assert_eq!(open_error(log), KvsError::IO);
}

#[test]
fn open_fails_on_a_length_beyond_the_log() {
    let mut log = put_bytes("k", "v");
    log[0] = 0xff;
    assert_eq!(open_error(log), KvsError::IO);
    let mut log = put_bytes("k", "v");
    log[8] = 0xff;
    assert_eq!(open_error(log), KvsError::IO);
}

#[test]
fn open_fails_on_a_key_that_is_not_utf8() {
    let mut log = put_bytes("k", "v");
    log[17] = 0xff;
    assert_eq!(open_error(log), KvsError::StringDecode);
}

#[test]
fn open_fails_on_a_value_that_is_not_utf8() {
    let mut log = put_bytes("k", "vw");
    log[18] = 0xc3;
    log[19] = 0x28;
    assert_eq!(open_error(log), KvsError::StringDecode);
}

#[test]
fn a_bad_key_is_reported_before_a_short_value() {
    let mut log = put_bytes("k", "value");
    log[17] = 0x80;
    log.truncate(17 + 1 + 2);
    assert_eq!(open_error(log), KvsError::StringDecode);
}

#[test]
fn open_takes_a_log_cut_at_a_record_boundary() {
    let whole = log_of(&[put_bytes("a", "1"), put_bytes("b", "2")]);
    let cut = whole[..put_bytes("a", "1").len()].to_vec();
    let mut engine = open(cut);
    assert_eq!(engine.get("a".to_string()), Ok(Some("1".to_string())));
    assert_eq!(engine.get("b".to_string()), Ok(None));
}

#[test]
fn merge_keeps_one_record_for_each_live_key() {
    let mut engine = open(log_of(&[
        put_bytes("a", "1"),
        put_bytes("b", "2"),
        put_bytes("a", "3"),
        del_bytes("b"),
        put_bytes("c", "4"),
        put_bytes("a", "5"),
    ]));
    assert_eq!(engine.merge(), Ok(()));
    assert_eq!(engine.data(), &log_of(&[put_bytes("c", "4"), put_bytes("a", "5")]));
    assert_eq!(engine.pending_compact(), 0);
    assert_eq!(engine.get("a".to_string()), Ok(Some("5".to_string())));
    assert_eq!(engine.get("b".to_string()), Ok(None));
    assert_eq!(engine.get("c".to_string()), Ok(Some("4".to_string())));
}

#[test]
fn merge_changes_nothing_that_is_shown() {
    let mut engine = open(Vec::new());
    for i in 0..40 {
        engine.put(format!("key{}", i % 7), format!("value{}", i)).unwrap();
        if i % 5 == 0 {
            engine.remove(format!("key{}", i % 7)).unwrap();
        }
    }
    let keys: Vec<String> = (0..9).map(|i| format!("key{}", i)).collect();
    let mut before = Vec::new();
    for key in &keys {
        before.push(engine.get(key.clone()).unwrap());
    }
    let len_before = engine.data().len();
    let pending = engine.pending_compact();
    assert!(pending > 0);
    engine.merge().unwrap();
    for (key, value) in keys.iter().zip(before) {
        assert_eq!(engine.get(key.clone()).unwrap(), value);
    }
    assert!(engine.data().len() as u64 + pending <= len_before as u64);
    assert_eq!(engine.pending_compact(), 0);
}

#[test]
fn merge_of_a_log_without_live_records_leaves_it() {
    let log = log_of(&[put_bytes("k", "v"), del_bytes("k")]);
    let mut engine = open(Vec::new());
    engine.put("k".to_string(), "v".to_string()).unwrap();
    engine.remove("k".to_string()).unwrap();
    assert_eq!(engine.pending_compact(), 19);
    assert_eq!(engine.merge(), Ok(()));
    assert_eq!(engine.data(), &log);
    assert_eq!(engine.pending_compact(), 0);
    assert_eq!(engine.get("k".to_string()), Ok(None));
}

#[test]
fn merge_of_an_empty_log() {
    let mut engine = open(Vec::new());
    assert_eq!(engine.merge(), Ok(()));
    assert_eq!(engine.data().len(), 0);
    assert!(matches!(engine.sync(), FileUpdate::Unchanged));
}

#[test]
fn merged_log_can_be_written_to_and_reopened() {
    let mut engine = open(log_of(&[put_bytes("a", "1"), put_bytes("a", "2"), put_bytes("b", "3")]));
    engine.merge().unwrap();
    engine.put("c".to_string(), "4".to_string()).unwrap();
    engine.put("a".to_string(), "5".to_string()).unwrap();
    assert_eq!(
        engine.data(),
        &log_of(&[
            put_bytes("a", "2"),
            put_bytes("b", "3"),
            put_bytes("c", "4"),
            put_bytes("a", "5")
        ])
    );
    assert_eq!(engine.pending_compact(), 19);
    let mut again = open(engine.data().clone());
    assert_eq!(again.get("a".to_string()), Ok(Some("5".to_string())));
    assert_eq!(again.get("b".to_string()), Ok(Some("3".to_string())));
    assert_eq!(again.get("c".to_string()), Ok(Some("4".to_string())));
}

#[test]
fn put_compacts_when_the_threshold_is_reached() {
    let value = "x".repeat(1024 - 17 - 1);
    let mut engine = open(Vec::new());
    for _ in 0..64 {
        engine.put("k".to_string(), value.clone()).unwrap();
    }
    assert_eq!(engine.pending_compact(), 63 * 1024);
    assert_eq!(engine.data().len(), 64 * 1024);
    assert!(matches!(engine.sync(), FileUpdate::Append(_)));
    engine.put("k".to_string(), "last".to_string()).unwrap();
    assert_eq!(engine.pending_compact(), 0);
    assert_eq!(engine.data(), &put_bytes("k", "last"));
    assert_eq!(engine.get("k".to_string()), Ok(Some("last".to_string())));
    match engine.sync() {
        FileUpdate::Replace(bytes) => assert_eq!(bytes, put_bytes("k", "last")),
        other => panic!("expected a new file, got {:?}", other),
    }
}

#[test]
fn remove_does_not_compact() {
    let value = "x".repeat(70_000);
    let mut engine = open(Vec::new());
    engine.put("k".to_string(), value.clone()).unwrap();
    engine.remove("k".to_string()).unwrap();
    assert_eq!(engine.pending_compact(), 17 + 1 + 70_000);
    assert_eq!(engine.data().len(), (17 + 1 + 70_000) + 18);
    engine.put("other".to_string(), "v".to_string()).unwrap();
    assert_eq!(engine.pending_compact(), 0);
    assert_eq!(engine.data(), &put_bytes("other", "v"));
}

#[test]
fn sync_hands_out_nothing_when_nothing_was_written() {
    let mut engine = open(put_bytes("k", "v"));
    assert!(matches!(engine.sync(), FileUpdate::Unchanged));
    engine.get("k".to_string()).unwrap();
    assert_eq!(engine.remove("nope".to_string()), Err(KvsError::KeyNotFound));
    assert!(matches!(engine.sync(), FileUpdate::Unchanged));
}

#[test]
fn sync_hands_out_the_bytes_written_since() {
    let mut engine = open(put_bytes("a", "1"));
    engine.put("b".to_string(), "2".to_string()).unwrap();
    engine.remove("a".to_string()).unwrap();
    match engine.sync() {
        FileUpdate::Append(bytes) => {
            assert_eq!(bytes, log_of(&[put_bytes("b", "2"), del_bytes("a")]))
        }
        other => panic!("expected an append, got {:?}", other),
    }
    assert!(matches!(engine.sync(), FileUpdate::Unchanged));
    engine.put("c".to_string(), "3".to_string()).unwrap();
    match engine.sync() {
        FileUpdate::Append(bytes) => assert_eq!(bytes, put_bytes("c", "3")),
        other => panic!("expected an append, got {:?}", other),
    }
}

#[test]
fn sync_hands_out_a_new_file_after_a_merge() {
    let mut engine = open(log_of(&[put_bytes("a", "1"), put_bytes("a", "2")]));
    engine.merge().unwrap();
    engine.put("b".to_string(), "3".to_string()).unwrap();
    match engine.sync() {
        FileUpdate::Replace(bytes) => {
            assert_eq!(bytes, log_of(&[put_bytes("a", "2"), put_bytes("b", "3")]))
        }
        other => panic!("expected a new file, got {:?}", other),
    }
    assert!(matches!(engine.sync(), FileUpdate::Unchanged));
}

#[test]
fn the_file_follows_the_log_through_every_update() {
    let mut disk = put_bytes("seed", "0");
    let mut engine = open(disk.clone());
    let value = "y".repeat(3000);
    for i in 0..100 {
        engine.put(format!("k{}", i % 3), format!("{}{}", value, i)).unwrap();
        if i % 10 == 9 {
            engine.remove(format!("k{}", i % 3)).unwrap();
        }
        apply(&mut disk, engine.sync());
        assert_eq!(&disk, engine.data());
    }
    assert!(disk.len() < 100 * 3000);
    let mut again = open(disk);
    for key in ["seed", "k0", "k1", "k2"] {
        assert_eq!(again.get(key.to_string()), engine.get(key.to_string()));
    }
}

#[test]
fn read_at_reads_one_record() {
    let mut engine = open(log_of(&[put_bytes("a", "1"), del_bytes("b")]));
    let first = engine.read_at(0).unwrap();
    assert_eq!(first.kind(), CmdKind::PUT);
    assert_eq!(first.key(), "a");
    assert_eq!(first.value(), "1");
    assert_eq!(first.size(), 19);
    let second = engine.read_at(19).unwrap();
    assert_eq!(second.kind(), CmdKind::DEL);
    assert_eq!(second.key(), "b");
    assert_eq!(second.value(), "");
    assert_eq!(second.size(), 18);
}

#[test]
fn read_at_the_end_is_eof() {
    let mut engine = open(log_of(&[put_bytes("a", "1"), del_bytes("b")]));
    assert!(matches!(engine.read_at(37), Err(KvsError::EOF)));
    assert!(matches!(engine.read_at(1000), Err(KvsError::EOF)));
    assert!(matches!(engine.read_at(u64::MAX), Err(KvsError::EOF)));
    let mut empty = open(Vec::new());
    assert!(matches!(empty.read_at(0), Err(KvsError::EOF)));
}

#[test]
fn read_at_inside_a_record() {
    let mut engine = open(log_of(&[put_bytes("a", "1"), del_bytes("b")]));
    assert!(matches!(engine.read_at(36), Err(KvsError::SliceDecode)));
    assert!(matches!(engine.read_at(21), Err(KvsError::SliceDecode)));
    assert!(matches!(engine.read_at(1), Err(KvsError::ReprDecode)));
    assert_eq!(engine.get("a".to_string()), Ok(Some("1".to_string())));
}

fn fill<S: Storage>(store: &mut S) -> Vec<Option<String>> {
    store.put("one".to_string(), "1".to_string()).unwrap();
    store.put("two".to_string(), "2".to_string()).unwrap();
    store.remove("one".to_string()).unwrap();
    vec![
        store.get("one".to_string()).unwrap(),
        store.get("two".to_string()).unwrap(),
    ]
}

#[test]
fn engine_as_a_storage() {
    let mut engine = open(Vec::new());
    assert_eq!(fill(&mut engine), vec![None, Some("2".to_string())]);
    assert_eq!(engine.data().len(), 21 + 21 + 20);
}

#[test]
fn record_round_trip() {
    let entries = [
        Entry::new("k".to_string(), "v".to_string(), CmdKind::PUT),
        Entry::new(String::new(), "only a value".to_string(), CmdKind::PUT),
        Entry::new("gone".to_string(), String::new(), CmdKind::DEL),
        Entry::new("\u{1f511}".to_string(), "\u{20ac}\u{a3}$".repeat(100), CmdKind::PUT),
    ];
    for e in &entries {
        let bytes = e.encode();
        assert_eq!(bytes.len(), e.size());
        let mut engine = open(bytes);
        let back = engine.read_at(0).unwrap();
        assert_eq!(back.key_len(), e.key_len());
        assert_eq!(back.value_len(), e.value_len());
        assert_eq!(back.key(), e.key());
        assert_eq!(back.value(), e.value());
        assert_eq!(back.kind(), e.kind());
        assert_eq!(back.encode(), e.encode());
    }
}
