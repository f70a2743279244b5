use kvs::{FileUpdate, KvStore, KvsError};

fn open(data: Vec<u8>) -> KvStore {
    match KvStore::open(data) {
        Ok(store) => store,
        Err(e) => panic!("open failed: {:?}", e),
    }
}

fn carry_out(disk: &mut Vec<u8>, update: FileUpdate) {
    match update {
        FileUpdate::Unchanged => {}
        FileUpdate::Append(bytes) => disk.extend_from_slice(&bytes),
        FileUpdate::Replace(bytes) => *disk = bytes,
    }
}

#[test]
fn get_on_empty_store() {
    let mut store = open(Vec::new());
    assert_eq!(store.get("missing".to_string()), Ok(None));
}

#[test]
fn basic_set_get() {
    let mut store = open(Vec::new());
    assert_eq!(store.set("k".to_string(), "v".to_string()), Ok(()));
    assert_eq!(store.get("k".to_string()), Ok(Some("v".to_string())));
}

#[test]
fn overwrite() {
    let mut store = open(Vec::new());
    store.set("k".to_string(), "1".to_string()).unwrap();
    store.set("k".to_string(), "2".to_string()).unwrap();
    assert_eq!(store.get("k".to_string()), Ok(Some("2".to_string())));
}

#[test]
fn remove_then_get() {
    let mut store = open(Vec::new());
    store.set("k".to_string(), "v".to_string()).unwrap();
    assert_eq!(store.remove("k".to_string()), Ok(()));
    assert_eq!(store.get("k".to_string()), Ok(None));
    assert_eq!(store.remove("k".to_string()), Err(KvsError::KeyNotFound));
}

#[test]
fn set_then_get_for_many_keys() {
    let mut store = open(Vec::new());
    for i in 0..200 {
        let key = format!("key{}", i % 17);
        let value = format!("value{}", i);
        assert_eq!(store.set(key.clone(), value.clone()), Ok(()));
        assert_eq!(store.get(key), Ok(Some(value)));
    }
}

#[test]
fn remove_of_an_untouched_key_after_other_sets() {
    let mut store = open(Vec::new());
    assert_eq!(store.remove("k".to_string()), Err(KvsError::KeyNotFound));
    for i in 0..50 {
        store.set(format!("other{}", i), "v".to_string()).unwrap();
    }
    assert_eq!(store.remove("k".to_string()), Err(KvsError::KeyNotFound));
    assert!(matches!(store.sync(), FileUpdate::Append(_)));
    assert_eq!(store.remove("k".to_string()), Err(KvsError::KeyNotFound));
    assert!(matches!(store.sync(), FileUpdate::Unchanged));
}

#[test]
fn crash_recovery() {
    let mut disk = Vec::new();
    {
        let mut store = open(disk.clone());
        for i in 0..999 {
            store.set(format!("key{}", i), format!("val{}", i)).unwrap();
            carry_out(&mut disk, store.sync());
        }
    }
    let mut store = open(disk);
    for i in 0..999 {
        assert_eq!(store.get(format!("key{}", i)), Ok(Some(format!("val{}", i))));
    }
    assert_eq!(store.get("key999".to_string()), Ok(None));
}

#[test]
fn compaction_triggers_and_preserves() {
    let mut disk = Vec::new();
    let mut store = open(disk.clone());
    let mut last = String::new();
    let mut replaced = 0;
    for i in 0..128 {
        last = format!("{:04}", i) + &"v".repeat(1020);
        assert_eq!(last.len(), 1024);
        store.set("k".to_string(), last.clone()).unwrap();
        let update = store.sync();
        if matches!(update, FileUpdate::Replace(_)) {
            replaced += 1;
        }
        carry_out(&mut disk, update);
    }
    assert!(replaced >= 1);
    assert_eq!(replaced, 2);
    assert!(disk.len() < 128 * 1024);
    assert_eq!(disk.len(), 2 * (17 + 1 + 1024));
    assert_eq!(store.get("k".to_string()), Ok(Some(last.clone())));
    let mut again = open(disk);
    assert_eq!(again.get("k".to_string()), Ok(Some(last)));
}

#[test]
fn restart_after_sets_and_removes() {
    let mut disk = Vec::new();
    let mut store = open(Vec::new());
    let value = "z".repeat(500);
    for round in 0..300 {
        let key = format!("key{}", round % 11);
        if round % 4 == 3 {
            let _ = store.remove(key);
        } else {
            store.set(key, format!("{}{}", value, round)).unwrap();
        }
        carry_out(&mut disk, store.sync());
    }
    let mut again = open(disk);
    for i in 0..12 {
        let key = format!("key{}", i);
        assert_eq!(again.get(key.clone()), store.get(key));
    }
}

#[test]
fn open_reports_a_corrupt_file() {
    assert!(matches!(KvStore::open(vec![1, 2, 3]), Err(KvsError::SliceDecode)));
    assert!(matches!(KvStore::open(vec![0; 17]), Err(KvsError::ReprDecode)));
    let mut cut = vec![0u8; 17];
    cut[7] = 4;
    cut[16] = 1;
    assert!(matches!(KvStore::open(cut), Err(KvsError::IO)));
    let mut bad = vec![0u8; 18];
    bad[7] = 1;
    bad[16] = 1;
    bad[17] = 0xff;
    assert!(matches!(KvStore::open(bad), Err(KvsError::StringDecode)));
}

#[test]
fn errors_are_told_apart_by_kind() {
    assert_ne!(KvsError::IO, KvsError::SliceDecode);
    assert_ne!(KvsError::KeyNotFound, KvsError::EOF);
    assert_eq!(KvsError::InvalidDataPath, KvsError::InvalidDataPath);
    assert_eq!(format!("{:?}", KvsError::KeyNotFound), "KeyNotFound");
}
