use kvs::KvError;
use kvs::KvStore;

fn fresh_store() -> KvStore {
    let mut s = KvStore::open(Vec::new());
    s.load().unwrap();
    s
}

#[test]
fn insert_then_get() {
    let mut s = fresh_store();
    s.insert(b"key", b"value");
    assert_eq!(s.get(b"key").unwrap(), Some(b"value".to_vec()));
}

#[test]
fn get_missing_key() {
    let s = fresh_store();
    assert_eq!(s.get(b"absent").unwrap(), None);
}

#[test]
fn last_write_wins() {
    let mut s = fresh_store();
    s.insert(b"k", b"first");
    s.insert(b"k", b"second");
    assert_eq!(s.get(b"k").unwrap(), Some(b"second".to_vec()));
}

#[test]
fn update_is_insert() {
    let mut s = fresh_store();
    s.insert(b"k", b"old");
    s.update(b"k", b"new");
    assert_eq!(s.get(b"k").unwrap(), Some(b"new".to_vec()));
}

#[test]
fn delete_leaves_empty_value() {
    let mut s = fresh_store();
    s.insert(b"k", b"v");
    s.delete(b"k");
    assert_eq!(s.get(b"k").unwrap(), Some(Vec::new()));
}

#[test]
fn durability_reload() {
    let mut s = fresh_store();
    s.insert(b"alpha", b"1");
    s.insert(b"beta", b"2");
    s.insert(b"alpha", b"3");
    s.delete(b"gamma");
    let persisted = s.log_bytes().clone();

    let mut reopened = KvStore::open(persisted);
    reopened.load().unwrap();
    for key in [b"alpha".as_slice(), b"beta", b"gamma", b"other"] {
        assert_eq!(reopened.get(key).unwrap(), s.get(key).unwrap());
    }
}

#[test]
fn compaction_preserves_state() {
    let mut s = fresh_store();
    s.insert(b"a", b"one");
    s.insert(b"b", b"two");
    s.insert(b"a", b"three");
    s.insert(b"c", b"four");
    s.insert(b"b", b"five");
    s.compact();
    assert_eq!(s.get(b"a").unwrap(), Some(b"three".to_vec()));
    assert_eq!(s.get(b"b").unwrap(), Some(b"five".to_vec()));
    assert_eq!(s.get(b"c").unwrap(), Some(b"four".to_vec()));
    assert_eq!(s.get(b"d").unwrap(), None);
}

#[test]
fn compaction_drops_superseded_records() {
    let mut s = fresh_store();
    s.insert(b"k", b"0");
    s.insert(b"k", b"1");
    s.insert(b"k", b"2");
    s.compact();
    // one record: 12-byte header, one key byte, one value byte
    assert_eq!(s.log_len(), 14);
    assert_eq!(s.get(b"k").unwrap(), Some(b"2".to_vec()));
}

#[test]
fn compaction_scenario() {
    let mut s = fresh_store();
    s.insert(b"a", b"1");
    s.insert(b"b", b"22");
    assert_eq!(s.get(b"a").unwrap(), Some(b"1".to_vec()));
    s.insert(b"a", b"111");
    assert_eq!(s.get(b"a").unwrap(), Some(b"111".to_vec()));
    let size_before = s.log_len();
    s.compact();
    assert_eq!(s.get(b"a").unwrap(), Some(b"111".to_vec()));
    assert_eq!(s.get(b"b").unwrap(), Some(b"22".to_vec()));
    assert!(s.log_len() <= size_before);
}

#[test]
fn compaction_after_reload() {
    let mut s = fresh_store();
    s.insert(b"x", b"old");
    s.insert(b"x", b"new");
    s.insert(b"y", b"kept");
    let persisted = s.log_bytes().clone();

    let mut reopened = KvStore::open(persisted);
    reopened.load().unwrap();
    reopened.compact();
    assert_eq!(reopened.get(b"x").unwrap(), Some(b"new".to_vec()));
    assert_eq!(reopened.get(b"y").unwrap(), Some(b"kept".to_vec()));
}

#[test]
fn truncated_tail_load_recovers() {
    let mut s = fresh_store();
    s.insert(b"whole", b"kept");
    s.insert(b"other", b"also kept");
    let complete_len = s.log_len();
    let mut bytes = s.log_bytes().clone();
    // a crash mid-append: a header promising more bytes than follow
    let mut partial = kvs::codec::encode(b"lost", b"never written");
    partial.truncate(partial.len() - 5);
    bytes.extend_from_slice(&partial);

    let mut reopened = KvStore::open(bytes);
    assert_eq!(reopened.load(), Ok(()));
    assert_eq!(reopened.log_len(), complete_len);
    assert_eq!(reopened.get(b"whole").unwrap(), Some(b"kept".to_vec()));
    assert_eq!(reopened.get(b"other").unwrap(), Some(b"also kept".to_vec()));
    assert_eq!(reopened.get(b"lost").unwrap(), None);
}

#[test]
fn truncated_header_load_recovers() {
    let mut s = fresh_store();
    s.insert(b"whole", b"kept");
    let complete_len = s.log_len();
    let mut bytes = s.log_bytes().clone();
    // even the 12-byte header did not finish
    bytes.extend_from_slice(&[0x99, 0x01, 0x02]);

    let mut reopened = KvStore::open(bytes);
    assert_eq!(reopened.load(), Ok(()));
    assert_eq!(reopened.log_len(), complete_len);
    assert_eq!(reopened.get(b"whole").unwrap(), Some(b"kept".to_vec()));
}

#[test]
fn corrupt_record_stops_load() {
    let mut s = fresh_store();
    s.insert(b"k", b"value");
    let mut bytes = s.log_bytes().clone();
    // flip a bit inside the value region of the (complete) record
    let last = bytes.len() - 1;
    bytes[last] ^= 0x40;

    let mut reopened = KvStore::open(bytes);
    assert_eq!(reopened.load(), Err(KvError::CorruptRecord));
}

#[test]
fn get_at_reads_any_record() {
    let mut s = fresh_store();
    let first = s.insert_but_ignore_index(b"a", b"old");
    s.insert(b"a", b"new");
    let kv = s.get_at(first).unwrap();
    assert_eq!(kv.key, b"a".to_vec());
    assert_eq!(kv.value, b"old".to_vec());
}

#[test]
fn get_at_end_of_log() {
    let mut s = fresh_store();
    s.insert(b"k", b"v");
    let e = s.get_at(s.log_len()).unwrap_err();
    assert_eq!(e, KvError::EndOfLog);
}
