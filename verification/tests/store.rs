use kvs::command::{encode, Command};
use kvs::error::KvsError;
use kvs::log::{LogPointer, Segment};
use kvs::store::{
    Config, KvStore, DEFAULT_DEAD_PERCENT, DEFAULT_MAX_SEGMENTS, DEFAULT_SEGMENT_LIMIT,
};

fn put(key: &str, value: &str) -> Command {
    Command::Put { key: key.to_owned(), value: value.to_owned() }
}

fn remove(key: &str) -> Command {
    Command::Remove { key: key.to_owned() }
}

fn get(store: &KvStore, key: &str) -> Option<String> {
    store.get(key.to_owned()).unwrap()
}

fn total(store: &KvStore) -> usize {
    store.segments().iter().map(|segment| segment.data.len()).sum()
}

fn roomy() -> Config {
    Config { segment_limit: 1 << 20, max_segments: 1 << 20, dead_percent: 101 }
}

#[test]
fn a_new_store_is_empty() {
    let store = KvStore::new();
    assert_eq!(store.segments(), &vec![Segment { id: 0, data: vec![] }]);
    assert_eq!(get(&store, "a"), None);
    assert!(!store.due_for_compaction());
    let store = KvStore::default();
    assert_eq!(store.segments(), &vec![Segment { id: 0, data: vec![] }]);
}

#[test]
fn the_standard_configuration() {
    let config = Config::default();
    assert_eq!(config.segment_limit, DEFAULT_SEGMENT_LIMIT);
    assert_eq!(config.max_segments, DEFAULT_MAX_SEGMENTS);
    assert_eq!(config.dead_percent, DEFAULT_DEAD_PERCENT);
    assert_eq!(DEFAULT_SEGMENT_LIMIT, 1048576);
    assert_eq!(DEFAULT_MAX_SEGMENTS, 8);
    assert_eq!(DEFAULT_DEAD_PERCENT, 50);
}

#[test]
fn set_then_get_returns_the_value() {
    let mut store = KvStore::new();
    assert_eq!(store.set("key1".to_owned(), "value1".to_owned()), Ok(()));
    assert_eq!(store.set("key2".to_owned(), "value2".to_owned()), Ok(()));
    assert_eq!(store.get("key1".to_owned()), Ok(Some("value1".to_owned())));
    assert_eq!(store.get("key2".to_owned()), Ok(Some("value2".to_owned())));
    assert_eq!(store.get("key3".to_owned()), Ok(None));
}

#[test]
fn the_last_write_wins() {
    let mut store = KvStore::with_config(roomy());
    store.set("k".to_owned(), "v1".to_owned()).unwrap();
    store.set("k".to_owned(), "v2".to_owned()).unwrap();
    assert_eq!(get(&store, "k"), Some("v2".to_owned()));
    let mut store = KvStore::new();
    store.set("k".to_owned(), "v1".to_owned()).unwrap();
    store.set("k".to_owned(), "v2".to_owned()).unwrap();
    assert_eq!(get(&store, "k"), Some("v2".to_owned()));
}

#[test]
fn remove_deletes_and_a_second_remove_fails() {
    let mut store = KvStore::new();
    store.set("k".to_owned(), "v".to_owned()).unwrap();
    assert_eq!(store.remove("k".to_owned()), Ok(()));
    assert_eq!(get(&store, "k"), None);
    let before = store.segments().clone();
    assert_eq!(store.remove("k".to_owned()), Err(KvsError::KeyNotFound));
    assert_eq!(store.segments(), &before);
}

#[test]
fn remove_of_a_key_never_set_fails() {
    let mut store = KvStore::new();
    assert_eq!(store.remove("nothing".to_owned()), Err(KvsError::KeyNotFound));
    assert_eq!(store.segments(), &vec![Segment { id: 0, data: vec![] }]);
}

#[test]
fn set_remove_set_scenario() {
    let mut store = KvStore::new();
    store.set("a".to_owned(), "1".to_owned()).unwrap();
    store.set("b".to_owned(), "2".to_owned()).unwrap();
    store.remove("a".to_owned()).unwrap();
    store.set("b".to_owned(), "3".to_owned()).unwrap();
    assert_eq!(store.get("a".to_owned()), Ok(None));
    assert_eq!(store.get("b".to_owned()), Ok(Some("3".to_owned())));
}

#[test]
fn records_are_appended_in_write_order() {
    let mut store = KvStore::with_config(roomy());
    store.set("a".to_owned(), "1".to_owned()).unwrap();
    store.remove("a".to_owned()).unwrap();
    store.set("b".to_owned(), "2".to_owned()).unwrap();
    let mut expected = encode(&put("a", "1"));
    expected.extend_from_slice(&encode(&remove("a")));
    expected.extend_from_slice(&encode(&put("b", "2")));
    assert_eq!(store.segments(), &vec![Segment { id: 0, data: expected }]);
}

#[test]
fn append_returns_the_pointer_to_the_record() {
    let mut store = KvStore::with_config(roomy());
    let first = store.append(put("a", "1"));
    assert_eq!(first, LogPointer { segment_id: 0, offset: 0, length: 19 });
    let second = store.append(remove("a"));
    assert_eq!(second, LogPointer { segment_id: 0, offset: 19, length: 10 });
    let third = store.append(put("b", "22"));
    assert_eq!(third, LogPointer { segment_id: 0, offset: 29, length: 20 });
    assert_eq!(store.read(first), Ok(put("a", "1")));
    assert_eq!(store.read(second), Ok(remove("a")));
    assert_eq!(store.read(third), Ok(put("b", "22")));
    assert_eq!(get(&store, "a"), None);
    assert_eq!(get(&store, "b"), Some("22".to_owned()));
}

#[test]
fn read_fails_on_pointers_that_locate_no_record() {
    let mut store = KvStore::with_config(roomy());
    store.append(put("a", "1"));
    store.append(put("b", "2"));
    assert_eq!(
        store.read(LogPointer { segment_id: 7, offset: 0, length: 19 }),
        Err(KvsError::NotFound)
    );
    assert_eq!(
        store.read(LogPointer { segment_id: 0, offset: 0, length: 18 }),
        Err(KvsError::CorruptLog)
    );
    assert_eq!(
        store.read(LogPointer { segment_id: 0, offset: 0, length: 38 }),
        Err(KvsError::CorruptLog)
    );
    assert_eq!(
        store.read(LogPointer { segment_id: 0, offset: 1, length: 19 }),
        Err(KvsError::CorruptLog)
    );
    assert_eq!(
        store.read(LogPointer { segment_id: 0, offset: 20, length: 19 }),
        Err(KvsError::CorruptLog)
    );
    assert_eq!(
        store.read(LogPointer { segment_id: 0, offset: u64::MAX, length: u64::MAX }),
        Err(KvsError::CorruptLog)
    );
    assert_eq!(
        store.read(LogPointer { segment_id: 0, offset: 19, length: 19 }),
        Ok(put("b", "2"))
    );
}

#[test]
fn a_full_segment_is_followed_by_a_new_one() {
    let config = Config { segment_limit: 30, max_segments: 1 << 20, dead_percent: 101 };
    let mut store = KvStore::with_config(config);
    store.set("a".to_owned(), "1".to_owned()).unwrap();
    store.set("b".to_owned(), "2".to_owned()).unwrap();
    store.set("c".to_owned(), "3".to_owned()).unwrap();
    store.set("d".to_owned(), "4".to_owned()).unwrap();
    let mut first = encode(&put("a", "1"));
    first.extend_from_slice(&encode(&put("b", "2")));
    let mut second = encode(&put("c", "3"));
    second.extend_from_slice(&encode(&put("d", "4")));
    assert_eq!(
        store.segments(),
        &vec![Segment { id: 0, data: first }, Segment { id: 1, data: second }]
    );
    assert_eq!(get(&store, "a"), Some("1".to_owned()));
    assert_eq!(get(&store, "d"), Some("4".to_owned()));
}

#[test]
fn set_compacts_when_the_dead_share_is_reached() {
    let config = Config { segment_limit: 1 << 20, max_segments: 1 << 20, dead_percent: 50 };
    let mut store = KvStore::with_config(config);
    store.set("a".to_owned(), "1".to_owned()).unwrap();
    assert_eq!(store.segments().len(), 1);
    assert_eq!(store.segments()[0].id, 0);
    store.set("a".to_owned(), "2".to_owned()).unwrap();
    assert_eq!(store.segments(), &vec![Segment { id: 1, data: encode(&put("a", "2")) }]);
    assert_eq!(get(&store, "a"), Some("2".to_owned()));
}

#[test]
fn set_does_not_compact_below_the_dead_share() {
    let config = Config { segment_limit: 1 << 20, max_segments: 1 << 20, dead_percent: 51 };
    let mut store = KvStore::with_config(config);
    store.set("a".to_owned(), "1".to_owned()).unwrap();
    store.set("a".to_owned(), "2".to_owned()).unwrap();
    assert_eq!(store.segments().len(), 1);
    assert_eq!(store.segments()[0].id, 0);
    assert_eq!(store.segments()[0].data.len(), 38);
    assert!(!store.due_for_compaction());
    store.set("a".to_owned(), "3".to_owned()).unwrap();
    assert_eq!(store.segments(), &vec![Segment { id: 1, data: encode(&put("a", "3")) }]);
}

#[test]
fn a_dead_share_of_zero_compacts_only_when_something_is_dead() {
    let config = Config { segment_limit: 1 << 20, max_segments: 1 << 20, dead_percent: 0 };
    let mut store = KvStore::with_config(config);
    store.set("a".to_owned(), "1".to_owned()).unwrap();
    store.set("b".to_owned(), "2".to_owned()).unwrap();
    assert_eq!(store.segments()[0].id, 0);
    store.set("c".to_owned(), "3".to_owned()).unwrap();
    assert_eq!(store.segments()[0].id, 0);
    store.set("a".to_owned(), "4".to_owned()).unwrap();
    assert_eq!(store.segments().len(), 1);
    assert_eq!(store.segments()[0].id, 1);
    assert_eq!(store.segments()[0].data.len(), 57);
}

#[test]
fn removals_count_as_dead_bytes() {
    let mut store = KvStore::with_config(roomy());
    store.set("a".to_owned(), "1".to_owned()).unwrap();
    store.set("b".to_owned(), "2".to_owned()).unwrap();
    store.remove("a".to_owned()).unwrap();
    assert_eq!(total(&store), 48);
    store.compact();
    assert_eq!(store.segments(), &vec![Segment { id: 1, data: encode(&put("b", "2")) }]);
}

#[test]
fn set_compacts_when_there_are_too_many_segments() {
    let config = Config { segment_limit: 1, max_segments: 2, dead_percent: 101 };
    let mut store = KvStore::with_config(config);
    store.set("a".to_owned(), "1".to_owned()).unwrap();
    assert_eq!(store.segments().len(), 1);
    store.set("b".to_owned(), "2".to_owned()).unwrap();
    assert_eq!(store.segments().len(), 2);
    assert_eq!(store.segments()[1].id, 1);
    store.set("c".to_owned(), "3".to_owned()).unwrap();
    let mut live = encode(&put("a", "1"));
    live.extend_from_slice(&encode(&put("b", "2")));
    live.extend_from_slice(&encode(&put("c", "3")));
    assert_eq!(store.segments(), &vec![Segment { id: 3, data: live }]);
    store.set("d".to_owned(), "4".to_owned()).unwrap();
    assert_eq!(store.segments().len(), 2);
    assert_eq!(store.segments()[1], Segment { id: 4, data: encode(&put("d", "4")) });
}

#[test]
fn compaction_keeps_every_value_and_does_not_grow_the_log() {
    let config = Config { segment_limit: 64, max_segments: 1 << 20, dead_percent: 101 };
    let mut store = KvStore::with_config(config);
    let keys: Vec<String> = (0..20).map(|i| format!("key{}", i)).collect();
    for round in 0..5 {
        for (i, key) in keys.iter().enumerate() {
            if (i + round) % 3 == 0 {
                let _ = store.remove(key.clone());
            } else {
                store.set(key.clone(), format!("value{}-{}", i, round)).unwrap();
            }
        }
    }
    let before: Vec<Option<String>> = keys.iter().map(|key| get(&store, key)).collect();
    let bytes_before = total(&store);
    assert!(store.segments().len() > 1);
    let last_id = store.segments().last().unwrap().id;
    store.compact();
    let after: Vec<Option<String>> = keys.iter().map(|key| get(&store, key)).collect();
    assert_eq!(before, after);
    assert!(before.iter().any(|value| value.is_some()));
    assert!(before.iter().any(|value| value.is_none()));
    assert!(total(&store) < bytes_before);
    assert_eq!(store.segments().len(), 1);
    assert_eq!(store.segments()[0].id, last_id + 1);
    assert!(!store.due_for_compaction());
    let compacted = total(&store);
    store.compact();
    assert_eq!(total(&store), compacted);
    assert_eq!(store.segments()[0].id, last_id + 2);
    let again: Vec<Option<String>> = keys.iter().map(|key| get(&store, key)).collect();
    assert_eq!(before, again);
}

#[test]
fn compaction_writes_live_records_in_log_order() {
    let mut store = KvStore::with_config(roomy());
    store.set("a".to_owned(), "1".to_owned()).unwrap();
    store.set("b".to_owned(), "2".to_owned()).unwrap();
    store.set("a".to_owned(), "3".to_owned()).unwrap();
    store.set("c".to_owned(), "4".to_owned()).unwrap();
    store.remove("c".to_owned()).unwrap();
    store.compact();
    let mut live = encode(&put("b", "2"));
    live.extend_from_slice(&encode(&put("a", "3")));
    assert_eq!(store.segments(), &vec![Segment { id: 1, data: live }]);
}

#[test]
fn due_for_compaction_follows_the_configuration() {
    let config = Config { segment_limit: 1 << 20, max_segments: 0, dead_percent: 101 };
    let store = KvStore::with_config(config);
    assert!(store.due_for_compaction());
    let config = Config { segment_limit: 1 << 20, max_segments: 1, dead_percent: 101 };
    let store = KvStore::with_config(config);
    assert!(!store.due_for_compaction());
    let config = Config { segment_limit: 1 << 20, max_segments: 1, dead_percent: 34 };
    let mut store = KvStore::with_config(config);
    store.append(put("a", "1"));
    store.append(put("b", "2"));
    assert!(!store.due_for_compaction());
    store.append(put("a", "3"));
    assert!(!store.due_for_compaction());
    let config = Config { segment_limit: 1 << 20, max_segments: 1, dead_percent: 33 };
    let mut store = KvStore::with_config(config);
    store.append(put("a", "1"));
    store.append(put("b", "2"));
    store.append(put("a", "3"));
    assert!(store.due_for_compaction());
}
