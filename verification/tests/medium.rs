use std::collections::BTreeMap;

use kvs::medium::{Step, Stored};
use kvs::{Config, KvStore, Segment};

type Files = BTreeMap<u64, Vec<u8>>;

fn listing(files: &Files) -> Vec<Stored> {
    files
        .iter()
        .rev()
        .map(|(id, data)| Stored { id: *id, length: data.len() as u64 })
        .collect()
}

fn perform(files: &mut Files, store: &KvStore, steps: &[Step]) {
    for step in steps {
        match *step {
            Step::Truncate { id, length } => {
                files.get_mut(&id).unwrap().truncate(length as usize);
            }
            Step::Append { id, segment, from } => {
                assert_eq!(store.segments()[segment].id, id);
                files
                    .entry(id)
                    .or_default()
                    .extend_from_slice(&store.segments()[segment].data[from..]);
            }
            Step::Delete { id } => {
                assert!(files.remove(&id).is_some());
            }
        }
    }
}

fn sync(files: &mut Files, store: &KvStore) {
    let steps = store.sync_steps(&listing(files));
    perform(files, store, &steps);
}

fn image(store: &KvStore) -> Files {
    store.segments().iter().map(|segment| (segment.id, segment.data.clone())).collect()
}

fn reopen(files: &Files, config: Config) -> KvStore {
    let segments =
        files.iter().rev().map(|(id, data)| Segment { id: *id, data: data.clone() }).collect();
    KvStore::open_with(segments, config).unwrap()
}

fn value(store: &KvStore, key: &str) -> Option<String> {
    store.get(key.to_owned()).unwrap()
}

#[test]
fn a_new_store_needs_its_first_file() {
    let store = KvStore::new();
    assert_eq!(store.sync_steps(&vec![]), vec![Step::Append { id: 0, segment: 0, from: 0 }]);
    assert_eq!(store.sync_steps(&vec![Stored { id: 0, length: 0 }]), vec![]);
}

#[test]
fn a_write_appends_what_the_file_lacks() {
    let mut store = KvStore::new();
    store.set("a".to_owned(), "1".to_owned()).unwrap();
    assert_eq!(
        store.sync_steps(&vec![Stored { id: 0, length: 0 }]),
        vec![Step::Append { id: 0, segment: 0, from: 0 }]
    );
    store.set("b".to_owned(), "2".to_owned()).unwrap();
    assert_eq!(
        store.sync_steps(&vec![Stored { id: 0, length: 19 }]),
        vec![Step::Append { id: 0, segment: 0, from: 19 }]
    );
    assert_eq!(store.sync_steps(&vec![Stored { id: 0, length: 38 }]), vec![]);
}

#[test]
fn a_file_with_a_cut_off_record_is_cut() {
    let mut store = KvStore::new();
    store.set("a".to_owned(), "1".to_owned()).unwrap();
    assert_eq!(
        store.sync_steps(&vec![Stored { id: 0, length: 25 }]),
        vec![Step::Truncate { id: 0, length: 19 }]
    );
}

#[test]
fn files_of_dropped_segments_are_deleted_last_and_oldest_first() {
    let config = Config { segment_limit: 1, max_segments: 1 << 20, dead_percent: 101 };
    let mut store = KvStore::with_config(config);
    store.set("a".to_owned(), "1".to_owned()).unwrap();
    store.set("b".to_owned(), "2".to_owned()).unwrap();
    store.set("c".to_owned(), "3".to_owned()).unwrap();
    store.compact();
    let stored = vec![
        Stored { id: 2, length: 19 },
        Stored { id: 0, length: 19 },
        Stored { id: 1, length: 19 },
    ];
    assert_eq!(
        store.sync_steps(&stored),
        vec![
            Step::Append { id: 3, segment: 0, from: 0 },
            Step::Delete { id: 0 },
            Step::Delete { id: 1 },
            Step::Delete { id: 2 },
        ]
    );
}

#[test]
fn the_steps_make_the_files_hold_the_log() {
    let config = Config { segment_limit: 50, max_segments: 4, dead_percent: 60 };
    let mut store = KvStore::with_config(config);
    let mut files = Files::new();
    sync(&mut files, &store);
    assert_eq!(files, image(&store));
    let mut compactions = 0;
    for i in 0..60 {
        let first_id = store.segments()[0].id;
        if i % 7 == 3 {
            let _ = store.remove(format!("key{}", i % 5));
        } else {
            store.set(format!("key{}", i % 5), format!("value{}", i)).unwrap();
        }
        if store.segments()[0].id != first_id {
            compactions += 1;
        }
        sync(&mut files, &store);
        assert_eq!(files, image(&store));
        let reopened = reopen(&files, config);
        assert_eq!(reopened.segments(), store.segments());
        for k in 0..5 {
            assert_eq!(value(&reopened, &format!("key{}", k)), value(&store, &format!("key{}", k)));
        }
    }
    assert!(compactions > 0);
}

#[test]
fn a_compaction_that_stops_short_loses_nothing() {
    let config = Config { segment_limit: 40, max_segments: 1 << 20, dead_percent: 101 };
    let mut store = KvStore::with_config(config);
    let mut files = Files::new();
    for i in 0..12 {
        store.set(format!("key{}", i % 4), format!("value{}", i)).unwrap();
    }
    store.remove("key2".to_owned()).unwrap();
    sync(&mut files, &store);
    assert!(files.len() > 3);
    let expected: Vec<Option<String>> =
        (0..4).map(|k| value(&store, &format!("key{}", k))).collect();
    store.compact();
    let steps = store.sync_steps(&listing(&files));
    assert!(steps.len() > 4);
    for done in 0..=steps.len() {
        let mut partial = files.clone();
        perform(&mut partial, &store, &steps[..done]);
        let reopened = reopen(&partial, config);
        let found: Vec<Option<String>> =
            (0..4).map(|k| value(&reopened, &format!("key{}", k))).collect();
        assert_eq!(found, expected);
    }
    let live = store.segments()[0].data.clone();
    let id = store.segments()[0].id;
    for cut in 0..live.len() {
        let mut partial = files.clone();
        partial.insert(id, live[..cut].to_vec());
        let reopened = reopen(&partial, config);
        let found: Vec<Option<String>> =
            (0..4).map(|k| value(&reopened, &format!("key{}", k))).collect();
        assert_eq!(found, expected);
    }
}
