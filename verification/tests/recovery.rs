use kvs::command::encode;
use kvs::recovery::sort_descending;
use kvs::{Command, Config, KvStore, KvsError, Segment};

fn put(key: &str, value: &str) -> Command {
    Command::Put { key: key.to_owned(), value: value.to_owned() }
}

fn remove(key: &str) -> Command {
    Command::Remove { key: key.to_owned() }
}

fn records(commands: &[Command]) -> Vec<u8> {
    let mut data = Vec::new();
    for command in commands {
        data.extend_from_slice(&encode(command));
    }
    data
}

fn value(store: &KvStore, key: &str) -> Option<String> {
    store.get(key.to_owned()).unwrap()
}

#[test]
fn open_on_nothing_gives_an_empty_store() {
    let store = KvStore::open(vec![]).unwrap();
    assert_eq!(store.segments(), &vec![Segment { id: 0, data: vec![] }]);
    assert_eq!(value(&store, "a"), None);
}

#[test]
fn a_value_survives_reopening() {
    let mut store = KvStore::new();
    store.set("k".to_owned(), "v".to_owned()).unwrap();
    let image = store.segments().clone();
    drop(store);
    let reopened = KvStore::open(image.clone()).unwrap();
    assert_eq!(reopened.get("k".to_owned()), Ok(Some("v".to_owned())));
    assert_eq!(reopened.segments(), &image);
}

#[test]
fn reopening_recovers_the_log_and_the_values() {
    let config = Config { segment_limit: 40, max_segments: 1 << 20, dead_percent: 101 };
    let mut store = KvStore::with_config(config);
    for i in 0..10 {
        store.set(format!("key{}", i % 4), format!("value{}", i)).unwrap();
    }
    store.remove("key1".to_owned()).unwrap();
    let image = store.segments().clone();
    assert!(image.len() > 2);
    let reopened = KvStore::open_with(image.clone(), config).unwrap();
    assert_eq!(reopened.segments(), &image);
    for i in 0..4 {
        let key = format!("key{}", i);
        assert_eq!(reopened.get(key.clone()), store.get(key));
    }
    assert_eq!(value(&reopened, "key1"), None);
    assert_eq!(value(&reopened, "key0"), Some("value8".to_owned()));
    assert_eq!(reopened.due_for_compaction(), store.due_for_compaction());
}

#[test]
fn open_puts_the_segments_in_the_order_of_their_ids() {
    let first = Segment { id: 3, data: records(&[put("a", "1"), put("b", "1")]) };
    let second = Segment { id: 5, data: records(&[put("a", "2"), remove("b")]) };
    let third = Segment { id: 9, data: records(&[put("c", "3")]) };
    let store = KvStore::open(vec![third.clone(), first.clone(), second.clone()]).unwrap();
    assert_eq!(store.segments(), &vec![first.clone(), second.clone(), third.clone()]);
    assert_eq!(value(&store, "a"), Some("2".to_owned()));
    assert_eq!(value(&store, "b"), None);
    assert_eq!(value(&store, "c"), Some("3".to_owned()));
    let store = KvStore::open(vec![second.clone(), third.clone(), first.clone()]).unwrap();
    assert_eq!(store.segments(), &vec![first, second, third]);
    assert_eq!(value(&store, "a"), Some("2".to_owned()));
}

#[test]
fn writes_after_reopening_go_to_the_last_segment() {
    let first = Segment { id: 3, data: records(&[put("a", "1")]) };
    let second = Segment { id: 5, data: records(&[put("b", "2")]) };
    let mut store = KvStore::open(vec![second, first.clone()]).unwrap();
    store.set("c".to_owned(), "3".to_owned()).unwrap();
    assert_eq!(
        store.segments(),
        &vec![first, Segment { id: 5, data: records(&[put("b", "2"), put("c", "3")]) }]
    );
}

#[test]
fn open_rejects_two_segments_with_one_id() {
    let first = Segment { id: 1, data: records(&[put("a", "1")]) };
    let second = Segment { id: 1, data: records(&[put("b", "2")]) };
    assert!(matches!(KvStore::open(vec![first.clone(), second]), Err(KvsError::CorruptLog)));
    let other = Segment { id: 2, data: vec![] };
    assert!(matches!(
        KvStore::open(vec![first.clone(), other, first]),
        Err(KvsError::CorruptLog)
    ));
}

#[test]
fn open_rejects_a_corrupt_segment() {
    let mut data = records(&[put("a", "1")]);
    data.push(7);
    data.extend_from_slice(&encode(&put("b", "2")));
    assert!(matches!(
        KvStore::open(vec![Segment { id: 0, data }]),
        Err(KvsError::CorruptLog)
    ));
    let good = Segment { id: 1, data: records(&[put("a", "1")]) };
    let bad = Segment { id: 0, data: vec![2u8, 1, 0, 0, 0, 0, 0, 0, 0, 0xff] };
    assert!(matches!(KvStore::open(vec![good, bad]), Err(KvsError::CorruptLog)));
}

#[test]
fn open_drops_a_record_cut_off_by_a_crash() {
    let commands = vec![put("a", "1"), put("b", "2"), remove("a"), put("b", "3")];
    let whole = records(&commands);
    let partial = encode(&put("c", "4"));
    for cut in 0..partial.len() {
        let mut data = whole.clone();
        data.extend_from_slice(&partial[..cut]);
        let store = KvStore::open(vec![Segment { id: 4, data }]).unwrap();
        assert_eq!(store.segments(), &vec![Segment { id: 4, data: whole.clone() }]);
        assert_eq!(value(&store, "a"), None);
        assert_eq!(value(&store, "b"), Some("3".to_owned()));
        assert_eq!(value(&store, "c"), None);
    }
}

#[test]
fn open_drops_cut_off_records_in_any_segment() {
    let mut first = records(&[put("a", "1")]);
    first.extend_from_slice(&encode(&put("lost", "x"))[..12]);
    let second = records(&[put("b", "2")]);
    let store = KvStore::open(vec![
        Segment { id: 2, data: second.clone() },
        Segment { id: 1, data: first },
    ])
    .unwrap();
    assert_eq!(
        store.segments(),
        &vec![
            Segment { id: 1, data: records(&[put("a", "1")]) },
            Segment { id: 2, data: second },
        ]
    );
    assert_eq!(value(&store, "lost"), None);
}

#[test]
fn a_store_reopened_after_a_crash_takes_writes() {
    let mut data = records(&[put("a", "1")]);
    data.extend_from_slice(&encode(&put("b", "2"))[..5]);
    let mut store = KvStore::open(vec![Segment { id: 0, data }]).unwrap();
    store.set("c".to_owned(), "3".to_owned()).unwrap();
    assert_eq!(
        store.segments(),
        &vec![Segment { id: 0, data: records(&[put("a", "1"), put("c", "3")]) }]
    );
    let reopened = KvStore::open(store.segments().clone()).unwrap();
    assert_eq!(value(&reopened, "a"), Some("1".to_owned()));
    assert_eq!(value(&reopened, "b"), None);
    assert_eq!(value(&reopened, "c"), Some("3".to_owned()));
}

#[test]
fn reopening_a_compacted_store_keeps_the_values() {
    let config = Config { segment_limit: 1 << 20, max_segments: 1 << 20, dead_percent: 101 };
    let mut store = KvStore::with_config(config);
    store.set("a".to_owned(), "1".to_owned()).unwrap();
    store.set("a".to_owned(), "2".to_owned()).unwrap();
    store.set("b".to_owned(), "3".to_owned()).unwrap();
    store.remove("b".to_owned()).unwrap();
    store.compact();
    let reopened = KvStore::open(store.segments().clone()).unwrap();
    assert_eq!(reopened.segments(), store.segments());
    assert_eq!(value(&reopened, "a"), Some("2".to_owned()));
    assert_eq!(value(&reopened, "b"), None);
}

#[test]
fn the_byte_counts_are_rebuilt_on_opening() {
    let config = Config { segment_limit: 1 << 20, max_segments: 1 << 20, dead_percent: 50 };
    let data = records(&[put("a", "1"), put("a", "2"), put("b", "3")]);
    let store = KvStore::open_with(vec![Segment { id: 0, data: data.clone() }], config).unwrap();
    assert!(!store.due_for_compaction());
    let mut more = data;
    more.extend_from_slice(&encode(&remove("b")));
    let store = KvStore::open_with(vec![Segment { id: 0, data: more }], config).unwrap();
    assert!(store.due_for_compaction());
}

#[test]
fn sort_descending_orders_by_falling_id() {
    let segments = vec![
        Segment { id: 4, data: vec![1] },
        Segment { id: 9, data: vec![2] },
        Segment { id: 0, data: vec![3] },
        Segment { id: 7, data: vec![4] },
    ];
    assert_eq!(
        sort_descending(segments),
        Some(vec![
            Segment { id: 9, data: vec![2] },
            Segment { id: 7, data: vec![4] },
            Segment { id: 4, data: vec![1] },
            Segment { id: 0, data: vec![3] },
        ])
    );
    assert_eq!(sort_descending(vec![]), Some(vec![]));
}

#[test]
fn sort_descending_finds_a_repeated_id() {
    let segments = vec![
        Segment { id: 4, data: vec![] },
        Segment { id: 9, data: vec![] },
        Segment { id: 4, data: vec![1] },
    ];
    assert_eq!(sort_descending(segments), None);
}
