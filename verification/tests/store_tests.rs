use kvs::{DirEntry, FsOp, KvStore, KvsError};

fn open_empty() -> KvStore {
    KvStore::open(&Vec::new()).expect("an empty directory must open")
}

fn entry(name: &str, content: &str) -> DirEntry {
    DirEntry { name: name.to_string(), content: content.to_string() }
}

#[test]
fn set_then_get_returns_the_value() {
    let mut store = open_empty();
    store.set("k".to_string(), "v".to_string()).unwrap();
    assert_eq!(store.get("k".to_string()).unwrap(), Some("v".to_string()));
}

#[test]
fn open_empty_dir_starts_at_generation_one() {
    let store = open_empty();
    assert_eq!(store.generations(), vec![1]);
    assert_eq!(store.active_generation(), 1);
    assert_eq!(store.log_text(1), Some(String::new()));
    assert_eq!(store.uncompacted_bytes(), 0);
}

#[test]
fn first_set_writes_one_record_into_the_first_log() {
    let mut store = open_empty();
    let fx = store.take_effects();
    assert!(matches!(fx[..], [FsOp::CreateLog { gen: 1 }]));
    store.set("k".to_string(), "v".to_string()).unwrap();
    assert_eq!(store.get("k".to_string()).unwrap(), Some("v".to_string()));
    assert_eq!(
        store.log_text(1),
        Some("{\"Set\":{\"key\":\"k\",\"value\":\"v\"}}\n".to_string())
    );
    let fx = store.take_effects();
    assert_eq!(fx.len(), 1);
    match &fx[0] {
        FsOp::AppendLog { gen, text } => {
            assert_eq!(*gen, 1);
            assert_eq!(text, "{\"Set\":{\"key\":\"k\",\"value\":\"v\"}}\n");
        },
        _ => panic!("the set must append to the active log"),
    }
}

#[test]
fn close_and_reopen_keeps_the_value() {
    let mut store = open_empty();
    store.set("k".to_string(), "v".to_string()).unwrap();
    let text = store.log_text(1).unwrap();
    let mut store2 = KvStore::open(&vec![entry("1.log", &text)]).unwrap();
    assert_eq!(store2.generations(), vec![1, 2]);
    assert_eq!(store2.get("k".to_string()).unwrap(), Some("v".to_string()));
}

#[test]
fn overwrite_then_remove_leaves_three_records() {
    let mut store = open_empty();
    store.set("k".to_string(), "v".to_string()).unwrap();
    store.set("k".to_string(), "v2".to_string()).unwrap();
    store.remove("k".to_string()).unwrap();
    assert_eq!(store.get("k".to_string()).unwrap(), None);
    let expected = "{\"Set\":{\"key\":\"k\",\"value\":\"v\"}}\n{\"Set\":{\"key\":\"k\",\"value\":\"v2\"}}\n{\"Remove\":{\"key\":\"k\"}}\n";
    assert_eq!(store.log_text(1), Some(expected.to_string()));
}

#[test]
fn remove_on_a_fresh_store_is_key_not_found() {
    let mut store = open_empty();
    assert!(matches!(store.remove("k".to_string()), Err(KvsError::KeyNotFound)));
    store.set("k".to_string(), "v".to_string()).unwrap();
    store.remove("k".to_string()).unwrap();
    assert_eq!(store.get("k".to_string()).unwrap(), None);
}

#[test]
fn non_log_names_are_ignored_on_open() {
    let entries = vec![
        entry("abc.log", "junk"),
        entry("7.txt", "junk"),
        entry("1.2.log", "junk"),
        entry("x7.log", "junk"),
        entry("", ""),
    ];
    let store = KvStore::open(&entries).unwrap();
    assert_eq!(store.generations(), vec![1]);
}

#[test]
fn named_logs_are_replayed_ascending() {
    let e3 = entry("3.log", "{\"Set\":{\"key\":\"a\",\"value\":\"old\"}}\n");
    let e10 = entry("10.log", "{\"Set\":{\"key\":\"a\",\"value\":\"new\"}}\n");
    let junk = entry("readme.txt", "not a log");
    let mut store = KvStore::open(&vec![e10, junk, e3]).unwrap();
    assert_eq!(store.generations(), vec![3, 10, 11]);
    assert_eq!(store.get("a".to_string()).unwrap(), Some("new".to_string()));
}

#[test]
fn replay_counts_superseded_bytes() {
    let line1 = "{\"Set\":{\"key\":\"k\",\"value\":\"v\"}}\n";
    let line2 = "{\"Set\":{\"key\":\"k\",\"value\":\"w\"}}\n";
    let store = KvStore::open(&vec![entry("1.log", &format!("{}{}", line1, line2))]).unwrap();
    assert_eq!(store.uncompacted_bytes(), line1.len() as u64);
}

#[test]
fn replay_counts_tombstones_as_garbage() {
    let line1 = "{\"Set\":{\"key\":\"k\",\"value\":\"v\"}}\n";
    let line2 = "{\"Remove\":{\"key\":\"k\"}}\n";
    let mut store = KvStore::open(&vec![entry("1.log", &format!("{}{}", line1, line2))]).unwrap();
    assert_eq!(store.uncompacted_bytes(), (line1.len() + line2.len()) as u64);
    assert_eq!(store.get("k".to_string()).unwrap(), None);
}

#[test]
fn truncated_tail_is_tolerated_on_replay() {
    let whole = "{\"Set\":{\"key\":\"k\",\"value\":\"v\"}}\n{\"Set\":{\"key\":\"q\",\"val";
    let mut store = KvStore::open(&vec![entry("1.log", whole)]).unwrap();
    assert_eq!(store.get("k".to_string()).unwrap(), Some("v".to_string()));
    assert_eq!(store.get("q".to_string()).unwrap(), None);
}

#[test]
fn malformed_log_aborts_open() {
    let res = KvStore::open(&vec![entry("1.log", "garbage that is no record\n")]);
    assert!(matches!(res, Err(KvsError::Encoding(_))));
}

#[test]
fn compaction_keeps_only_live_records_and_two_generations() {
    let mut store = open_empty();
    let old_val = "x".repeat(140_000);
    let new_val = "y".repeat(100);
    for i in 0..8 {
        store.set(format!("key{}", i), old_val.clone()).unwrap();
    }
    assert_eq!(store.generations(), vec![1]);
    assert_eq!(store.uncompacted_bytes(), 0);
    for i in 0..8 {
        store.set(format!("key{}", i), new_val.clone()).unwrap();
    }
    // the eighth overwrite pushed the superseded bytes past the threshold
    assert_eq!(store.generations(), vec![2, 3]);
    assert_eq!(store.active_generation(), 3);
    assert_eq!(store.uncompacted_bytes(), 0);
    for i in 0..8 {
        assert_eq!(store.get(format!("key{}", i)).unwrap(), Some(new_val.clone()));
    }
    // the compacted file holds exactly the eight live records; the active
    // file is empty
    let live: usize = (0..8)
        .map(|i| format!("{{\"Set\":{{\"key\":\"key{}\",\"value\":\"{}\"}}}}\n", i, new_val).len())
        .sum();
    assert_eq!(store.log_text(2).unwrap().len(), live);
    assert_eq!(store.log_text(3).unwrap().len(), 0);
    assert_eq!(store.log_text(1), None);
    // the host is told to delete the old generation
    let fx = store.take_effects();
    assert!(fx.iter().any(|op| matches!(op, FsOp::DeleteLog { gen: 1 })));
    // a value written after compaction is visible and durable over reopen
    store.set("late".to_string(), "z".to_string()).unwrap();
    assert_eq!(store.get("late".to_string()).unwrap(), Some("z".to_string()));
    let t2 = store.log_text(2).unwrap();
    let t3 = store.log_text(3).unwrap();
    let mut reopened = KvStore::open(&vec![entry("2.log", &t2), entry("3.log", &t3)]).unwrap();
    for i in 0..8 {
        assert_eq!(reopened.get(format!("key{}", i)).unwrap(), Some(new_val.clone()));
    }
    assert_eq!(reopened.get("late".to_string()).unwrap(), Some("z".to_string()));
}

#[test]
fn duplicate_generation_names_take_the_first() {
    let e1 = entry("1.log", "{\"Set\":{\"key\":\"a\",\"value\":\"first\"}}\n");
    let e2 = entry("01.log", "{\"Set\":{\"key\":\"a\",\"value\":\"second\"}}\n");
    let mut store = KvStore::open(&vec![e1, e2]).unwrap();
    assert_eq!(store.generations(), vec![1, 2]);
    assert_eq!(store.get("a".to_string()).unwrap(), Some("first".to_string()));
}

#[test]
fn replay_agrees_with_a_plain_map() {
    let mut store = open_empty();
    let mut model: std::collections::HashMap<String, String> = std::collections::HashMap::new();
    let ops: Vec<(&str, &str, Option<&str>)> = vec![
        ("set", "a", Some("1")),
        ("set", "b", Some("2")),
        ("set", "a", Some("3")),
        ("rm", "b", None),
        ("set", "c", Some("4")),
        ("rm", "z", None),
        ("set", "b", Some("5")),
    ];
    for (op, key, value) in ops {
        match op {
            "set" => {
                let v = value.unwrap().to_string();
                store.set(key.to_string(), v.clone()).unwrap();
                model.insert(key.to_string(), v);
            },
            _ => {
                let _ = store.remove(key.to_string());
                model.remove(key);
            },
        }
    }
    let text = store.log_text(1).unwrap();
    let mut reopened = KvStore::open(&vec![entry("1.log", &text)]).unwrap();
    for key in ["a", "b", "c", "z"] {
        assert_eq!(
            reopened.get(key.to_string()).unwrap(),
            model.get(key).cloned(),
            "the replayed store must agree with the plain map on {}",
            key
        );
    }
}

#[test]
fn two_identical_sets_observe_as_one() {
    let mut once = open_empty();
    once.set("k".to_string(), "v".to_string()).unwrap();
    let mut twice = open_empty();
    twice.set("k".to_string(), "v".to_string()).unwrap();
    twice.set("k".to_string(), "v".to_string()).unwrap();
    assert_eq!(
        once.get("k".to_string()).unwrap(),
        twice.get("k".to_string()).unwrap()
    );
    // only the internal garbage counter tells them apart
    let line = "{\"Set\":{\"key\":\"k\",\"value\":\"v\"}}\n";
    assert_eq!(once.uncompacted_bytes(), 0);
    assert_eq!(twice.uncompacted_bytes(), line.len() as u64);
}
