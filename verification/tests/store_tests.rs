use kvs::codec::{decode_cmd, Cmd, Decoded};
use kvs::kv::{DiskAction, KvStore};
use kvs::KvsError;

fn cs(s: &str) -> Vec<char> {
    s.chars().collect()
}

/// A simulated store directory: generation files in ascending order.
fn apply_actions(disk: &mut Vec<(u64, Vec<char>)>, actions: Vec<DiskAction>) {
    for a in actions {
        match a {
            DiskAction::Create(g) => {
                let pos = disk.iter().position(|p| p.0 > g).unwrap_or(disk.len());
                disk.insert(pos, (g, Vec::new()));
            }
            DiskAction::Append(g, mut text) => {
                let entry = disk.iter_mut().find(|p| p.0 == g).expect("append to absent file");
                entry.1.append(&mut text);
            }
            DiskAction::Delete(g) => {
                disk.retain(|p| p.0 != g);
            }
        }
    }
}

fn drain(disk: &mut Vec<(u64, Vec<char>)>, store: &mut KvStore) {
    let actions = store.take_actions();
    apply_actions(disk, actions);
}

#[test]
fn open_set_get_reopen() {
    let mut disk: Vec<(u64, Vec<char>)> = Vec::new();
    let mut store = KvStore::open(disk.clone()).unwrap();
    drain(&mut disk, &mut store);
    store.set("k".to_owned(), "v".to_owned()).unwrap();
    assert_eq!(store.get("k".to_owned()).unwrap(), Some("v".to_owned()));
    drain(&mut disk, &mut store);
    drop(store);
    let store2 = KvStore::open(disk.clone()).unwrap();
    assert_eq!(store2.get("k".to_owned()).unwrap(), Some("v".to_owned()));
}

#[test]
fn overwrite_keeps_last_value() {
    let mut disk: Vec<(u64, Vec<char>)> = Vec::new();
    let mut store = KvStore::open(disk.clone()).unwrap();
    drain(&mut disk, &mut store);
    store.set("a".to_owned(), "1".to_owned()).unwrap();
    store.set("a".to_owned(), "2".to_owned()).unwrap();
    assert_eq!(store.get("a".to_owned()).unwrap(), Some("2".to_owned()));
    drain(&mut disk, &mut store);
    drop(store);
    let store2 = KvStore::open(disk.clone()).unwrap();
    assert_eq!(store2.get("a".to_owned()).unwrap(), Some("2".to_owned()));
}

#[test]
fn remove_then_absent() {
    let mut disk: Vec<(u64, Vec<char>)> = Vec::new();
    let mut store = KvStore::open(disk.clone()).unwrap();
    drain(&mut disk, &mut store);
    store.set("a".to_owned(), "1".to_owned()).unwrap();
    store.remove("a".to_owned()).unwrap();
    assert_eq!(store.get("a".to_owned()).unwrap(), None);
    match store.remove("a".to_owned()) {
        Err(KvsError::KeyNotFound) => {}
        other => panic!("expected KeyNotFound, got {:?}", other.is_ok()),
    }
}

#[test]
fn remove_is_durable() {
    let mut disk: Vec<(u64, Vec<char>)> = Vec::new();
    let mut store = KvStore::open(disk.clone()).unwrap();
    drain(&mut disk, &mut store);
    store.set("a".to_owned(), "1".to_owned()).unwrap();
    store.set("b".to_owned(), "2".to_owned()).unwrap();
    store.remove("a".to_owned()).unwrap();
    drain(&mut disk, &mut store);
    drop(store);
    let store2 = KvStore::open(disk.clone()).unwrap();
    assert_eq!(store2.get("a".to_owned()).unwrap(), None);
    assert_eq!(store2.get("b".to_owned()).unwrap(), Some("2".to_owned()));
}

#[test]
fn remove_absent_writes_nothing() {
    let mut disk: Vec<(u64, Vec<char>)> = Vec::new();
    let mut store = KvStore::open(disk.clone()).unwrap();
    drain(&mut disk, &mut store);
    let before = disk.clone();
    match store.remove("ghost".to_owned()) {
        Err(KvsError::KeyNotFound) => {}
        _ => panic!("expected KeyNotFound"),
    }
    drain(&mut disk, &mut store);
    assert_eq!(disk.len(), before.len());
    for (a, b) in disk.iter().zip(before.iter()) {
        assert_eq!(a.0, b.0);
        assert_eq!(a.1, b.1);
    }
}

#[test]
fn compaction_reclaims_space() {
    let mut disk: Vec<(u64, Vec<char>)> = Vec::new();
    let mut store = KvStore::open(disk.clone()).unwrap();
    drain(&mut disk, &mut store);
    let value = "x".repeat(490);
    for round in 0..100 {
        for key in 0..100 {
            store
                .set(format!("key{:03}", key), value.clone())
                .unwrap();
        }
        let _ = round;
    }
    drain(&mut disk, &mut store);
    // drive one more compaction to completion, so the directory holds only
    // live records, and observe it through the emitted Delete actions
    let mut compacted = false;
    for _ in 0..4000 {
        store.set("key000".to_owned(), value.clone()).unwrap();
        let actions = store.take_actions();
        let saw_delete = actions
            .iter()
            .any(|a| matches!(a, DiskAction::Delete(_)));
        apply_actions(&mut disk, actions);
        if saw_delete {
            compacted = true;
            break;
        }
    }
    assert!(compacted, "no compaction was observed");
    assert!(disk.iter().any(|p| p.0 >= 2));
    let total: usize = disk.iter().map(|p| p.1.len()).sum();
    assert!(
        total < 2 * 100 * 512,
        "directory still holds {} characters",
        total
    );
    // the store still answers correctly after compaction
    assert_eq!(
        store.get("key042".to_owned()).unwrap(),
        Some(value.clone())
    );
    drop(store);
    let store2 = KvStore::open(disk.clone()).unwrap();
    assert_eq!(store2.get("key042".to_owned()).unwrap(), Some(value));
}

#[test]
fn open_rejects_malformed_log() {
    match KvStore::open(vec![(1, cs("not a record"))]) {
        Err(KvsError::Serde(_)) => {}
        _ => panic!("expected a Serde error"),
    }
}

#[test]
fn open_rejects_exhausted_generations() {
    match KvStore::open(vec![(u64::MAX, Vec::new())]) {
        Err(KvsError::StringError(_)) => {}
        _ => panic!("expected a StringError"),
    }
}

#[test]
fn open_replays_shadowing_across_generations() {
    // two generations: the newer one shadows a key and removes another
    let gen1 = cs("{\"Set\":[\"a\",\"1\"]}{\"Set\":[\"b\",\"2\"]}");
    let gen2 = cs("{\"Set\":[\"a\",\"3\"]}{\"Rm\":[\"b\"]}");
    let store = KvStore::open(vec![(1, gen1), (2, gen2)]).unwrap();
    assert_eq!(store.get("a".to_owned()).unwrap(), Some("3".to_owned()));
    assert_eq!(store.get("b".to_owned()).unwrap(), None);
}

#[test]
fn error_messages_render() {
    assert_eq!(KvsError::KeyNotFound.message(), "Key not found");
    assert_eq!(
        KvsError::UnexpectedCommandType.message(),
        "Unexpected command type"
    );
    assert_eq!(
        KvsError::StringError("boom".to_owned()).message(),
        "boom"
    );
    assert_eq!(KvsError::Io("io".to_owned()).message(), "io");
    assert_eq!(KvsError::Serde("s".to_owned()).message(), "s");
    assert_eq!(KvsError::Utf8Error("u".to_owned()).message(), "u");
}

#[test]
fn compacted_log_holds_only_live_records() {
    let mut disk: Vec<(u64, Vec<char>)> = Vec::new();
    let mut store = KvStore::open(disk.clone()).unwrap();
    drain(&mut disk, &mut store);
    let value = "y".repeat(600);
    // overwrite two keys until a compaction is observed
    let mut compacted = false;
    for round in 0..4000 {
        let key = if round % 2 == 0 { "left" } else { "right" };
        store.set(key.to_owned(), value.clone()).unwrap();
        let actions = store.take_actions();
        let saw_delete = actions
            .iter()
            .any(|a| matches!(a, DiskAction::Delete(_)));
        apply_actions(&mut disk, actions);
        if saw_delete {
            compacted = true;
            break;
        }
    }
    assert!(compacted, "no compaction was observed");
    // the oldest remaining file holds one Set record per live key, no
    // Remove records, no key twice
    let text = &disk[0].1;
    let mut pos = 0;
    let mut keys: Vec<Vec<char>> = Vec::new();
    while pos < text.len() {
        match decode_cmd(text, pos) {
            Decoded::Done(Cmd::Put(k, v), end) => {
                assert!(!keys.contains(&k), "a key appears twice after compaction");
                assert_eq!(v, value.chars().collect::<Vec<char>>());
                keys.push(k);
                pos = end;
            }
            Decoded::Done(Cmd::Rm(_), _) => {
                panic!("a Remove record survived compaction");
            }
            _ => panic!("the compacted log must parse"),
        }
    }
    keys.sort();
    let mut expected: Vec<Vec<char>> =
        vec!["left".chars().collect(), "right".chars().collect()];
    expected.sort();
    assert_eq!(keys, expected);
}
