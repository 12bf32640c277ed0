use kvs::{KvsEngine, KvsError, SledKvsEngine};

#[test]
fn sled_engine_round_trip() {
    let db = sled::Config::new()
        .temporary(true)
        .open()
        .expect("open a temporary tree");
    let engine = SledKvsEngine::new(db);
    engine.set("k".to_owned(), "v".to_owned()).unwrap();
    assert_eq!(engine.get("k".to_owned()).unwrap(), Some("v".to_owned()));
    engine.set("k".to_owned(), "w".to_owned()).unwrap();
    assert_eq!(engine.get("k".to_owned()).unwrap(), Some("w".to_owned()));
    engine.remove("k".to_owned()).unwrap();
    assert_eq!(engine.get("k".to_owned()).unwrap(), None);
    match engine.remove("k".to_owned()) {
        Err(KvsError::KeyNotFound) => {}
        _ => panic!("expected KeyNotFound"),
    }
}

#[test]
fn sled_engine_handles_share_state() {
    let db = sled::Config::new()
        .temporary(true)
        .open()
        .expect("open a temporary tree");
    let a = SledKvsEngine::new(db);
    let b = a.clone();
    a.set("shared".to_owned(), "1".to_owned()).unwrap();
    assert_eq!(b.get("shared".to_owned()).unwrap(), Some("1".to_owned()));
}
