use kvs::engine_file::{check_engine, engine_token, parse_engine_token, EngineChoice};
use kvs::KvsError;

#[test]
fn engine_tokens_round_trip() {
    assert_eq!(engine_token(EngineChoice::Kvs), "kvs");
    assert_eq!(engine_token(EngineChoice::Sled), "sled");
    assert_eq!(parse_engine_token("kvs"), Some(EngineChoice::Kvs));
    assert_eq!(parse_engine_token("sled"), Some(EngineChoice::Sled));
    assert_eq!(parse_engine_token("lmdb"), None);
    assert_eq!(parse_engine_token(""), None);
}

#[test]
fn engine_mismatch_is_fatal() {
    assert_eq!(
        check_engine(EngineChoice::Kvs, None).unwrap(),
        EngineChoice::Kvs
    );
    assert_eq!(
        check_engine(EngineChoice::Sled, Some(EngineChoice::Sled)).unwrap(),
        EngineChoice::Sled
    );
    match check_engine(EngineChoice::Kvs, Some(EngineChoice::Sled)) {
        Err(KvsError::StringError(_)) => {}
        _ => panic!("a mismatched sentinel must refuse startup"),
    }
}
