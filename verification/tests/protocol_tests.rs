use kvs::codec::Decoded;
use kvs::kv::KvStore;
use kvs::protocol::{
    decode_get_response, decode_request, decode_rm_response, decode_set_response, encode_request,
    GetResponse, RemoveResponse, Request, SetResponse,
};
use kvs::server::serve_request;
use kvs::KvsError;

fn cs(s: &str) -> Vec<char> {
    s.chars().collect()
}

fn to_string(v: &[char]) -> String {
    v.iter().collect()
}

#[test]
fn requests_encode_as_json() {
    let get = Request::Get { key: "k".to_owned() };
    assert_eq!(to_string(&encode_request(&get)), "{\"Get\":{\"key\":\"k\"}}");
    let put = Request::Put { key: "k".to_owned(), value: "v".to_owned() };
    assert_eq!(
        to_string(&encode_request(&put)),
        "{\"Set\":{\"key\":\"k\",\"value\":\"v\"}}"
    );
    let rm = Request::Remove { key: "k".to_owned() };
    assert_eq!(
        to_string(&encode_request(&rm)),
        "{\"Remove\":{\"key\":\"k\"}}"
    );
}

#[test]
fn responses_encode_as_json() {
    assert_eq!(
        to_string(&kvs::protocol::encode_get_response(&GetResponse::Success(Some(
            "v".to_owned()
        )))),
        "{\"Ok\":\"v\"}"
    );
    assert_eq!(
        to_string(&kvs::protocol::encode_get_response(&GetResponse::Success(None))),
        "{\"Ok\":null}"
    );
    assert_eq!(
        to_string(&kvs::protocol::encode_get_response(&GetResponse::Failure(
            "boom".to_owned()
        ))),
        "{\"Err\":\"boom\"}"
    );
    assert_eq!(
        to_string(&kvs::protocol::encode_set_response(&SetResponse::Success)),
        "\"Ok\""
    );
    assert_eq!(
        to_string(&kvs::protocol::encode_rm_response(&RemoveResponse::Failure(
            "Key not found".to_owned()
        ))),
        "{\"Err\":\"Key not found\"}"
    );
}

#[test]
fn request_stream_decodes_in_order() {
    // two requests back to back, as they arrive on one connection
    let mut buf = encode_request(&Request::Put { key: "k".to_owned(), value: "v".to_owned() });
    let mut second = encode_request(&Request::Get { key: "k".to_owned() });
    buf.append(&mut second);
    let (first_end, first) = match decode_request(&buf, 0) {
        Decoded::Done(q, end) => (end, q),
        _ => panic!("expected a decoded request"),
    };
    match first {
        Request::Put { key, value } => {
            assert_eq!(key, "k");
            assert_eq!(value, "v");
        }
        _ => panic!("expected the Set request first"),
    }
    match decode_request(&buf, first_end) {
        Decoded::Done(Request::Get { key }, end) => {
            assert_eq!(key, "k");
            assert_eq!(end, buf.len());
        }
        _ => panic!("expected the Get request second"),
    }
}

#[test]
fn partial_request_is_incomplete() {
    let buf = cs("{\"Get\":{\"key\":\"k");
    match decode_request(&buf, 0) {
        Decoded::Incomplete => {}
        _ => panic!("expected Incomplete"),
    }
}

#[test]
fn unknown_request_is_malformed() {
    let buf = cs("{\"Push\":{\"key\":\"k\"}}");
    match decode_request(&buf, 0) {
        Decoded::Malformed => {}
        _ => panic!("expected Malformed"),
    }
}

#[test]
fn response_decoding_round_trips() {
    let ok = kvs::protocol::encode_get_response(&GetResponse::Success(Some("v".to_owned())));
    match decode_get_response(&ok, 0) {
        Decoded::Done(GetResponse::Success(Some(v)), end) => {
            assert_eq!(v, "v");
            assert_eq!(end, ok.len());
        }
        _ => panic!("expected the value back"),
    }
    let null = kvs::protocol::encode_get_response(&GetResponse::Success(None));
    match decode_get_response(&null, 0) {
        Decoded::Done(GetResponse::Success(None), end) => assert_eq!(end, null.len()),
        _ => panic!("expected a null value back"),
    }
    let bare = kvs::protocol::encode_set_response(&SetResponse::Success);
    match decode_set_response(&bare, 0) {
        Decoded::Done(SetResponse::Success, end) => assert_eq!(end, bare.len()),
        _ => panic!("expected the bare success back"),
    }
    let fail = kvs::protocol::encode_rm_response(&RemoveResponse::Failure("no".to_owned()));
    match decode_rm_response(&fail, 0) {
        Decoded::Done(RemoveResponse::Failure(e), end) => {
            assert_eq!(e, "no");
            assert_eq!(end, fail.len());
        }
        _ => panic!("expected the failure back"),
    }
}

#[test]
fn response_results_carry_server_errors() {
    match GetResponse::Failure("boom".to_owned()).into_result() {
        Err(KvsError::StringError(m)) => assert_eq!(m, "boom"),
        _ => panic!("expected a StringError"),
    }
    assert!(SetResponse::Success.into_result().is_ok());
    match RemoveResponse::Failure("no".to_owned()).into_result() {
        Err(KvsError::StringError(m)) => assert_eq!(m, "no"),
        _ => panic!("expected a StringError"),
    }
}

#[test]
fn server_answers_each_request_in_order() {
    let mut store = KvStore::open(Vec::new()).unwrap();
    // a whole pipelined session, as the bytes would arrive on the socket
    let mut session: Vec<char> = Vec::new();
    session.append(&mut encode_request(&Request::Put {
        key: "k".to_owned(),
        value: "v".to_owned(),
    }));
    session.append(&mut encode_request(&Request::Get { key: "k".to_owned() }));
    session.append(&mut encode_request(&Request::Remove { key: "k".to_owned() }));
    session.append(&mut encode_request(&Request::Get { key: "k".to_owned() }));
    session.append(&mut encode_request(&Request::Remove { key: "k".to_owned() }));
    let mut pos = 0;
    let mut replies: Vec<String> = Vec::new();
    while pos < session.len() {
        match decode_request(&session, pos) {
            Decoded::Done(req, end) => {
                let out = serve_request(&mut store, req);
                replies.push(to_string(&out));
                pos = end;
            }
            _ => panic!("the session text holds whole requests"),
        }
    }
    assert_eq!(
        replies,
        vec![
            "\"Ok\"".to_owned(),
            "{\"Ok\":\"v\"}".to_owned(),
            "\"Ok\"".to_owned(),
            "{\"Ok\":null}".to_owned(),
            "{\"Err\":\"Key not found\"}".to_owned(),
        ]
    );
}
