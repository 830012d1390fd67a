//! The wire protocol and the per-connection server logic.

use kvs::KvStore;
use kvs::KvsError;
use kvs::Request;
use kvs::Response;
use kvs::client::interpret_get_response;
use kvs::client::interpret_remove_response;
use kvs::client::interpret_set_response;
use kvs::codec::Scan;
use kvs::server::handle_request;
use kvs::server::serve;
use kvs::wire::decode_request;
use kvs::wire::decode_response;
use kvs::wire::encode_request;
use kvs::wire::encode_response;

fn text(v: &[char]) -> String {
    v.iter().collect()
}

#[test]
fn requests_encode_as_tagged_lengths() {
    let enc = encode_request(&Request::Put { key: String::from("a"), value: String::from("1") });
    assert_eq!(text(&enc), "S1:a1:1");
    let enc = encode_request(&Request::Get { key: String::from("a") });
    assert_eq!(text(&enc), "G1:a");
    let enc = encode_request(&Request::Remove { key: String::from("a") });
    assert_eq!(text(&enc), "R1:a");
}

#[test]
fn requests_round_trip() {
    let reqs = vec![
        Request::Put { key: String::from("k"), value: String::from("v") },
        Request::Get { key: String::from("k") },
        Request::Remove { key: String::from("k") },
    ];
    for req in &reqs {
        let enc = encode_request(req);
        match (decode_request(&enc, 0), req) {
            (Scan::Hit(Request::Put { key, value }, n), Request::Put { key: k0, value: v0 }) => {
                assert_eq!(&key, k0);
                assert_eq!(&value, v0);
                assert_eq!(n, enc.len());
            }
            (Scan::Hit(Request::Get { key }, n), Request::Get { key: k0 }) => {
                assert_eq!(&key, k0);
                assert_eq!(n, enc.len());
            }
            (Scan::Hit(Request::Remove { key }, n), Request::Remove { key: k0 }) => {
                assert_eq!(&key, k0);
                assert_eq!(n, enc.len());
            }
            _ => panic!("request must decode back to itself"),
        }
    }
}

#[test]
fn responses_round_trip() {
    let resps = vec![
        Response::Okay(None),
        Response::Okay(Some(String::from("value"))),
        Response::Fail(String::from("Key not found")),
    ];
    for resp in &resps {
        let enc = encode_response(resp);
        match (decode_response(&enc, 0), resp) {
            (Scan::Hit(Response::Okay(None), n), Response::Okay(None)) => {
                assert_eq!(n, enc.len());
            }
            (Scan::Hit(Response::Okay(Some(v)), n), Response::Okay(Some(v0))) => {
                assert_eq!(&v, v0);
                assert_eq!(n, enc.len());
            }
            (Scan::Hit(Response::Fail(m), n), Response::Fail(m0)) => {
                assert_eq!(&m, m0);
                assert_eq!(n, enc.len());
            }
            _ => panic!("response must decode back to itself"),
        }
    }
}

#[test]
fn ok_without_value_is_one_tag() {
    assert_eq!(text(&encode_response(&Response::Okay(None))), "N");
    assert_eq!(
        text(&encode_response(&Response::Okay(Some(String::from("1"))))),
        "V1:1"
    );
    assert_eq!(
        text(&encode_response(&Response::Fail(String::from("Key not found")))),
        "E13:Key not found"
    );
}

#[test]
fn write_then_read_across_connections() {
    // two workers of one server share the engine under one lock, which
    // hands it to one request at a time, so a read that follows a
    // completed write sees it
    let mut store = KvStore::open(Vec::new()).unwrap();
    let from_a = handle_request(
        &mut store,
        Request::Put { key: String::from("x"), value: String::from("1") },
    );
    assert!(matches!(from_a, Response::Okay(None)));
    let from_b = handle_request(&mut store, Request::Get { key: String::from("x") });
    match from_b {
        Response::Okay(Some(v)) => assert_eq!(v, "1"),
        _ => panic!("the write must be visible to the later read"),
    }
}

#[test]
fn removing_a_missing_key_reports_key_not_found() {
    let mut store = KvStore::open(Vec::new()).unwrap();
    let resp = handle_request(&mut store, Request::Remove { key: String::from("missing") });
    match resp {
        Response::Fail(m) => assert_eq!(m, "Key not found"),
        _ => panic!("a removal of an absent key must fail"),
    }
}

#[test]
fn get_of_missing_key_is_success_without_value() {
    let mut store = KvStore::open(Vec::new()).unwrap();
    let resp = handle_request(&mut store, Request::Get { key: String::from("missing") });
    assert!(matches!(resp, Response::Okay(None)));
}

#[test]
fn pipelined_requests_are_answered_in_order() {
    let mut store = KvStore::open(Vec::new()).unwrap();
    let reqs = vec![
        Request::Put { key: String::from("a"), value: String::from("1") },
        Request::Put { key: String::from("b"), value: String::from("2") },
        Request::Get { key: String::from("a") },
        Request::Get { key: String::from("b") },
        Request::Remove { key: String::from("a") },
        Request::Get { key: String::from("a") },
    ];
    let mut input: Vec<char> = Vec::new();
    for req in &reqs {
        input.extend(encode_request(req));
    }
    let (output, consumed, clean) = serve(&mut store, &input);
    assert_eq!(consumed, input.len());
    assert!(clean);
    assert_eq!(output, "NNV1:1V1:2NN");
}

#[test]
fn serve_stops_at_text_no_request_starts() {
    let mut store = KvStore::open(Vec::new()).unwrap();
    let mut input: Vec<char> = Vec::new();
    input.extend(encode_request(&Request::Put {
        key: String::from("a"),
        value: String::from("1"),
    }));
    let good_len = input.len();
    input.extend("Zrubbish".chars());
    let (output, consumed, clean) = serve(&mut store, &input);
    assert_eq!(consumed, good_len);
    assert!(!clean);
    assert_eq!(output, "N");
    assert_eq!(store.get(String::from("a")).unwrap(), Some(String::from("1")));
}

#[test]
fn serve_waits_on_a_half_received_request() {
    let mut store = KvStore::open(Vec::new()).unwrap();
    let mut input: Vec<char> = Vec::new();
    input.extend(encode_request(&Request::Get { key: String::from("a") }));
    let good_len = input.len();
    input.extend("S3:ab".chars());
    let (output, consumed, clean) = serve(&mut store, &input);
    assert_eq!(consumed, good_len);
    assert!(clean);
    assert_eq!(output, "N");
}

#[test]
fn client_interprets_responses() {
    assert!(interpret_set_response(Response::Okay(None)).is_ok());
    assert!(matches!(
        interpret_set_response(Response::Fail(String::from("boom"))),
        Err(KvsError::StringErr(_))
    ));
    assert_eq!(
        interpret_get_response(Response::Okay(Some(String::from("v")))).unwrap(),
        Some(String::from("v"))
    );
    assert_eq!(interpret_get_response(Response::Okay(None)).unwrap(), None);
    assert!(matches!(
        interpret_get_response(Response::Fail(String::from("boom"))),
        Err(KvsError::StringErr(_))
    ));
    assert!(interpret_remove_response(Response::Okay(None)).is_ok());
    match interpret_remove_response(Response::Fail(String::from("Key not found"))) {
        Err(KvsError::StringErr(m)) => assert_eq!(m, "Key not found"),
        _ => panic!("a failure message surfaces as an error"),
    }
}
