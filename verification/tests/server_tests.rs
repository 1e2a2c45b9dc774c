use kvs::{KvStore, KvsServer, Request, Response};

fn server_on_fresh_store() -> KvsServer<KvStore> {
    KvsServer::new(KvStore::open(&Vec::new()).unwrap())
}

#[test]
fn set_then_get_over_the_server() {
    let mut srv = server_on_fresh_store();
    let r1 = srv.serve_request(Request::Put { key: "a".to_string(), value: "1".to_string() });
    assert!(matches!(r1, Response::Success(None)));
    let r2 = srv.serve_request(Request::Get { key: "a".to_string() });
    match r2 {
        Response::Success(Some(v)) => assert_eq!(v, "1"),
        _ => panic!("the bound value must come back"),
    }
}

#[test]
fn get_of_an_absent_key_is_a_null_success() {
    let mut srv = server_on_fresh_store();
    let r = srv.serve_request(Request::Get { key: "nope".to_string() });
    assert!(matches!(r, Response::Success(None)));
}

#[test]
fn remove_of_an_absent_key_is_a_failure_frame() {
    let mut srv = server_on_fresh_store();
    let r = srv.serve_request(Request::Remove { key: "nope".to_string() });
    match r {
        Response::Failure(msg) => assert_eq!(msg, "Key not found"),
        _ => panic!("removing an absent key must fail"),
    }
    // the connection goes on: later requests still work
    let r2 = srv.serve_request(Request::Put { key: "a".to_string(), value: "1".to_string() });
    assert!(matches!(r2, Response::Success(None)));
    let r3 = srv.serve_request(Request::Remove { key: "a".to_string() });
    assert!(matches!(r3, Response::Success(None)));
    let r4 = srv.serve_request(Request::Get { key: "a".to_string() });
    assert!(matches!(r4, Response::Success(None)));
}
