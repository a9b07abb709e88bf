use rust_kv::protocol::{dispatch, GetResponse, RemoveResponse, Request, Response, SetResponse};
use rust_kv::store::KvStore;

#[test]
fn get_missing_then_more_requests() {
    let mut store = KvStore::open(Vec::new()).expect("an empty log opens");
    let r = dispatch(&mut store, Request::Get { key: "missing".to_owned() });
    assert_eq!(r, Response::Get(GetResponse::Success(None)));
    let r = dispatch(&mut store, Request::Put { key: "k".to_owned(), value: "v".to_owned() });
    assert_eq!(r, Response::Put(SetResponse::Success(())));
    let r = dispatch(&mut store, Request::Get { key: "k".to_owned() });
    assert_eq!(r, Response::Get(GetResponse::Success(Some("v".to_owned()))));
}

#[test]
fn remove_missing_is_an_error_response() {
    let mut store = KvStore::open(Vec::new()).expect("an empty log opens");
    let r = dispatch(&mut store, Request::Remove { key: "nope".to_owned() });
    assert_eq!(r, Response::Remove(RemoveResponse::Failure("Non-existent key: nope".to_owned())));
    let r = dispatch(&mut store, Request::Put { key: "nope".to_owned(), value: "1".to_owned() });
    assert_eq!(r, Response::Put(SetResponse::Success(())));
    let r = dispatch(&mut store, Request::Remove { key: "nope".to_owned() });
    assert_eq!(r, Response::Remove(RemoveResponse::Success(())));
    let r = dispatch(&mut store, Request::Get { key: "nope".to_owned() });
    assert_eq!(r, Response::Get(GetResponse::Success(None)));
}
