use std::sync::atomic::AtomicBool;
use std::sync::Arc;

use kvs::handle_request;
use kvs::judge_engine;
use kvs::response_to_result;
use kvs::EngineType;
use kvs::KvServer;
use kvs::KvStore;
use kvs::KVStoreError;
use kvs::Request;
use kvs::Response;

/// A pool that runs each job on the calling thread; enough to
/// exercise the server plumbing without spawning workers.
struct InlinePool;

impl kvs::thread_pool::ThreadPool for InlinePool {
    fn new(_threads: usize) -> Result<Self, KVStoreError> {
        Ok(InlinePool)
    }

    fn spawn<F: FnOnce() + Send + 'static>(&self, job: F) {
        job();
    }
}

#[test]
fn test_engine_names() {
    assert_eq!(EngineType::KvStore.name(), "kvs");
    assert_eq!(EngineType::SledKvsEngine.name(), "sled");
}

#[test]
fn test_judge_engine_defaults() {
    assert!(matches!(
        judge_engine(None, false, false),
        Ok(EngineType::KvStore)
    ));
    assert!(matches!(
        judge_engine(None, true, false),
        Ok(EngineType::KvStore)
    ));
    assert!(matches!(
        judge_engine(None, false, true),
        Ok(EngineType::SledKvsEngine)
    ));
}

#[test]
fn test_judge_engine_explicit() {
    assert!(matches!(
        judge_engine(Some("kvs".to_owned()), false, false),
        Ok(EngineType::KvStore)
    ));
    assert!(matches!(
        judge_engine(Some("sled".to_owned()), false, false),
        Ok(EngineType::SledKvsEngine)
    ));
}

#[test]
fn test_judge_engine_conflict() {
    // An existing sled directory refuses a request for the
    // log-structured engine, and the other way round.
    assert!(matches!(
        judge_engine(Some("kvs".to_owned()), false, true),
        Err(KVStoreError::ChangeEngineError)
    ));
    assert!(matches!(
        judge_engine(Some("sled".to_owned()), true, false),
        Err(KVStoreError::ChangeEngineError)
    ));
}

#[test]
fn test_handle_request_session() {
    let mut store = KvStore::open(Vec::new()).unwrap();

    let resp = handle_request(
        &mut store,
        Request::SET("foo".to_owned(), "bar".to_owned()),
    );
    assert!(matches!(resp, Response::Okay(None)));

    let resp = handle_request(&mut store, Request::GET("foo".to_owned()));
    match resp {
        Response::Okay(Some(v)) => assert_eq!(v, "bar"),
        _ => panic!("expected the value back"),
    }

    let resp = handle_request(&mut store, Request::RM("foo".to_owned()));
    assert!(matches!(resp, Response::Okay(None)));

    let resp = handle_request(&mut store, Request::GET("foo".to_owned()));
    assert!(matches!(resp, Response::Okay(None)));
}

#[test]
fn test_handle_request_error_is_a_response() {
    let mut store = KvStore::open(Vec::new()).unwrap();
    let resp = handle_request(&mut store, Request::RM("missing".to_owned()));
    match resp {
        Response::Error(m) => assert_eq!(m, "Key not found"),
        _ => panic!("expected an error response"),
    }
}

#[test]
fn test_response_to_result() {
    assert_eq!(
        response_to_result(Response::Okay(Some("v".to_owned()))).unwrap(),
        Some("v".to_owned())
    );
    assert_eq!(response_to_result(Response::Okay(None)).unwrap(), None);
    match response_to_result(Response::Error("boom".to_owned())) {
        Err(KVStoreError::CommonStringError(m)) => assert_eq!(m, "boom"),
        _ => panic!("expected the relayed error"),
    }
}

#[test]
fn test_kv_server_new() {
    let store = KvStore::open(Vec::new()).unwrap();
    let pool = <InlinePool as kvs::thread_pool::ThreadPool>::new(4).unwrap();
    let stop = Arc::new(AtomicBool::new(false));
    let server = KvServer::new(store, pool, stop);
    // The server serves requests from the engine it was built over.
    let mut engine = server.engine;
    let resp = handle_request(&mut engine, Request::GET("nothing".to_owned()));
    assert!(matches!(resp, Response::Okay(None)));
}

#[test]
fn test_error_messages() {
    assert_eq!(KVStoreError::KeyNotFound.message(), "Key not found");
    assert_eq!(KVStoreError::UnknownCommandType.message(), "Unknown command type");
    assert_eq!(
        KVStoreError::ChangeEngineError.message(),
        "Change engine after initialization"
    );
    assert_eq!(KVStoreError::Serde("bad".to_owned()).message(), "bad");
}
