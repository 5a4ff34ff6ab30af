//! The request side of the server: which engine to run, and what
//! response each request gets.  The accept loop and the sockets live
//! with the program around this library; it frames one request's
//! bytes, hands them here, and writes back the bytes of the response
//! this module builds.

use vstd::prelude::*;

use std::sync::atomic::AtomicBool;
use std::sync::Arc;

use crate::engine::KvsEngine;
use crate::errors::KVStoreError;
use crate::proto::Request;
use crate::proto::Response;
use crate::thread_pool::ThreadPool;

verus! {

/// Which storage engine the server runs.
#[derive(Debug)]
pub enum EngineType {
    /// The log-structured engine of this crate.
    KvStore,
    /// The adapter over the embedded ordered-key store.
    SledKvsEngine,
}

impl EngineType {
    /// The engine's name, which is also the name of its data
    /// directory.
    pub open spec fn name_spec(&self) -> Seq<char> {
        match self {
            EngineType::KvStore => "kvs"@,
            EngineType::SledKvsEngine => "sled"@,
        }
    }

    /// The engine's name, as the command line and the directory
    /// layout use it.
    pub fn name(&self) -> (r: String)
        ensures
            r@ == self.name_spec(),
    {
        match self {
            EngineType::KvStore => "kvs".to_owned(),
            EngineType::SledKvsEngine => "sled".to_owned(),
        }
    }
}

/// Decides which engine to run from the requested name and from which
/// data directories already exist.  No request picks the engine whose
/// data is found, or the log-structured engine for an empty
/// directory; a request that contradicts the data on disk is a
/// `ChangeEngineError`.
pub fn judge_engine(engine: Option<String>, kvs_exists: bool, sled_exists: bool) -> (r: Result<
    EngineType,
    KVStoreError,
>)
    ensures
        engine is None ==> (r matches Ok(t) && t == (if sled_exists {
            EngineType::SledKvsEngine
        } else {
            EngineType::KvStore
        })),
        (engine matches Some(name) && name@ == "kvs"@) ==> (if sled_exists {
            r matches Err(KVStoreError::ChangeEngineError)
        } else {
            (r matches Ok(t) && t is KvStore)
        }),
        (engine matches Some(name) && name@ != "kvs"@) ==> (if kvs_exists {
            r matches Err(KVStoreError::ChangeEngineError)
        } else {
            (r matches Ok(t) && t is SledKvsEngine)
        }),
{
    match engine {
        None => {
            if sled_exists {
                Ok(EngineType::SledKvsEngine)
            } else {
                Ok(EngineType::KvStore)
            }
        },
        Some(name) => {
            if name == "kvs".to_owned() {
                if sled_exists {
                    Err(KVStoreError::ChangeEngineError)
                } else {
                    Ok(EngineType::KvStore)
                }
            } else {
                if kvs_exists {
                    Err(KVStoreError::ChangeEngineError)
                } else {
                    Ok(EngineType::SledKvsEngine)
                }
            }
        },
    }
}

/// The response for a request that returns no value: success carries
/// nothing, a failure carries the error's text.
pub fn unit_response(r: Result<(), KVStoreError>) -> (resp: Response)
    ensures
        r is Ok ==> resp == Response::Okay(None::<String>),
        r matches Err(e) ==> resp matches Response::Error(m) && m@ == e.message_spec(),
{
    match r {
        Ok(()) => Response::Okay(None),
        Err(e) => Response::Error(e.message()),
    }
}

/// The response for a read: success carries the value found, a
/// failure carries the error's text.
pub fn value_response(r: Result<Option<String>, KVStoreError>) -> (resp: Response)
    ensures
        r matches Ok(v) ==> resp == Response::Okay(v),
        r matches Err(e) ==> resp matches Response::Error(m) && m@ == e.message_spec(),
{
    match r {
        Ok(v) => Response::Okay(v),
        Err(e) => Response::Error(e.message()),
    }
}

/// Serves one decoded request against the engine and shapes the
/// engine's outcome into the one response the connection gets; an
/// engine error becomes a `Response` in text, never a torn
/// connection.
pub fn handle_request<E: KvsEngine>(engine: &mut E, req: Request) -> (resp: Response)
    requires
        old(engine).inv(),
    ensures
        final(engine).inv(),
        req is SET ==> (resp == Response::Okay(None::<String>) || resp is Error),
        req is RM ==> (resp == Response::Okay(None::<String>) || resp is Error),
        resp matches Response::Okay(Some(_)) ==> req is GET,
{
    match req {
        Request::SET(key, value) => unit_response(engine.set(key, value)),
        Request::RM(key) => unit_response(engine.remove(key)),
        Request::GET(key) => value_response(engine.get(key)),
    }
}

/// A generic key/value server: an engine, the pool its handlers run
/// on, and the flag that stops the accept loop.
pub struct KvServer<E: KvsEngine, P: ThreadPool> {
    /// The storage engine requests run against.
    pub engine: E,
    /// The pool the per-connection handlers run on.
    pub pool: P,
    /// Set to stop the accept loop after its next connection.
    pub is_stop: Arc<AtomicBool>,
}

impl<E: KvsEngine, P: ThreadPool> KvServer<E, P> {
    /// Builds a server from its engine, its pool and its stop flag.
    pub fn new(engine: E, pool: P, is_stop: Arc<AtomicBool>) -> (r: Self)
        ensures
            r.engine == engine,
            r.pool == pool,
            r.is_stop == is_stop,
    {
        KvServer { engine, pool, is_stop }
    }
}

} // verus!
