//! The client's side of one exchange: what a response means to the
//! caller.  Connecting, sending the encoded request and reading the
//! response bytes are the program's work; it hands the decoded
//! response here.

use vstd::prelude::*;

use crate::errors::KVStoreError;
use crate::proto::Response;

verus! {

/// Turns the server's one response into the client's result: a
/// success hands through the value, a relayed error text becomes
/// `CommonStringError`.
pub fn response_to_result(resp: Response) -> (r: Result<Option<String>, KVStoreError>)
    ensures
        resp matches Response::Okay(v) ==> r == Ok::<Option<String>, KVStoreError>(v),
        resp matches Response::Error(m) ==> r matches Err(KVStoreError::CommonStringError(m2))
            && m2 == m,
{
    match resp {
        Response::Okay(v) => Ok(v),
        Response::Error(m) => Err(KVStoreError::CommonStringError(m)),
    }
}

} // verus!
