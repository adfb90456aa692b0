//! The request bodies of the HTTP façade's two endpoints.
use vstd::prelude::*;

verus! {

/// A store request: put `value` under `key`.
pub struct StoreRequest {
    pub key: String,
    pub value: String,
}

/// A retrieve request: look `key` up.
pub struct RetrieveRequest {
    pub key: String,
}

} // verus!
