//! The store worker's per-request step.
//!
//! Many concurrent callers reach one [`InMemoryStore`] through a request
//! queue: a dedicated worker owns the store exclusively and applies one
//! request at a time, in arrival order, sending each result back over the
//! caller's reply channel. The queue, the worker loop and the channels are
//! transport around the library; the decision the worker makes for one
//! request stands here, verified: from store state and request to the next
//! state and the reply.

use vstd::prelude::*;

use crate::store::{get_contract, put_contract, InMemoryStore, StoreError};
use crate::version::Versioned;

verus! {

/// One operation sent to the store worker.
#[derive(Debug)]
pub enum StoreRequest {
    /// Read all siblings of a key.
    Get { key: String },
    /// Write a versioned value under a key.
    Put { key: String, value: Versioned<String> },
}

/// The reply the worker sends back for one request.
#[derive(Debug)]
pub enum StoreResponse {
    /// The reply to a read: the key's siblings.
    Get(Result<Vec<Versioned<String>>, StoreError>),
    /// The reply to a write: the siblings present before the write, or the
    /// staleness error.
    Put(Result<Vec<Versioned<String>>, StoreError>),
}

/// One worker step: applies a single request to the store the worker owns
/// and produces the reply, under the get/put contracts. A read leaves the
/// store as it was.
pub fn handle(store: &mut InMemoryStore<String, String>, request: StoreRequest) -> (r:
    StoreResponse)
    requires
        old(store).wf(),
    ensures
        final(store).wf(),
        match request {
            StoreRequest::Get { key } => {
                &&& final(store).contents() == old(store).contents()
                &&& r matches StoreResponse::Get(res)
                &&& get_contract(old(store).contents(), key@, r->Get_0)
            },
            StoreRequest::Put { key, value } => {
                &&& r matches StoreResponse::Put(res)
                &&& put_contract(
                    old(store).contents(),
                    key@,
                    value@,
                    final(store).contents(),
                    r->Put_0,
                )
            },
        },
{
    match request {
        StoreRequest::Get { key } => StoreResponse::Get(store.get(key)),
        StoreRequest::Put { key, value } => StoreResponse::Put(store.put(key, value)),
    }
}

} // verus!
