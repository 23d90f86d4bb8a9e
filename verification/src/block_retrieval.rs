//! The reply to a block retrieval request of the proof-of-stake protocol.

use vstd::prelude::*;

verus! {

/// The identifier that pairs a reply with its request.
pub type RequestId = u64;

/// A block retrieval reply: the request it answers and the response.
#[derive(Clone, Debug, PartialEq, Eq)]
pub struct BlockRetrievalRpcResponse<R> {
    pub request_id: RequestId,
    pub response: R,
}

impl<R> BlockRetrievalRpcResponse<R> {
    pub fn new(request_id: RequestId, response: R) -> (r: Self)
        ensures
            r.request_id == request_id,
            r.response == response,
    {
        BlockRetrievalRpcResponse { request_id, response }
    }
}

} // verus!
