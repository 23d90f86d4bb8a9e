//! The transaction pool RPC handler, which answers through a shared common
//! RPC implementation.

use vstd::prelude::*;
use std::sync::Arc;

verus! {

/// Answers transaction pool queries through the shared implementation
/// `common`.
pub struct TransactionPoolHandler<C> {
    common: Arc<C>,
}

impl<C> TransactionPoolHandler<C> {
    /// The implementation the handler answers through.
    pub closed spec fn common_impl(&self) -> C {
        *self.common
    }

    pub fn new(common: Arc<C>) -> (r: Self)
        ensures
            r.common_impl() == *common,
    {
        TransactionPoolHandler { common }
    }

    /// The shared implementation that every query is delegated to.
    pub fn common(&self) -> (r: &Arc<C>)
        ensures
            **r == self.common_impl(),
    {
        &self.common
    }
}

} // verus!
