//! Correlated requests: a payload tagged with a unique request identifier, so
//! that an asynchronous response can be matched to the call that produced it
//! independently of arrival order.
//!
//! Identifiers are drawn from the manager's monotonic counter, which makes
//! their uniqueness an invariant rather than a probabilistic assumption.

use vstd::prelude::*;

verus! {

/// A value of type `T` tagged with the request identifier under which it
/// travels to or from the backing store.
#[derive(Debug)]
pub struct Pending<T> {
    pub request_id: u64,
    pub data: T,
}

/// The mathematical value of a [`Pending`].
#[verifier::ext_equal]
pub struct PendingView<V> {
    pub request_id: int,
    pub data: V,
}

impl<T: View> View for Pending<T> {
    type V = PendingView<T::V>;

    open spec fn view(&self) -> PendingView<T::V> {
        PendingView { request_id: self.request_id as int, data: self.data@ }
    }
}

impl<T: View> Pending<T> {
    pub fn new(request_id: u64, data: T) -> (r: Self)
        ensures
            r.request_id == request_id,
            r.data == data,
    {
        Pending { request_id, data }
    }
}

} // verus!
