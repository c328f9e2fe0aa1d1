//! Synthetic message types flowing through the benchmark chains.

use vstd::prelude::*;

verus! {

/// A payload-carrying request: an immutable pair of strings, cloned once per
/// send. A node that handles it successfully inserts `field_a -> field_b`
/// into its private mapping.
#[derive(Debug)]
pub struct Request {
    pub field_a: String,
    pub field_b: String,
}

impl Clone for Request {
    /// Requests are cloned per send; the clone carries the same payload.
    fn clone(&self) -> (r: Self)
        ensures
            r.field_a@ == self.field_a@,
            r.field_b@ == self.field_b@,
    {
        Request { field_a: self.field_a.clone(), field_b: self.field_b.clone() }
    }
}

/// A zero-field marker request, used to isolate dispatch cost from payload
/// marshalling cost. Handling it never touches a node's mapping.
#[derive(Clone, Copy, Debug, PartialEq, Eq, Structural)]
pub struct EmptyRequest;

/// The unit acknowledgement a node replies with after successful handling.
#[derive(Clone, Copy, Debug, PartialEq, Eq, Structural)]
pub struct Response;

/// The failure a send surfaces when the target node is no longer running
/// (its mailbox is closed or unreachable).
#[derive(Clone, Copy, Debug, PartialEq, Eq, Structural)]
pub struct DispatchFailure;

} // verus!
