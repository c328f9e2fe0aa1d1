//! A single actor node: a sequential message handler owning a private
//! string mapping, together with its spec-level model.

use vstd::prelude::*;
use crate::message::{DispatchFailure, EmptyRequest, Request, Response};
use crate::table::KvTable;

verus! {

/// The spec-level state of one node: its private mapping and whether the
/// node is still running (able to receive sends).
pub struct NodeModel {
    pub mapping: Map<Seq<char>, Seq<char>>,
    pub running: bool,
}

/// One actor node. Its mapping is mutated only by its own handlers, which
/// run one message at a time; stopping a node makes every later send to it
/// fail with `DispatchFailure`.
pub struct Node {
    mapping: KvTable,
    running: bool,
}

impl View for Node {
    type V = NodeModel;

    closed spec fn view(&self) -> NodeModel {
        NodeModel { mapping: self.mapping@, running: self.running }
    }
}

impl Node {
    /// A freshly started node: empty mapping, accepting messages.
    pub fn new() -> (n: Self)
        ensures
            n@ == (NodeModel { mapping: Map::<Seq<char>, Seq<char>>::empty(), running: true }),
    {
        Node { mapping: KvTable::new(), running: true }
    }

    /// Whether the node still accepts sends.
    pub fn is_running(&self) -> (r: bool)
        ensures
            r == self@.running,
    {
        self.running
    }

    /// Stop the node: every later send to it fails. Its mapping is kept.
    pub fn stop(&mut self)
        ensures
            final(self)@ == (NodeModel { mapping: old(self)@.mapping, running: false }),
    {
        self.running = false;
    }

    /// The terminal handler: insert `field_a -> field_b` into the private
    /// mapping and reply immediately, with no suspension.
    pub fn handle_terminal(&mut self, req: &Request) -> (r: Response)
        ensures
            final(self)@ == (NodeModel {
                mapping: old(self)@.mapping.insert(req.field_a@, req.field_b@),
                running: old(self)@.running,
            }),
    {
        self.mapping.insert(req.field_a.clone(), req.field_b.clone());
        Response
    }

    /// The empty-payload handler: reply immediately and never touch the
    /// mapping.
    pub fn handle_empty(&mut self, _req: &EmptyRequest) -> (r: Response)
        ensures
            final(self)@ == old(self)@,
    {
        Response
    }

    /// The forwarding handler's merge step, run once the downstream reply is
    /// in: on a successful reply insert `field_a -> field_b` and acknowledge
    /// upstream; on a downstream failure leave the mapping untouched and
    /// propagate the failure upstream — a deliberate choice, so that the
    /// upstream caller gets its one terminal outcome instead of waiting on a
    /// reply that will never come.
    pub fn handle_forward(&mut self, req: &Request, downstream: Result<Response, DispatchFailure>)
        -> (r: Result<Response, DispatchFailure>)
        ensures
            downstream is Ok ==> r == Ok::<Response, DispatchFailure>(Response) && final(self)@
                == (NodeModel {
                mapping: old(self)@.mapping.insert(req.field_a@, req.field_b@),
                running: old(self)@.running,
            }),
            downstream is Err ==> r == Err::<Response, DispatchFailure>(DispatchFailure)
                && final(self)@ == old(self)@,
    {
        match downstream {
            Ok(_) => {
                self.mapping.insert(req.field_a.clone(), req.field_b.clone());
                Ok(Response)
            },
            Err(_) => Err(DispatchFailure),
        }
    }

    /// Look a key up in the node's private mapping.
    pub fn get(&self, key: &String) -> (r: Option<&String>)
        ensures
            match r {
                Some(v) => self@.mapping.contains_key(key@) && v@ == self@.mapping[key@],
                None => !self@.mapping.contains_key(key@),
            },
    {
        self.mapping.get(key)
    }

    /// The number of distinct keys in the node's private mapping.
    pub fn mapping_len(&self) -> (n: usize)
        ensures
            n == self@.mapping.dom().len(),
    {
        self.mapping.len()
    }
}

} // verus!
