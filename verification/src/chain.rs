//! Chains of actor nodes: each node optionally forwards to the next, awaits
//! the downstream reply, merges into its own mapping and acknowledges
//! upstream. A delivery either traverses a path of running nodes and
//! succeeds everywhere on it, or fails and changes nothing.

use vstd::prelude::*;
use crate::mailbox::Mailbox;
use crate::message::{DispatchFailure, EmptyRequest, Request, Response};
use crate::node::{Node, NodeModel};

verus! {

/// Every node from `start` to the end of the chain is running: the whole
/// path a delivery entering at `start` must traverse.
pub open spec fn path_running(nodes: Seq<NodeModel>, start: int) -> bool {
    forall|i: int| start <= i < nodes.len() ==> nodes[i].running
}

/// The chain state after a successful delivery of `a -> b` entering at
/// `start`: every node on the traversed path gains exactly the one insertion
/// `a -> b`; nodes before `start`, and every running flag, are untouched.
pub open spec fn apply_request(nodes: Seq<NodeModel>, start: int, a: Seq<char>, b: Seq<char>) -> Seq<
    NodeModel,
> {
    Seq::new(
        nodes.len(),
        |i: int|
            if start <= i {
                NodeModel { mapping: nodes[i].mapping.insert(a, b), running: nodes[i].running }
            } else {
                nodes[i]
            },
    )
}

/// What one delivery of `a -> b` entering at `start` does: the chain state
/// after it, and whether it succeeded. A delivery succeeds exactly when the
/// whole path is running; a failed delivery changes nothing.
pub open spec fn deliver_model(nodes: Seq<NodeModel>, start: int, a: Seq<char>, b: Seq<char>) -> (
    Seq<NodeModel>,
    bool,
) {
    if path_running(nodes, start) {
        (apply_request(nodes, start, a, b), true)
    } else {
        (nodes, false)
    }
}

/// A chain of one or more nodes. The head either is the terminal node or
/// forwards to the head of `downstream`; the terminal node is built first,
/// so every forwarding node holds its downstream address from the start.
pub struct Chain {
    node: Node,
    downstream: Option<Box<Chain>>,
}

spec fn chain_view(c: Chain) -> Seq<NodeModel>
    decreases c,
{
    match c.downstream {
        Option::None => seq![c.node@],
        Option::Some(next) => seq![c.node@] + chain_view(*next),
    }
}

impl View for Chain {
    type V = Seq<NodeModel>;

    closed spec fn view(&self) -> Seq<NodeModel> {
        chain_view(*self)
    }
}

proof fn lemma_chain_split(h: NodeModel, t: Seq<NodeModel>, start: int, a: Seq<char>, b: Seq<char>)
    ensures
        path_running(seq![h] + t, 0) == (h.running && path_running(t, 0)),
        start >= 1 ==> path_running(seq![h] + t, start) == path_running(t, start - 1),
        apply_request(seq![h] + t, 0, a, b) =~= seq![
            (NodeModel { mapping: h.mapping.insert(a, b), running: h.running }),
        ] + apply_request(t, 0, a, b),
        start >= 1 ==> apply_request(seq![h] + t, start, a, b) =~= seq![h] + apply_request(
            t,
            start - 1,
            a,
            b,
        ),
{
    let whole = seq![h] + t;
    assert(whole[0] == h);
    assert(forall|i: int| 1 <= i < whole.len() ==> whole[i] == t[i - 1]);
    if h.running && path_running(t, 0) {
        assert forall|i: int| 0 <= i < whole.len() implies whole[i].running by {
            if i >= 1 {
                assert(t[i - 1].running);
            }
        }
    }
    if path_running(whole, 0) {
        assert forall|i: int| 0 <= i < t.len() implies t[i].running by {
            assert(whole[i + 1].running);
        }
    }
    if start >= 1 {
        if path_running(t, start - 1) {
            assert forall|i: int| start <= i < whole.len() implies whole[i].running by {
                assert(t[i - 1].running);
            }
        }
        if path_running(whole, start) {
            assert forall|i: int| start - 1 <= i < t.len() implies t[i].running by {
                assert(whole[i + 1].running);
            }
        }
    }
}

impl Chain {
    /// Build an `n`-node chain bottom-up: the terminal node first, each
    /// upstream node wired to the chain below it. All nodes start running
    /// with empty mappings.
    pub fn build(n: usize) -> (c: Chain)
        requires
            1 <= n,
        ensures
            c@.len() == n as int,
            forall|i: int|
                0 <= i < n ==> c@[i] == (NodeModel {
                    mapping: Map::<Seq<char>, Seq<char>>::empty(),
                    running: true,
                }),
        decreases n,
    {
        if n == 1 {
            let c = Chain { node: Node::new(), downstream: None };
            proof {
                assert(c@ =~= seq![c.node@]);
            }
            c
        } else {
            let tail = Chain::build(n - 1);
            let ghost tail_view = tail@;
            let c = Chain { node: Node::new(), downstream: Some(Box::new(tail)) };
            proof {
                assert(c@ == seq![c.node@] + tail_view);
                assert(forall|i: int| 1 <= i < c@.len() ==> c@[i] == tail_view[i - 1]);
            }
            c
        }
    }

    /// Deliver a payload request to the head of the chain and handle it to
    /// completion: the head forwards a clone downstream, awaits the reply,
    /// merges, and acknowledges upstream. Succeeds if and only if every node
    /// on the chain is running; a failed delivery leaves every mapping
    /// untouched.
    pub fn process(&mut self, req: &Request) -> (r: Result<Response, DispatchFailure>)
        ensures
            (final(self)@, r is Ok) == deliver_model(old(self)@, 0, req.field_a@, req.field_b@),
            r is Ok ==> r == Ok::<Response, DispatchFailure>(Response),
            r is Err ==> r == Err::<Response, DispatchFailure>(DispatchFailure),
        decreases *old(self),
    {
        let ghost pre = *self;
        let ghost a = req.field_a@;
        let ghost b = req.field_b@;
        if !self.node.is_running() {
            proof {
                if pre.downstream is Some {
                    assert(pre@ == seq![pre.node@] + chain_view(*pre.downstream->Some_0));
                } else {
                    assert(pre@ == seq![pre.node@]);
                }
                assert(pre@[0] == pre.node@);
                assert(!path_running(pre@, 0));
            }
            return Err(DispatchFailure);
        }
        match self.downstream.take() {
            None => {
                self.node.handle_terminal(req);
                proof {
                    assert(pre@ == seq![pre.node@]);
                    assert(self@ == seq![self.node@]);
                    assert(path_running(pre@, 0));
                    assert(self@ =~= apply_request(pre@, 0, a, b));
                }
                Ok(Response)
            },
            Some(mut next) => {
                let ghost sub0 = *next;
                let d = (&mut *next).process(req);
                let ghost sub1 = *next;
                let r = self.node.handle_forward(req, d);
                self.downstream = Some(next);
                proof {
                    assert(pre@ == seq![pre.node@] + chain_view(sub0));
                    assert(self@ == seq![self.node@] + chain_view(sub1));
                    lemma_chain_split(pre.node@, chain_view(sub0), 0, a, b);
                    if path_running(pre@, 0) {
                        assert(chain_view(sub1) == apply_request(chain_view(sub0), 0, a, b));
                        assert(self@ =~= apply_request(pre@, 0, a, b));
                    } else {
                        assert(chain_view(sub1) == chain_view(sub0));
                        assert(self@ =~= pre@);
                    }
                }
                r
            },
        }
    }

    /// Deliver a payload request to the node at `start`, as a caller holding
    /// that node's address would; the sub-chain below it is traversed as in
    /// `process`, and nodes before `start` are not involved at all.
    pub fn process_from(&mut self, start: usize, req: &Request) -> (r: Result<
        Response,
        DispatchFailure,
    >)
        requires
            start < old(self)@.len(),
        ensures
            (final(self)@, r is Ok) == deliver_model(
                old(self)@,
                start as int,
                req.field_a@,
                req.field_b@,
            ),
            r is Ok ==> r == Ok::<Response, DispatchFailure>(Response),
            r is Err ==> r == Err::<Response, DispatchFailure>(DispatchFailure),
        decreases *old(self),
    {
        let ghost pre = *self;
        let ghost a = req.field_a@;
        let ghost b = req.field_b@;
        if start == 0 {
            self.process(req)
        } else {
            match self.downstream.take() {
                None => {
                    proof {
                        assert(pre@ == seq![pre.node@]);
                        assert(false);
                    }
                    Err(DispatchFailure)
                },
                Some(mut next) => {
                    let ghost sub0 = *next;
                    proof {
                        assert(pre@ == seq![pre.node@] + chain_view(sub0));
                        assert(start - 1 < chain_view(sub0).len());
                    }
                    let r = (&mut *next).process_from(start - 1, req);
                    let ghost sub1 = *next;
                    self.downstream = Some(next);
                    proof {
                        assert(self@ == seq![self.node@] + chain_view(sub1));
                        assert(self.node@ == pre.node@);
                        lemma_chain_split(pre.node@, chain_view(sub0), start as int, a, b);
                        if path_running(pre@, start as int) {
                            assert(chain_view(sub1) == apply_request(
                                chain_view(sub0),
                                start - 1,
                                a,
                                b,
                            ));
                            assert(self@ =~= apply_request(pre@, start as int, a, b));
                        } else {
                            assert(chain_view(sub1) == chain_view(sub0));
                            assert(self@ =~= pre@);
                        }
                    }
                    r
                },
            }
        }
    }

    /// Deliver an empty-payload request to the head node: it replies
    /// immediately, nothing is forwarded, and no mapping anywhere changes.
    pub fn process_empty(&mut self, req: &EmptyRequest) -> (r: Result<Response, DispatchFailure>)
        ensures
            final(self)@ == old(self)@,
            old(self)@[0].running ==> r == Ok::<Response, DispatchFailure>(Response),
            !old(self)@[0].running ==> r == Err::<Response, DispatchFailure>(DispatchFailure),
    {
        let ghost pre = *self;
        proof {
            if pre.downstream is Some {
                assert(pre@ == seq![pre.node@] + chain_view(*pre.downstream->Some_0));
            } else {
                assert(pre@ == seq![pre.node@]);
            }
            assert(pre@[0] == pre.node@);
        }
        if !self.node.is_running() {
            return Err(DispatchFailure);
        }
        let resp = self.node.handle_empty(req);
        Ok(resp)
    }

    /// Stop the node at `at`: it keeps its mapping but every later delivery
    /// whose path includes it fails.
    pub fn stop(&mut self, at: usize)
        requires
            at < old(self)@.len(),
        ensures
            final(self)@ == old(self)@.update(
                at as int,
                (NodeModel { mapping: old(self)@[at as int].mapping, running: false }),
            ),
        decreases *old(self),
    {
        let ghost pre = *self;
        if at == 0 {
            self.node.stop();
            proof {
                if pre.downstream is Some {
                    let ghost sub = *pre.downstream->Some_0;
                    assert(pre@ == seq![pre.node@] + chain_view(sub));
                    assert(self@ == seq![self.node@] + chain_view(sub));
                } else {
                    assert(pre@ == seq![pre.node@]);
                    assert(self@ == seq![self.node@]);
                }
                assert(self@ =~= pre@.update(
                    0,
                    (NodeModel { mapping: pre@[0].mapping, running: false }),
                ));
            }
        } else {
            match self.downstream.take() {
                None => {
                    proof {
                        assert(pre@ == seq![pre.node@]);
                        assert(false);
                    }
                },
                Some(mut next) => {
                    let ghost sub0 = *next;
                    proof {
                        assert(pre@ == seq![pre.node@] + chain_view(sub0));
                        assert(at - 1 < chain_view(sub0).len());
                    }
                    (&mut *next).stop(at - 1);
                    let ghost sub1 = *next;
                    self.downstream = Some(next);
                    proof {
                        assert(self@ == seq![self.node@] + chain_view(sub1));
                        assert(self@ =~= pre@.update(
                            at as int,
                            (NodeModel { mapping: pre@[at as int].mapping, running: false }),
                        ));
                    }
                },
            }
        }
    }

    /// One scheduling step of the head node's sequential message loop:
    /// dequeue the oldest pending request, if there is one, and handle it to
    /// completion — including the whole downstream round trip — before the
    /// step ends. No later request is begun in between.
    pub fn step(&mut self, mbox: &mut Mailbox) -> (r: Option<Result<Response, DispatchFailure>>)
        ensures
            (final(self)@, final(mbox)@) == step_model(old(self)@, old(mbox)@),
            old(mbox)@.len() == 0 ==> r == None::<Result<Response, DispatchFailure>>,
            old(mbox)@.len() > 0 ==> r is Some && (r->Some_0 is Ok <==> path_running(
                old(self)@,
                0,
            )),
    {
        match mbox.dequeue() {
            None => None,
            Some(req) => Some(self.process(&req)),
        }
    }

    /// The number of nodes in the chain.
    pub fn len(&self) -> (n: usize)
        requires
            self@.len() <= usize::MAX,
        ensures
            n == self@.len(),
        decreases *self,
    {
        match &self.downstream {
            None => {
                proof {
                    assert(self@ == seq![self.node@]);
                }
                1
            },
            Some(next) => {
                proof {
                    assert(self@ == seq![self.node@] + chain_view(*self.downstream->Some_0));
                }
                1 + next.len()
            },
        }
    }

    /// Borrow the node at `i`, head first.
    pub fn node_at(&self, i: usize) -> (n: &Node)
        requires
            i < self@.len(),
        ensures
            n@ == self@[i as int],
        decreases *self,
    {
        proof {
            if self.downstream is Some {
                assert(self@ == seq![self.node@] + chain_view(*self.downstream->Some_0));
            } else {
                assert(self@ == seq![self.node@]);
            }
        }
        if i == 0 {
            &self.node
        } else {
            match &self.downstream {
                None => {
                    proof {
                        assert(false);
                    }
                    &self.node
                },
                Some(next) => next.node_at(i - 1),
            }
        }
    }
}

/// Every chain holds at least one node: the terminal node exists before any
/// forwarding node is wired above it.
pub proof fn lemma_chain_nonempty(c: Chain)
    ensures
        c@.len() >= 1,
    decreases c,
{
    if c.downstream is Some {
        lemma_chain_nonempty(*c.downstream->Some_0);
    }
}

/// What one scheduling step does to the chain and its inbound queue: with
/// nothing pending, nothing changes; otherwise exactly the oldest request
/// leaves the queue and its whole delivery happens.
pub open spec fn step_model(nodes: Seq<NodeModel>, q: Seq<Request>) -> (Seq<NodeModel>, Seq<
    Request,
>) {
    if q.len() == 0 {
        (nodes, q)
    } else {
        (deliver_model(nodes, 0, q[0].field_a@, q[0].field_b@).0, q.drop_first())
    }
}

/// Ordering law: with `r1` queued before `r2` by one sender, the step that
/// dequeues `r1` completes `r1`'s whole effect while `r2` is still queued
/// untouched; only the following step begins `r2`.
pub proof fn lemma_fifo_order(nodes: Seq<NodeModel>, r1: Request, r2: Request)
    requires
        path_running(nodes, 0),
    ensures
        ({
            let q = seq![r1, r2];
            let (nodes1, q1) = step_model(nodes, q);
            let (nodes2, q2) = step_model(nodes1, q1);
            nodes1 == apply_request(nodes, 0, r1.field_a@, r1.field_b@) && q1 == seq![r2] && nodes2
                == apply_request(nodes1, 0, r2.field_a@, r2.field_b@) && q2 == Seq::<
                Request,
            >::empty()
        }),
{
    let q = seq![r1, r2];
    assert(q[0] == r1);
    assert(q.drop_first() =~= seq![r2]);
    let nodes1 = apply_request(nodes, 0, r1.field_a@, r1.field_b@);
    assert(forall|i: int| 0 <= i < nodes1.len() ==> nodes1[i].running == nodes[i].running);
    assert(path_running(nodes1, 0));
    assert(seq![r2].drop_first() =~= Seq::<Request>::empty());
}

/// Idempotence lifted to whole chains: delivering the same pair twice along
/// the same path leaves every node's mapping exactly as one delivery does.
pub proof fn lemma_apply_idempotent(nodes: Seq<NodeModel>, start: int, a: Seq<char>, b: Seq<char>)
    ensures
        apply_request(apply_request(nodes, start, a, b), start, a, b) == apply_request(
            nodes,
            start,
            a,
            b,
        ),
{
    let once = apply_request(nodes, start, a, b);
    let twice = apply_request(once, start, a, b);
    assert forall|i: int| 0 <= i < nodes.len() implies twice[i] == once[i] by {
        if start <= i {
            assert(once[i].mapping.insert(a, b) =~= nodes[i].mapping.insert(a, b));
        }
    }
    assert(twice =~= once);
}

/// Exactly-once insertion law: a successful delivery inserts the pair into
/// every node on the traversed path exactly once, and touches nothing else —
/// not the mappings' other keys, not nodes off the path, not any running
/// flag.
pub proof fn lemma_exactly_one_insertion(
    nodes: Seq<NodeModel>,
    start: int,
    a: Seq<char>,
    b: Seq<char>,
)
    requires
        0 <= start < nodes.len(),
        path_running(nodes, start),
    ensures
        deliver_model(nodes, start, a, b).1,
        deliver_model(nodes, start, a, b).0.len() == nodes.len(),
        forall|i: int|
            start <= i < nodes.len() ==> deliver_model(nodes, start, a, b).0[i].mapping
                == nodes[i].mapping.insert(a, b),
        forall|i: int| 0 <= i < start ==> deliver_model(nodes, start, a, b).0[i] == nodes[i],
        forall|i: int|
            0 <= i < nodes.len() ==> deliver_model(nodes, start, a, b).0[i].running
                == nodes[i].running,
{
}

/// Failure-isolation law: while a node is stopped, a delivery whose path
/// contains it fails and leaves the whole chain unchanged, so a later
/// delivery along a running path that avoids it succeeds exactly as it
/// would have before the failure — the failed delivery leaves no trace.
pub proof fn lemma_failure_isolation(
    nodes: Seq<NodeModel>,
    stopped: int,
    start: int,
    start2: int,
    a: Seq<char>,
    b: Seq<char>,
    a2: Seq<char>,
    b2: Seq<char>,
)
    requires
        0 <= start <= stopped < nodes.len(),
        !nodes[stopped].running,
        stopped < start2 < nodes.len(),
        path_running(nodes, start2),
    ensures
        !deliver_model(nodes, start, a, b).1,
        deliver_model(nodes, start, a, b).0 == nodes,
        deliver_model(deliver_model(nodes, start, a, b).0, start2, a2, b2).1,
        deliver_model(deliver_model(nodes, start, a, b).0, start2, a2, b2).0 == apply_request(
            nodes,
            start2,
            a2,
            b2,
        ),
{
    assert(!path_running(nodes, start));
}

} // verus!
