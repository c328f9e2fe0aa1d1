//! The scenario catalogue — every benchmark topology the driver can run —
//! and the tight-loop drivers that push load through a built chain.

use vstd::prelude::*;
use vstd::string::StringExecFns;
use crate::chain::{apply_request, path_running, Chain};
use crate::message::{EmptyRequest, Request};
use crate::recorder::Recorder;
use crate::sender::Sender;

verus! {

/// Where a chain's nodes are placed: all on the caller's execution context,
/// or each on a separate one. Placement changes scheduling cost only, never
/// what a delivery does.
#[derive(Clone, Copy, Debug, PartialEq, Eq, Structural)]
pub enum Placement {
    MainContext,
    SeparateContexts,
}

/// The catalogue of benchmark topologies. Exactly one scenario runs per
/// benchmark invocation.
#[derive(Clone, Copy, Debug, PartialEq, Eq, Structural)]
pub enum Scenario {
    /// One node, driven by a tight loop of payload requests.
    SingleNode,
    /// One node, driven by a tight loop of empty-payload requests, isolating
    /// dispatch cost from payload marshalling cost.
    SingleNodeEmptyPayload,
    /// A chain of `len` nodes driven by a tight loop of payload requests.
    Chain { len: usize, placement: Placement },
    /// A chain of `len` nodes driven by `senders` autonomous senders, each
    /// sender on its own execution context.
    SenderDriven { len: usize, senders: usize },
}

impl Scenario {
    /// A scenario the catalogue admits: tight-loop chains come in lengths
    /// two and three; a sender-driven run needs a chain and at least one
    /// sender.
    pub open spec fn wf(&self) -> bool {
        match *self {
            Scenario::SingleNode => true,
            Scenario::SingleNodeEmptyPayload => true,
            Scenario::Chain { len, .. } => 2 <= len <= 3,
            Scenario::SenderDriven { len, senders } => 1 <= len && 1 <= senders,
        }
    }

    /// How many nodes the scenario's topology has.
    pub open spec fn spec_chain_len(&self) -> int {
        match *self {
            Scenario::SingleNode => 1,
            Scenario::SingleNodeEmptyPayload => 1,
            Scenario::Chain { len, .. } => len as int,
            Scenario::SenderDriven { len, .. } => len as int,
        }
    }

    /// How many nodes the scenario's topology has.
    pub fn chain_len(&self) -> (n: usize)
        ensures
            n as int == self.spec_chain_len(),
    {
        match self {
            Scenario::SingleNode => 1,
            Scenario::SingleNodeEmptyPayload => 1,
            Scenario::Chain { len, .. } => *len,
            Scenario::SenderDriven { len, .. } => *len,
        }
    }

    /// How many autonomous senders drive the load; zero for the scenarios a
    /// tight loop drives.
    pub open spec fn spec_sender_count(&self) -> int {
        match *self {
            Scenario::SenderDriven { senders, .. } => senders as int,
            _ => 0,
        }
    }

    /// How many autonomous senders drive the load; zero for the scenarios a
    /// tight loop drives.
    pub fn sender_count(&self) -> (n: usize)
        ensures
            n as int == self.spec_sender_count(),
    {
        match self {
            Scenario::SenderDriven { senders, .. } => *senders,
            _ => 0,
        }
    }

    /// The metric channel the scenario's samples are tagged with.
    pub open spec fn spec_channel(&self) -> Seq<char> {
        if *self is SenderDriven {
            "sender"@
        } else {
            "actor"@
        }
    }

    /// The metric channel the scenario's samples are tagged with.
    pub fn channel(&self) -> (c: &'static str)
        ensures
            c@ == self.spec_channel(),
    {
        match self {
            Scenario::SenderDriven { .. } => "sender",
            _ => "actor",
        }
    }

    /// Build the scenario's topology: the chain is wired bottom-up, every
    /// node starting empty and running.
    pub fn build(&self) -> (c: Chain)
        requires
            self.wf(),
        ensures
            c@.len() == self.spec_chain_len(),
            path_running(c@, 0),
            forall|i: int| 0 <= i < c@.len() ==> c@[i].mapping.dom() =~= Set::<Seq<char>>::empty(),
    {
        Chain::build(self.chain_len())
    }
}

/// The fixed benchmark payload every driver and sender dispatches.
pub fn default_request() -> (r: Request)
    ensures
        r.field_a@ == "11111"@,
        r.field_b@ == "22222"@,
{
    Request { field_a: String::from_str("11111"), field_b: String::from_str("22222") }
}

/// The tight-loop driver: one blocking send-and-await of `req` per
/// iteration against the chain's head, recording each whole round trip's
/// measured latency (`latencies`, in iteration order). With the whole chain
/// running every iteration succeeds and is recorded; with the path broken
/// nothing is recorded and nothing changes.
pub fn drive_cycles(chain: &mut Chain, rec: &mut Recorder, req: &Request, latencies: &Vec<u64>)
    ensures
        final(rec).channel_name() == old(rec).channel_name(),
        path_running(old(chain)@, 0) ==> final(rec)@ == old(rec)@ + latencies@ && (latencies@.len()
            == 0 ==> final(chain)@ == old(chain)@) && (latencies@.len() > 0 ==> final(chain)@
            == apply_request(old(chain)@, 0, req.field_a@, req.field_b@)),
        !path_running(old(chain)@, 0) ==> final(rec)@ == old(rec)@ && final(chain)@ == old(chain)@,
{
    let sender = Sender::new(req.clone());
    sender.run_ticks(chain, rec, latencies);
}

/// The empty-payload tight-loop driver: one blocking empty-payload
/// send-and-await per iteration against the (running) head node, recording
/// each round trip. No iteration ever touches any mapping.
pub fn drive_empty_cycles(chain: &mut Chain, rec: &mut Recorder, latencies: &Vec<u64>)
    ensures
        final(rec).channel_name() == old(rec).channel_name(),
        final(chain)@ == old(chain)@,
        old(chain)@[0].running ==> final(rec)@ == old(rec)@ + latencies@,
        !old(chain)@[0].running ==> final(rec)@ == old(rec)@,
{
    let n = latencies.len();
    let mut i: usize = 0;
    while i < n
        invariant
            i <= n,
            n == latencies@.len(),
            rec.channel_name() == old(rec).channel_name(),
            chain@ == old(chain)@,
            old(chain)@[0].running ==> rec@ == old(rec)@ + latencies@.subrange(0, i as int),
            !old(chain)@[0].running ==> rec@ == old(rec)@,
        decreases n - i,
    {
        let r = chain.process_empty(&EmptyRequest);
        match r {
            Ok(_) => {
                rec.record(latencies[i]);
                proof {
                    assert(rec@ =~= old(rec)@ + latencies@.subrange(0, i + 1));
                }
            },
            Err(_) => {
            },
        }
        i = i + 1;
    }
    proof {
        assert(latencies@.subrange(0, n as int) =~= latencies@);
    }
}

} // verus!
