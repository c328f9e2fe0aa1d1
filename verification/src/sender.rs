//! Autonomous load generators: each sender repeatedly dispatches a fresh
//! clone of one fixed request to its target on a fixed period, and records
//! every successful round trip's latency.

use vstd::prelude::*;
use crate::chain::{apply_request, lemma_apply_idempotent, path_running, Chain};
use crate::message::Request;
use crate::recorder::Recorder;

verus! {

/// A sender node: it owns its fixed request and its target's address, and is
/// driven by a repeating timer rather than by an external loop. A failed
/// round trip is logged and dropped from the statistics — never retried,
/// never escalated.
pub struct Sender {
    request: Request,
}

impl Sender {
    /// The fixed request the sender dispatches every tick.
    pub closed spec fn spec_request(&self) -> Request {
        self.request
    }

    /// A sender that will dispatch clones of `request`.
    pub fn new(request: Request) -> (s: Self)
        ensures
            s.spec_request() == request,
    {
        Sender { request }
    }

    /// One timer tick: dispatch a clone of the fixed request to the target
    /// chain's head and await the reply; `elapsed` is the round-trip time
    /// the caller's clock measured. On success the sample is recorded; on
    /// failure nothing is recorded and nothing anywhere changes.
    pub fn tick(&self, target: &mut Chain, rec: &mut Recorder, elapsed: u64) -> (ok: bool)
        ensures
            final(rec).channel_name() == old(rec).channel_name(),
            path_running(old(target)@, 0) ==> ok && final(target)@ == apply_request(
                old(target)@,
                0,
                self.spec_request().field_a@,
                self.spec_request().field_b@,
            ) && final(rec)@ == old(rec)@.push(elapsed),
            !path_running(old(target)@, 0) ==> !ok && final(target)@ == old(target)@
                && final(rec)@ == old(rec)@,
    {
        let req = self.request.clone();
        match target.process(&req) {
            Ok(_) => {
                rec.record(elapsed);
                true
            },
            Err(_) => false,
        }
    }

    /// A whole benchmark cycle of ticks against one target, one entry of
    /// `elapsed` per tick. With the whole path running, every tick succeeds:
    /// all samples are recorded in tick order and the chain ends exactly as
    /// after one delivery of the pair (the repeats overwrite). With the path
    /// broken, nothing is recorded and nothing changes.
    pub fn run_ticks(&self, target: &mut Chain, rec: &mut Recorder, elapsed: &Vec<u64>)
        ensures
            final(rec).channel_name() == old(rec).channel_name(),
            path_running(old(target)@, 0) ==> final(rec)@ == old(rec)@ + elapsed@ && (elapsed@.len()
                == 0 ==> final(target)@ == old(target)@) && (elapsed@.len() > 0 ==> final(target)@
                == apply_request(
                old(target)@,
                0,
                self.spec_request().field_a@,
                self.spec_request().field_b@,
            )),
            !path_running(old(target)@, 0) ==> final(rec)@ == old(rec)@
                && final(target)@ == old(target)@,
    {
        let ghost a = self.spec_request().field_a@;
        let ghost b = self.spec_request().field_b@;
        let n = elapsed.len();
        let mut i: usize = 0;
        while i < n
            invariant
                i <= n,
                n == elapsed@.len(),
                a == self.spec_request().field_a@,
                b == self.spec_request().field_b@,
                rec.channel_name() == old(rec).channel_name(),
                path_running(target@, 0) == path_running(old(target)@, 0),
                path_running(old(target)@, 0) ==> rec@ == old(rec)@ + elapsed@.subrange(
                    0,
                    i as int,
                ) && (i == 0 ==> target@ == old(target)@) && (i > 0 ==> target@ == apply_request(
                    old(target)@,
                    0,
                    a,
                    b,
                )),
                !path_running(old(target)@, 0) ==> rec@ == old(rec)@ && target@ == old(target)@,
            decreases n - i,
        {
            let ghost target_pre = target@;
            self.tick(target, rec, elapsed[i]);
            proof {
                if path_running(old(target)@, 0) {
                    assert(rec@ =~= old(rec)@ + elapsed@.subrange(0, i + 1));
                    assert(forall|k: int|
                        0 <= k < target@.len() ==> target@[k].running == target_pre[k].running);
                    if i > 0 {
                        lemma_apply_idempotent(old(target)@, 0, a, b);
                    }
                }
            }
            i = i + 1;
        }
        proof {
            assert(elapsed@.subrange(0, n as int) =~= elapsed@);
        }
    }
}

} // verus!
