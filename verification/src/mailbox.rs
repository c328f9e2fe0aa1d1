//! A node's bounded inbound queue. Requests enter at the back and are taken
//! from the front, one at a time, so requests from one sender are observed
//! in send order.

use vstd::prelude::*;
use crate::message::Request;

verus! {

/// Every node's inbound queue holds at most this many pending messages;
/// a sender that finds the queue full must wait (or give up) — the request
/// is handed back, never silently dropped.
pub const MAILBOX_CAPACITY: usize = 1024;

/// A FIFO queue of pending requests, bounded by `MAILBOX_CAPACITY`.
pub struct Mailbox {
    queue: Vec<Request>,
}

impl View for Mailbox {
    type V = Seq<Request>;

    closed spec fn view(&self) -> Seq<Request> {
        self.queue@
    }
}

impl Mailbox {
    /// An empty mailbox.
    pub fn new() -> (m: Self)
        ensures
            m@ == Seq::<Request>::empty(),
    {
        Mailbox { queue: Vec::new() }
    }

    /// Enqueue a request at the back. With the capacity reached, the request
    /// is handed back as the backpressure signal instead of being queued.
    pub fn enqueue(&mut self, req: Request) -> (rejected: Option<Request>)
        ensures
            old(self)@.len() < MAILBOX_CAPACITY ==> rejected == None::<Request> && final(self)@
                == old(self)@.push(req),
            old(self)@.len() >= MAILBOX_CAPACITY ==> rejected == Some(req) && final(self)@ == old(
                self,
            )@,
    {
        if self.queue.len() < MAILBOX_CAPACITY {
            self.queue.push(req);
            None
        } else {
            Some(req)
        }
    }

    /// Dequeue the oldest pending request, if any.
    pub fn dequeue(&mut self) -> (r: Option<Request>)
        ensures
            old(self)@.len() == 0 ==> r == None::<Request> && final(self)@ == old(self)@,
            old(self)@.len() > 0 ==> r == Some(old(self)@[0]) && final(self)@ == old(
                self,
            )@.drop_first(),
    {
        if self.queue.len() == 0 {
            None
        } else {
            let req = self.queue.remove(0);
            proof {
                assert(self@ =~= old(self)@.drop_first());
            }
            Some(req)
        }
    }

    /// The number of pending requests.
    pub fn len(&self) -> (n: usize)
        ensures
            n == self@.len(),
    {
        self.queue.len()
    }
}

} // verus!
