//! The broadcast hub: one process-wide fan-out of generation events.
//!
//! A writer publishes every normalized event of the generation in flight;
//! any number of subscriptions read them independently. A subscription
//! observes only events published after it was created — there is no
//! replay — and it tolerates lag: with a bounded backlog, a reader that
//! falls more than the backlog behind silently loses the oldest unread
//! events and is told so, rather than stalling the writer. Delivery is
//! best-effort by design; the durable reply lives in the store, not here.

use vstd::prelude::*;

use crate::client::GenEvent;

verus! {

/// How many unread events a subscription may fall behind before it lags.
pub const HUB_BACKLOG: usize = 10;

/// The fan-out channel: the events published so far, in order.
pub struct Hub {
    log: Vec<GenEvent>,
}

/// One reader's handle: its position in the hub's log, and the ghost record
/// of where the log ended when the handle was created.
pub struct Subscription {
    next: usize,
    attached_at: Ghost<int>,
}

/// What one poll of a subscription yields: the next event, a lag notice
/// standing for the events just lost, or nothing yet.
pub enum Delivery {
    Event(GenEvent),
    Lagged,
    Empty,
}

impl Subscription {
    /// The position of the next event this subscription would read.
    pub closed spec fn position(self) -> int {
        self.next as int
    }

    /// Where the hub's log ended when this subscription was created.
    pub closed spec fn attach_point(self) -> int {
        self.attached_at@
    }

    /// The handle is consistent with the hub: it was created at or before
    /// the current end of the log, and has read nothing past the end.
    pub open spec fn wf(self, h: Hub) -> bool {
        0 <= self.attach_point() <= self.position() <= h.log_view().len()
    }
}

/// One poll's effect on a subscription, and what it yields: a reader more
/// than the backlog behind jumps to the oldest retained event and is told
/// it lagged; otherwise it reads the event at its position, or nothing when
/// it has read everything. Whatever the case, the position never moves
/// backwards and never before the attachment point.
pub open spec fn poll_transition(h: Hub, s0: Subscription, s1: Subscription, d: Delivery) -> bool {
    let len = h.log_view().len() as int;
    &&& s1.attach_point() == s0.attach_point()
    &&& if len - s0.position() > HUB_BACKLOG {
        d is Lagged && s1.position() == len - HUB_BACKLOG
    } else if s0.position() < len {
        (d matches Delivery::Event(e) && e@ == h.log_view()[s0.position()]) && s1.position()
            == s0.position() + 1
    } else {
        d is Empty && s1.position() == s0.position()
    }
}

impl Hub {
    /// The events published so far, oldest first.
    pub closed spec fn log_view(self) -> Seq<crate::client::EventView> {
        self.log.deep_view()
    }

    /// A hub with nothing published.
    pub fn new() -> (h: Hub)
        ensures
            h.log_view() == Seq::<crate::client::EventView>::empty(),
    {
        let h = Hub { log: Vec::new() };
        proof {
            assert(h.log_view() =~= Seq::<crate::client::EventView>::empty());
        }
        h
    }

    /// Publish one event to every subscription.
    pub fn publish(&mut self, e: GenEvent)
        ensures
            final(self).log_view() == old(self).log_view().push(e@),
    {
        let ghost ev = e@;
        self.log.push(e);
        proof {
            assert(self.log_view() =~= old(self).log_view().push(ev));
        }
    }

    /// A fresh subscription. It stands at the current end of the log, so it
    /// will observe exactly the events published after this call.
    pub fn subscribe(&self) -> (s: Subscription)
        ensures
            s.wf(*self),
            s.attach_point() == self.log_view().len(),
            s.position() == self.log_view().len(),
    {
        Subscription { next: self.log.len(), attached_at: Ghost(self.log.len() as int) }
    }

    /// Poll a subscription once.
    pub fn poll(&self, s: &mut Subscription) -> (d: Delivery)
        requires
            old(s).wf(*self),
        ensures
            final(s).wf(*self),
            poll_transition(*self, *old(s), *final(s), d),
    {
        let len = self.log.len();
        if len - s.next > HUB_BACKLOG {
            s.next = len - HUB_BACKLOG;
            Delivery::Lagged
        } else if s.next < len {
            let e = self.log[s.next].clone();
            s.next = s.next + 1;
            Delivery::Event(e)
        } else {
            Delivery::Empty
        }
    }
}

/// No replay: an event a poll delivers was published at or after the
/// subscription's attachment point. Together with `subscribe`, which
/// attaches at the current end of the log, a subscriber created after
/// generation start can never see an event emitted before it attached.
pub proof fn lemma_no_replay(h: Hub, s0: Subscription, s1: Subscription, d: Delivery)
    requires
        s0.wf(h),
        poll_transition(h, s0, s1, d),
    ensures
        d matches Delivery::Event(e) ==> exists|i: int|
            s0.attach_point() <= i < h.log_view().len() && e@ == h.log_view()[i],
        s1.attach_point() == s0.attach_point(),
        s1.position() >= s0.position() >= s0.attach_point(),
{
    if let Delivery::Event(e) = d {
        assert(s0.attach_point() <= s0.position() < h.log_view().len() && e@ == h.log_view()[s0.position()]);
    }
}

} // verus!
