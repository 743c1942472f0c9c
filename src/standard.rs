use vstd::prelude::*;

use crate::broadcast::Broadcast;
use crate::service::{
    Action, Event, Termination, delivery_step, on_delivery, on_frame, on_subscriber, publish_step, subscriber_step,
};

verus! {

/// The decisions of the upstream-consuming loop: each read on the one upstream connection is
/// one request, never answered upstream, and each successful result goes to every
/// subscriber.
pub struct Standard {
    fanout: Broadcast,
}

impl Standard {
    /// The broadcast state the loop holds.
    pub closed spec fn fanout(&self) -> Broadcast {
        self.fanout
    }

    pub open spec fn wf(&self) -> bool {
        self.fanout().wf()
    }

    pub fn new() -> (r: Standard)
        ensures
            r.wf(),
            r.fanout().pending().len() == 0,
            r.fanout().subscriber_count() == 0,
    {
        Standard { fanout: Broadcast::new() }
    }

    /// How many subscribers the loop holds.
    pub fn subscribers(&self) -> (r: usize)
        ensures
            r == self.fanout().subscriber_count(),
    {
        self.fanout.subscribers()
    }

    /// How many frames wait for delivery.
    pub fn pending(&self) -> (r: usize)
        ensures
            r == self.fanout().pending().len(),
    {
        self.fanout.len()
    }

    /// Decides what to do about one event. The termination signal stops the loop
    /// whatever else is pending, and so does an empty read (the upstream closed) or
    /// a failed one.
    pub fn step(&mut self, ev: Event) -> (a: Action)
        requires
            old(self).wf(),
        ensures
            final(self).wf(),
            match ev {
                Event::RequestAccepted => a is Ignore && final(self).fanout() == old(self).fanout(),
                Event::UpstreamRead(n) => (if n == 0 {
                    a matches Action::Stop(Termination::UpstreamClosed)
                } else {
                    a is Handle
                }) && final(self).fanout() == old(self).fanout(),
                Event::UpstreamFailed => (a matches Action::Stop(Termination::UpstreamFailed))
                    && final(self).fanout() == old(self).fanout(),
                Event::SubscriberAccepted => subscriber_step(
                    old(self).fanout(),
                    final(self).fanout(),
                    a,
                ),
                Event::FrameReady(f) => publish_step(old(self).fanout(), final(self).fanout(), f@, a),
                Event::DeliveryDue => delivery_step(old(self).fanout(), final(self).fanout(), a),
                Event::Shutdown => (a matches Action::Stop(Termination::Signal))
                    && final(self).fanout() == old(self).fanout(),
            },
    {
        match ev {
            Event::RequestAccepted => Action::Ignore,
            Event::UpstreamRead(n) => if n == 0 {
                Action::Stop(Termination::UpstreamClosed)
            } else {
                Action::Handle
            },
            Event::UpstreamFailed => Action::Stop(Termination::UpstreamFailed),
            Event::SubscriberAccepted => on_subscriber(&mut self.fanout),
            Event::FrameReady(f) => on_frame(&mut self.fanout, f),
            Event::DeliveryDue => on_delivery(&mut self.fanout),
            Event::Shutdown => Action::Stop(Termination::Signal),
        }
    }
}

} // verus!
