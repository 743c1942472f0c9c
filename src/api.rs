use vstd::prelude::*;

use crate::broadcast::Broadcast;
use crate::service::{
    Action, Event, Termination, delivery_step, on_delivery, on_frame, on_subscriber, publish_step, subscriber_step,
};

verus! {

/// The decisions of the request-accepting loop: each accepted connection is one
/// request, answered on that connection, and each successful answer goes to every
/// subscriber.
pub struct Api {
    fanout: Broadcast,
}

impl Api {
    /// The broadcast state the loop holds.
    pub closed spec fn fanout(&self) -> Broadcast {
        self.fanout
    }

    pub open spec fn wf(&self) -> bool {
        self.fanout().wf()
    }

    pub fn new() -> (r: Api)
        ensures
            r.wf(),
            r.fanout().pending().len() == 0,
            r.fanout().subscriber_count() == 0,
    {
        Api { fanout: Broadcast::new() }
    }

    /// How many subscribers the loop holds.
    pub fn subscribers(&self) -> (r: usize)
        ensures
            r == self.fanout().subscriber_count(),
    {
        self.fanout.subscribers()
    }

    /// How many frames wait for delivery.
    pub fn pending(&self) -> (r: usize)
        ensures
            r == self.fanout().pending().len(),
    {
        self.fanout.len()
    }

    /// Decides what to do about one event. The termination signal stops the loop
    /// whatever else is pending.
    pub fn step(&mut self, ev: Event) -> (a: Action)
        requires
            old(self).wf(),
        ensures
            final(self).wf(),
            match ev {
                Event::RequestAccepted => a is Handle && final(self).fanout() == old(self).fanout(),
                Event::UpstreamRead(_) => a is Ignore && final(self).fanout() == old(self).fanout(),
                Event::UpstreamFailed => a is Ignore && final(self).fanout() == old(self).fanout(),
                Event::SubscriberAccepted => subscriber_step(
                    old(self).fanout(),
                    final(self).fanout(),
                    a,
                ),
                Event::FrameReady(f) => publish_step(old(self).fanout(), final(self).fanout(), f@, a),
                Event::DeliveryDue => delivery_step(old(self).fanout(), final(self).fanout(), a),
                Event::Shutdown => (a matches Action::Stop(Termination::Signal))
                    && final(self).fanout() == old(self).fanout(),
            },
    {
        match ev {
            Event::RequestAccepted => Action::Handle,
            Event::UpstreamRead(_) => Action::Ignore,
            Event::UpstreamFailed => Action::Ignore,
            Event::SubscriberAccepted => on_subscriber(&mut self.fanout),
            Event::FrameReady(f) => on_frame(&mut self.fanout, f),
            Event::DeliveryDue => on_delivery(&mut self.fanout),
            Event::Shutdown => Action::Stop(Termination::Signal),
        }
    }
}

} // verus!
