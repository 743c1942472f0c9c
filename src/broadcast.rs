use vstd::prelude::*;

verus! {

/// Number of frames that may wait in the broadcast queue at once.
pub const QUEUE_CAPACITY: usize = 32;

/// Outcome of handing a frame to the broadcast queue.
pub enum Publish {
    /// The frame now waits at the back of the queue.
    Queued,
    /// The queue is full; the frame is handed back and the caller waits for a drain.
    Full(Vec<u8>),
}

/// One drained frame together with the subscribers it must be written to, in order.
pub struct Delivery {
    pub frame: Vec<u8>,
    pub targets: Vec<usize>,
}

/// The broadcast fan-out: a bounded FIFO of encoded frames and an ordered list of
/// subscribers, each named by its position in registration order.
pub struct Broadcast {
    queue: Vec<Vec<u8>>,
    subscribers: usize,
}

/// The subscribers `0 .. n` in registration order.
pub open spec fn first_n(n: nat) -> Seq<usize> {
    Seq::new(n, |i: int| i as usize)
}

impl Broadcast {
    /// The frames that wait, oldest first.
    pub closed spec fn pending(&self) -> Seq<Seq<u8>> {
        self.queue@.map_values(|f: Vec<u8>| f@)
    }

    /// How many subscribers have registered so far.
    pub closed spec fn subscriber_count(&self) -> nat {
        self.subscribers as nat
    }

    /// No more than `QUEUE_CAPACITY` frames wait.
    pub open spec fn wf(&self) -> bool {
        self.pending().len() <= QUEUE_CAPACITY
    }

    pub fn new() -> (r: Broadcast)
        ensures
            r.wf(),
            r.pending() == Seq::<Seq<u8>>::empty(),
            r.subscriber_count() == 0,
    {
        let r = Broadcast { queue: Vec::new(), subscribers: 0 };
        proof {
            assert(r.pending() =~= Seq::<Seq<u8>>::empty());
        }
        r
    }

    pub fn len(&self) -> (r: usize)
        ensures
            r == self.pending().len(),
    {
        self.queue.len()
    }

    pub fn subscribers(&self) -> (r: usize)
        ensures
            r == self.subscriber_count(),
    {
        self.subscribers
    }

    /// Adds a subscriber at the end of the list and returns its position. Frames
    /// already queued are untouched.
    pub fn register(&mut self) -> (r: usize)
        requires
            old(self).wf(),
            old(self).subscriber_count() < usize::MAX,
        ensures
            final(self).wf(),
            r == old(self).subscriber_count(),
            final(self).subscriber_count() == old(self).subscriber_count() + 1,
            final(self).pending() == old(self).pending(),
    {
        let r = self.subscribers;
        self.subscribers = self.subscribers + 1;
        r
    }

    /// Puts a frame at the back of the queue, or hands it back when the queue
    /// already holds `QUEUE_CAPACITY` frames.
    pub fn publish(&mut self, frame: Vec<u8>) -> (r: Publish)
        requires
            old(self).wf(),
        ensures
            final(self).wf(),
            final(self).subscriber_count() == old(self).subscriber_count(),
            old(self).pending().len() < QUEUE_CAPACITY ==> r is Queued && final(self).pending()
                == old(self).pending().push(frame@),
            old(self).pending().len() >= QUEUE_CAPACITY ==> (match r {
                Publish::Full(f) => f@ == frame@,
                Publish::Queued => false,
            }) && final(self).pending() == old(self).pending(),
    {
        if self.queue.len() < QUEUE_CAPACITY {
            let ghost before = self.queue@;
            self.queue.push(frame);
            proof {
                assert(self.queue@ == before.push(frame));
                assert(self.pending() =~= old(self).pending().push(frame@));
            }
            Publish::Queued
        } else {
            Publish::Full(frame)
        }
    }

    /// Takes the oldest frame off the queue and names every subscriber registered
    /// so far, in registration order, as a target for it.
    pub fn drain(&mut self) -> (r: Option<Delivery>)
        requires
            old(self).wf(),
        ensures
            final(self).wf(),
            final(self).subscriber_count() == old(self).subscriber_count(),
            old(self).pending().len() == 0 ==> r is None && final(self).pending() == old(self).pending(),
            old(self).pending().len() > 0 ==> (match r {
                Some(d) => d.frame@ == old(self).pending()[0] && d.targets@ == first_n(
                    old(self).subscriber_count(),
                ),
                None => false,
            }) && final(self).pending() == old(self).pending().drop_first(),
    {
        if self.queue.len() == 0 {
            return None;
        }
        let frame = self.queue.remove(0);
        proof {
            assert(self.pending() =~= old(self).pending().drop_first());
        }
        let mut targets: Vec<usize> = Vec::new();
        let mut i: usize = 0;
        while i < self.subscribers
            invariant
                i <= self.subscribers,
                targets@ =~= first_n(i as nat),
            decreases self.subscribers - i,
        {
            targets.push(i);
            i = i + 1;
        }
        Some(Delivery { frame, targets })
    }
}

/// A delivery names every subscriber registered before it exactly once, in the
/// order in which they registered.
pub proof fn lemma_delivery_reaches_each_in_order(n: nat)
    requires
        n <= usize::MAX,
    ensures
        first_n(n).len() == n,
        forall|i: int| 0 <= i < n ==> #[trigger] first_n(n)[i] == i,
        first_n(n).no_duplicates(),
{
    assert forall|i: int| 0 <= i < n implies #[trigger] first_n(n)[i] == i by {
        assert(first_n(n)[i] == i as usize);
    }
    assert forall|i: int, j: int| 0 <= i < n && 0 <= j < n && i != j implies first_n(n)[i]
        != first_n(n)[j] by {
        assert(first_n(n)[i] == i && first_n(n)[j] == j);
    }
}

/// No replay: a subscriber that registers after a delivery, and so gets a
/// position at or past the count that the delivery saw, is not among its targets.
pub proof fn lemma_no_replay(count_at_delivery: nat, late: usize)
    requires
        late >= count_at_delivery,
    ensures
        !first_n(count_at_delivery).contains(late),
{
    if first_n(count_at_delivery).contains(late) {
        let i = choose|i: int|
            0 <= i < first_n(count_at_delivery).len() && first_n(count_at_delivery)[i] == late;
        assert(first_n(count_at_delivery)[i] == i as usize);
    }
}

} // verus!
