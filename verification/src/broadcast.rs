//! The fan-out broadcaster: a process-wide, bounded, multi-subscriber
//! channel bridging the consumer loop to live connections.
//!
//! Delivery to live subscribers is at-most-once and best-effort: with
//! no subscriber the event is discarded outright — no blocking, no
//! buffering, no error — and a subscriber whose buffer is full loses
//! its oldest buffered event rather than stalling the sender.  Each
//! subscriber carries a counter of events it has lost that way, so
//! loss is observable rather than silent.  Durability is the stream's
//! job, never this channel's.

use crate::squeak::Squeak;
use crate::squeak::SqueakView;
use vstd::prelude::*;

verus! {

/// The views of a sequence of squeaks, element by element.
pub open spec fn views_of(s: Seq<Squeak>) -> Seq<SqueakView> {
    Seq::new(s.len(), |i: int| s[i]@)
}

/// A buffer bounded at `cap` after one more event: the event goes on
/// the back, and when the buffer is already full the oldest event
/// leaves the front.
pub open spec fn bounded_push(b: Seq<SqueakView>, e: SqueakView, cap: int) -> Seq<SqueakView> {
    if b.len() < cap {
        b.push(e)
    } else {
        b.skip(1).push(e)
    }
}

/// One subscriber: its pending events, oldest first, and how many it
/// has lost to overflow.  A closed subscriber keeps its slot so that
/// the handles of the others stay valid.
#[derive(Debug)]
pub struct Subscriber {
    pub open: bool,
    pub buffer: Vec<Squeak>,
    pub dropped: u64,
}

/// What became of one `send`.
#[derive(Debug, PartialEq, Eq, Clone, Copy)]
pub enum SendOutcome {
    /// Nobody was listening; the event is gone, and that is no error.
    Discarded,
    /// The event was put on this many subscriber buffers.
    Delivered(usize),
}

/// The process-wide broadcast channel.
#[derive(Debug)]
pub struct Broadcaster {
    pub capacity: usize,
    pub subscribers: Vec<Subscriber>,
}

impl Broadcaster {
    /// Every buffer respects the capacity bound.
    pub open spec fn well_formed(&self) -> bool {
        &&& self.capacity >= 1
        &&& forall|j: int|
            0 <= j < self.subscribers@.len() ==> (#[trigger] self.subscribers@[j]).buffer@.len()
                <= self.capacity
    }

    /// How many subscribers in the sequence are live.
    pub open spec fn live_in(s: Seq<Subscriber>) -> int
        decreases s.len(),
    {
        if s.len() == 0 {
            0
        } else {
            Self::live_in(s.drop_last()) + if s.last().open {
                1int
            } else {
                0int
            }
        }
    }

    /// How many live subscribers there are.
    pub open spec fn live_count(&self) -> int {
        Self::live_in(self.subscribers@)
    }

    /// A fresh channel with the given per-subscriber capacity and no
    /// subscribers yet.
    pub fn new(capacity: usize) -> (r: Broadcaster)
        requires
            capacity >= 1,
        ensures
            r.well_formed(),
            r.capacity == capacity,
            r.subscribers@.len() == 0,
    {
        Broadcaster { capacity, subscribers: Vec::new() }
    }

    /// How many live subscribers there are; the consumer loop reads
    /// this for logging only, never for correctness decisions.
    pub fn receiver_count(&self) -> (r: usize)
        ensures
            r == self.live_count(),
    {
        let mut count: usize = 0;
        let mut i: usize = 0;
        while i < self.subscribers.len()
            invariant
                0 <= i <= self.subscribers@.len(),
                count == Self::live_in(self.subscribers@.take(i as int)),
                count <= i,
            decreases self.subscribers@.len() - i,
        {
            proof {
                assert(self.subscribers@.take(i + 1).drop_last() =~= self.subscribers@.take(
                i as int));
                assert(self.subscribers@.take(i + 1).last() == self.subscribers@[i as int]);
            }
            if self.subscribers[i].open {
                count = count + 1;
            }
            i = i + 1;
        }
        proof {
            assert(self.subscribers@.take(self.subscribers@.len() as int) =~= self.subscribers@);
        }
        count
    }

    /// Opens a new subscription and hands back its handle.
    pub fn subscribe(&mut self) -> (r: usize)
        requires
            old(self).well_formed(),
        ensures
            final(self).well_formed(),
            final(self).capacity == old(self).capacity,
            r == old(self).subscribers@.len(),
            final(self).subscribers@.len() == old(self).subscribers@.len() + 1,
            forall|j: int|
                0 <= j < old(self).subscribers@.len() ==> final(self).subscribers@[j] == old(
                    self,
                ).subscribers@[j],
            final(self).subscribers@.last().open,
            final(self).subscribers@.last().buffer@.len() == 0,
            final(self).live_count() == old(self).live_count() + 1,
    {
        let id = self.subscribers.len();
        self.subscribers.push(Subscriber { open: true, buffer: Vec::new(), dropped: 0 });
        proof {
            assert(self.subscribers@.drop_last() =~= old(self).subscribers@);
        }
        id
    }

    /// Closes a subscription; its slot stays, empty and inert.
    pub fn unsubscribe(&mut self, id: usize)
        requires
            old(self).well_formed(),
            id < old(self).subscribers@.len(),
        ensures
            final(self).well_formed(),
            final(self).capacity == old(self).capacity,
            final(self).subscribers@.len() == old(self).subscribers@.len(),
            forall|j: int|
                0 <= j < old(self).subscribers@.len() && j != id ==> final(self).subscribers@[j]
                    == old(self).subscribers@[j],
            !final(self).subscribers@[id as int].open,
            final(self).subscribers@[id as int].dropped == old(self).subscribers@[id as int].dropped,
    {
        let sub = &mut self.subscribers[id];
        sub.open = false;
        sub.buffer.clear();
    }

    /// Sends one event to every live subscriber.  With zero live
    /// subscribers this neither blocks, buffers nor errors: the state
    /// is untouched and the event is simply gone.  A full buffer loses
    /// its oldest event to make room, and counts the loss.
    pub fn send(&mut self, event: &Squeak) -> (r: SendOutcome)
        requires
            old(self).well_formed(),
        ensures
            final(self).well_formed(),
            final(self).capacity == old(self).capacity,
            final(self).subscribers@.len() == old(self).subscribers@.len(),
            final(self).live_count() == old(self).live_count(),
            old(self).live_count() == 0 ==> *final(self) == *old(self) && r
                == SendOutcome::Discarded,
            old(self).live_count() > 0 ==> r == SendOutcome::Delivered(
                old(self).live_count() as usize,
            ),
            forall|j: int|
                0 <= j < old(self).subscribers@.len() && !(#[trigger] old(
                    self,
                ).subscribers@[j]).open ==> final(self).subscribers@[j] == old(self).subscribers@[j],
            forall|j: int|
                0 <= j < old(self).subscribers@.len() && (#[trigger] old(
                    self,
                ).subscribers@[j]).open ==> {
                    &&& final(self).subscribers@[j].open
                    &&& views_of(final(self).subscribers@[j].buffer@) == bounded_push(
                        views_of(old(self).subscribers@[j].buffer@),
                        event@,
                        old(self).capacity as int,
                    )
                },
    {
        let live = self.receiver_count();
        if live == 0 {
            proof {
                lemma_live_zero(self.subscribers@);
            }
            return SendOutcome::Discarded;
        }
        let cap = self.capacity;
        let n = self.subscribers.len();
        let mut i: usize = 0;
        while i < n
            invariant
                0 <= i <= n,
                n == self.subscribers@.len(),
                n == old(self).subscribers@.len(),
                cap == old(self).capacity,
                self.capacity == old(self).capacity,
                self.well_formed(),
                forall|j: int|
                    i <= j < n ==> #[trigger] self.subscribers@[j] == old(self).subscribers@[j],
                forall|j: int|
                    0 <= j < i && !(#[trigger] old(self).subscribers@[j]).open ==> self.subscribers@[j]
                        == old(self).subscribers@[j],
                forall|j: int|
                    0 <= j < i && (#[trigger] old(self).subscribers@[j]).open ==> {
                        &&& self.subscribers@[j].open
                        &&& views_of(self.subscribers@[j].buffer@) == bounded_push(
                            views_of(old(self).subscribers@[j].buffer@),
                            event@,
                            cap as int,
                        )
                    },
            decreases n - i,
        {
            let ghost pre = self.subscribers@;
            let sub = &mut self.subscribers[i];
            if sub.open {
                if sub.buffer.len() == cap {
                    sub.buffer.remove(0);
                    if sub.dropped < u64::MAX {
                        sub.dropped = sub.dropped + 1;
                    }
                }
                sub.buffer.push(event.duplicate());
                proof {
                    assert(views_of(self.subscribers@[i as int].buffer@) =~= bounded_push(
                        views_of(old(self).subscribers@[i as int].buffer@),
                        event@,
                        cap as int,
                    ));
                }
            }
            i = i + 1;
        }
        proof {
            lemma_live_unchanged(old(self).subscribers@, self.subscribers@);
        }
        SendOutcome::Delivered(live)
    }

    /// Takes the oldest pending event of one live subscriber, if any.
    pub fn recv(&mut self, id: usize) -> (r: Option<Squeak>)
        requires
            old(self).well_formed(),
            id < old(self).subscribers@.len(),
        ensures
            final(self).well_formed(),
            final(self).capacity == old(self).capacity,
            final(self).subscribers@.len() == old(self).subscribers@.len(),
            forall|j: int|
                0 <= j < old(self).subscribers@.len() && j != id ==> final(self).subscribers@[j]
                    == old(self).subscribers@[j],
            old(self).subscribers@[id as int].buffer@.len() == 0 ==> *final(self) == *old(self) && r
                is None,
            old(self).subscribers@[id as int].buffer@.len() > 0 ==> {
                &&& r matches Some(sq) && sq == old(self).subscribers@[id as int].buffer@[0]
                &&& final(self).subscribers@[id as int].buffer@ == old(
                    self,
                ).subscribers@[id as int].buffer@.skip(1)
                &&& final(self).subscribers@[id as int].open == old(
                    self,
                ).subscribers@[id as int].open
                &&& final(self).subscribers@[id as int].dropped == old(
                    self,
                ).subscribers@[id as int].dropped
            },
    {
        if self.subscribers[id].buffer.len() == 0 {
            return None;
        }
        let sub = &mut self.subscribers[id];
        let sq = sub.buffer.remove(0);
        Some(sq)
    }
}

/// The live count is never negative.
proof fn lemma_live_nonneg(s: Seq<Subscriber>)
    ensures
        Broadcaster::live_in(s) >= 0,
    decreases s.len(),
{
    if s.len() > 0 {
        lemma_live_nonneg(s.drop_last());
    }
}

/// A zero live count means nobody is live.
proof fn lemma_live_zero(s: Seq<Subscriber>)
    requires
        Broadcaster::live_in(s) == 0,
    ensures
        forall|j: int| 0 <= j < s.len() ==> !(#[trigger] s[j]).open,
    decreases s.len(),
{
    if s.len() > 0 {
        lemma_live_nonneg(s.drop_last());
        lemma_live_zero(s.drop_last());
        assert forall|j: int| 0 <= j < s.len() implies !(#[trigger] s[j]).open by {
            if j < s.len() - 1 {
                assert(s[j] == s.drop_last()[j]);
            } else {
                assert(s[j] == s.last());
            }
        }
    }
}

/// Pointwise-equal liveness gives equal live counts.
proof fn lemma_live_unchanged(a: Seq<Subscriber>, b: Seq<Subscriber>)
    requires
        a.len() == b.len(),
        forall|j: int| 0 <= j < a.len() ==> a[j].open == (#[trigger] b[j]).open,
    ensures
        Broadcaster::live_in(a) == Broadcaster::live_in(b),
    decreases a.len(),
{
    if a.len() > 0 {
        assert(forall|j: int|
            0 <= j < a.drop_last().len() ==> a.drop_last()[j].open == (#[trigger] b.drop_last()[
            j]).open);
        lemma_live_unchanged(a.drop_last(), b.drop_last());
    }
}

} // verus!
