//! The fan-out engine: a bounded broadcast buffer that distributes each
//! published `Frame` to every live subscription without ever blocking the
//! publisher, and a per-viewer cursor that observes the live sequence at its
//! own pace, skipping forward (never backward) when it falls behind.

use vstd::prelude::*;

use crate::frame::Frame;

verus! {

/// Why the hub stopped accepting frames.
#[derive(Clone, Copy, Debug, PartialEq, Eq, Structural)]
pub enum StreamEnd {
    /// The upstream byte stream ended cleanly.
    Eof,
    /// The upstream byte stream broke mid-frame.
    Dead,
}

/// What one poll of a subscription yields.
#[derive(Debug)]
pub enum PollOutcome {
    /// The next frame, skipping forward over any frames the ring has already
    /// evicted.
    Ready(Frame),
    /// Nothing new yet; the stream is still live, poll again later.
    Pending,
    /// All buffered frames were consumed and no more will ever be published.
    Ended(StreamEnd),
}

/// The bounded broadcast buffer. One publisher appends; any number of
/// subscriptions read through their own cursors. The ring retains the last
/// `capacity` frames; when it is full the oldest is evicted, so the
/// publisher never waits on a slow reader.
pub struct Hub {
    capacity: usize,
    ring: Vec<Frame>,
    next_seq: u64,
    done: Option<StreamEnd>,
    hist: Ghost<Seq<Seq<u8>>>,
}

impl Hub {
    /// How many frames the ring retains for slow readers.
    pub closed spec fn capacity(&self) -> int {
        self.capacity as int
    }

    /// Contents of every frame ever published, in publish order.
    pub closed spec fn published(&self) -> Seq<Seq<u8>> {
        self.hist@
    }

    /// The number of frames published so far.
    pub open spec fn seq_count(&self) -> int {
        self.published().len() as int
    }

    /// Whether and why the hub was closed.
    pub closed spec fn end_state(&self) -> Option<StreamEnd> {
        self.done
    }

    /// Sequence number of the oldest frame still retained.
    pub closed spec fn oldest(&self) -> int {
        self.next_seq - self.ring.len()
    }

    pub closed spec fn inv(&self) -> bool {
        &&& self.capacity >= 1
        &&& self.ring.len() <= self.capacity
        &&& self.ring.len() <= self.next_seq
        &&& self.next_seq > 0 ==> self.ring.len() >= 1
        &&& self.hist@.len() == self.next_seq
        &&& forall|i: int|
            0 <= i < self.ring.len() ==> self.ring[i]@ == self.hist@[self.oldest() + i]
    }

    /// The retained window never reaches further back than `capacity` frames
    /// and never past the publish count.
    pub open spec fn wf(&self) -> bool {
        &&& self.inv()
        &&& self.capacity() >= 1
        &&& 0 <= self.seq_count() <= u64::MAX
        &&& self.seq_count() - self.capacity() <= self.oldest() <= self.seq_count()
    }

    pub fn new(capacity: usize) -> (h: Hub)
        requires
            capacity >= 1,
        ensures
            h.wf(),
            h.capacity() == capacity,
            h.published() == Seq::<Seq<u8>>::empty(),
            h.end_state() is None,
    {
        Hub {
            capacity,
            ring: Vec::new(),
            next_seq: 0,
            done: None,
            hist: Ghost(Seq::empty()),
        }
    }

    pub fn is_open(&self) -> (r: bool)
        ensures
            r == (self.end_state() is None),
    {
        self.done.is_none()
    }

    /// Whether and why the stream ended, for diagnostics.
    pub fn end_reason(&self) -> (r: Option<StreamEnd>)
        ensures
            r == self.end_state(),
    {
        self.done
    }

    pub fn at_seq_limit(&self) -> (r: bool)
        requires
            self.wf(),
        ensures
            r == (self.seq_count() == u64::MAX),
    {
        proof {
            assert(self.published().len() == self.next_seq);
        }
        self.next_seq == u64::MAX
    }

    /// Publish one frame to every current and future subscription. Never
    /// blocks and never fails: when the ring is full the oldest retained
    /// frame is evicted, and only the readers that still needed it will
    /// observe a gap.
    pub fn publish(&mut self, f: Frame)
        requires
            old(self).wf(),
            old(self).seq_count() < u64::MAX,
        ensures
            final(self).wf(),
            final(self).published() == old(self).published().push(f@),
            final(self).capacity() == old(self).capacity(),
            final(self).end_state() == old(self).end_state(),
            // exactly one frame is evicted when the ring is full, none before
            final(self).oldest() == (if old(self).seq_count() - old(self).oldest() == old(
                self,
            ).capacity() {
                old(self).oldest() + 1
            } else {
                old(self).oldest()
            }),
    {
        let ghost fv = f@;
        let ghost r0 = self.ring@;
        if self.ring.len() == self.capacity {
            self.ring.remove(0);
        }
        self.ring.push(f);
        proof {
            assert(self.hist@.len() == self.next_seq);
            assert(self.hist@.len() < u64::MAX);
        }
        self.next_seq = self.next_seq + 1;
        proof {
            self.hist@ = self.hist@.push(fv);
            let dropped: int = if r0.len() == self.capacity {
                1
            } else {
                0
            };
            assert forall|i: int| 0 <= i < self.ring.len() implies self.ring[i]@
                == self.hist@[self.oldest() + i] by {
                if i < self.ring.len() - 1 {
                    assert(self.ring[i] == r0[i + dropped]);
                    assert(self.hist@[self.oldest() + i] == old(self).hist@[self.oldest() + i]);
                } else {
                    assert(self.ring[i]@ == fv);
                }
            }
        }
    }

    /// Close the hub: no frame will ever be published again, and every
    /// subscription that drains the buffered remainder then observes the end.
    pub fn close(&mut self, reason: StreamEnd)
        requires
            old(self).wf(),
        ensures
            final(self).wf(),
            final(self).published() == old(self).published(),
            final(self).capacity() == old(self).capacity(),
            final(self).oldest() == old(self).oldest(),
            final(self).end_state() == Some(reason),
    {
        self.done = Some(reason);
    }

    /// A new subscription, delivered only frames published from this moment
    /// on: no replay of history.
    pub fn subscribe(&self) -> (s: Subscription)
        requires
            self.wf(),
        ensures
            s.wf(),
            s.cursor() == self.seq_count(),
            s.seen() == Seq::<int>::empty(),
            s.got() == Seq::<Seq<u8>>::empty(),
            s.consistent_with(*self),
    {
        proof {
            assert(self.published().len() == self.next_seq);
        }
        Subscription { cursor: self.next_seq, seen: Ghost(Seq::empty()), got: Ghost(Seq::empty()) }
    }
}

/// A per-viewer handle into the hub: a cursor over the publish sequence,
/// advanced only forward.
pub struct Subscription {
    cursor: u64,
    seen: Ghost<Seq<int>>,
    got: Ghost<Seq<Seq<u8>>>,
}

/// The index `next` actually delivers when the cursor stands at `cur`: the
/// cursor itself, or the oldest retained frame if the ring has already
/// evicted the cursor's position.
pub open spec fn delivered_index(hub: Hub, cur: int) -> int {
    if cur < hub.oldest() {
        hub.oldest()
    } else {
        cur
    }
}

impl Subscription {
    /// The sequence number of the next frame this subscription wants.
    pub closed spec fn cursor(&self) -> int {
        self.cursor as int
    }

    /// The publish-sequence indices of every frame delivered so far, in
    /// delivery order.
    pub closed spec fn seen(&self) -> Seq<int> {
        self.seen@
    }

    /// The contents of every frame delivered so far, in delivery order.
    pub closed spec fn got(&self) -> Seq<Seq<u8>> {
        self.got@
    }

    /// Every delivered frame is the published frame at its recorded
    /// position.
    pub open spec fn consistent_with(&self, hub: Hub) -> bool {
        &&& self.got().len() == self.seen().len()
        &&& forall|k: int|
            #![trigger self.seen()[k]]
            0 <= k < self.seen().len() ==> 0 <= self.seen()[k] < hub.seq_count() && self.got()[k]
                == hub.published()[self.seen()[k]]
    }

    /// Delivered indices are strictly increasing and lie below the cursor.
    pub open spec fn wf(&self) -> bool {
        &&& forall|i: int| 0 <= i < self.seen().len() ==> 0 <= #[trigger] self.seen()[i] < self.cursor()
        &&& forall|i: int, j: int|
            #![trigger self.seen()[i], self.seen()[j]]
            0 <= i < j < self.seen().len() ==> self.seen()[i] < self.seen()[j]
    }

    /// Pull the next frame, if any is due. Never blocks: the caller decides
    /// how to wait when this returns `Pending`. A subscription that has
    /// fallen behind the ring's retention window is silently skipped forward
    /// to the oldest retained frame (lossy but live), so every delivered
    /// frame is at most `capacity` behind the newest.
    pub fn next(&mut self, hub: &Hub) -> (r: PollOutcome)
        requires
            old(self).wf(),
            hub.wf(),
            old(self).cursor() <= hub.seq_count(),
        ensures
            final(self).wf(),
            final(self).cursor() <= hub.seq_count(),
            old(self).consistent_with(*hub) ==> final(self).consistent_with(*hub),
            ({
                let idx = delivered_index(*hub, old(self).cursor());
                match r {
                    PollOutcome::Ready(f) => {
                        &&& old(self).cursor() < hub.seq_count()
                        &&& f@ == hub.published()[idx]
                        &&& idx >= old(self).cursor()
                        &&& idx >= hub.seq_count() - hub.capacity()
                        &&& final(self).cursor() == idx + 1
                        &&& final(self).seen() == old(self).seen().push(idx)
                        &&& final(self).got() == old(self).got().push(f@)
                    },
                    PollOutcome::Pending => {
                        &&& old(self).cursor() == hub.seq_count()
                        &&& hub.end_state() is None
                        &&& *final(self) == *old(self)
                    },
                    PollOutcome::Ended(e) => {
                        &&& old(self).cursor() == hub.seq_count()
                        &&& hub.end_state() == Some(e)
                        &&& *final(self) == *old(self)
                    },
                }
            }),
    {
        proof {
            assert(hub.published().len() == hub.seq_count());
        }
        if self.cursor == hub.next_seq {
            return match hub.done {
                None => PollOutcome::Pending,
                Some(e) => PollOutcome::Ended(e),
            };
        }
        // at least one undelivered frame is published; jump over anything
        // the ring has already evicted
        proof {
            assert(hub.next_seq > 0);
            assert(hub.ring.len() >= 1);
            assert(hub.ring@.len() <= hub.next_seq);
        }
        let oldest = hub.next_seq - (hub.ring.len() as u64);
        let slot: usize = if self.cursor < oldest {
            0
        } else {
            (self.cursor - oldest) as usize
        };
        let ghost idx = delivered_index(*hub, old(self).cursor());
        proof {
            assert(hub.oldest() == oldest as int);
            assert(slot as int == idx - hub.oldest());
            assert(slot < hub.ring.len());
            assert(hub.ring[slot as int]@ == hub.published()[idx]);
        }
        let f = hub.ring[slot].clone();
        let deliver_seq: u64 = oldest + (slot as u64);
        self.cursor = deliver_seq + 1;
        proof {
            self.seen@ = self.seen@.push(idx);
            self.got@ = self.got@.push(f@);
            assert(forall|i: int|
                0 <= i < old(self).seen().len() ==> #[trigger] old(self).seen()[i] < idx);
        }
        PollOutcome::Ready(f)
    }
}

// ---------------------------------------------------------------------------
// Laws of the fan-out.
// ---------------------------------------------------------------------------

/// Bounded staleness: once `capacity + k` frames have been published, the
/// next frame any subscription is delivered — however long it slept — is no
/// older than the `k`-th published one. A reader is never handed a frame the
/// ring no longer retains, and never one older than it has already seen.
pub proof fn lemma_bounded_staleness(hub: Hub, cur: int, k: int)
    requires
        hub.wf(),
        0 <= cur,
        0 <= k,
        hub.seq_count() == hub.capacity() + k,
    ensures
        delivered_index(hub, cur) >= k,
        delivered_index(hub, cur) >= cur,
{
}

/// What a subscription has observed stays true as the hub goes on
/// publishing: history is append-only, so recorded positions keep their
/// contents.
pub proof fn lemma_observation_stable(s: Subscription, h1: Hub, h2: Hub)
    requires
        s.consistent_with(h1),
        h1.published().is_prefix_of(h2.published()),
    ensures
        s.consistent_with(h2),
{
}

/// The frames one subscription observed are exactly the published frames at
/// its recorded positions, and those positions are strictly increasing:
/// what any reader saw — gaps aside — is a subsequence of the publish
/// sequence, never repeated, never reordered.
pub proof fn lemma_observed_subsequence(s: Subscription, hub: Hub)
    requires
        s.wf(),
        s.consistent_with(hub),
    ensures
        s.got().len() == s.seen().len(),
        forall|k: int|
            #![trigger s.got()[k]]
            0 <= k < s.got().len() ==> 0 <= s.seen()[k] < hub.seq_count() && s.got()[k]
                == hub.published()[s.seen()[k]],
        forall|i: int, j: int|
            #![trigger s.seen()[i], s.seen()[j]]
            0 <= i < j < s.seen().len() ==> s.seen()[i] < s.seen()[j],
{
}

/// No duplication, no reordering: the publish-sequence positions one
/// subscription has observed are strictly increasing, hence pairwise
/// distinct — what it saw is a strict subsequence of the publish sequence.
pub proof fn lemma_observations_strictly_increase(s: Subscription)
    requires
        s.wf(),
    ensures
        forall|i: int, j: int|
            #![trigger s.seen()[i], s.seen()[j]]
            0 <= i < j < s.seen().len() ==> s.seen()[i] < s.seen()[j],
        forall|i: int, j: int|
            #![trigger s.seen()[i], s.seen()[j]]
            0 <= i < s.seen().len() && 0 <= j < s.seen().len() && i != j ==> s.seen()[i]
                != s.seen()[j],
{
    assert forall|i: int, j: int|
        0 <= i < s.seen().len() && 0 <= j < s.seen().len() && i != j implies #[trigger] s.seen()[i]
        != #[trigger] s.seen()[j] by {
        if i < j {
            assert(s.seen()[i] < s.seen()[j]);
        } else {
            assert(s.seen()[j] < s.seen()[i]);
        }
    }
}

} // verus!
