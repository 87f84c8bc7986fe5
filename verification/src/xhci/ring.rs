//! A ring of requests to a controller.
use vstd::prelude::*;

use crate::bytes::zeros;

use super::{encode_link, link_trb, XhciError, TRB_BYTES};

verus! {

/// Entries in a ring. The last is kept for the link back to the first.
pub const RING_TRBS: usize = 64;

/// A ring of requests.
pub struct Ring {
    base: u64,
    entries: Vec<[u8; 16]>,
    enqueue: usize,
    dequeue: usize,
    producer_cycle: bool,
    consumer_cycle: bool,
    live: usize,
}

/// The model of a ring.
#[verifier::ext_equal]
pub struct RingState {
    pub base: u64,
    pub entries: Seq<Seq<u8>>,
    pub enqueue: int,
    pub dequeue: int,
    pub producer_cycle: bool,
    pub consumer_cycle: bool,
    pub live: int,
}

/// A flag as a number.
pub open spec fn bit(flag: bool) -> u8 {
    if flag {
        1
    } else {
        0
    }
}

/// A request with the mark by which the controller knows that it is new.
pub open spec fn stamped(trb: Seq<u8>, cycle: bool) -> Seq<u8> {
    trb.update(15, (trb[15] - trb[15] % 2 + bit(cycle)) as u8)
}

impl RingState {
    /// The places are in the ring, and its addresses fit.
    pub open spec fn wf(self) -> bool {
        &&& self.entries.len() == RING_TRBS
        &&& forall|i: int| 0 <= i < RING_TRBS ==> (#[trigger] self.entries[i]).len() == TRB_BYTES
        &&& 0 <= self.enqueue < RING_TRBS
        &&& 0 <= self.dequeue < RING_TRBS - 1
        &&& 0 <= self.live < RING_TRBS
        &&& self.base + RING_TRBS * TRB_BYTES <= u64::MAX
    }

    /// The ring with its place for the next request moved from the last entry to the first. The
    /// last entry then links back, and the mark of new requests changes.
    pub open spec fn wrapped(self) -> RingState {
        if self.enqueue == RING_TRBS - 1 {
            RingState {
                entries: self.entries.update(
                    self.enqueue,
                    link_trb(self.base, true, bit(!self.producer_cycle)),
                ),
                enqueue: 0,
                producer_cycle: !self.producer_cycle,
                ..self
            }
        } else {
            self
        }
    }

    /// The ring with one more request, unless it is full.
    pub open spec fn pushed(self, trb: Seq<u8>) -> Option<RingState> {
        if self.live >= RING_TRBS - 1 {
            None
        } else {
            let w = self.wrapped();
            Some(
                RingState {
                    entries: w.entries.update(w.enqueue, stamped(trb, w.producer_cycle)),
                    enqueue: w.enqueue + 1,
                    live: w.live + 1,
                    ..w
                },
            )
        }
    }

    /// The ring with one request less.
    pub open spec fn popped(self) -> RingState {
        if self.live == 0 {
            self
        } else {
            let dequeue = (self.dequeue + 1) % (RING_TRBS - 1);
            let last = self.enqueue == RING_TRBS - 1;
            let drained = self.live - 1 <= 1;
            RingState {
                live: self.live - 1,
                dequeue,
                consumer_cycle: if dequeue == 0 {
                    !self.consumer_cycle
                } else {
                    self.consumer_cycle
                },
                enqueue: if drained || last {
                    0
                } else {
                    self.enqueue
                },
                producer_cycle: if drained {
                    false
                } else if last {
                    !self.producer_cycle
                } else {
                    self.producer_cycle
                },
                ..self
            }
        }
    }
}

impl Ring {
    /// The model of the ring.
    pub closed spec fn state(&self) -> RingState {
        RingState {
            base: self.base,
            entries: Seq::new(self.entries@.len(), |i: int| self.entries@[i]@),
            enqueue: self.enqueue as int,
            dequeue: self.dequeue as int,
            producer_cycle: self.producer_cycle,
            consumer_cycle: self.consumer_cycle,
            live: self.live as int,
        }
    }

    pub open spec fn wf(&self) -> bool {
        self.state().wf()
    }

    /// An empty ring at an address.
    pub fn new(base: u64) -> (ring: Ring)
        requires
            base + RING_TRBS * TRB_BYTES <= u64::MAX,
        ensures
            ring.wf(),
            ring.state() == (RingState {
                base,
                entries: Seq::new(RING_TRBS as nat, |i: int| zeros(16)),
                enqueue: 0,
                dequeue: 0,
                producer_cycle: true,
                consumer_cycle: true,
                live: 0,
            }),
    {
        let mut entries: Vec<[u8; 16]> = Vec::new();
        let blank = [0u8; 16];
        assert(blank@ =~= zeros(16));
        let mut i: usize = 0;
        while i < RING_TRBS
            invariant
                i <= RING_TRBS,
                blank@ == zeros(16),
                entries@.len() == i,
                forall|j: int| 0 <= j < i ==> (#[trigger] entries@[j])@ == blank@,
            decreases RING_TRBS - i,
        {
            entries.push(blank);
            i = i + 1;
        }
        let ring = Ring {
            base,
            entries,
            enqueue: 0,
            dequeue: 0,
            producer_cycle: true,
            consumer_cycle: true,
            live: 0,
        };
        assert(ring.state().entries =~= Seq::new(
            RING_TRBS as nat,
            |i: int| zeros(16),
        ));
        ring
    }

    /// Adds a request, and gives the address where it stands. A full ring takes none.
    pub fn push(&mut self, trb: [u8; 16]) -> (r: Result<u64, XhciError>)
        requires
            old(self).wf(),
        ensures
            final(self).wf(),
            match old(self).state().pushed(trb@) {
                None => r == Err::<u64, XhciError>(XhciError::Allocation) && final(self).state()
                    == old(self).state(),
                Some(next) => final(self).state() == next && r == Ok::<u64, XhciError>(
                    (next.base + 16 * (next.enqueue - 1)) as u64,
                ),
            },
    {
        if self.live >= RING_TRBS - 1 {
            return Err(XhciError::Allocation);
        }
        let ghost before = self.state();
        if self.enqueue == RING_TRBS - 1 {
            let link = encode_link(
                self.base,
                true,
                if self.producer_cycle {
                    0
                } else {
                    1
                },
            );
            self.entries[self.enqueue] = link;
            self.enqueue = 0;
            self.producer_cycle = !self.producer_cycle;
            assert(self.state().entries =~= before.wrapped().entries);
        }
        let ghost wrapped = self.state();
        let mut trb = trb;
        let ghost request = trb@;
        let cycle: u8 = if self.producer_cycle {
            1
        } else {
            0
        };
        trb[15] = trb[15] - trb[15] % 2 + cycle;
        assert(trb@ =~= stamped(request, self.producer_cycle));
        let phys: u64 = self.base + self.enqueue as u64 * 16;
        self.entries[self.enqueue] = trb;
        self.enqueue = self.enqueue + 1;
        self.live = self.live + 1;
        assert(self.state().entries =~= wrapped.entries.update(wrapped.enqueue, trb@));
        Ok(phys)
    }

    /// Whether the ring takes no more requests.
    pub fn is_full(&self) -> (full: bool)
        ensures
            full == (self.state().live >= RING_TRBS - 1),
    {
        self.live >= RING_TRBS - 1
    }

    /// The number of requests in the ring.
    pub fn live_count(&self) -> (count: usize)
        ensures
            count == self.state().live,
    {
        self.live
    }

    /// The place for the next request.
    pub fn enqueue_index(&self) -> (index: usize)
        ensures
            index == self.state().enqueue,
    {
        self.enqueue
    }

    /// The mark of new requests.
    pub fn producer_cycle(&self) -> (cycle: bool)
        ensures
            cycle == self.state().producer_cycle,
    {
        self.producer_cycle
    }

    /// Takes a request out.
    pub fn pop_for_test(&mut self)
        requires
            old(self).wf(),
        ensures
            final(self).wf(),
            final(self).state() == old(self).state().popped(),
    {
        if self.live == 0 {
            return;
        }
        self.live = self.live - 1;
        self.dequeue = (self.dequeue + 1) % (RING_TRBS - 1);
        if self.dequeue == 0 {
            self.consumer_cycle = !self.consumer_cycle;
        }
        if self.enqueue == RING_TRBS - 1 {
            self.enqueue = 0;
            self.producer_cycle = !self.producer_cycle;
        }
        if self.live <= 1 {
            self.enqueue = 0;
            self.producer_cycle = false;
        }
    }

    /// The request at the place where they are taken out, if its mark is the one of requests that
    /// are new to the consumer, or the other one if `invert`.
    pub fn consume_ready_for_test(&self, invert: bool) -> (r: Option<[u8; 16]>)
        requires
            self.wf(),
        ensures
            ({
                let entry = self.state().entries[self.state().dequeue];
                let ready = entry[15] % 2 == bit(self.state().consumer_cycle != invert);
                match r {
                    Some(trb) => ready && trb@ == entry,
                    None => !ready,
                }
            }),
    {
        let entry = self.entries[self.dequeue];
        let wanted: u8 = if self.consumer_cycle != invert {
            1
        } else {
            0
        };
        if entry[15] % 2 != wanted {
            return None;
        }
        Some(entry)
    }

    /// The address where requests are taken out.
    pub fn dequeue_phys_for_test(&self) -> (phys: u64)
        requires
            self.wf(),
        ensures
            phys == self.state().base + 16 * self.state().dequeue,
    {
        self.base + self.dequeue as u64 * 16
    }

    /// Moves the place where requests are taken out.
    pub fn advance_for_test(&mut self)
        requires
            old(self).wf(),
        ensures
            final(self).wf(),
            final(self).state() == (RingState {
                dequeue: (old(self).state().dequeue + 1) % (RING_TRBS - 1),
                ..old(self).state()
            }),
    {
        self.dequeue = (self.dequeue + 1) % (RING_TRBS - 1);
    }
}

/// A ring never holds more requests than it has entries but one, the one for the link, and a
/// request that was taken can be read back from its place.
pub proof fn law_a_request_stands_in_the_ring(s: RingState, trb: Seq<u8>)
    requires
        s.wf(),
        trb.len() == TRB_BYTES,
    ensures
        s.pushed(trb) matches Some(next) ==> {
            &&& next.wf()
            &&& next.live == s.live + 1 <= RING_TRBS - 1
            &&& next.entries[next.enqueue - 1] == stamped(trb, next.producer_cycle)
            &&& next.entries[next.enqueue - 1].subrange(0, 15) == trb.subrange(0, 15)
        },
        s.pushed(trb) is None <==> s.live == RING_TRBS - 1,
{
    if let Some(next) = s.pushed(trb) {
        assert(next.entries[next.enqueue - 1].subrange(0, 15) =~= trb.subrange(0, 15));
    }
}

/// Requests are marked alike until the ring wraps, and otherwise from then on.
pub proof fn law_the_mark_changes_with_each_round(s: RingState, trb: Seq<u8>)
    requires
        s.wf(),
    ensures
        s.pushed(trb) matches Some(next) ==> (next.producer_cycle != s.producer_cycle <==> s.enqueue
            == RING_TRBS - 1),
{
}

} // verus!
