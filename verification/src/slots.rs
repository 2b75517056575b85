use crate::queue::Queue;
use vstd::prelude::*;

verus! {

/// The number of slots among `slots` that hold a payload.
pub open spec fn in_flight<P>(slots: Seq<Option<P>>) -> nat
    decreases slots.len(),
{
    if slots.len() == 0 {
        0
    } else {
        in_flight(slots.drop_last()) + if slots.last() is Some {
            1nat
        } else {
            0nat
        }
    }
}

/// Filling or emptying one slot changes the number of filled slots by one,
/// and rewriting it in kind changes nothing.
pub proof fn lemma_in_flight_update<P>(slots: Seq<Option<P>>, i: int, value: Option<P>)
    requires
        0 <= i < slots.len(),
    ensures
        in_flight(slots.update(i, value)) + (if slots[i] is Some {
            1nat
        } else {
            0nat
        }) == in_flight(slots) + (if value is Some {
            1nat
        } else {
            0nat
        }),
    decreases slots.len(),
{
    let after = slots.update(i, value);
    if i == slots.len() - 1 {
        assert(after.drop_last() =~= slots.drop_last());
    } else {
        assert(after.drop_last() =~= slots.drop_last().update(i, value));
        lemma_in_flight_update(slots.drop_last(), i, value);
    }
}

/// No more slots are filled than there are slots, and where a slot is
/// filled, at least one is.
pub proof fn lemma_in_flight_bounds<P>(slots: Seq<Option<P>>, i: int)
    requires
        0 <= i < slots.len(),
    ensures
        in_flight(slots) <= slots.len(),
        slots[i] is Some ==> in_flight(slots) >= 1,
    decreases slots.len(),
{
    if i < slots.len() - 1 {
        lemma_in_flight_bounds(slots.drop_last(), i);
    } else if slots.len() > 1 {
        lemma_in_flight_bounds(slots.drop_last(), 0);
    } else {
        assert(in_flight(slots.drop_last()) == 0);
    }
}

/// What a pool of input slots holds: the payload of each slot that is in
/// flight, and the free slots in the order in which they will be handed
/// out.
pub struct PoolView<P> {
    pub slots: Seq<Option<P>>,
    pub free: Seq<u8>,
}

impl<P> PoolView<P> {
    /// Every slot is either free or in flight, never both: the free list
    /// names each empty slot once and no filled one.
    pub open spec fn consistent(self) -> bool {
        &&& self.slots.len() <= u8::MAX
        &&& self.free.len() + in_flight(self.slots) == self.slots.len()
        &&& self.free.no_duplicates()
        &&& forall|k: int|
            0 <= k < self.free.len() ==> (#[trigger] self.free[k]) < self.slots.len()
                && self.slots[self.free[k] as int] is None
    }

    /// Whether `slot` holds a payload.
    pub open spec fn holds(self, slot: u8) -> bool {
        slot < self.slots.len() && self.slots[slot as int] is Some
    }

    /// The pool after `payload` went into the first free slot.
    pub open spec fn claimed(self, payload: P) -> PoolView<P> {
        PoolView {
            slots: self.slots.update(self.free[0] as int, Some(payload)),
            free: self.free.drop_first(),
        }
    }

    /// The pool after the payload of `slot` was taken out and the slot went
    /// to the end of the free list.
    pub open spec fn released(self, slot: u8) -> PoolView<P> {
        PoolView { slots: self.slots.update(slot as int, None), free: self.free.push(slot) }
    }
}

/// Claiming a slot and releasing a slot keep a pool consistent.
pub proof fn lemma_pool_stays_consistent<P>(pool: PoolView<P>, payload: P, slot: u8)
    requires
        pool.consistent(),
    ensures
        pool.free.len() > 0 ==> pool.claimed(payload).consistent() && pool.claimed(payload).holds(
            pool.free[0],
        ),
        pool.holds(slot) ==> pool.released(slot).consistent() && !pool.released(slot).holds(slot),
        pool.holds(slot) ==> pool.free.len() < pool.slots.len(),
{
    if pool.free.len() > 0 {
        let first = pool.free[0];
        let after = pool.claimed(payload);
        lemma_in_flight_update(pool.slots, first as int, Some(payload));
        assert forall|k: int| 0 <= k < after.free.len() implies (#[trigger] after.free[k])
            < after.slots.len() && after.slots[after.free[k] as int] is None by {
            assert(after.free[k] == pool.free[k + 1]);
        }
        assert(after.free.no_duplicates()) by {
            assert forall|a: int, b: int|
                0 <= a < after.free.len() && 0 <= b < after.free.len() && a != b implies after.free[a]
                != after.free[b] by {
                assert(after.free[a] == pool.free[a + 1]);
                assert(after.free[b] == pool.free[b + 1]);
            }
        }
    }
    if pool.holds(slot) {
        let after = pool.released(slot);
        lemma_in_flight_update(pool.slots, slot as int, None);
        lemma_in_flight_bounds(pool.slots, slot as int);
        assert forall|k: int| 0 <= k < after.free.len() implies (#[trigger] after.free[k])
            < after.slots.len() && after.slots[after.free[k] as int] is None by {
            if k < pool.free.len() {
                assert(after.free[k] == pool.free[k]);
            }
        }
        assert(after.free.no_duplicates()) by {
            assert forall|a: int, b: int|
                0 <= a < after.free.len() && 0 <= b < after.free.len() && a != b implies after.free[a]
                != after.free[b] by {
                if a < pool.free.len() {
                    assert(after.free[a] == pool.free[a]);
                }
                if b < pool.free.len() {
                    assert(after.free[b] == pool.free[b]);
                }
            }
        }
    }
}

/// The slots and the free queue of a pool.
struct Parts<P> {
    slots: Vec<Option<P>>,
    free: Queue<u8>,
}

impl<P> Parts<P> {
    spec fn view(&self) -> PoolView<P> {
        PoolView { slots: self.slots@, free: self.free@ }
    }

    spec fn well_formed(&self) -> bool {
        &&& self@.consistent()
        &&& self.slots@.len() <= self.free.capacity()
    }

    fn new(capacity: u8) -> (parts: Parts<P>)
        ensures
            parts.well_formed(),
            parts@.slots == Seq::new(capacity as nat, |i: int| None::<P>),
            parts@.free == Seq::new(capacity as nat, |i: int| i as u8),
    {
        let mut slots: Vec<Option<P>> = Vec::new();
        let mut free: Queue<u8> = Queue::new(capacity);
        let mut next: u8 = 0;
        while next < capacity
            invariant
                next <= capacity,
                capacity <= free.capacity(),
                slots@ == Seq::new(next as nat, |i: int| None::<P>),
                free@ == Seq::new(next as nat, |i: int| i as u8),
                in_flight(slots@) == 0,
            decreases capacity - next,
        {
            let ghost before = slots@;
            slots.push(None);
            let pushed = free.try_push(next);
            proof {
                assert(slots@.drop_last() =~= before);
                assert(slots@ =~= Seq::new((next + 1) as nat, |i: int| None::<P>));
                assert(free@ =~= Seq::new((next + 1) as nat, |i: int| i as u8));
            }
            next = next + 1;
        }
        Parts { slots, free }
    }

    fn claim(&mut self, payload: P) -> (r: Result<u8, P>)
        requires
            old(self).well_formed(),
        ensures
            final(self).well_formed(),
            match r {
                Ok(slot) => old(self)@.free.len() > 0 && slot == old(self)@.free[0] && final(self)@
                    == old(self)@.claimed(payload),
                Err(back) => old(self)@.free.len() == 0 && back == payload && final(self)@ == old(
                    self,
                )@,
            },
        no_unwind
    {
        proof {
            lemma_pool_stays_consistent(self@, payload, 0);
        }
        match self.free.try_pop() {
            Some(slot) => {
                self.slots[slot as usize] = Some(payload);
                Ok(slot)
            },
            None => Err(payload),
        }
    }

    fn release(&mut self, slot: u8) -> (r: Option<P>)
        requires
            old(self).well_formed(),
        ensures
            final(self).well_formed(),
            match r {
                Some(payload) => old(self)@.holds(slot) && old(self)@.slots[slot as int] == Some(
                    payload,
                ) && final(self)@ == old(self)@.released(slot),
                None => !old(self)@.holds(slot) && final(self)@ == old(self)@,
            },
        no_unwind
    {
        if slot as usize >= self.slots.len() {
            return None;
        }
        match &self.slots[slot as usize] {
            None => {
                return None;
            },
            Some(_) => {},
        }
        proof {
            lemma_pool_stays_consistent(self@, arbitrary(), slot);
        }
        let mut payload: Option<P> = None;
        core::mem::swap(&mut self.slots[slot as usize], &mut payload);
        let pushed = self.free.try_push(slot);
        payload
    }
}

/// The input slots of one task for one sender: a fixed number of slots
/// that hold the payloads of the task's pending invocations, and the queue
/// of the slots that are free. A slot leaves the free queue when a payload
/// goes in and comes back when the payload is taken out.
pub struct SlotPool<P> {
    parts: Parts<P>,
}

impl<P> SlotPool<P> {
    #[verifier::type_invariant]
    spec fn well_formed(&self) -> bool {
        self.parts.well_formed()
    }

    /// The slots and the free list.
    pub closed spec fn view(&self) -> PoolView<P> {
        self.parts@
    }

    /// A pool of `capacity` slots, all free, in rising order.
    pub fn new(capacity: u8) -> (pool: SlotPool<P>)
        ensures
            pool@.consistent(),
            pool@.slots == Seq::new(capacity as nat, |i: int| None::<P>),
            pool@.free == Seq::new(capacity as nat, |i: int| i as u8),
    {
        SlotPool { parts: Parts::new(capacity) }
    }

    /// The number of slots.
    pub fn capacity(&self) -> (r: usize)
        ensures
            r == self@.slots.len(),
            self@.consistent(),
    {
        proof {
            use_type_invariant(self);
        }
        self.parts.slots.len()
    }

    /// The number of free slots.
    pub fn available(&self) -> (r: usize)
        ensures
            r == self@.free.len(),
            self@.consistent(),
    {
        proof {
            use_type_invariant(self);
        }
        self.parts.free.len()
    }

    /// Puts `payload` into the first free slot and names the slot, or hands
    /// the payload back where no slot is free.
    pub fn claim(&mut self, payload: P) -> (r: Result<u8, P>)
        ensures
            final(self)@.consistent(),
            match r {
                Ok(slot) => old(self)@.free.len() > 0 && slot == old(self)@.free[0] && final(self)@
                    == old(self)@.claimed(payload),
                Err(back) => old(self)@.free.len() == 0 && back == payload && final(self)@ == old(
                    self,
                )@,
            },
        no_unwind
    {
        proof {
            use_type_invariant(&*self);
        }
        self.parts.claim(payload)
    }

    /// Takes the payload out of `slot` and frees the slot; nothing happens
    /// where the slot holds no payload.
    pub fn release(&mut self, slot: u8) -> (r: Option<P>)
        ensures
            final(self)@.consistent(),
            match r {
                Some(payload) => old(self)@.holds(slot) && old(self)@.slots[slot as int] == Some(
                    payload,
                ) && final(self)@ == old(self)@.released(slot),
                None => !old(self)@.holds(slot) && final(self)@ == old(self)@,
            },
        no_unwind
    {
        proof {
            use_type_invariant(&*self);
        }
        self.parts.release(slot)
    }
}

} // verus!
