use crate::capacity::checked_next_power_of_two;
use crate::capacity::is_power_of_two;
use crate::capacity::lemma_double_power_of_two;
use crate::capacity::lemma_next_power_of_two;
use crate::capacity::lemma_powers_of_two_apart;
use crate::capacity::next_power_of_two;
use vstd::prelude::*;

verus! {

/// One call on a queue: a push of an item, or a pop.
pub enum Op<T> {
    Push(T),
    Pop,
}

/// What a queue of capacity `capacity` that holds `contents` holds after
/// `op`: a push appends unless the queue is full, a pop removes the oldest
/// item unless the queue is empty.
pub open spec fn step<T>(contents: Seq<T>, capacity: nat, op: Op<T>) -> Seq<T> {
    match op {
        Op::Push(item) => if contents.len() < capacity {
            contents.push(item)
        } else {
            contents
        },
        Op::Pop => if contents.len() > 0 {
            contents.drop_first()
        } else {
            contents
        },
    }
}

/// The item that `op` hands back as refused: the pushed item where the
/// queue is full.
pub open spec fn refused<T>(contents: Seq<T>, capacity: nat, op: Op<T>) -> Option<T> {
    match op {
        Op::Push(item) => if contents.len() < capacity {
            None
        } else {
            Some(item)
        },
        Op::Pop => None,
    }
}

/// The item that `op` hands out: the oldest one where a pop finds the
/// queue not empty.
pub open spec fn popped<T>(contents: Seq<T>, op: Op<T>) -> Option<T> {
    match op {
        Op::Push(_) => None,
        Op::Pop => if contents.len() > 0 {
            Some(contents[0])
        } else {
            None
        },
    }
}

/// What the queue holds after the calls `ops`, made in order.
pub open spec fn run<T>(contents: Seq<T>, capacity: nat, ops: Seq<Op<T>>) -> Seq<T>
    decreases ops.len(),
{
    if ops.len() == 0 {
        contents
    } else {
        step(run(contents, capacity, ops.drop_last()), capacity, ops.last())
    }
}

/// The items that the pushes among `ops` got into the queue, in the order
/// of the calls.
pub open spec fn accepted<T>(contents: Seq<T>, capacity: nat, ops: Seq<Op<T>>) -> Seq<T>
    decreases ops.len(),
{
    if ops.len() == 0 {
        Seq::empty()
    } else {
        let before = run(contents, capacity, ops.drop_last());
        let sofar = accepted(contents, capacity, ops.drop_last());
        match ops.last() {
            Op::Push(item) => if before.len() < capacity {
                sofar.push(item)
            } else {
                sofar
            },
            Op::Pop => sofar,
        }
    }
}

/// The items that the pops among `ops` handed out, in the order of the
/// calls.
pub open spec fn delivered<T>(contents: Seq<T>, capacity: nat, ops: Seq<Op<T>>) -> Seq<T>
    decreases ops.len(),
{
    if ops.len() == 0 {
        Seq::empty()
    } else {
        let before = run(contents, capacity, ops.drop_last());
        let sofar = delivered(contents, capacity, ops.drop_last());
        match popped(before, ops.last()) {
            Some(item) => sofar.push(item),
            None => sofar,
        }
    }
}

/// Whatever calls are made in whatever order, the items that were in the
/// queue followed by those that pushes got in are exactly the items that
/// pops handed out followed by those still in the queue: nothing is lost,
/// nothing comes twice, nothing changes place. The queue never holds more
/// than its capacity.
pub proof fn lemma_queue_is_fifo<T>(contents: Seq<T>, capacity: nat, ops: Seq<Op<T>>)
    requires
        contents.len() <= capacity,
    ensures
        contents + accepted(contents, capacity, ops) == delivered(contents, capacity, ops) + run(
            contents,
            capacity,
            ops,
        ),
        run(contents, capacity, ops).len() <= capacity,
    decreases ops.len(),
{
    if ops.len() == 0 {
        assert(contents + accepted(contents, capacity, ops) =~= delivered(contents, capacity, ops)
            + run(contents, capacity, ops));
    } else {
        lemma_queue_is_fifo(contents, capacity, ops.drop_last());
        let before = run(contents, capacity, ops.drop_last());
        let acc = accepted(contents, capacity, ops.drop_last());
        let del = delivered(contents, capacity, ops.drop_last());
        assert(contents + acc == del + before);
        match ops.last() {
            Op::Push(item) => {
                if before.len() < capacity {
                    assert(contents + acc.push(item) =~= (contents + acc).push(item));
                    assert(del + before.push(item) =~= (del + before).push(item));
                }
            },
            Op::Pop => {
                if before.len() > 0 {
                    assert(del.push(before[0]) + before.drop_first() =~= del + before);
                }
            },
        }
    }
}

/// `x` reduced below `modulus`, for an `x` below twice the modulus.
pub open spec fn wrap(x: int, modulus: int) -> int {
    if x < modulus {
        x
    } else {
        x - modulus
    }
}

/// The largest capacity that a queue is made with.
pub const MAX_CAPACITY: usize = 256;

proof fn lemma_power_of_two_bits(cap: usize)
    requires
        is_power_of_two(cap as int),
    ensures
        cap & ((cap - 1) as usize) == 0,
    decreases cap,
{
    let m: usize = (cap - 1) as usize;
    if cap > 1 {
        let h: usize = cap / 2;
        let hm: usize = (h - 1) as usize;
        lemma_power_of_two_bits(h);
        assert(cap % 2 == 0 && cap > 1 && h == cap / 2 && hm == h - 1 && m == cap - 1 && h & hm
            == 0 ==> cap & m == 0) by (bit_vector);
    } else {
        assert(cap == 1 && m == cap - 1 ==> cap & m == 0) by (bit_vector);
    }
}

/// Masking with a power of two less one reduces below that power.
proof fn lemma_mask_wraps(cap: usize, mask: usize, x: usize)
    requires
        is_power_of_two(cap as int),
        mask == cap - 1,
        x < 2 * cap,
    ensures
        x & mask == wrap(x as int, cap as int),
{
    lemma_power_of_two_bits(cap);
    assert(cap > 0 && mask == cap - 1 && cap & mask == 0 && x < cap ==> x & mask == x)
        by (bit_vector);
    assert(cap > 0 && mask == cap - 1 && cap & mask == 0 && cap <= x && x - cap < cap ==> x & mask
        == x - cap) by (bit_vector);
}

/// The capacity that a queue declared with `capacity` is made with.
pub fn round_up_capacity(capacity: u8) -> (r: usize)
    ensures
        r == next_power_of_two(capacity as nat),
        is_power_of_two(r as int),
        1 <= r <= MAX_CAPACITY,
        capacity <= r,
{
    proof {
        lemma_next_power_of_two(capacity as nat);
    }
    match checked_next_power_of_two(capacity) {
        Some(rounded) => rounded as usize,
        None => {
            proof {
                assert(is_power_of_two(256)) by {
                    reveal_with_fuel(is_power_of_two, 10);
                }
                let r = next_power_of_two(capacity as nat) as int;
                if r < 256 {
                    lemma_powers_of_two_apart(r, 256);
                }
            }
            256
        },
    }
}

/// The ring of slots that a queue keeps its items in.
struct Ring<T> {
    buffer: Vec<Option<T>>,
    head: usize,
    tail: usize,
}

impl<T> Ring<T> {
    spec fn count(&self) -> int {
        wrap(self.tail + 2 * self.buffer@.len() - self.head, 2 * (self.buffer@.len() as int))
    }

    spec fn slot(&self, i: int) -> int {
        wrap(wrap(self.head + i, 2 * (self.buffer@.len() as int)), self.buffer@.len() as int)
    }

    spec fn well_formed(&self) -> bool {
        &&& is_power_of_two(self.buffer@.len() as int)
        &&& self.buffer@.len() <= MAX_CAPACITY
        &&& self.head < 2 * self.buffer@.len()
        &&& self.tail < 2 * self.buffer@.len()
        &&& self.count() <= self.buffer@.len()
        &&& forall|i: int| 0 <= i < self.count() ==> (#[trigger] self.buffer@[self.slot(i)]) is Some
    }

    spec fn contents(&self) -> Seq<T> {
        Seq::new(self.count() as nat, |i: int| self.buffer@[self.slot(i)]->0)
    }
}

impl<T: Copy> Ring<T> {
    fn new(cap: usize) -> (ring: Ring<T>)
        requires
            is_power_of_two(cap as int),
            cap <= MAX_CAPACITY,
        ensures
            ring.well_formed(),
            ring.buffer@.len() == cap,
            ring.contents() == Seq::<T>::empty(),
    {
        let mut buffer: Vec<Option<T>> = Vec::new();
        while buffer.len() < cap
            invariant
                buffer@.len() <= cap,
            decreases cap - buffer@.len(),
        {
            buffer.push(None);
        }
        let ring = Ring { buffer, head: 0, tail: 0 };
        assert(ring.contents() =~= Seq::<T>::empty());
        ring
    }

    fn len(&self) -> (r: usize)
        requires
            self.well_formed(),
        ensures
            r == self.contents().len(),
            r <= self.buffer@.len(),
        no_unwind
    {
        if self.tail >= self.head {
            self.tail - self.head
        } else {
            self.tail + 2 * self.buffer.len() - self.head
        }
    }

    fn push(&mut self, item: T) -> (r: Result<(), T>)
        requires
            old(self).well_formed(),
        ensures
            final(self).well_formed(),
            final(self).buffer@.len() == old(self).buffer@.len(),
            final(self).contents() == step(
                old(self).contents(),
                old(self).buffer@.len(),
                Op::Push(item),
            ),
            r is Ok <==> old(self).contents().len() < old(self).buffer@.len(),
            r is Err ==> r->Err_0 == item,
        no_unwind
    {
        let cap = self.buffer.len();
        if self.len() == cap {
            return Err(item);
        }
        let index = self.tail & (cap - 1);
        let next = (self.tail + 1) & (2 * cap - 1);
        proof {
            lemma_mask_wraps(cap, (cap - 1) as usize, self.tail);
            lemma_double_power_of_two(cap as int);
            lemma_mask_wraps((2 * cap) as usize, (2 * cap - 1) as usize, (self.tail + 1) as usize);
        }
        let ghost before = *self;
        let ghost n = self.count();
        assert(index == self.slot(n));
        self.buffer[index] = Some(item);
        self.tail = next;
        assert(self.count() == n + 1);
        assert(forall|i: int| 0 <= i <= n ==> self.slot(i) == before.slot(i));
        assert(forall|i: int| 0 <= i < n ==> before.slot(i) != index);
        assert forall|i: int| 0 <= i < self.count() implies (#[trigger] self.buffer@[self.slot(
            i,
        )]) is Some by {
            if i < n {
                assert(before.buffer@[before.slot(i)] is Some);
            }
        }
        assert(self.contents() =~= before.contents().push(item));
        Ok(())
    }

    fn pop(&mut self) -> (r: Option<T>)
        requires
            old(self).well_formed(),
        ensures
            final(self).well_formed(),
            final(self).buffer@.len() == old(self).buffer@.len(),
            final(self).contents() == step(
                old(self).contents(),
                old(self).buffer@.len(),
                Op::Pop,
            ),
            r == popped(old(self).contents(), Op::<T>::Pop),
        no_unwind
    {
        if self.head == self.tail {
            return None;
        }
        let cap = self.buffer.len();
        let index = self.head & (cap - 1);
        let next = (self.head + 1) & (2 * cap - 1);
        proof {
            lemma_mask_wraps(cap, (cap - 1) as usize, self.head);
            lemma_double_power_of_two(cap as int);
            lemma_mask_wraps((2 * cap) as usize, (2 * cap - 1) as usize, (self.head + 1) as usize);
        }
        let ghost before = *self;
        let ghost n = self.count();
        assert(index == self.slot(0));
        let item = self.buffer[index];
        self.head = next;
        assert(self.count() == n - 1);
        assert(forall|i: int| 0 <= i < n - 1 ==> self.slot(i) == before.slot(i + 1));
        assert forall|i: int| 0 <= i < self.count() implies (#[trigger] self.buffer@[self.slot(
            i,
        )]) is Some by {
            assert(before.buffer@[before.slot(i + 1)] is Some);
        }
        assert(self.contents() =~= before.contents().drop_first());
        item
    }

    fn peek(&self) -> (r: Option<T>)
        requires
            self.well_formed(),
        ensures
            r == popped(self.contents(), Op::<T>::Pop),
    {
        if self.head == self.tail {
            return None;
        }
        let cap = self.buffer.len();
        let index = self.head & (cap - 1);
        proof {
            lemma_mask_wraps(cap, (cap - 1) as usize, self.head);
        }
        assert(index == self.slot(0));
        self.buffer[index]
    }
}

/// A queue of fixed capacity between one producer and one consumer. The
/// items sit in a ring of slots; the producer moves only the tail index,
/// the consumer only the head index, and both indices wrap by masking.
pub struct Queue<T> {
    ring: Ring<T>,
}

impl<T> Queue<T> {
    #[verifier::type_invariant]
    spec fn well_formed(&self) -> bool {
        self.ring.well_formed()
    }

    /// The number of items that the queue can hold.
    pub closed spec fn capacity(&self) -> nat {
        self.ring.buffer@.len()
    }

    /// The items in the queue, oldest first.
    pub closed spec fn view(&self) -> Seq<T> {
        self.ring.contents()
    }
}

impl<T: Copy> Queue<T> {
    /// An empty queue for `capacity` items, made with the next power of two
    /// as its capacity.
    pub fn new(capacity: u8) -> (q: Queue<T>)
        ensures
            q@ == Seq::<T>::empty(),
            q.capacity() == next_power_of_two(capacity as nat),
            is_power_of_two(q.capacity() as int),
            capacity <= q.capacity(),
    {
        Queue { ring: Ring::new(round_up_capacity(capacity)) }
    }

    /// The number of items that the queue can hold.
    pub fn cap(&self) -> (r: usize)
        ensures
            r == self.capacity(),
            is_power_of_two(r as int),
            r <= MAX_CAPACITY,
    {
        proof {
            use_type_invariant(self);
        }
        self.ring.buffer.len()
    }

    /// The number of items in the queue.
    pub fn len(&self) -> (r: usize)
        ensures
            r == self@.len(),
            r <= self.capacity(),
    {
        proof {
            use_type_invariant(self);
        }
        self.ring.len()
    }

    /// Whether the queue holds nothing.
    pub fn is_empty(&self) -> (r: bool)
        ensures
            r == (self@.len() == 0),
    {
        self.len() == 0
    }

    /// Whether the queue holds as much as it can.
    pub fn is_full(&self) -> (r: bool)
        ensures
            r == (self@.len() == self.capacity()),
            self@.len() <= self.capacity(),
    {
        self.len() == self.cap()
    }

    /// Puts `item` behind the items in the queue, or hands it back where
    /// the queue is full.
    pub fn try_push(&mut self, item: T) -> (r: Result<(), T>)
        ensures
            final(self)@ == step(old(self)@, old(self).capacity(), Op::Push(item)),
            final(self).capacity() == old(self).capacity(),
            r is Ok <==> old(self)@.len() < old(self).capacity(),
            r is Err ==> r->Err_0 == item,
        no_unwind
    {
        proof {
            use_type_invariant(&*self);
        }
        self.ring.push(item)
    }

    /// Takes the oldest item out of the queue, if there is one.
    pub fn try_pop(&mut self) -> (r: Option<T>)
        ensures
            final(self)@ == step(old(self)@, old(self).capacity(), Op::Pop),
            final(self).capacity() == old(self).capacity(),
            r == popped(old(self)@, Op::<T>::Pop),
        no_unwind
    {
        proof {
            use_type_invariant(&*self);
        }
        self.ring.pop()
    }

    /// The oldest item in the queue, if there is one; the queue keeps it.
    pub fn peek(&self) -> (r: Option<T>)
        ensures
            r == popped(self@, Op::<T>::Pop),
    {
        proof {
            use_type_invariant(self);
        }
        self.ring.peek()
    }
}

} // verus!
