use crate::capacity::lemma_next_power_of_two;
use crate::capacity::next_power_of_two;
use crate::names::Core;
use crate::queue::Queue;
use vstd::prelude::*;

verus! {

/// A task invocation that is ready to run: the task, and the slot that
/// holds its payload.
#[derive(Clone, Copy, Debug, PartialEq, Eq)]
pub struct Ready {
    pub task: u8,
    pub slot: u8,
}

/// What a dispatcher does next: it runs a task invocation to completion,
/// or it is idle.
#[derive(Clone, Copy, Debug, PartialEq, Eq)]
pub enum Dispatch {
    Run(Ready),
    Idle,
}

/// The number of the first queue that holds something, or the number of
/// queues where all are empty.
pub open spec fn first_with_work(queues: Seq<Seq<Ready>>) -> int
    decreases queues.len(),
{
    if queues.len() == 0 {
        0
    } else if queues[0].len() > 0 {
        0
    } else {
        1 + first_with_work(queues.drop_first())
    }
}

/// The queues before the first one that holds something are empty, and
/// that one is not.
pub proof fn lemma_first_with_work(queues: Seq<Seq<Ready>>)
    ensures
        0 <= first_with_work(queues) <= queues.len(),
        forall|i: int| 0 <= i < first_with_work(queues) ==> (#[trigger] queues[i]).len() == 0,
        first_with_work(queues) < queues.len() ==> queues[first_with_work(queues)].len() > 0,
    decreases queues.len(),
{
    if queues.len() > 0 && queues[0].len() == 0 {
        let rest = queues.drop_first();
        lemma_first_with_work(rest);
        assert forall|i: int| 0 <= i < first_with_work(queues) implies (#[trigger] queues[i]).len()
            == 0 by {
            if i > 0 {
                assert(queues[i] == rest[i - 1]);
            }
        }
        if first_with_work(queues) < queues.len() {
            assert(queues[first_with_work(queues)] == rest[first_with_work(rest)]);
        }
    }
}

/// The dispatcher of one priority level on one core. It has one ready
/// queue for each core that sends to it, and takes what is ready from the
/// queues in the order of the senders' numbers: the first queue that
/// holds something is served, so a queue is drained before the next one
/// is looked at.
pub struct Dispatcher {
    queues: Vec<Queue<Ready>>,
}

impl Dispatcher {
    /// What the ready queues hold, by sender, each oldest first.
    pub closed spec fn view(&self) -> Seq<Seq<Ready>> {
        Seq::new(self.queues@.len(), |i: int| self.queues@[i]@)
    }

    /// The capacity of the ready queue of `sender`.
    pub closed spec fn capacity(&self, sender: int) -> nat {
        self.queues@[sender].capacity()
    }

    /// A dispatcher with an empty ready queue for each of `senders` cores,
    /// each queue declared for `capacity` entries and made for the next
    /// power of two.
    pub fn new(senders: u8, capacity: u8) -> (d: Dispatcher)
        ensures
            d@ == Seq::new(senders as nat, |i: int| Seq::<Ready>::empty()),
            forall|i: int|
                0 <= i < senders ==> #[trigger] d.capacity(i) == next_power_of_two(capacity as nat),
            capacity <= next_power_of_two(capacity as nat),
    {
        let mut queues: Vec<Queue<Ready>> = Vec::new();
        while queues.len() < senders as usize
            invariant
                queues@.len() <= senders,
                forall|i: int|
                    0 <= i < queues@.len() ==> (#[trigger] queues@[i])@ == Seq::<Ready>::empty()
                        && queues@[i].capacity() == next_power_of_two(capacity as nat),
            decreases senders - queues@.len(),
        {
            queues.push(Queue::new(capacity));
        }
        proof {
            lemma_next_power_of_two(capacity as nat);
        }
        let d = Dispatcher { queues };
        assert(d@ =~= Seq::new(senders as nat, |i: int| Seq::<Ready>::empty()));
        d
    }

    /// The number of senders.
    pub fn senders(&self) -> (r: usize)
        ensures
            r == self@.len(),
    {
        self.queues.len()
    }

    /// Whether the ready queue of `sender` has room for an entry.
    pub fn has_room(&self, sender: Core) -> (r: bool)
        ensures
            r == (sender < self@.len() && self@[sender as int].len() < self.capacity(
                sender as int,
            )),
            sender < self@.len() ==> self@[sender as int].len() <= self.capacity(sender as int),
    {
        if (sender as usize) < self.queues.len() {
            assert(self@[sender as int] == self.queues@[sender as int]@);
            !self.queues[sender as usize].is_full()
        } else {
            false
        }
    }

    /// Puts `entry` into the ready queue of `sender`, or hands it back
    /// where there is no such queue or the queue is full.
    pub fn push(&mut self, sender: Core, entry: Ready) -> (r: Result<(), Ready>)
        ensures
            final(self)@.len() == old(self)@.len(),
            forall|i: int|
                0 <= i < old(self)@.len() ==> #[trigger] final(self).capacity(i) == old(
                    self,
                ).capacity(i),
            match r {
                Ok(_) => sender < old(self)@.len() && old(self)@[sender as int].len() < old(
                    self,
                ).capacity(sender as int) && final(self)@ == old(self)@.update(
                    sender as int,
                    old(self)@[sender as int].push(entry),
                ),
                Err(back) => back == entry && final(self)@ == old(self)@ && !(sender < old(
                    self,
                )@.len() && old(self)@[sender as int].len() < old(self).capacity(sender as int)),
            },
    {
        if (sender as usize) >= self.queues.len() {
            return Err(entry);
        }
        let ghost before = self@;
        assert(before[sender as int] == self.queues@[sender as int]@);
        let r = self.queues[sender as usize].try_push(entry);
        proof {
            if r is Ok {
                assert(self@ =~= before.update(sender as int, before[sender as int].push(entry)));
            } else {
                assert(self@ =~= before);
            }
        }
        r
    }

    /// The next thing to do: the oldest entry of the first ready queue
    /// that holds something leaves its queue to be run, or, where every
    /// queue is empty, the dispatcher is idle.
    #[verifier::loop_isolation(false)]
    pub fn next(&mut self) -> (r: Dispatch)
        ensures
            final(self)@.len() == old(self)@.len(),
            forall|i: int|
                0 <= i < old(self)@.len() ==> #[trigger] final(self).capacity(i) == old(
                    self,
                ).capacity(i),
            match r {
                Dispatch::Run(entry) => {
                    let k = first_with_work(old(self)@);
                    &&& k < old(self)@.len()
                    &&& entry == old(self)@[k][0]
                    &&& final(self)@ == old(self)@.update(k, old(self)@[k].drop_first())
                },
                Dispatch::Idle => first_with_work(old(self)@) == old(self)@.len() && final(self)@
                    == old(self)@,
            },
    {
        let ghost before = self@;
        let ghost queues = self.queues@;
        let mut k: usize = 0;
        while k < self.queues.len()
            invariant
                k <= self.queues@.len(),
                self@ == before,
                self.queues@ == queues,
                before.len() == queues.len(),
                forall|i: int| 0 <= i < k ==> (#[trigger] before[i]).len() == 0,
            decreases self.queues@.len() - k,
        {
            assert(before[k as int] == self.queues@[k as int]@);
            if !self.queues[k].is_empty() {
                proof {
                    lemma_first_with_work(before);
                }
                let taken = self.queues[k].try_pop();
                assert(self@ =~= before.update(k as int, before[k as int].drop_first()));
                match taken {
                    Some(entry) => {
                        return Dispatch::Run(entry);
                    },
                    None => {
                        return Dispatch::Idle;
                    },
                }
            }
            assert(before[k as int].len() == 0);
            k = k + 1;
        }
        proof {
            lemma_first_with_work(before);
        }
        Dispatch::Idle
    }
}

} // verus!
