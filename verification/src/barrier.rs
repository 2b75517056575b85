use crate::dispatch::first_with_work;
use crate::dispatch::Dispatch;
use crate::dispatch::Dispatcher;
use crate::names::Core;
use vstd::prelude::*;

verus! {

/// What a core that waits at a barrier does next: it goes on, or it looks
/// again.
#[derive(Clone, Copy, Debug, PartialEq, Eq)]
pub enum Wait {
    Proceed,
    Spin,
}

/// What happens at a barrier: the signaling side releases it, or the
/// waiting side looks at it.
pub enum Event {
    Release,
    Poll,
}

/// Whether a barrier is released after `events`.
pub open spec fn released_after(events: Seq<Event>) -> bool
    decreases events.len(),
{
    events.len() > 0 && (events.last() is Release || released_after(events.drop_last()))
}

/// What a look at a barrier answers.
pub open spec fn answer(released: bool) -> Wait {
    if released {
        Wait::Proceed
    } else {
        Wait::Spin
    }
}

/// What a look at a flag answers: the flag of a barrier is read by the
/// core that waits, and this decides on what was read.
pub fn decide(released: bool) -> (r: Wait)
    ensures
        r == answer(released),
{
    if released {
        Wait::Proceed
    } else {
        Wait::Spin
    }
}

/// A barrier is released after some events exactly if one of them
/// released it.
pub proof fn lemma_released_after(events: Seq<Event>)
    ensures
        released_after(events) <==> exists|j: int|
            0 <= j < events.len() && (#[trigger] events[j]) is Release,
    decreases events.len(),
{
    if events.len() > 0 {
        let rest = events.drop_last();
        lemma_released_after(rest);
        if released_after(rest) {
            let j = choose|j: int| 0 <= j < rest.len() && (#[trigger] rest[j]) is Release;
            assert(events[j] is Release);
        }
        if exists|j: int| 0 <= j < events.len() && (#[trigger] events[j]) is Release {
            let j = choose|j: int| 0 <= j < events.len() && (#[trigger] events[j]) is Release;
            if j < rest.len() {
                assert(rest[j] is Release);
            }
        }
    }
}

/// However releases and looks follow one another, the look that comes as
/// event `k` lets the waiting side go on exactly if a release came before
/// it: the waiting side is held until the signaling side has signaled, and
/// no longer; and once it was let go, it is let go at every later look.
pub proof fn lemma_barrier_holds_until_released(events: Seq<Event>, k: int, later: int)
    requires
        0 <= k <= later <= events.len(),
    ensures
        answer(released_after(events.take(k))) == Wait::Proceed <==> exists|j: int|
            0 <= j < k && (#[trigger] events[j]) is Release,
        answer(released_after(events.take(k))) == Wait::Proceed ==> answer(
            released_after(events.take(later)),
        ) == Wait::Proceed,
{
    let before = events.take(k);
    lemma_released_after(before);
    lemma_released_after(events.take(later));
    if released_after(before) {
        let j = choose|j: int| 0 <= j < before.len() && (#[trigger] before[j]) is Release;
        assert(events[j] is Release);
        assert(events.take(later)[j] is Release);
    }
    if exists|j: int| 0 <= j < k && (#[trigger] events[j]) is Release {
        let j = choose|j: int| 0 <= j < k && (#[trigger] events[j]) is Release;
        assert(before[j] is Release);
    }
}

/// A flag that one core sets and another waits for, used once, while the
/// cores start: it is set and never cleared.
pub struct Barrier {
    released: bool,
}

impl Barrier {
    /// Whether the barrier is released.
    pub closed spec fn is_released(&self) -> bool {
        self.released
    }

    /// A barrier that holds.
    pub fn new() -> (b: Barrier)
        ensures
            !b.is_released(),
    {
        Barrier { released: false }
    }

    /// Releases the barrier.
    pub fn release(&mut self)
        ensures
            final(self).is_released(),
    {
        self.released = true;
    }

    /// One look at the barrier by the core that waits: it goes on if the
    /// barrier is released, and looks again if not.
    pub fn poll(&self) -> (r: Wait)
        ensures
            r == answer(self.is_released()),
    {
        decide(self.released)
    }

    /// Brings the barrier to the state that `event` leaves it in, and
    /// answers the look where the event is one.
    pub fn apply(&mut self, event: &Event) -> (r: Option<Wait>)
        ensures
            final(self).is_released() == (old(self).is_released() || event is Release),
            match event {
                Event::Release => r is None,
                Event::Poll => r == Some(answer(old(self).is_released())),
            },
    {
        match event {
            Event::Release => {
                self.release();
                None
            },
            Event::Poll => Some(self.poll()),
        }
    }

    /// What the dispatcher of a core does next while this barrier guards
    /// the core's ready queues: nothing until the barrier is released,
    /// which the core does when it has run its initialization; after that,
    /// what the dispatcher does by itself.
    pub fn guard(&self, dispatcher: &mut Dispatcher) -> (r: Dispatch)
        ensures
            final(dispatcher)@.len() == old(dispatcher)@.len(),
            forall|i: int|
                0 <= i < old(dispatcher)@.len() ==> #[trigger] final(dispatcher).capacity(i)
                    == old(dispatcher).capacity(i),
            !self.is_released() ==> r == Dispatch::Idle && final(dispatcher)@ == old(
                dispatcher,
            )@,
            self.is_released() ==> match r {
                Dispatch::Run(entry) => {
                    let k = first_with_work(old(dispatcher)@);
                    &&& k < old(dispatcher)@.len()
                    &&& entry == old(dispatcher)@[k][0]
                    &&& final(dispatcher)@ == old(dispatcher)@.update(
                        k,
                        old(dispatcher)@[k].drop_first(),
                    )
                },
                Dispatch::Idle => first_with_work(old(dispatcher)@) == old(dispatcher)@.len()
                    && final(dispatcher)@ == old(dispatcher)@,
            },
    {
        match self.poll() {
            Wait::Proceed => dispatcher.next(),
            Wait::Spin => Dispatch::Idle,
        }
    }
}

/// The cores other than `core` that have not arrived yet.
pub open spec fn missing(arrived: Seq<bool>, core: int) -> Set<int> {
    Set::new(|other: int| 0 <= other < arrived.len() && other != core && !arrived[other])
}

/// A meeting point of a fixed set of cores, used once, while the cores
/// start: each core marks its arrival and waits until every other core
/// has marked its own.
pub struct Rendezvous {
    arrived: Vec<bool>,
}

impl Rendezvous {
    /// Which cores have arrived, by number.
    pub closed spec fn view(&self) -> Seq<bool> {
        self.arrived@
    }

    /// A meeting point of `cores` cores, none of which has arrived.
    pub fn new(cores: u8) -> (r: Rendezvous)
        ensures
            r@ == Seq::new(cores as nat, |i: int| false),
    {
        let mut arrived: Vec<bool> = Vec::new();
        while arrived.len() < cores as usize
            invariant
                arrived@.len() <= cores,
                forall|i: int| 0 <= i < arrived@.len() ==> !(#[trigger] arrived@[i]),
            decreases cores - arrived@.len(),
        {
            arrived.push(false);
        }
        assert(arrived@ =~= Seq::new(cores as nat, |i: int| false));
        Rendezvous { arrived }
    }

    /// Marks the arrival of `core`. A core that is not of the meeting
    /// changes nothing.
    pub fn arrive(&mut self, core: Core)
        ensures
            final(self)@ == if core < old(self)@.len() {
                old(self)@.update(core as int, true)
            } else {
                old(self)@
            },
    {
        if (core as usize) < self.arrived.len() {
            self.arrived[core as usize] = true;
        }
    }

    /// One look at the meeting point by `core`, which waits: it goes on if
    /// every other core has arrived, and looks again if not.
    pub fn poll(&self, core: Core) -> (r: Wait)
        ensures
            r == Wait::Proceed <==> missing(self@, core as int) =~= Set::<int>::empty(),
            r == Wait::Spin <==> exists|other: int|
                0 <= other < self@.len() && other != core && !(#[trigger] self@[other]),
    {
        let mut other: usize = 0;
        while other < self.arrived.len()
            invariant
                other <= self.arrived@.len(),
                forall|i: int| 0 <= i < other && i != core ==> #[trigger] self.arrived@[i],
            decreases self.arrived@.len() - other,
        {
            if other != core as usize && !self.arrived[other] {
                assert(missing(self@, core as int).contains(other as int));
                return Wait::Spin;
            }
            other = other + 1;
        }
        assert(missing(self@, core as int) =~= Set::<int>::empty());
        Wait::Proceed
    }
}

/// An arrival never holds another core back: after a core has arrived, no
/// core waits for anyone it did not wait for before, and nobody waits for
/// the core that arrived.
pub proof fn lemma_arrival_lets_go(arrived: Seq<bool>, core: int, waiting: int)
    requires
        0 <= core < arrived.len(),
    ensures
        missing(arrived.update(core, true), waiting).subset_of(missing(arrived, waiting)),
        !missing(arrived.update(core, true), waiting).contains(core),
{
}

} // verus!
