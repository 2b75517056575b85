use crate::dispatch::Dispatcher;
use crate::dispatch::Ready;
use crate::names::Core;
use crate::slots::in_flight;
use crate::slots::PoolView;
use crate::slots::SlotPool;
use crate::timer::inserted;
use crate::timer::lemma_rank_at_least;
use crate::timer::lemma_rank_is;
use crate::timer::rank;
use crate::timer::sorted;
use crate::timer::NotReady;
use crate::timer::TimerQueue;
use vstd::pervasive::unreached;
use vstd::prelude::*;

verus! {

/// What the timer interrupt is set to when its handler is done: to fire
/// at an instant, or not at all.
#[derive(Clone, Copy, Debug, PartialEq, Eq)]
pub enum Alarm {
    At(u64),
    Off,
}

/// What the handler of the timer interrupt does next: it moves an entry
/// that is due to its ready queue, or it sets the timer to the instant of
/// the earliest entry and returns, or, the queue being empty, it switches
/// the timer off and returns.
#[derive(Clone, Copy, Debug, PartialEq, Eq)]
pub enum Tick {
    Due(NotReady),
    Rest(Alarm),
}

/// The entry as it stands in a ready queue.
pub open spec fn as_ready(entry: NotReady) -> Ready {
    Ready { task: entry.task, slot: entry.slot }
}

/// Whether the ready queue of `sender` has room.
pub open spec fn has_room(dispatcher: &Dispatcher, sender: Core) -> bool {
    sender < dispatcher@.len() && dispatcher@[sender as int].len() < dispatcher.capacity(
        sender as int,
    )
}

/// What the timer is set to while `entries` wait.
pub open spec fn alarm_for(entries: Seq<NotReady>) -> Alarm {
    if entries.len() == 0 {
        Alarm::Off
    } else {
        Alarm::At(entries[0].instant)
    }
}

/// The smaller of two numbers.
pub open spec fn least(a: int, b: int) -> int {
    if a < b {
        a
    } else {
        b
    }
}

/// A ready queue made for as many entries as the pool that feeds it has
/// slots always has room for a spawn: while it holds no more entries than
/// slots are in flight, it is not full as long as a slot is free. With
/// queues of that size a spawn fails only where the task's slots are used
/// up.
pub proof fn lemma_sized_queue_has_room<P>(pool: PoolView<P>, queued: nat, capacity: nat)
    requires
        pool.consistent(),
        queued <= in_flight(pool.slots),
        pool.slots.len() <= capacity,
        pool.free.len() > 0,
    ensures
        queued < capacity,
{
}

/// Starts the task `task` with `payload`, sent by the core `sender`: the
/// payload goes into the first free slot of the task's pool, and the task
/// with the slot goes into the sender's ready queue. Where the pool has no
/// free slot, or the queue no room, nothing changes and the payload comes
/// back.
pub fn spawn<P>(
    pool: &mut SlotPool<P>,
    dispatcher: &mut Dispatcher,
    sender: Core,
    task: u8,
    payload: P,
) -> (r: Result<(), P>)
    ensures
        final(pool)@.consistent(),
        final(dispatcher)@.len() == old(dispatcher)@.len(),
        forall|i: int|
            0 <= i < old(dispatcher)@.len() ==> #[trigger] final(dispatcher).capacity(i) == old(
                dispatcher,
            ).capacity(i),
        r is Ok <==> old(pool)@.free.len() > 0 && has_room(old(dispatcher), sender),
        match r {
            Ok(_) => final(pool)@ == old(pool)@.claimed(payload) && final(dispatcher)@ == old(
                dispatcher,
            )@.update(
                sender as int,
                old(dispatcher)@[sender as int].push(
                    Ready { task, slot: old(pool)@.free[0] },
                ),
            ),
            Err(back) => back == payload && final(pool)@ == old(pool)@ && final(dispatcher)@
                == old(dispatcher)@,
        },
{
    let free = pool.available();
    let room = dispatcher.has_room(sender);
    if free == 0 || !room {
        return Err(payload);
    }
    match pool.claim(payload) {
        Ok(slot) => {
            match dispatcher.push(sender, Ready { task, slot }) {
                Ok(_) => Ok(()),
                Err(_) => unreached(),
            }
        },
        Err(back) => Err(back),
    }
}

/// Starts the task `task` with `payload` at `instant`: the payload goes
/// into the first free slot of the task's pool, and the task with the slot
/// and the instant goes into the timer queue. Where the pool has no free
/// slot, or the timer queue is full, nothing changes and the payload comes
/// back.
pub fn schedule<P>(
    pool: &mut SlotPool<P>,
    timer: &mut TimerQueue,
    task: u8,
    instant: u64,
    payload: P,
) -> (r: Result<(), P>)
    ensures
        final(pool)@.consistent(),
        final(timer).capacity() == old(timer).capacity(),
        sorted(final(timer)@),
        r is Ok <==> old(pool)@.free.len() > 0 && old(timer)@.len() < old(timer).capacity(),
        match r {
            Ok(_) => final(pool)@ == old(pool)@.claimed(payload) && final(timer)@ == inserted(
                old(timer)@,
                NotReady { instant, task, slot: old(pool)@.free[0] },
            ),
            Err(back) => back == payload && final(pool)@ == old(pool)@ && final(timer)@ == old(
                timer,
            )@,
        },
{
    let free = pool.available();
    let full = timer.is_full();
    if free == 0 || full {
        return Err(payload);
    }
    match pool.claim(payload) {
        Ok(slot) => {
            match timer.try_insert(NotReady { instant, task, slot }) {
                Ok(_) => Ok(()),
                Err(_) => unreached(),
            }
        },
        Err(back) => Err(back),
    }
}

/// One step of the handler of the timer interrupt at the instant `now`:
/// the earliest entry leaves the queue if it is due, else the timer is to
/// be set for it, or switched off where nothing waits.
pub fn tick(timer: &mut TimerQueue, now: u64) -> (r: Tick)
    ensures
        final(timer).capacity() == old(timer).capacity(),
        sorted(final(timer)@),
        match r {
            Tick::Due(entry) => old(timer)@.len() > 0 && entry == old(timer)@[0] && entry.instant
                <= now && final(timer)@ == old(timer)@.drop_first(),
            Tick::Rest(alarm) => (old(timer)@.len() == 0 || old(timer)@[0].instant > now)
                && alarm == alarm_for(old(timer)@) && final(timer)@ == old(timer)@,
        },
{
    match timer.pop_due(now) {
        Some(entry) => Tick::Due(entry),
        None => Tick::Rest(alarm_of(timer)),
    }
}

/// The handler of the timer interrupt at the instant `now`, where the
/// tasks that wait all go to one ready queue: the entries that are due
/// move to the ready queue of `sender`, earliest first, as far as the
/// queue has room, and the timer is set for the earliest entry that stays
/// behind, or switched off where none does. An entry whose instant has
/// passed is moved all the same.
#[verifier::loop_isolation(false)]
pub fn on_timer(timer: &mut TimerQueue, dispatcher: &mut Dispatcher, sender: Core, now: u64) -> (r:
    Alarm)
    ensures
        final(timer).capacity() == old(timer).capacity(),
        sorted(final(timer)@),
        final(dispatcher)@.len() == old(dispatcher)@.len(),
        forall|i: int|
            0 <= i < old(dispatcher)@.len() ==> #[trigger] final(dispatcher).capacity(i) == old(
                dispatcher,
            ).capacity(i),
        ({
            let due = rank(old(timer)@, now);
            let room = if sender < old(dispatcher)@.len() {
                old(dispatcher).capacity(sender as int) - old(dispatcher)@[sender as int].len()
            } else {
                0
            };
            let moved = least(due, room);
            &&& final(timer)@ == old(timer)@.skip(moved)
            &&& r == alarm_for(final(timer)@)
            &&& if sender < old(dispatcher)@.len() {
                final(dispatcher)@ == old(dispatcher)@.update(
                    sender as int,
                    old(dispatcher)@[sender as int] + old(timer)@.take(moved).map_values(
                        |entry: NotReady| as_ready(entry),
                    ),
                )
            } else {
                final(dispatcher)@ == old(dispatcher)@
            }
        }),
{
    let ghost waiting = timer@;
    let ghost queues = dispatcher@;
    let ghost room = if sender < queues.len() {
        dispatcher.capacity(sender as int) - queues[sender as int].len()
    } else {
        0
    };
    let ghost moved: int = 0;
    let ghost map = |entry: NotReady| as_ready(entry);
    proof {
        assert(waiting.skip(0) =~= waiting);
        if sender < queues.len() {
            assert(queues[sender as int] + waiting.take(0).map_values(map) =~= queues[sender as int]);
            assert(queues.update(sender as int, queues[sender as int]) =~= queues);
        }
    }
    while dispatcher.has_room(sender)
        invariant
            0 <= moved <= waiting.len(),
            forall|i: int| 0 <= i < moved ==> (#[trigger] waiting[i]).instant <= now,
            map == |entry: NotReady| as_ready(entry),
            queues.len() == dispatcher@.len(),
            sender < queues.len() ==> room == dispatcher.capacity(sender as int) + moved
                - dispatcher@[sender as int].len(),
            sender >= queues.len() ==> room == 0 && moved == 0,
            timer@ == waiting.skip(moved),
            timer.capacity() == old(timer).capacity(),
            forall|i: int|
                0 <= i < queues.len() ==> #[trigger] dispatcher.capacity(i) == old(
                    dispatcher,
                ).capacity(i),
            if sender < queues.len() {
                dispatcher@ == queues.update(
                    sender as int,
                    queues[sender as int] + waiting.take(moved).map_values(map),
                )
            } else {
                dispatcher@ == queues
            },
        decreases waiting.len() - moved,
    {
        match tick(timer, now) {
            Tick::Due(entry) => {
                assert(entry == waiting[moved]);
                match dispatcher.push(sender, as_ready_exec(entry)) {
                    Ok(_) => {},
                    Err(_) => unreached(),
                }
                proof {
                    assert(waiting.take(moved + 1).map_values(map) =~= waiting.take(
                        moved,
                    ).map_values(map).push(as_ready(entry)));
                    assert(timer@ =~= waiting.skip(moved + 1));
                    assert(dispatcher@ =~= queues.update(
                        sender as int,
                        queues[sender as int] + waiting.take(moved + 1).map_values(map),
                    ));
                    moved = moved + 1;
                }
            },
            Tick::Rest(alarm) => {
                proof {
                    if moved < waiting.len() {
                        assert(timer@[0] == waiting[moved]);
                    }
                    lemma_rank_is(waiting, now, moved);
                }
                return alarm;
            },
        }
    }
    proof {
        lemma_rank_at_least(waiting, now, moved);
    }
    alarm_of(timer)
}

/// What the timer is set to while the entries of `timer` wait.
pub fn alarm_of(timer: &TimerQueue) -> (r: Alarm)
    ensures
        r == alarm_for(timer@),
        sorted(timer@),
{
    match timer.next_instant() {
        Some(instant) => Alarm::At(instant),
        None => Alarm::Off,
    }
}

/// The entry as it stands in a ready queue.
fn as_ready_exec(entry: NotReady) -> (r: Ready)
    ensures
        r == as_ready(entry),
{
    Ready { task: entry.task, slot: entry.slot }
}

} // verus!
