use crate::capacity::next_power_of_two;
use crate::config::ConfigError;
use crate::dispatch::Ready;
use crate::lock::Priority;
use crate::queue::Queue;
use crate::slots::in_flight;
use crate::slots::lemma_in_flight_update;
use crate::slots::lemma_pool_stays_consistent;
use crate::slots::PoolView;
use crate::slots::SlotPool;
use crate::task::alarm_for;
use crate::task::alarm_of;
use crate::task::as_ready;
use crate::task::tick;
use crate::task::Alarm;
use crate::task::Tick;
use crate::timer::inserted;
use crate::timer::lemma_inserted;
use crate::timer::lemma_rank_is;
use crate::timer::lemma_rank_splits;
use crate::timer::rank;
use crate::timer::sorted;
use crate::timer::NotReady;
use crate::timer::TimerQueue;
use vstd::pervasive::unreached;
use vstd::prelude::*;

verus! {

/// A task as the application declares it: its priority, and the number of
/// its invocations that can be pending at one time.
#[derive(Clone, Copy, Debug, PartialEq, Eq)]
pub struct TaskSpec {
    pub priority: u8,
    pub capacity: u8,
}

/// The number of priority levels.
pub const LEVELS: usize = 256;

/// The sum of the amounts of the tasks of priority `level`, where
/// `amounts` gives one amount for each task.
pub open spec fn level_sum(tasks: Seq<TaskSpec>, amounts: Seq<nat>, level: u8) -> nat
    decreases tasks.len(),
{
    if tasks.len() == 0 || amounts.len() != tasks.len() {
        0
    } else {
        level_sum(tasks.drop_last(), amounts.drop_last(), level) + if tasks.last().priority
            == level {
            amounts.last()
        } else {
            0
        }
    }
}

/// The capacities of the tasks, task by task.
pub open spec fn capacities(tasks: Seq<TaskSpec>) -> Seq<nat> {
    Seq::new(tasks.len(), |t: int| tasks[t].capacity as nat)
}

/// The numbers of slots in flight, task by task.
pub open spec fn flying<P>(pools: Seq<PoolView<P>>) -> Seq<nat> {
    Seq::new(pools.len(), |t: int| in_flight(pools[t].slots))
}

/// Whether an entry of the timer queue is for a task of priority `level`.
pub open spec fn at_level(tasks: Seq<TaskSpec>, level: u8) -> spec_fn(NotReady) -> bool {
    |entry: NotReady| entry.task < tasks.len() && tasks[entry.task as int].priority == level
}

/// A change of one task's amount changes the sum of its level by as much,
/// and no other sum.
pub proof fn lemma_level_sum_update(
    tasks: Seq<TaskSpec>,
    amounts: Seq<nat>,
    task: int,
    amount: nat,
    level: u8,
)
    requires
        amounts.len() == tasks.len(),
        0 <= task < tasks.len(),
    ensures
        level_sum(tasks, amounts.update(task, amount), level) + (if tasks[task].priority == level {
            amounts[task]
        } else {
            0
        }) == level_sum(tasks, amounts, level) + (if tasks[task].priority == level {
            amount
        } else {
            0
        }),
    decreases tasks.len(),
{
    let after = amounts.update(task, amount);
    if task == tasks.len() - 1 {
        assert(after.drop_last() =~= amounts.drop_last());
    } else {
        assert(after.drop_last() =~= amounts.drop_last().update(task, amount));
        lemma_level_sum_update(tasks.drop_last(), amounts.drop_last(), task, amount, level);
    }
}

/// Where no task's amount is above its bound, no level's sum of amounts is
/// above its sum of bounds, and the sum of the level of `task` is below it
/// where that task's amount is below its bound.
pub proof fn lemma_level_sum_bound(
    tasks: Seq<TaskSpec>,
    amounts: Seq<nat>,
    bounds: Seq<nat>,
    task: int,
    level: u8,
)
    requires
        amounts.len() == tasks.len(),
        bounds.len() == tasks.len(),
        forall|t: int| 0 <= t < tasks.len() ==> #[trigger] amounts[t] <= bounds[t],
    ensures
        level_sum(tasks, amounts, level) <= level_sum(tasks, bounds, level),
        0 <= task < tasks.len() && tasks[task].priority == level && amounts[task] < bounds[task]
            ==> level_sum(tasks, amounts, level) < level_sum(tasks, bounds, level),
    decreases tasks.len(),
{
    if tasks.len() > 0 {
        let a = amounts.drop_last();
        let b = bounds.drop_last();
        assert forall|t: int| 0 <= t < a.len() implies #[trigger] a[t] <= b[t] by {
            assert(amounts[t] <= bounds[t]);
        }
        lemma_level_sum_bound(tasks.drop_last(), a, b, task, level);
        assert(amounts.last() <= bounds.last()) by {
            assert(amounts[tasks.len() - 1] <= bounds[tasks.len() - 1]);
        }
    }
}

/// The sum of `amounts`.
pub open spec fn total(amounts: Seq<nat>) -> nat
    decreases amounts.len(),
{
    if amounts.len() == 0 {
        0
    } else {
        total(amounts.drop_last()) + amounts.last()
    }
}

/// The lengths of the ready queues, level by level.
pub open spec fn lengths(ready: Seq<Seq<Ready>>) -> Seq<nat> {
    Seq::new(ready.len(), |l: int| ready[l].len())
}

/// A change of one amount changes the sum by as much.
pub proof fn lemma_total_update(amounts: Seq<nat>, place: int, amount: nat)
    requires
        0 <= place < amounts.len(),
    ensures
        total(amounts.update(place, amount)) + amounts[place] == total(amounts) + amount,
    decreases amounts.len(),
{
    let after = amounts.update(place, amount);
    if place == amounts.len() - 1 {
        assert(after.drop_last() =~= amounts.drop_last());
    } else {
        assert(after.drop_last() =~= amounts.drop_last().update(place, amount));
        lemma_total_update(amounts.drop_last(), place, amount);
    }
}

/// Where no amount is above its bound, the sum of the amounts is not above
/// the sum of the bounds, and it is below it where the amount at `place` is
/// below its bound.
pub proof fn lemma_total_bound(amounts: Seq<nat>, bounds: Seq<nat>, place: int)
    requires
        amounts.len() == bounds.len(),
        forall|t: int| 0 <= t < amounts.len() ==> #[trigger] amounts[t] <= bounds[t],
    ensures
        total(amounts) <= total(bounds),
        0 <= place < amounts.len() && amounts[place] < bounds[place] ==> total(amounts) < total(
            bounds,
        ),
    decreases amounts.len(),
{
    if amounts.len() > 0 {
        let a = amounts.drop_last();
        let b = bounds.drop_last();
        assert forall|t: int| 0 <= t < a.len() implies #[trigger] a[t] <= b[t] by {
            assert(amounts[t] <= bounds[t]);
        }
        lemma_total_bound(a, b, place);
        assert(amounts[amounts.len() - 1] <= bounds[amounts.len() - 1]);
    }
}

/// Where every amount is zero, so is the sum.
pub proof fn lemma_total_zero(amounts: Seq<nat>)
    requires
        forall|t: int| 0 <= t < amounts.len() ==> #[trigger] amounts[t] == 0,
    ensures
        total(amounts) == 0,
    decreases amounts.len(),
{
    if amounts.len() > 0 {
        assert forall|t: int| 0 <= t < amounts.drop_last().len() implies #[trigger] amounts.drop_last()[t]
            == 0 by {
            assert(amounts[t] == 0);
        }
        lemma_total_zero(amounts.drop_last());
        assert(amounts[amounts.len() - 1] == 0);
    }
}

/// What a scheduler holds: the tasks, the slots of each task, the ready
/// queue of each priority level with its capacity, and the timer queue
/// with its capacity.
pub struct SchedulerView<P> {
    pub tasks: Seq<TaskSpec>,
    pub pools: Seq<PoolView<P>>,
    pub ready: Seq<Seq<Ready>>,
    pub room: Seq<nat>,
    pub timer: Seq<NotReady>,
    pub timer_room: nat,
}

impl<P> SchedulerView<P> {
    /// Whether `entry` names a slot that holds a payload.
    pub open spec fn in_flight(self, entry: Ready) -> bool {
        entry.task < self.pools.len() && self.pools[entry.task as int].holds(entry.slot)
    }

    /// The number of entries of the timer queue for tasks of priority
    /// `level`.
    pub open spec fn waiting_at(self, level: u8) -> nat {
        self.timer.filter(at_level(self.tasks, level)).len()
    }

    /// Whether the parts fit the tasks: each task has its pool, with as
    /// many slots as the task declares, and each priority level has a ready
    /// queue, with room for every slot of the tasks of that level.
    pub open spec fn laid_out(self) -> bool {
        &&& self.tasks.len() <= 256
        &&& self.pools.len() == self.tasks.len()
        &&& self.ready.len() == LEVELS
        &&& self.room.len() == LEVELS
        &&& forall|t: int|
            0 <= t < self.tasks.len() ==> (#[trigger] self.pools[t]).consistent()
                && self.pools[t].slots.len() == self.tasks[t].capacity
        &&& forall|level: u8|
            level_sum(self.tasks, capacities(self.tasks), level) <= #[trigger] self.room[level as int]
        &&& sorted(self.timer)
        &&& self.timer.len() <= self.timer_room
        &&& total(capacities(self.tasks)) <= self.timer_room
    }

    /// Whether every slot is in one state only: a slot that holds a payload
    /// is named by one entry, in the ready queue of its task's level or in
    /// the timer queue, and a free slot by none.
    pub open spec fn exclusive(self) -> bool {
        &&& forall|level: u8, i: int|
            0 <= i < self.ready[level as int].len() ==> self.in_flight(
                #[trigger] self.ready[level as int][i],
            ) && self.tasks[self.ready[level as int][i].task as int].priority == level
        &&& forall|j: int|
            0 <= j < self.timer.len() ==> self.in_flight(as_ready(#[trigger] self.timer[j]))
        &&& forall|level: u8, i: int, j: int|
            0 <= i < j < self.ready[level as int].len() ==> #[trigger] self.ready[level as int][i]
                != #[trigger] self.ready[level as int][j]
        &&& forall|i: int, j: int|
            0 <= i < j < self.timer.len() ==> as_ready(#[trigger] self.timer[i]) != as_ready(
                #[trigger] self.timer[j],
            )
        &&& forall|level: u8, i: int, j: int|
            0 <= i < self.ready[level as int].len() && 0 <= j < self.timer.len()
                ==> #[trigger] self.ready[level as int][i] != as_ready(#[trigger] self.timer[j])
        &&& forall|level: u8| #[trigger]
            self.ready[level as int].len() + self.waiting_at(level) == level_sum(
                self.tasks,
                flying(self.pools),
                level,
            )
        &&& total(lengths(self.ready)) + self.timer.len() == total(flying(self.pools))
    }

    /// Whether the scheduler is in order.
    pub open spec fn consistent(self) -> bool {
        self.laid_out() && self.exclusive()
    }
}

/// In a scheduler that is in order, the ready queue of a level has room as
/// long as a task of the level has a free slot, and as long as an entry
/// for the level waits in the timer queue: a spawn fails only for want of
/// a slot, and an entry that is due always finds its place.
pub proof fn lemma_ready_has_room<P>(view: SchedulerView<P>, task: int, j: int)
    requires
        view.consistent(),
    ensures
        0 <= task < view.tasks.len() && view.pools[task].free.len() > 0
            ==> view.ready[view.tasks[task].priority as int].len()
            < view.room[view.tasks[task].priority as int],
        0 <= j < view.timer.len() ==> view.ready[view.tasks[view.timer[j].task as int].priority as int].len()
            < view.room[view.tasks[view.timer[j].task as int].priority as int],
{
    let tasks = view.tasks;
    let caps = capacities(tasks);
    let fly = flying(view.pools);
    assert forall|t: int| 0 <= t < tasks.len() implies #[trigger] fly[t] <= caps[t] by {
        assert(view.pools[t].consistent());
    }
    if 0 <= task < tasks.len() && view.pools[task].free.len() > 0 {
        let level = tasks[task].priority;
        assert(view.pools[task].consistent());
        lemma_level_sum_bound(tasks, fly, caps, task, level);
        assert(view.ready[level as int].len() + view.waiting_at(level) == level_sum(
            tasks,
            fly,
            level,
        ));
        assert(level_sum(tasks, caps, level) <= view.room[level as int]);
    }
    if 0 <= j < view.timer.len() {
        let entry = view.timer[j];
        assert(view.in_flight(as_ready(entry)));
        let level = tasks[entry.task as int].priority;
        lemma_level_sum_bound(tasks, fly, caps, 0, level);
        let pred = at_level(tasks, level);
        assert(pred(entry));
        view.timer.lemma_filter_contains(pred, j);
        assert(view.timer.filter(pred).contains(entry));
        assert(view.waiting_at(level) >= 1);
        assert(view.ready[level as int].len() + view.waiting_at(level) == level_sum(
            tasks,
            fly,
            level,
        ));
        assert(level_sum(tasks, caps, level) <= view.room[level as int]);
    }
}

/// In a scheduler that is in order, the timer queue has room as long as a
/// task has a free slot: a schedule fails only for want of a slot, as a
/// spawn does.
pub proof fn lemma_timer_has_room<P>(view: SchedulerView<P>, task: int)
    requires
        view.consistent(),
        0 <= task < view.tasks.len(),
        view.pools[task].free.len() > 0,
    ensures
        view.timer.len() < view.timer_room,
{
    let caps = capacities(view.tasks);
    let fly = flying(view.pools);
    assert forall|t: int| 0 <= t < fly.len() implies #[trigger] fly[t] <= caps[t] by {
        assert(view.pools[t].consistent());
    }
    assert(view.pools[task].consistent());
    lemma_total_bound(fly, caps, task);
}

/// An entry that goes into a sequence makes the part of it that meets a
/// condition one longer if it meets the condition itself, and leaves it
/// as long as it was if not.
pub proof fn lemma_insert_filter_len(
    entries: Seq<NotReady>,
    position: int,
    entry: NotReady,
    pred: spec_fn(NotReady) -> bool,
)
    requires
        0 <= position <= entries.len(),
    ensures
        entries.insert(position, entry).filter(pred).len() == entries.filter(pred).len() + if pred(
            entry,
        ) {
            1nat
        } else {
            0nat
        },
{
    let front = entries.subrange(0, position);
    let back = entries.subrange(position, entries.len() as int);
    assert(entries =~= front + back);
    assert(entries.insert(position, entry) =~= front.push(entry) + back);
    Seq::filter_distributes_over_add(front, back, pred);
    Seq::filter_distributes_over_add(front.push(entry), back, pred);
    front.lemma_filter_push(entry, pred);
}

/// The first entry that leaves a sequence makes the part of it that meets
/// a condition one shorter if it meets the condition itself, and leaves it
/// as long as it was if not.
pub proof fn lemma_drop_first_filter_len(entries: Seq<NotReady>, pred: spec_fn(NotReady) -> bool)
    requires
        entries.len() > 0,
    ensures
        entries.drop_first().filter(pred).len() + (if pred(entries[0]) {
            1nat
        } else {
            0nat
        }) == entries.filter(pred).len(),
{
    let first = Seq::<NotReady>::empty().push(entries[0]);
    assert(entries =~= first + entries.drop_first());
    Seq::filter_distributes_over_add(first, entries.drop_first(), pred);
    Seq::<NotReady>::empty().lemma_filter_push(entries[0], pred);
    assert(Seq::<NotReady>::empty().filter(pred) =~= Seq::<NotReady>::empty()) by {
        Seq::<NotReady>::empty().lemma_filter_len(pred);
    }
}

impl<P> SchedulerView<P> {
    /// The priority level of `task`.
    pub open spec fn level_of(self, task: u8) -> u8 {
        self.tasks[task as int].priority
    }

    /// Whether `task` can be started: whether it is a task and has a free
    /// slot.
    pub open spec fn can_start(self, task: u8) -> bool {
        task < self.tasks.len() && self.pools[task as int].free.len() > 0
    }

    /// The entry that a start of `task` makes.
    pub open spec fn next_entry(self, task: u8) -> Ready {
        Ready { task, slot: self.pools[task as int].free[0] }
    }

    /// The scheduler after `task` was spawned with `payload`.
    pub open spec fn spawned(self, task: u8, payload: P) -> SchedulerView<P> {
        SchedulerView {
            pools: self.pools.update(task as int, self.pools[task as int].claimed(payload)),
            ready: self.ready.update(
                self.level_of(task) as int,
                self.ready[self.level_of(task) as int].push(self.next_entry(task)),
            ),
            ..self
        }
    }

    /// The scheduler after `task` was scheduled for `instant` with
    /// `payload`.
    pub open spec fn scheduled(self, task: u8, instant: u64, payload: P) -> SchedulerView<P> {
        SchedulerView {
            pools: self.pools.update(task as int, self.pools[task as int].claimed(payload)),
            timer: inserted(
                self.timer,
                NotReady { instant, task, slot: self.pools[task as int].free[0] },
            ),
            ..self
        }
    }

    /// The scheduler after the earliest entry of the timer queue moved to
    /// the ready queue of its task's level.
    pub open spec fn promoted(self) -> SchedulerView<P> {
        SchedulerView {
            ready: self.ready.update(
                self.level_of(self.timer[0].task) as int,
                self.ready[self.level_of(self.timer[0].task) as int].push(as_ready(self.timer[0])),
            ),
            timer: self.timer.drop_first(),
            ..self
        }
    }

    /// The scheduler after the oldest entry of the ready queue of `level`
    /// left the queue and its payload left its slot.
    pub open spec fn dispatched(self, level: u8) -> SchedulerView<P> {
        let entry = self.ready[level as int][0];
        SchedulerView {
            pools: self.pools.update(
                entry.task as int,
                self.pools[entry.task as int].released(entry.slot),
            ),
            ready: self.ready.update(level as int, self.ready[level as int].drop_first()),
            ..self
        }
    }
}

/// A spawn keeps the scheduler in order.
pub proof fn lemma_spawned<P>(view: SchedulerView<P>, task: u8, payload: P)
    requires
        view.consistent(),
        view.can_start(task),
    ensures
        view.spawned(task, payload).consistent(),
{
    let after = view.spawned(task, payload);
    let level = view.level_of(task);
    let entry = view.next_entry(task);
    let pool = view.pools[task as int];
    assert(pool.consistent());
    lemma_pool_stays_consistent(pool, payload, 0);
    lemma_ready_has_room(view, task as int, 0);
    lemma_in_flight_update(pool.slots, pool.free[0] as int, Some(payload));
    assert(pool.slots[pool.free[0] as int] is None);
    assert(!view.in_flight(entry));
    assert forall|e: Ready| view.in_flight(e) implies after.in_flight(e) by {}
    assert(after.in_flight(entry));
    assert forall|t: int| 0 <= t < after.tasks.len() implies (#[trigger] after.pools[t]).consistent()
        && after.pools[t].slots.len() == after.tasks[t].capacity by {
        assert(view.pools[t].consistent());
    }
    assert forall|l: u8, i: int| 0 <= i < after.ready[l as int].len() implies after.in_flight(
        #[trigger] after.ready[l as int][i],
    ) && after.tasks[after.ready[l as int][i].task as int].priority == l by {
        if l == level && i == view.ready[l as int].len() {
        } else {
            assert(view.in_flight(view.ready[l as int][i]));
        }
    }
    assert forall|j: int| 0 <= j < after.timer.len() implies after.in_flight(
        as_ready(#[trigger] after.timer[j]),
    ) by {
        assert(view.in_flight(as_ready(view.timer[j])));
    }
    assert forall|l: u8, i: int, j: int|
        0 <= i < j < after.ready[l as int].len() implies #[trigger] after.ready[l as int][i]
        != #[trigger] after.ready[l as int][j] by {
        if l == level && j == view.ready[l as int].len() {
            assert(view.in_flight(view.ready[l as int][i]));
        } else {
            assert(view.ready[l as int][i] != view.ready[l as int][j]);
        }
    }
    assert forall|l: u8, i: int, j: int|
        0 <= i < after.ready[l as int].len() && 0 <= j < after.timer.len()
        implies #[trigger] after.ready[l as int][i]
        != as_ready(#[trigger] after.timer[j]) by {
        assert(view.in_flight(as_ready(view.timer[j])));
        if l == level && i == view.ready[l as int].len() {
        } else {
            assert(view.ready[l as int][i] != as_ready(view.timer[j]));
        }
    }
    assert(flying(after.pools) =~= flying(view.pools).update(
        task as int,
        in_flight(after.pools[task as int].slots),
    ));
    assert forall|l: u8| #[trigger]
        after.ready[l as int].len() + after.waiting_at(l) == level_sum(
            after.tasks,
            flying(after.pools),
            l,
        ) by {
        lemma_level_sum_update(
            view.tasks,
            flying(view.pools),
            task as int,
            in_flight(after.pools[task as int].slots),
            l,
        );
        assert(view.ready[l as int].len() + view.waiting_at(l) == level_sum(
            view.tasks,
            flying(view.pools),
            l,
        ));
    }
    assert(lengths(after.ready) =~= lengths(view.ready).update(
        level as int,
        after.ready[level as int].len(),
    ));
    lemma_total_update(lengths(view.ready), level as int, after.ready[level as int].len());
    lemma_total_update(
        flying(view.pools),
        task as int,
        in_flight(after.pools[task as int].slots),
    );
}

/// A schedule keeps the scheduler in order.
pub proof fn lemma_scheduled<P>(view: SchedulerView<P>, task: u8, instant: u64, payload: P)
    requires
        view.consistent(),
        view.can_start(task),
    ensures
        view.scheduled(task, instant, payload).consistent(),
{
    let after = view.scheduled(task, instant, payload);
    let level = view.level_of(task);
    let pool = view.pools[task as int];
    let entry = NotReady { instant, task, slot: pool.free[0] };
    let position = rank(view.timer, instant);
    assert(pool.consistent());
    lemma_pool_stays_consistent(pool, payload, 0);
    lemma_in_flight_update(pool.slots, pool.free[0] as int, Some(payload));
    lemma_inserted(view.timer, entry, instant);
    lemma_rank_splits(view.timer, instant);
    assert(pool.slots[pool.free[0] as int] is None);
    assert(!view.in_flight(as_ready(entry)));
    assert forall|e: Ready| view.in_flight(e) implies after.in_flight(e) by {}
    assert(after.in_flight(as_ready(entry)));
    assert forall|j: int| 0 <= j < after.timer.len() implies #[trigger] after.timer[j] == (if j
        < position {
        view.timer[j]
    } else if j == position {
        entry
    } else {
        view.timer[j - 1]
    }) by {}
    assert forall|t: int| 0 <= t < after.tasks.len() implies (#[trigger] after.pools[t]).consistent()
        && after.pools[t].slots.len() == after.tasks[t].capacity by {
        assert(view.pools[t].consistent());
    }
    assert forall|l: u8, i: int| 0 <= i < after.ready[l as int].len() implies after.in_flight(
        #[trigger] after.ready[l as int][i],
    ) && after.tasks[after.ready[l as int][i].task as int].priority == l by {
        assert(view.in_flight(view.ready[l as int][i]));
    }
    assert forall|j: int| 0 <= j < after.timer.len() implies after.in_flight(
        as_ready(#[trigger] after.timer[j]),
    ) by {
        if j < position {
            assert(view.in_flight(as_ready(view.timer[j])));
        } else if j > position {
            assert(view.in_flight(as_ready(view.timer[j - 1])));
        }
    }
    assert forall|i: int, j: int| 0 <= i < j < after.timer.len() implies as_ready(
        #[trigger] after.timer[i],
    ) != as_ready(#[trigger] after.timer[j]) by {
        let a = if i < position {
            i
        } else {
            i - 1
        };
        let b = if j < position {
            j
        } else {
            j - 1
        };
        if i == position {
            assert(view.in_flight(as_ready(view.timer[b])));
        } else if j == position {
            assert(view.in_flight(as_ready(view.timer[a])));
        } else {
            assert(as_ready(view.timer[a]) != as_ready(view.timer[b]));
        }
    }
    assert forall|l: u8, i: int, j: int|
        0 <= i < after.ready[l as int].len() && 0 <= j < after.timer.len()
        implies #[trigger] after.ready[l as int][i]
        != as_ready(#[trigger] after.timer[j]) by {
        assert(view.in_flight(view.ready[l as int][i]));
        if j < position {
            assert(view.ready[l as int][i] != as_ready(view.timer[j]));
        } else if j > position {
            assert(view.ready[l as int][i] != as_ready(view.timer[j - 1]));
        }
    }
    assert(flying(after.pools) =~= flying(view.pools).update(
        task as int,
        in_flight(after.pools[task as int].slots),
    ));
    assert forall|l: u8| #[trigger]
        after.ready[l as int].len() + after.waiting_at(l) == level_sum(
            after.tasks,
            flying(after.pools),
            l,
        ) by {
        lemma_level_sum_update(
            view.tasks,
            flying(view.pools),
            task as int,
            in_flight(after.pools[task as int].slots),
            l,
        );
        lemma_insert_filter_len(view.timer, position, entry, at_level(view.tasks, l));
        assert(view.ready[l as int].len() + view.waiting_at(l) == level_sum(
            view.tasks,
            flying(view.pools),
            l,
        ));
    }
    lemma_timer_has_room(view, task as int);
    lemma_total_update(
        flying(view.pools),
        task as int,
        in_flight(after.pools[task as int].slots),
    );
}

/// The move of the earliest entry of the timer queue to its ready queue
/// keeps the scheduler in order.
pub proof fn lemma_promoted<P>(view: SchedulerView<P>)
    requires
        view.consistent(),
        view.timer.len() > 0,
    ensures
        view.promoted().consistent(),
{
    let after = view.promoted();
    let first = view.timer[0];
    assert(view.in_flight(as_ready(first)));
    let level = view.level_of(first.task);
    lemma_ready_has_room(view, 0, 0);
    assert forall|i: int, j: int| 0 <= i < j < after.timer.len() implies (
    #[trigger] after.timer[i]).instant <= (#[trigger] after.timer[j]).instant by {
        assert(view.timer[i + 1].instant <= view.timer[j + 1].instant);
    }
    assert forall|l: u8, i: int| 0 <= i < after.ready[l as int].len() implies after.in_flight(
        #[trigger] after.ready[l as int][i],
    ) && after.tasks[after.ready[l as int][i].task as int].priority == l by {
        if l == level && i == view.ready[l as int].len() {
        } else {
            assert(view.in_flight(view.ready[l as int][i]));
        }
    }
    assert forall|j: int| 0 <= j < after.timer.len() implies after.in_flight(
        as_ready(#[trigger] after.timer[j]),
    ) by {
        assert(view.in_flight(as_ready(view.timer[j + 1])));
    }
    assert forall|l: u8, i: int, j: int|
        0 <= i < j < after.ready[l as int].len() implies #[trigger] after.ready[l as int][i]
        != #[trigger] after.ready[l as int][j] by {
        if l == level && j == view.ready[l as int].len() {
            assert(view.ready[l as int][i] != as_ready(view.timer[0]));
        } else {
            assert(view.ready[l as int][i] != view.ready[l as int][j]);
        }
    }
    assert forall|i: int, j: int| 0 <= i < j < after.timer.len() implies as_ready(
        #[trigger] after.timer[i],
    ) != as_ready(#[trigger] after.timer[j]) by {
        assert(as_ready(view.timer[i + 1]) != as_ready(view.timer[j + 1]));
    }
    assert forall|l: u8, i: int, j: int|
        0 <= i < after.ready[l as int].len() && 0 <= j < after.timer.len()
        implies #[trigger] after.ready[l as int][i]
        != as_ready(#[trigger] after.timer[j]) by {
        if l == level && i == view.ready[l as int].len() {
            assert(as_ready(view.timer[0]) != as_ready(view.timer[j + 1]));
        } else {
            assert(view.ready[l as int][i] != as_ready(view.timer[j + 1]));
        }
    }
    assert forall|l: u8| #[trigger]
        after.ready[l as int].len() + after.waiting_at(l) == level_sum(
            after.tasks,
            flying(after.pools),
            l,
        ) by {
        lemma_drop_first_filter_len(view.timer, at_level(view.tasks, l));
        assert(view.ready[l as int].len() + view.waiting_at(l) == level_sum(
            view.tasks,
            flying(view.pools),
            l,
        ));
    }
    assert(lengths(after.ready) =~= lengths(view.ready).update(
        level as int,
        after.ready[level as int].len(),
    ));
    lemma_total_update(lengths(view.ready), level as int, after.ready[level as int].len());
}

/// The dispatch of the oldest entry of a ready queue keeps the scheduler
/// in order, and the slot that the entry names holds a payload.
pub proof fn lemma_dispatched<P>(view: SchedulerView<P>, level: u8)
    requires
        view.consistent(),
        view.ready[level as int].len() > 0,
    ensures
        view.in_flight(view.ready[level as int][0]),
        view.dispatched(level).consistent(),
{
    let after = view.dispatched(level);
    let entry = view.ready[level as int][0];
    assert(view.in_flight(entry));
    let pool = view.pools[entry.task as int];
    assert(pool.consistent());
    lemma_pool_stays_consistent(pool, arbitrary(), entry.slot);
    lemma_in_flight_update(pool.slots, entry.slot as int, None);
    assert forall|e: Ready| view.in_flight(e) && e != entry implies after.in_flight(e) by {}
    assert forall|t: int| 0 <= t < after.tasks.len() implies (#[trigger] after.pools[t]).consistent()
        && after.pools[t].slots.len() == after.tasks[t].capacity by {
        assert(view.pools[t].consistent());
    }
    assert forall|l: u8, i: int| 0 <= i < after.ready[l as int].len() implies after.in_flight(
        #[trigger] after.ready[l as int][i],
    ) && after.tasks[after.ready[l as int][i].task as int].priority == l by {
        if l == level {
            assert(view.in_flight(view.ready[l as int][i + 1]));
            assert(view.ready[l as int][0] != view.ready[l as int][i + 1]);
        } else {
            assert(view.in_flight(view.ready[l as int][i]));
        }
    }
    assert forall|j: int| 0 <= j < after.timer.len() implies after.in_flight(
        as_ready(#[trigger] after.timer[j]),
    ) by {
        assert(view.in_flight(as_ready(view.timer[j])));
        assert(view.ready[level as int][0] != as_ready(view.timer[j]));
    }
    assert forall|l: u8, i: int, j: int|
        0 <= i < j < after.ready[l as int].len() implies #[trigger] after.ready[l as int][i]
        != #[trigger] after.ready[l as int][j] by {
        if l == level {
            assert(view.ready[l as int][i + 1] != view.ready[l as int][j + 1]);
        } else {
            assert(view.ready[l as int][i] != view.ready[l as int][j]);
        }
    }
    assert forall|l: u8, i: int, j: int|
        0 <= i < after.ready[l as int].len() && 0 <= j < after.timer.len()
        implies #[trigger] after.ready[l as int][i]
        != as_ready(#[trigger] after.timer[j]) by {
        if l == level {
            assert(view.ready[l as int][i + 1] != as_ready(view.timer[j]));
        } else {
            assert(view.ready[l as int][i] != as_ready(view.timer[j]));
        }
    }
    assert(flying(after.pools) =~= flying(view.pools).update(
        entry.task as int,
        in_flight(after.pools[entry.task as int].slots),
    ));
    assert forall|l: u8| #[trigger]
        after.ready[l as int].len() + after.waiting_at(l) == level_sum(
            after.tasks,
            flying(after.pools),
            l,
        ) by {
        lemma_level_sum_update(
            view.tasks,
            flying(view.pools),
            entry.task as int,
            in_flight(after.pools[entry.task as int].slots),
            l,
        );
        assert(view.ready[l as int].len() + view.waiting_at(l) == level_sum(
            view.tasks,
            flying(view.pools),
            l,
        ));
    }
    assert(lengths(after.ready) =~= lengths(view.ready).update(
        level as int,
        after.ready[level as int].len(),
    ));
    lemma_total_update(lengths(view.ready), level as int, after.ready[level as int].len());
    lemma_total_update(
        flying(view.pools),
        entry.task as int,
        in_flight(after.pools[entry.task as int].slots),
    );
}

/// Where every amount is zero, so is every sum.
pub proof fn lemma_level_sum_zero(tasks: Seq<TaskSpec>, amounts: Seq<nat>, level: u8)
    requires
        forall|t: int| 0 <= t < amounts.len() ==> #[trigger] amounts[t] == 0,
    ensures
        level_sum(tasks, amounts, level) == 0,
    decreases tasks.len(),
{
    if tasks.len() > 0 && amounts.len() == tasks.len() {
        assert forall|t: int| 0 <= t < amounts.drop_last().len() implies #[trigger] amounts.drop_last()[t]
            == 0 by {
            assert(amounts[t] == 0);
        }
        lemma_level_sum_zero(tasks.drop_last(), amounts.drop_last(), level);
        assert(amounts[amounts.len() - 1] == 0);
    }
}

/// The highest priority level below `below` whose ready queue holds
/// something.
pub open spec fn busiest(ready: Seq<Seq<Ready>>, below: nat) -> Option<u8>
    decreases below,
{
    if below == 0 {
        None
    } else if ready[below - 1].len() > 0 {
        Some((below - 1) as u8)
    } else {
        busiest(ready, (below - 1) as nat)
    }
}

/// The busiest level holds something, and no level above it does.
pub proof fn lemma_busiest(ready: Seq<Seq<Ready>>, below: nat)
    requires
        below <= LEVELS,
    ensures
        match busiest(ready, below) {
            Some(level) => level < below && ready[level as int].len() > 0 && forall|l: int|
                level < l < below ==> (#[trigger] ready[l]).len() == 0,
            None => forall|l: int| 0 <= l < below ==> (#[trigger] ready[l]).len() == 0,
        },
    decreases below,
{
    if below > 0 && ready[below - 1].len() == 0 {
        lemma_busiest(ready, (below - 1) as nat);
    }
}

/// The sum of the capacities of the tasks of priority `level`.
fn slots_at(tasks: &Vec<TaskSpec>, level: u8) -> (r: usize)
    requires
        tasks@.len() <= 256,
    ensures
        r == level_sum(tasks@, capacities(tasks@), level),
{
    let mut r: usize = 0;
    let mut t: usize = 0;
    while t < tasks.len()
        invariant
            t <= tasks@.len() <= 256,
            r <= 255 * t,
            r == level_sum(tasks@.take(t as int), capacities(tasks@.take(t as int)), level),
        decreases tasks@.len() - t,
    {
        proof {
            let next = tasks@.take(t + 1);
            assert(next.drop_last() =~= tasks@.take(t as int));
            assert(capacities(next).drop_last() =~= capacities(tasks@.take(t as int)));
        }
        if tasks[t].priority == level {
            r = r + tasks[t].capacity as usize;
        }
        t = t + 1;
    }
    assert(tasks@.take(t as int) =~= tasks@);
    r
}

/// The sum of the capacities of the tasks.
fn total_slots(tasks: &Vec<TaskSpec>) -> (r: usize)
    requires
        tasks@.len() <= 256,
    ensures
        r == total(capacities(tasks@)),
{
    let mut r: usize = 0;
    let mut t: usize = 0;
    while t < tasks.len()
        invariant
            t <= tasks@.len() <= 256,
            r <= 255 * t,
            r == total(capacities(tasks@.take(t as int))),
        decreases tasks@.len() - t,
    {
        proof {
            let next = tasks@.take(t + 1);
            assert(capacities(next).drop_last() =~= capacities(tasks@.take(t as int)));
        }
        r = r + tasks[t].capacity as usize;
        t = t + 1;
    }
    assert(tasks@.take(t as int) =~= tasks@);
    r
}

/// The scheduler of a core: the slots of each task, a ready queue for
/// each priority level, and the timer queue. A task is started at once by
/// a spawn, or at an instant by a schedule; the handler of the timer
/// interrupt moves what is due to the ready queues; a dispatch runs what
/// is ready, the highest priority first.
pub struct Scheduler<P> {
    tasks: Vec<TaskSpec>,
    pools: Vec<SlotPool<P>>,
    ready: Vec<Queue<Ready>>,
    timer: TimerQueue,
}

impl<P> Scheduler<P> {
    /// What the scheduler holds.
    pub closed spec fn view(&self) -> SchedulerView<P> {
        SchedulerView {
            tasks: self.tasks@,
            pools: Seq::new(self.pools@.len(), |t: int| self.pools@[t]@),
            ready: Seq::new(self.ready@.len(), |l: int| self.ready@[l]@),
            room: Seq::new(self.ready@.len(), |l: int| self.ready@[l].capacity()),
            timer: self.timer@,
            timer_room: self.timer.capacity(),
        }
    }

    /// A scheduler for `tasks`, with nothing pending. A task is known by
    /// its place in `tasks`. The ready queue of a priority level is made
    /// for the slots of all tasks of that priority, the timer queue for
    /// the slots of all tasks. The tasks must be few enough to be told
    /// apart by a number of eight bits, and the tasks of one priority must
    /// not declare more than 255 slots together.
    pub fn new(tasks: Vec<TaskSpec>) -> (r: Result<Scheduler<P>, ConfigError>)
        ensures
            r is Ok <==> tasks@.len() <= 256 && forall|level: u8|
                level_sum(tasks@, capacities(tasks@), level) <= 255,
            r is Ok ==> ({
                let view = r->Ok_0@;
                &&& view.consistent()
                &&& view.tasks == tasks@
                &&& view.timer == Seq::<NotReady>::empty()
                &&& view.timer_room == total(capacities(tasks@))
                &&& forall|level: u8| #[trigger] view.ready[level as int] == Seq::<Ready>::empty()
                &&& forall|level: u8| #[trigger]
                    view.room[level as int] == next_power_of_two(
                        level_sum(tasks@, capacities(tasks@), level),
                    )
                &&& forall|t: int|
                    0 <= t < tasks@.len() ==> #[trigger] view.pools[t] == (PoolView {
                        slots: Seq::new(tasks@[t].capacity as nat, |i: int| None::<P>),
                        free: Seq::new(tasks@[t].capacity as nat, |i: int| i as u8),
                    })
            }),
            r is Err ==> match r->Err_0 {
                ConfigError::TooManyTasks { tasks: count } => count == tasks@.len() && count > 256,
                ConfigError::TooManySlots { level, slots } => tasks@.len() <= 256 && slots
                    == level_sum(tasks@, capacities(tasks@), level) && slots > 255,
                _ => false,
            },
    {
        if tasks.len() > 256 {
            return Err(ConfigError::TooManyTasks { tasks: tasks.len() });
        }
        let ghost declared = tasks@;
        let mut ready: Vec<Queue<Ready>> = Vec::new();
        let mut level: usize = 0;
        while level < LEVELS
            invariant
                level <= LEVELS,
                tasks@.len() <= 256,
                ready@.len() == level,
                forall|l: int|
                    0 <= l < level ==> (#[trigger] ready@[l])@ == Seq::<Ready>::empty() && level_sum(
                        tasks@,
                        capacities(tasks@),
                        l as u8,
                    ) <= 255 && level_sum(tasks@, capacities(tasks@), l as u8)
                        <= ready@[l].capacity() && ready@[l].capacity() == next_power_of_two(
                        level_sum(tasks@, capacities(tasks@), l as u8),
                    ),
            decreases LEVELS - level,
        {
            let slots = slots_at(&tasks, level as u8);
            if slots > 255 {
                return Err(ConfigError::TooManySlots { level: level as u8, slots });
            }
            ready.push(Queue::new(slots as u8));
            level = level + 1;
        }
        let mut pools: Vec<SlotPool<P>> = Vec::new();
        let mut t: usize = 0;
        while t < tasks.len()
            invariant
                t <= tasks@.len(),
                pools@.len() == t,
                forall|k: int|
                    0 <= k < t ==> (#[trigger] pools@[k])@.consistent() && pools@[k]@ == (PoolView {
                        slots: Seq::new(tasks@[k].capacity as nat, |i: int| None::<P>),
                        free: Seq::new(tasks@[k].capacity as nat, |i: int| i as u8),
                    }),
            decreases tasks@.len() - t,
        {
            pools.push(SlotPool::new(tasks[t].capacity));
            t = t + 1;
        }
        let timer = TimerQueue::new(total_slots(&tasks));
        let s = Scheduler { tasks, pools, ready, timer };
        proof {
            let view = s@;
            assert(view.tasks == declared);
            assert(declared.len() <= 256);
            assert forall|level: u8| level_sum(declared, capacities(declared), level) <= 255 by {
                assert(s.ready@[level as int]@ == Seq::<Ready>::empty());
            }
            assert forall|level: u8| #[trigger]
                view.room[level as int] == next_power_of_two(
                    level_sum(declared, capacities(declared), level),
                ) by {
                assert(s.ready@[level as int]@ == Seq::<Ready>::empty());
            }
            assert forall|level: u8| #[trigger] view.ready[level as int] == Seq::<Ready>::empty() by {
                assert(s.ready@[level as int]@ == Seq::<Ready>::empty());
            }
            assert forall|k: int| 0 <= k < view.tasks.len() implies (#[trigger] view.pools[k]).consistent()
                && view.pools[k].slots.len() == view.tasks[k].capacity && in_flight(
                view.pools[k].slots,
            ) == 0 by {
                assert(s.pools@[k]@.consistent());
            }
            assert forall|level: u8|
                level_sum(view.tasks, capacities(view.tasks), level)
                    <= #[trigger] view.room[level as int] by {
                assert(level_sum(view.tasks, capacities(view.tasks), level)
                    <= s.ready@[level as int].capacity());
            }
            assert forall|level: u8| #[trigger]
                view.ready[level as int].len() + view.waiting_at(level) == level_sum(
                    view.tasks,
                    flying(view.pools),
                    level,
                ) by {
                lemma_level_sum_zero(view.tasks, flying(view.pools), level);
                view.timer.lemma_filter_len(at_level(view.tasks, level));
            }
            lemma_total_zero(lengths(view.ready));
            lemma_total_zero(flying(view.pools));
        }
        Ok(s)
    }

    /// The number of free slots of `task`, and none where there is no
    /// such task.
    pub fn available(&self, task: u8) -> (r: usize)
        ensures
            r == if task < self@.tasks.len() && task < self@.pools.len() {
                self@.pools[task as int].free.len()
            } else {
                0
            },
    {
        if (task as usize) < self.tasks.len() && (task as usize) < self.pools.len() {
            self.pools[task as usize].available()
        } else {
            0
        }
    }

    /// The number of entries in the ready queue of the priority `level`.
    pub fn pending(&self, level: u8) -> (r: usize)
        ensures
            r == if level < self@.ready.len() {
                self@.ready[level as int].len()
            } else {
                0
            },
    {
        if (level as usize) < self.ready.len() {
            self.ready[level as usize].len()
        } else {
            0
        }
    }

    /// The number of entries in the timer queue.
    pub fn waiting(&self) -> (r: usize)
        ensures
            r == self@.timer.len(),
    {
        self.timer.len()
    }

    /// What the timer is set to.
    pub fn alarm(&self) -> (r: Alarm)
        ensures
            r == alarm_for(self@.timer),
    {
        alarm_of(&self.timer)
    }

    /// Starts `task` with `payload`: the payload goes into the first free
    /// slot of the task, and the task with the slot goes into the ready
    /// queue of the task's priority. Where there is no such task, or the
    /// task has no free slot, nothing changes and the payload comes back.
    pub fn spawn(&mut self, task: u8, payload: P) -> (r: Result<(), P>)
        requires
            old(self)@.consistent(),
        ensures
            final(self)@.consistent(),
            r is Ok <==> old(self)@.can_start(task),
            match r {
                Ok(_) => final(self)@ == old(self)@.spawned(task, payload),
                Err(back) => back == payload && final(self)@ == old(self)@,
            },
    {
        if (task as usize) >= self.tasks.len() {
            return Err(payload);
        }
        let ghost before = self@;
        let level = self.tasks[task as usize].priority;
        proof {
            lemma_ready_has_room(before, task as int, 0);
            assert(before.room[level as int] == self.ready@[level as int].capacity());
            assert(before.ready[level as int] == self.ready@[level as int]@);
            assert(before.pools[task as int] == self.pools@[task as int]@);
        }
        match self.pools[task as usize].claim(payload) {
            Ok(slot) => {
                match self.ready[level as usize].try_push(Ready { task, slot }) {
                    Ok(_) => {},
                    Err(_) => unreached(),
                }
                proof {
                    lemma_spawned(before, task, payload);
                    assert(self@.pools =~= before.spawned(task, payload).pools);
                    assert(self@.ready =~= before.spawned(task, payload).ready);
                    assert(self@.room =~= before.room);
                }
                Ok(())
            },
            Err(back) => {
                proof {
                    assert(self@.pools =~= before.pools);
                    assert(self@.ready =~= before.ready);
                    assert(self@.room =~= before.room);
                }
                Err(back)
            },
        }
    }

    /// Starts `task` with `payload` at `instant`: the payload goes into
    /// the first free slot of the task, and the task with the slot and the
    /// instant goes into the timer queue. Where there is no such task, or
    /// the task has no free slot, nothing changes and the payload comes
    /// back, as with a spawn.
    pub fn schedule(&mut self, task: u8, instant: u64, payload: P) -> (r: Result<(), P>)
        requires
            old(self)@.consistent(),
        ensures
            final(self)@.consistent(),
            r is Ok <==> old(self)@.can_start(task),
            match r {
                Ok(_) => final(self)@ == old(self)@.scheduled(task, instant, payload),
                Err(back) => back == payload && final(self)@ == old(self)@,
            },
    {
        if (task as usize) >= self.tasks.len() {
            return Err(payload);
        }
        let ghost before = self@;
        proof {
            assert(before.pools[task as int] == self.pools@[task as int]@);
            if before.can_start(task) {
                lemma_timer_has_room(before, task as int);
            }
        }
        match self.pools[task as usize].claim(payload) {
            Ok(slot) => {
                match self.timer.try_insert(NotReady { instant, task, slot }) {
                    Ok(_) => {},
                    Err(_) => unreached(),
                }
                proof {
                    lemma_scheduled(before, task, instant, payload);
                    assert(self@.pools =~= before.scheduled(task, instant, payload).pools);
                    assert(self@.ready =~= before.ready);
                    assert(self@.room =~= before.room);
                }
                Ok(())
            },
            Err(back) => {
                proof {
                    assert(self@.pools =~= before.pools);
                    assert(self@.ready =~= before.ready);
                    assert(self@.room =~= before.room);
                }
                Err(back)
            },
        }
    }

    /// The highest priority level whose ready queue holds something.
    pub fn busiest_level(&self) -> (r: Option<u8>)
        requires
            self@.consistent(),
        ensures
            r == busiest(self@.ready, LEVELS as nat),
    {
        let mut level: usize = LEVELS;
        while level > 0
            invariant
                level <= LEVELS,
                self.ready@.len() == LEVELS,
                busiest(self@.ready, LEVELS as nat) == busiest(self@.ready, level as nat),
            decreases level,
        {
            level = level - 1;
            assert(self@.ready[level as int] == self.ready@[level as int]@);
            if !self.ready[level].is_empty() {
                return Some(level as u8);
            }
        }
        None
    }

    /// Takes the invocation that is to run next ahead of the code that
    /// runs at `running`: as a dispatch does, but only where the highest
    /// priority that has something ready is above the threshold in force.
    /// While a lock holds the threshold at a ceiling, no task at or below
    /// the ceiling starts.
    pub fn preempt(&mut self, running: &Priority) -> (r: Option<(u8, P)>)
        requires
            old(self)@.consistent(),
        ensures
            final(self)@.consistent(),
            match busiest(old(self)@.ready, LEVELS as nat) {
                Some(level) => if running.masks(level) {
                    r is None && final(self)@ == old(self)@
                } else {
                    let entry = old(self)@.ready[level as int][0];
                    &&& old(self)@.in_flight(entry)
                    &&& r == Some(
                        (
                            entry.task,
                            old(self)@.pools[entry.task as int].slots[entry.slot as int]->0,
                        ),
                    )
                    &&& final(self)@ == old(self)@.dispatched(level)
                },
                None => r is None && final(self)@ == old(self)@,
            },
    {
        match self.busiest_level() {
            Some(level) => if running.admits(level) {
                self.dispatch()
            } else {
                None
            },
            None => None,
        }
    }

    /// Takes the invocation that is to run next: the oldest entry of the
    /// ready queue of the highest priority that holds something leaves its
    /// queue, its payload leaves its slot, and the slot is free again. The
    /// task and the payload are handed out. Where every ready queue is
    /// empty, nothing changes and nothing is handed out.
    #[verifier::loop_isolation(false)]
    pub fn dispatch(&mut self) -> (r: Option<(u8, P)>)
        requires
            old(self)@.consistent(),
        ensures
            final(self)@.consistent(),
            match busiest(old(self)@.ready, LEVELS as nat) {
                Some(level) => {
                    let entry = old(self)@.ready[level as int][0];
                    &&& old(self)@.in_flight(entry)
                    &&& r == Some(
                        (
                            entry.task,
                            old(self)@.pools[entry.task as int].slots[entry.slot as int]->0,
                        ),
                    )
                    &&& final(self)@ == old(self)@.dispatched(level)
                },
                None => r is None && final(self)@ == old(self)@,
            },
    {
        let ghost before = self@;
        let mut level: usize = LEVELS;
        while level > 0
            invariant
                level <= LEVELS,
                self@ == before,
                self.ready@.len() == LEVELS,
                busiest(before.ready, LEVELS as nat) == busiest(before.ready, level as nat),
            decreases level,
        {
            level = level - 1;
            assert(before.ready[level as int] == self.ready@[level as int]@);
            match self.ready[level].try_pop() {
                Some(entry) => {
                    proof {
                        lemma_dispatched(before, level as u8);
                        assert(before.pools[entry.task as int] == self.pools@[entry.task as int]@);
                    }
                    match self.pools[entry.task as usize].release(entry.slot) {
                        Some(payload) => {
                            proof {
                                assert(self@.pools =~= before.dispatched(level as u8).pools);
                                assert(self@.ready =~= before.dispatched(level as u8).ready);
                                assert(self@.room =~= before.room);
                            }
                            return Some((entry.task, payload));
                        },
                        None => unreached(),
                    }
                },
                None => {
                    proof {
                        assert(self@.pools =~= before.pools);
                        assert(self@.ready =~= before.ready);
                        assert(self@.room =~= before.room);
                    }
                },
            }
        }
        None
    }

    /// The handler of the timer interrupt at the instant `now`: every
    /// entry of the timer queue that is due moves to the ready queue of
    /// its task's priority, the earliest first, and the timer is set for
    /// the earliest entry that stays behind, or switched off where none
    /// does. An entry whose instant has passed is moved all the same.
    #[verifier::loop_isolation(false)]
    pub fn on_timer(&mut self, now: u64) -> (r: Alarm)
        requires
            old(self)@.consistent(),
        ensures
            final(self)@.consistent(),
            r == alarm_for(final(self)@.timer),
            final(self)@ == (SchedulerView {
                ready: Seq::new(
                    LEVELS as nat,
                    |l: int|
                        old(self)@.ready[l] + old(self)@.timer.take(
                            rank(old(self)@.timer, now),
                        ).filter(at_level(old(self)@.tasks, l as u8)).map_values(
                            |entry: NotReady| as_ready(entry),
                        ),
                ),
                timer: old(self)@.timer.skip(rank(old(self)@.timer, now)),
                ..old(self)@
            }),
    {
        let ghost before = self@;
        let ghost moved: int = 0;
        let ghost map = |entry: NotReady| as_ready(entry);
        proof {
            assert(before.timer.skip(0) =~= before.timer);
            assert forall|l: int| 0 <= l < LEVELS implies before.ready[l] + before.timer.take(
                0,
            ).filter(at_level(before.tasks, l as u8)).map_values(map) =~= #[trigger] before.ready[l] by {
                before.timer.take(0).lemma_filter_len(at_level(before.tasks, l as u8));
            }
        }
        loop
            invariant
                0 <= moved <= before.timer.len(),
                map == |entry: NotReady| as_ready(entry),
                self@.consistent(),
                self@.tasks == before.tasks,
                self@.pools == before.pools,
                self@.room == before.room,
                self@.timer_room == before.timer_room,
                self@.timer == before.timer.skip(moved),
                forall|i: int| 0 <= i < moved ==> (#[trigger] before.timer[i]).instant <= now,
                forall|l: int|
                    0 <= l < LEVELS ==> #[trigger] self@.ready[l] == before.ready[l]
                        + before.timer.take(moved).filter(at_level(before.tasks, l as u8)).map_values(
                        map,
                    ),
            decreases before.timer.len() - moved,
        {
            let ghost now_view = self@;
            match tick(&mut self.timer, now) {
                Tick::Due(entry) => {
                    proof {
                        assert(entry == before.timer[moved]);
                        assert(now_view.in_flight(as_ready(now_view.timer[0])));
                        lemma_ready_has_room(now_view, 0, 0);
                    }
                    let level = self.tasks[entry.task as usize].priority;
                    proof {
                        assert(now_view.ready[level as int] == self.ready@[level as int]@);
                        assert(now_view.room[level as int] == self.ready@[level as int].capacity());
                    }
                    match self.ready[level as usize].try_push(Ready {
                        task: entry.task,
                        slot: entry.slot,
                    }) {
                        Ok(_) => {},
                        Err(_) => unreached(),
                    }
                    proof {
                        lemma_promoted(now_view);
                        assert(self@.pools =~= now_view.pools);
                        assert(self@.ready =~= now_view.promoted().ready);
                        assert(self@.room =~= now_view.room);
                        assert(self@.timer =~= before.timer.skip(moved + 1));
                        assert(before.timer.take(moved + 1) =~= before.timer.take(moved).push(
                            entry,
                        ));
                        assert forall|l: int| 0 <= l < LEVELS implies #[trigger] self@.ready[l]
                            == before.ready[l] + before.timer.take(moved + 1).filter(
                            at_level(before.tasks, l as u8),
                        ).map_values(map) by {
                            let pred = at_level(before.tasks, l as u8);
                            let sofar = before.timer.take(moved);
                            sofar.lemma_filter_push(entry, pred);
                            assert(self@.ready[l] == now_view.promoted().ready[l]);
                            assert(now_view.ready[l] == before.ready[l] + sofar.filter(
                                pred,
                            ).map_values(map));
                            if l == level {
                                assert(pred(entry));
                                assert(sofar.filter(pred).push(entry).map_values(map)
                                    =~= sofar.filter(pred).map_values(map).push(as_ready(entry)));
                                assert(self@.ready[l] =~= before.ready[l] + sofar.push(
                                    entry,
                                ).filter(pred).map_values(map));
                            } else {
                                assert(!pred(entry));
                            }
                        }
                        moved = moved + 1;
                    }
                },
                Tick::Rest(alarm) => {
                    proof {
                        assert(self@.pools =~= now_view.pools);
                        assert(self@.ready =~= now_view.ready);
                        assert(self@.room =~= now_view.room);
                        if moved < before.timer.len() {
                            assert(self@.timer[0] == before.timer[moved]);
                        }
                        lemma_rank_is(before.timer, now, moved);
                        assert(self@.ready =~= Seq::new(
                            LEVELS as nat,
                            |l: int|
                                before.ready[l] + before.timer.take(rank(before.timer, now)).filter(
                                    at_level(before.tasks, l as u8),
                                ).map_values(|entry: NotReady| as_ready(entry)),
                        ));
                    }
                    return alarm;
                },
            }
        }
    }
}

} // verus!
