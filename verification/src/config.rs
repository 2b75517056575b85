use crate::names::Core;
use vstd::prelude::*;

verus! {

/// What can be wrong with the description of an application. Each of
/// these is found before the system runs, never while it runs.
#[derive(Clone, Copy, Debug, PartialEq, Eq)]
pub enum ConfigError {
    /// The ceiling of a resource is below the priority of the task with
    /// the given number among those that use it.
    CeilingTooLow { task: usize, priority: u8, ceiling: u8 },
    /// The barriers make cores wait for one another in a circle: the
    /// given core is one that could never start.
    BarrierCycle { core: Core },
    /// There are more tasks than a task's number can tell apart.
    TooManyTasks { tasks: usize },
    /// The tasks of the given priority declare more slots together than
    /// a ready queue can hold.
    TooManySlots { level: u8, slots: usize },
}

/// Whether `ceiling` is not below any of `priorities`.
pub open spec fn covers(ceiling: u8, priorities: Seq<u8>) -> bool {
    forall|i: int| 0 <= i < priorities.len() ==> #[trigger] priorities[i] <= ceiling
}

/// Holds a ceiling against the priorities of the tasks that use the
/// resource: it must not be below any of them. The first task above the
/// ceiling is named in the error.
pub fn check_ceiling(ceiling: u8, priorities: &Vec<u8>) -> (r: Result<(), ConfigError>)
    ensures
        r is Ok <==> covers(ceiling, priorities@),
        r is Err ==> {
            let e = r->Err_0;
            &&& e is CeilingTooLow
            &&& e->ceiling == ceiling
            &&& e->task < priorities@.len()
            &&& e->priority == priorities@[e->task as int]
            &&& e->priority > ceiling
            &&& covers(ceiling, priorities@.take(e->task as int))
        },
{
    let mut i: usize = 0;
    while i < priorities.len()
        invariant
            i <= priorities@.len(),
            covers(ceiling, priorities@.take(i as int)),
        decreases priorities@.len() - i,
    {
        if priorities[i] > ceiling {
            return Err(ConfigError::CeilingTooLow { task: i, priority: priorities[i], ceiling });
        }
        assert forall|j: int| 0 <= j < i + 1 implies #[trigger] priorities@.take(i + 1)[j]
            <= ceiling by {
            if j < i {
                assert(priorities@.take(i as int)[j] <= ceiling);
            }
        }
        i = i + 1;
    }
    assert(priorities@.take(i as int) =~= priorities@);
    Ok(())
}

/// Whether `order` lets every core start after the cores it waits for.
/// A pair in `waits` names a core that waits and the core it waits for.
pub open spec fn in_order(waits: Seq<(Core, Core)>, order: spec_fn(Core) -> nat) -> bool {
    forall|i: int| 0 <= i < waits.len() ==> order((#[trigger] waits[i]).1) < order(waits[i].0)
}

/// Whether the cores can start: whether there is an order in which each
/// core starts after the cores it waits for. There is none exactly where
/// cores wait for one another in a circle.
pub open spec fn startable(waits: Seq<(Core, Core)>) -> bool {
    exists|order: spec_fn(Core) -> nat| in_order(waits, order)
}

/// Whether `core` waits for no core that has not started.
pub open spec fn unblocked(waits: Seq<(Core, Core)>, started: Seq<bool>, core: Core) -> bool {
    forall|i: int|
        0 <= i < waits.len() && (#[trigger] waits[i]).0 == core ==> started[waits[i].1 as int]
}

/// The number of cores that have not started.
pub open spec fn pending(started: Seq<bool>) -> nat
    decreases started.len(),
{
    if started.len() == 0 {
        0
    } else {
        pending(started.drop_last()) + if started.last() {
            0nat
        } else {
            1nat
        }
    }
}

/// A core that starts leaves one core less to start.
pub proof fn lemma_pending_start(started: Seq<bool>, core: int)
    requires
        0 <= core < started.len(),
        !started[core],
    ensures
        pending(started.update(core, true)) + 1 == pending(started),
    decreases started.len(),
{
    let after = started.update(core, true);
    if core == started.len() - 1 {
        assert(after.drop_last() =~= started.drop_last());
    } else {
        assert(after.drop_last() =~= started.drop_last().update(core, true));
        lemma_pending_start(started.drop_last(), core);
    }
}

/// Where an order lets each core start after the cores it waits for, and
/// every core that has not started waits for another that has not started,
/// every core has started: a core that has not would begin a chain of
/// waiting cores that descends in the order without end.
pub proof fn lemma_stuck(
    waits: Seq<(Core, Core)>,
    started: Seq<bool>,
    order: spec_fn(Core) -> nat,
    core: Core,
)
    requires
        started.len() == 256,
        in_order(waits, order),
        forall|c: Core| !started[c as int] ==> !unblocked(waits, started, c),
    ensures
        started[core as int],
    decreases order(core),
{
    if !started[core as int] {
        assert(!unblocked(waits, started, core));
        let i = choose|i: int|
            0 <= i < waits.len() && (#[trigger] waits[i]).0 == core && !started[waits[i].1 as int];
        lemma_stuck(waits, started, order, waits[i].1);
    }
}

/// Decides whether `core` waits for no core that has not started.
fn is_unblocked(waits: &Vec<(Core, Core)>, started: &Vec<bool>, core: Core) -> (r: bool)
    requires
        started@.len() == 256,
    ensures
        r == unblocked(waits@, started@, core),
{
    let mut i: usize = 0;
    while i < waits.len()
        invariant
            i <= waits@.len(),
            started@.len() == 256,
            forall|j: int|
                0 <= j < i && (#[trigger] waits@[j]).0 == core ==> started@[waits@[j].1 as int],
        decreases waits@.len() - i,
    {
        if waits[i].0 == core && !started[waits[i].1 as usize] {
            return false;
        }
        i = i + 1;
    }
    true
}

/// Holds the barriers of an application against one another. A pair in
/// `waits` names a core that waits at a barrier while it starts, and the
/// core that releases the barrier when it has started. The cores must be
/// able to start one after another; where they wait for one another in a
/// circle, the error names a core that can never start.
pub fn check_barriers(waits: &Vec<(Core, Core)>) -> (r: Result<(), ConfigError>)
    ensures
        r is Ok <==> startable(waits@),
        r is Err ==> r->Err_0 is BarrierCycle && exists|i: int|
            0 <= i < waits@.len() && (#[trigger] waits@[i]).0 == r->Err_0->core,
{
    let mut started: Vec<bool> = Vec::new();
    while started.len() < 256
        invariant
            started@.len() <= 256,
            forall|c: int| 0 <= c < started@.len() ==> !(#[trigger] started@[c]),
        decreases 256 - started@.len(),
    {
        started.push(false);
    }
    let ghost mut order: Seq<nat> = Seq::new(256, |c: int| 0nat);
    let ghost mut clock: nat = 0;
    let mut progress = true;
    while progress
        invariant
            started@.len() == 256,
            order.len() == 256,
            forall|c: int| 0 <= c < 256 && #[trigger] started@[c] ==> order[c] < clock,
            forall|i: int|
                0 <= i < waits@.len() && started@[(#[trigger] waits@[i]).0 as int]
                    ==> started@[waits@[i].1 as int]
                    && order[waits@[i].1 as int] < order[waits@[i].0 as int],
            !progress ==> forall|c: Core| !started@[c as int] ==> !unblocked(waits@, started@, c),
        decreases pending(started@) + if progress { 1nat } else { 0nat },
    {
        progress = false;
        let ghost at_start = started@;
        let mut core: usize = 0;
        while core < 256
            invariant
                core <= 256,
                started@.len() == 256,
                order.len() == 256,
                at_start.len() == 256,
                forall|c: int| 0 <= c < 256 && #[trigger] started@[c] ==> order[c] < clock,
                forall|i: int|
                    0 <= i < waits@.len() && started@[(#[trigger] waits@[i]).0 as int]
                    ==> started@[waits@[i].1 as int]
                        && order[waits@[i].1 as int] < order[waits@[i].0 as int],
                !progress ==> started@ == at_start,
                !progress ==> forall|c: Core|
                    c < core && !started@[c as int] ==> !unblocked(waits@, started@, c),
                progress ==> pending(started@) < pending(at_start),
                pending(started@) <= pending(at_start),
            decreases 256 - core,
        {
            if !started[core] && is_unblocked(waits, &started, core as u8) {
                proof {
                    lemma_pending_start(started@, core as int);
                    order = order.update(core as int, clock);
                    clock = clock + 1;
                }
                started[core] = true;
                progress = true;
            }
            core = core + 1;
        }
    }
    let mut core: usize = 0;
    while core < 256
        invariant
            core <= 256,
            started@.len() == 256,
            order.len() == 256,
            forall|c: int| 0 <= c < core ==> #[trigger] started@[c],
            forall|i: int|
                0 <= i < waits@.len() && started@[(#[trigger] waits@[i]).0 as int]
                    ==> started@[waits@[i].1 as int]
                    && order[waits@[i].1 as int] < order[waits@[i].0 as int],
            forall|c: Core| !started@[c as int] ==> !unblocked(waits@, started@, c),
        decreases 256 - core,
    {
        if !started[core] {
            proof {
                assert(!unblocked(waits@, started@, core as u8));
                if startable(waits@) {
                    let witness = choose|order: spec_fn(Core) -> nat| in_order(waits@, order);
                    lemma_stuck(waits@, started@, witness, core as u8);
                }
            }
            return Err(ConfigError::BarrierCycle { core: core as u8 });
        }
        core = core + 1;
    }
    proof {
        let witness = |c: Core| order[c as int];
        assert(in_order(waits@, witness)) by {
            assert forall|i: int| 0 <= i < waits@.len() implies witness((#[trigger] waits@[i]).1)
                < witness(waits@[i].0) by {
                assert(started@[waits@[i].0 as int]);
            }
        }
    }
    Ok(())
}

} // verus!
