use vstd::prelude::*;

verus! {

/// The larger of two priorities.
pub open spec fn higher(a: u8, b: u8) -> u8 {
    if a < b {
        b
    } else {
        a
    }
}

/// The priority at which code runs on a core: the static priority of the
/// running task, and the threshold to which the locks it holds have raised
/// it. While the threshold stands, no task at or below it starts on the
/// core.
pub struct Priority {
    base: u8,
    current: u8,
}

impl Priority {
    #[verifier::type_invariant]
    spec fn well_formed(&self) -> bool {
        self.base <= self.current
    }

    /// The static priority of the running task.
    pub closed spec fn base(&self) -> u8 {
        self.base
    }

    /// The threshold that is in force.
    pub closed spec fn threshold(&self) -> u8 {
        self.current
    }

    /// Whether a task of priority `priority` is kept from starting.
    pub open spec fn masks(&self, priority: u8) -> bool {
        priority <= self.threshold()
    }

    /// The priority of a task that starts to run with static priority
    /// `priority` and holds no lock.
    pub fn new(priority: u8) -> (p: Priority)
        ensures
            p.base() == priority,
            p.threshold() == priority,
    {
        Priority { base: priority, current: priority }
    }

    /// The threshold that is in force.
    pub fn get(&self) -> (r: u8)
        ensures
            r == self.threshold(),
            self.base() <= r,
    {
        proof {
            use_type_invariant(self);
        }
        self.current
    }

    /// Whether a task of priority `priority` may start now, ahead of the
    /// running code.
    pub fn admits(&self, priority: u8) -> (r: bool)
        ensures
            r == !self.masks(priority),
    {
        priority > self.current
    }

    /// Runs `body` on `resource` with the threshold raised to `ceiling`,
    /// the ceiling of the resource, and hands back what `body` returns.
    /// The threshold is raised at once, without waiting, and only if it is
    /// below the ceiling; when `body` is done, the priority is what it was
    /// before the call, so locks nest.
    pub fn lock<T, R, F: FnOnce(&mut Priority, &mut T) -> R>(
        &mut self,
        ceiling: u8,
        resource: &mut T,
        body: F,
    ) -> (r: R)
        requires
            old(self).base() <= ceiling,
            forall|p: &mut Priority, x: &mut T|
                p.base() == old(self).base() && p.threshold() == higher(
                    old(self).threshold(),
                    ceiling,
                ) && *x == *old(resource) ==> #[trigger] call_requires(body, (p, x)),
        ensures
            *final(self) == *old(self),
            exists|p: &mut Priority, x: &mut T|
                p.base() == old(self).base() && p.threshold() == higher(
                    old(self).threshold(),
                    ceiling,
                ) && *x == *old(resource) && *final(x) == *final(resource) && #[trigger] call_ensures(
                    body,
                    (p, x),
                    r,
                ),
    {
        proof {
            use_type_invariant(&*self);
        }
        let base = self.base;
        let saved = self.current;
        if saved < ceiling {
            self.current = ceiling;
        }
        let r = body(self, resource);
        *self = Priority { base, current: saved };
        r
    }
}

/// What is active on a core, innermost last: a task that has started and
/// not yet returned, or a lock on a resource that is held.
pub enum Frame {
    Task { priority: u8 },
    Lock { resource: nat },
}

/// What can happen on a core: a task of some priority starts ahead of the
/// running code, the running code locks a resource, the lock taken last is
/// given back, or the running task returns.
pub enum Step {
    Preempt { priority: u8 },
    Lock { resource: nat },
    Unlock,
    Return,
}

/// The static priority of the running task: that of the innermost task,
/// and zero where no task has started.
pub open spec fn running(frames: Seq<Frame>) -> u8
    decreases frames.len(),
{
    if frames.len() == 0 {
        0
    } else {
        match frames.last() {
            Frame::Task { priority } => priority,
            Frame::Lock { .. } => running(frames.drop_last()),
        }
    }
}

/// The threshold in force: the highest among the priorities of the tasks
/// that have started and the ceilings of the locks that are held.
pub open spec fn level(ceilings: spec_fn(nat) -> u8, frames: Seq<Frame>) -> u8
    decreases frames.len(),
{
    if frames.len() == 0 {
        0
    } else {
        match frames.last() {
            Frame::Task { priority } => higher(level(ceilings, frames.drop_last()), priority),
            Frame::Lock { resource } => higher(
                level(ceilings, frames.drop_last()),
                ceilings(resource),
            ),
        }
    }
}

/// Whether the running task itself holds a lock on `resource`.
pub open spec fn held_by_running(frames: Seq<Frame>, resource: nat) -> bool
    decreases frames.len(),
{
    if frames.len() == 0 {
        false
    } else {
        match frames.last() {
            Frame::Task { .. } => false,
            Frame::Lock { resource: held } => held == resource || held_by_running(
                frames.drop_last(),
                resource,
            ),
        }
    }
}

/// A lock raises the threshold as `Priority::lock` does: to the ceiling of
/// the resource, unless it is there or above already.
pub proof fn lemma_lock_raises_level(
    ceilings: spec_fn(nat) -> u8,
    frames: Seq<Frame>,
    resource: nat,
)
    ensures
        level(ceilings, after(frames, Step::Lock { resource })) == higher(
            level(ceilings, frames),
            ceilings(resource),
        ),
        level(ceilings, after(after(frames, Step::Lock { resource }), Step::Unlock)) == level(
            ceilings,
            frames,
        ),
{
    let locked = after(frames, Step::Lock { resource });
    assert(locked.drop_last() =~= frames);
}

/// Whether `step` can happen. A task starts only above the threshold. The
/// running code locks only a resource whose ceiling is not below its own
/// static priority, which is what the ceilings are computed for, and only
/// one that it does not hold already, since a lock borrows the resource
/// for as long as it is held.
pub open spec fn enabled(ceilings: spec_fn(nat) -> u8, frames: Seq<Frame>, step: Step) -> bool {
    match step {
        Step::Preempt { priority } => priority > level(ceilings, frames),
        Step::Lock { resource } => running(frames) <= ceilings(resource) && !held_by_running(
            frames,
            resource,
        ),
        Step::Unlock => frames.len() > 0 && frames.last() is Lock,
        Step::Return => frames.len() > 0 && frames.last() is Task,
    }
}

/// What is active after `step`.
pub open spec fn after(frames: Seq<Frame>, step: Step) -> Seq<Frame> {
    match step {
        Step::Preempt { priority } => frames.push(Frame::Task { priority }),
        Step::Lock { resource } => frames.push(Frame::Lock { resource }),
        Step::Unlock => frames.drop_last(),
        Step::Return => frames.drop_last(),
    }
}

/// Whether each of `steps` can happen in turn, starting from an idle core.
pub open spec fn possible(ceilings: spec_fn(nat) -> u8, steps: Seq<Step>) -> bool
    decreases steps.len(),
{
    steps.len() > 0 ==> possible(ceilings, steps.drop_last()) && enabled(
        ceilings,
        outcome(steps.drop_last()),
        steps.last(),
    )
}

/// What is active after `steps`, starting from an idle core.
pub open spec fn outcome(steps: Seq<Step>) -> Seq<Frame>
    decreases steps.len(),
{
    if steps.len() == 0 {
        Seq::empty()
    } else {
        after(outcome(steps.drop_last()), steps.last())
    }
}

/// Whether no resource is locked twice.
pub open spec fn exclusive(frames: Seq<Frame>) -> bool {
    forall|i: int, j: int|
        0 <= i < j < frames.len() && (#[trigger] frames[i]) is Lock && (#[trigger] frames[j]) is Lock
            ==> frames[i]->resource != frames[j]->resource
}

/// Whether every task that has started did so above the threshold that was
/// then in force.
pub open spec fn layered(ceilings: spec_fn(nat) -> u8, frames: Seq<Frame>) -> bool {
    forall|j: int|
        0 <= j < frames.len() && (#[trigger] frames[j]) is Task ==> frames[j]->priority > level(
            ceilings,
            frames.take(j),
        )
}

/// A lock that is held keeps the threshold at its ceiling or above.
pub proof fn lemma_level_covers(ceilings: spec_fn(nat) -> u8, frames: Seq<Frame>, i: int)
    requires
        0 <= i < frames.len(),
        frames[i] is Lock,
    ensures
        ceilings(frames[i]->resource) <= level(ceilings, frames),
    decreases frames.len(),
{
    if i < frames.len() - 1 {
        lemma_level_covers(ceilings, frames.drop_last(), i);
    }
}

/// The threshold only rises as more becomes active.
pub proof fn lemma_level_rises(ceilings: spec_fn(nat) -> u8, frames: Seq<Frame>, n: int)
    requires
        0 <= n <= frames.len(),
    ensures
        level(ceilings, frames.take(n)) <= level(ceilings, frames),
    decreases frames.len(),
{
    if n < frames.len() {
        lemma_level_rises(ceilings, frames.drop_last(), n);
        assert(frames.drop_last().take(n) =~= frames.take(n));
    } else {
        assert(frames.take(n) =~= frames);
    }
}

/// A lock on `resource` that is held, and not by the running task, is
/// held by a task that the running task has preempted: the running task's
/// priority is then above the resource's ceiling.
proof fn lemma_lock_below(ceilings: spec_fn(nat) -> u8, frames: Seq<Frame>, i: int)
    requires
        layered(ceilings, frames),
        0 <= i < frames.len(),
        frames[i] is Lock,
        !held_by_running(frames, frames[i]->resource),
    ensures
        running(frames) > ceilings(frames[i]->resource),
    decreases frames.len(),
{
    let last = frames.len() - 1;
    match frames.last() {
        Frame::Task { priority } => {
            assert(frames[last] is Task);
            lemma_level_covers(ceilings, frames.take(last), i);
        },
        Frame::Lock { resource } => {
            let rest = frames.drop_last();
            assert forall|j: int|
                0 <= j < rest.len() && (#[trigger] rest[j]) is Task implies rest[j]->priority
                > level(ceilings, rest.take(j)) by {
                assert(frames[j] is Task);
                assert(rest.take(j) =~= frames.take(j));
            }
            lemma_lock_below(ceilings, rest, i);
        },
    }
}

/// A step that can happen keeps every resource locked at most once.
pub proof fn lemma_step_keeps_exclusive(
    ceilings: spec_fn(nat) -> u8,
    frames: Seq<Frame>,
    step: Step,
)
    requires
        exclusive(frames),
        layered(ceilings, frames),
        enabled(ceilings, frames, step),
    ensures
        exclusive(after(frames, step)),
        layered(ceilings, after(frames, step)),
{
    let next = after(frames, step);
    let n = frames.len() as int;
    match step {
        Step::Preempt { priority } => {
            assert forall|j: int|
                0 <= j < next.len() && (#[trigger] next[j]) is Task implies next[j]->priority
                > level(ceilings, next.take(j)) by {
                assert(next.take(j) =~= frames.take(j));
                if j < n {
                    assert(frames[j] is Task);
                } else {
                    assert(frames.take(j) =~= frames);
                }
            }
        },
        Step::Lock { resource } => {
            assert forall|j: int|
                0 <= j < next.len() && (#[trigger] next[j]) is Task implies next[j]->priority
                > level(ceilings, next.take(j)) by {
                assert(next.take(j) =~= frames.take(j));
                assert(frames[j] is Task);
            }
            assert forall|i: int, j: int|
                0 <= i < j < next.len() && (#[trigger] next[i]) is Lock && (
                #[trigger] next[j]) is Lock implies next[i]->resource != next[j]->resource by {
                if j == n {
                    if frames[i]->resource == resource {
                        lemma_lock_below(ceilings, frames, i);
                    }
                } else {
                    assert(frames[i] is Lock && frames[j] is Lock);
                }
            }
        },
        Step::Unlock => {
            assert forall|j: int|
                0 <= j < next.len() && (#[trigger] next[j]) is Task implies next[j]->priority
                > level(ceilings, next.take(j)) by {
                assert(next.take(j) =~= frames.take(j));
                assert(frames[j] is Task);
            }
            assert forall|i: int, j: int|
                0 <= i < j < next.len() && (#[trigger] next[i]) is Lock && (
                #[trigger] next[j]) is Lock implies next[i]->resource != next[j]->resource by {
                assert(frames[i] is Lock && frames[j] is Lock);
            }
        },
        Step::Return => {
            assert forall|j: int|
                0 <= j < next.len() && (#[trigger] next[j]) is Task implies next[j]->priority
                > level(ceilings, next.take(j)) by {
                assert(next.take(j) =~= frames.take(j));
                assert(frames[j] is Task);
            }
            assert forall|i: int, j: int|
                0 <= i < j < next.len() && (#[trigger] next[i]) is Lock && (
                #[trigger] next[j]) is Lock implies next[i]->resource != next[j]->resource by {
                assert(frames[i] is Lock && frames[j] is Lock);
            }
        },
    }
}

/// Whatever happens on a core, in whatever order, no resource is ever
/// locked twice: while a task is inside a lock on a resource, no other
/// task is, though tasks preempt one another.
pub proof fn lemma_mutual_exclusion(ceilings: spec_fn(nat) -> u8, steps: Seq<Step>)
    requires
        possible(ceilings, steps),
    ensures
        exclusive(outcome(steps)),
        layered(ceilings, outcome(steps)),
    decreases steps.len(),
{
    if steps.len() > 0 {
        lemma_mutual_exclusion(ceilings, steps.drop_last());
        lemma_step_keeps_exclusive(ceilings, outcome(steps.drop_last()), steps.last());
    }
}

/// While a lock on a resource is held, a task that may lock the resource,
/// its priority being at or below the ceiling, cannot start.
pub proof fn lemma_ceiling_masks(
    ceilings: spec_fn(nat) -> u8,
    frames: Seq<Frame>,
    i: int,
    priority: u8,
)
    requires
        0 <= i < frames.len(),
        frames[i] is Lock,
        priority <= ceilings(frames[i]->resource),
    ensures
        !enabled(ceilings, frames, Step::Preempt { priority }),
{
    lemma_level_covers(ceilings, frames, i);
}

} // verus!
