use crate::ident::Name;
use crate::lock::higher;
use crate::lock::Priority;
use vstd::prelude::*;
use vstd::string::*;

verus! {

/// The highest of `priorities`, and zero where there is none.
pub open spec fn highest(priorities: Seq<u8>) -> u8
    decreases priorities.len(),
{
    if priorities.len() == 0 {
        0
    } else {
        higher(highest(priorities.drop_last()), priorities.last())
    }
}

/// Whether every one of `priorities` is `priority`.
pub open spec fn all_at(priorities: Seq<u8>, priority: u8) -> bool {
    forall|i: int| 0 <= i < priorities.len() ==> #[trigger] priorities[i] == priority
}

/// The highest priority is not below any of the priorities, and is one of
/// them where there is any.
pub proof fn lemma_highest(priorities: Seq<u8>)
    ensures
        forall|i: int| 0 <= i < priorities.len() ==> #[trigger] priorities[i] <= highest(priorities),
        priorities.len() > 0 ==> exists|i: int|
            0 <= i < priorities.len() && #[trigger] priorities[i] == highest(priorities),
    decreases priorities.len(),
{
    if priorities.len() > 0 {
        let rest = priorities.drop_last();
        lemma_highest(rest);
        assert forall|i: int| 0 <= i < priorities.len() implies #[trigger] priorities[i]
            <= highest(priorities) by {
            if i < rest.len() {
                assert(rest[i] == priorities[i]);
            }
        }
        if rest.len() > 0 && highest(rest) >= priorities.last() {
            let i = choose|i: int| 0 <= i < rest.len() && #[trigger] rest[i] == highest(rest);
            assert(priorities[i] == highest(priorities));
        } else {
            assert(priorities[priorities.len() - 1] == highest(priorities));
        }
    }
}

/// How the tasks that use a resource stand to it.
#[derive(Clone, Copy, Debug, PartialEq, Eq)]
pub enum Ownership {
    /// One task uses the resource.
    Owned { priority: u8 },
    /// Several tasks use the resource, all of one priority: none of them
    /// preempts another, so none needs a lock.
    CoOwned { priority: u8 },
    /// Tasks of different priorities use the resource: those below the
    /// ceiling need a lock.
    Contended { ceiling: u8 },
}

/// How tasks of the priorities `priorities` stand to a resource that they
/// all use.
pub open spec fn ownership_of(priorities: Seq<u8>) -> Option<Ownership> {
    if priorities.len() == 0 {
        None
    } else if priorities.len() == 1 {
        Some(Ownership::Owned { priority: priorities[0] })
    } else if all_at(priorities, priorities[0]) {
        Some(Ownership::CoOwned { priority: priorities[0] })
    } else {
        Some(Ownership::Contended { ceiling: highest(priorities) })
    }
}

impl Ownership {
    /// The ceiling of the resource: the highest priority among the tasks
    /// that use it.
    pub open spec fn ceiling_spec(self) -> u8 {
        match self {
            Ownership::Owned { priority } => priority,
            Ownership::CoOwned { priority } => priority,
            Ownership::Contended { ceiling } => ceiling,
        }
    }

    /// The ceiling of the resource.
    pub fn ceiling(&self) -> (r: u8)
        ensures
            r == self.ceiling_spec(),
    {
        match self {
            Ownership::Owned { priority } => *priority,
            Ownership::CoOwned { priority } => *priority,
            Ownership::Contended { ceiling } => *ceiling,
        }
    }

    /// Whether a task of priority `priority` must lock the resource to
    /// use it: it must where a task of a higher priority uses it too.
    pub fn needs_lock(&self, priority: u8) -> (r: bool)
        ensures
            r == (self is Contended && priority < self.ceiling_spec()),
    {
        match self {
            Ownership::Contended { ceiling } => priority < *ceiling,
            _ => false,
        }
    }
}

/// The ceiling of a resource that tasks of the priorities `priorities`
/// use: the highest of them.
pub fn ceiling(priorities: &Vec<u8>) -> (r: u8)
    ensures
        r == highest(priorities@),
        forall|i: int| 0 <= i < priorities@.len() ==> #[trigger] priorities@[i] <= r,
        priorities@.len() > 0 ==> exists|i: int|
            0 <= i < priorities@.len() && #[trigger] priorities@[i] == r,
{
    let mut r: u8 = 0;
    let mut i: usize = 0;
    while i < priorities.len()
        invariant
            i <= priorities@.len(),
            r == highest(priorities@.take(i as int)),
        decreases priorities@.len() - i,
    {
        assert(priorities@.take(i + 1).drop_last() =~= priorities@.take(i as int));
        if r < priorities[i] {
            r = priorities[i];
        }
        i = i + 1;
    }
    proof {
        assert(priorities@.take(i as int) =~= priorities@);
        lemma_highest(priorities@);
    }
    r
}

/// How tasks of the priorities `priorities` stand to a resource that they
/// all use; nothing where no task uses it.
pub fn ownership(priorities: &Vec<u8>) -> (r: Option<Ownership>)
    ensures
        r == ownership_of(priorities@),
        r is Some ==> r->0.ceiling_spec() == highest(priorities@),
{
    proof {
        lemma_highest(priorities@);
    }
    if priorities.len() == 0 {
        return None;
    }
    let first = priorities[0];
    if priorities.len() == 1 {
        assert(priorities@.drop_last() =~= Seq::<u8>::empty());
        return Some(Ownership::Owned { priority: first });
    }
    let mut i: usize = 1;
    while i < priorities.len()
        invariant
            1 <= i <= priorities@.len(),
            first == priorities@[0],
            forall|j: int| 0 <= j < i ==> #[trigger] priorities@[j] == first,
        decreases priorities@.len() - i,
    {
        if priorities[i] != first {
            return Some(Ownership::Contended { ceiling: ceiling(priorities) });
        }
        i = i + 1;
    }
    Some(Ownership::CoOwned { priority: first })
}

/// How the lock of a resource reads the priority of the code that takes
/// it.
#[derive(Clone, Copy, Debug, PartialEq, Eq)]
pub enum PriorityAccess {
    /// From a field of the handle.
    Field,
    /// By a call of a method of the handle.
    Method,
}

/// The lock of one resource, as it is generated: where the handle is
/// found, how it reads the priority, and the ceiling that the lock raises
/// the priority to.
pub struct MutexImpl {
    pub path: Vec<Name>,
    pub priority: PriorityAccess,
    pub ceiling: u8,
}

/// The path of the handle of the resource `name`: the name itself, or the
/// name inside the module of the resources.
pub open spec fn handle_path(resources_prefix: bool, name: Seq<char>) -> Seq<Seq<char>> {
    if resources_prefix {
        seq!["resources"@, name]
    } else {
        seq![name]
    }
}

impl MutexImpl {
    /// The path of the handle, segment by segment.
    pub open spec fn path_spec(&self) -> Seq<Seq<char>> {
        Seq::new(self.path@.len(), |i: int| self.path@[i]@)
    }

    /// Runs `body` on `resource` under this lock, for code that runs at
    /// `priority`.
    pub fn lock<T, R, F: FnOnce(&mut Priority, &mut T) -> R>(
        &self,
        priority: &mut Priority,
        resource: &mut T,
        body: F,
    ) -> (r: R)
        requires
            old(priority).base() <= self.ceiling,
            forall|p: &mut Priority, x: &mut T|
                p.base() == old(priority).base() && p.threshold() == higher(
                    old(priority).threshold(),
                    self.ceiling,
                ) && *x == *old(resource) ==> #[trigger] call_requires(body, (p, x)),
        ensures
            *final(priority) == *old(priority),
            exists|p: &mut Priority, x: &mut T|
                p.base() == old(priority).base() && p.threshold() == higher(
                    old(priority).threshold(),
                    self.ceiling,
                ) && *x == *old(resource) && *final(x) == *final(resource) && #[trigger] call_ensures(
                    body,
                    (p, x),
                    r,
                ),
    {
        priority.lock(self.ceiling, resource, body)
    }
}

/// The lock of the resource `name` with the ceiling `ceiling`. A handle
/// that stands in the module of the resources reads the priority by a
/// method, any other from a field.
pub fn impl_mutex(resources_prefix: bool, name: &Name, ceiling: u8) -> (r: MutexImpl)
    ensures
        r.path_spec() == handle_path(resources_prefix, name@),
        r.priority == if resources_prefix {
            PriorityAccess::Method
        } else {
            PriorityAccess::Field
        },
        r.ceiling == ceiling,
{
    let mut path: Vec<Name> = Vec::new();
    let priority = if resources_prefix {
        proof {
            reveal_strlit("resources");
        }
        path.push(Name::from_valid(String::from_str("resources")));
        PriorityAccess::Method
    } else {
        PriorityAccess::Field
    };
    path.push(name.duplicate());
    let r = MutexImpl { path, priority, ceiling };
    assert(r.path_spec() =~= handle_path(resources_prefix, name@));
    r
}

} // verus!
