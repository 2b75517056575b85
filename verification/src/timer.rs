use vstd::prelude::*;

verus! {

/// A task invocation that waits for its instant: the instant at which it
/// is due, the task, and the slot that holds its payload.
#[derive(Clone, Copy, Debug, PartialEq, Eq)]
pub struct NotReady {
    pub instant: u64,
    pub task: u8,
    pub slot: u8,
}

/// Whether the entries stand in the order of their instants, earliest
/// first.
pub open spec fn sorted(entries: Seq<NotReady>) -> bool {
    forall|i: int, j: int|
        0 <= i < j < entries.len() ==> (#[trigger] entries[i]).instant <= (
        #[trigger] entries[j]).instant
}

/// The number of leading entries that are due at `instant` or before it.
pub open spec fn rank(entries: Seq<NotReady>, instant: u64) -> int
    decreases entries.len(),
{
    if entries.len() == 0 {
        0
    } else if entries[0].instant <= instant {
        1 + rank(entries.drop_first(), instant)
    } else {
        0
    }
}

/// The entries after `entry` went in behind every entry that is due at the
/// same instant or before it.
pub open spec fn inserted(entries: Seq<NotReady>, entry: NotReady) -> Seq<NotReady> {
    entries.insert(rank(entries, entry.instant), entry)
}

/// The entries after `entries` went in one by one, in order, starting from
/// `queue`.
pub open spec fn inserted_all(queue: Seq<NotReady>, entries: Seq<NotReady>) -> Seq<NotReady>
    decreases entries.len(),
{
    if entries.len() == 0 {
        queue
    } else {
        inserted(inserted_all(queue, entries.drop_last()), entries.last())
    }
}

/// Whether an entry is due at `instant` exactly.
pub open spec fn due_at(instant: u64) -> spec_fn(NotReady) -> bool {
    |entry: NotReady| entry.instant == instant
}

/// In sorted entries the rank splits those due at the instant or before it
/// from those due later.
pub proof fn lemma_rank_splits(entries: Seq<NotReady>, instant: u64)
    requires
        sorted(entries),
    ensures
        0 <= rank(entries, instant) <= entries.len(),
        forall|i: int|
            0 <= i < rank(entries, instant) ==> (#[trigger] entries[i]).instant <= instant,
        forall|i: int|
            rank(entries, instant) <= i < entries.len() ==> (#[trigger] entries[i]).instant
                > instant,
    decreases entries.len(),
{
    if entries.len() > 0 {
        let rest = entries.drop_first();
        assert forall|i: int, j: int| 0 <= i < j < rest.len() implies (#[trigger] rest[i]).instant
            <= (#[trigger] rest[j]).instant by {
            assert(rest[i] == entries[i + 1]);
            assert(rest[j] == entries[j + 1]);
        }
        lemma_rank_splits(rest, instant);
        if entries[0].instant <= instant {
            assert forall|i: int| 0 <= i < rank(entries, instant) implies (
            #[trigger] entries[i]).instant <= instant by {
                if i > 0 {
                    assert(entries[i] == rest[i - 1]);
                }
            }
            assert forall|i: int| rank(entries, instant) <= i < entries.len() implies (
            #[trigger] entries[i]).instant > instant by {
                assert(entries[i] == rest[i - 1]);
            }
        } else {
            assert forall|i: int| 0 <= i < entries.len() implies (#[trigger] entries[i]).instant
                > instant by {
                if i > 0 {
                    assert(entries[0].instant <= entries[i].instant);
                }
            }
        }
    }
}

/// Where the first `k` entries are due at `instant` or before it, the rank
/// is at least `k`.
pub proof fn lemma_rank_at_least(entries: Seq<NotReady>, instant: u64, k: int)
    requires
        0 <= k <= entries.len(),
        forall|i: int| 0 <= i < k ==> (#[trigger] entries[i]).instant <= instant,
    ensures
        k <= rank(entries, instant) <= entries.len(),
    decreases entries.len(),
{
    if entries.len() > 0 && entries[0].instant <= instant {
        let rest = entries.drop_first();
        if k > 0 {
            assert forall|i: int| 0 <= i < k - 1 implies (#[trigger] rest[i]).instant
                <= instant by {
                assert(rest[i] == entries[i + 1]);
            }
            lemma_rank_at_least(rest, instant, k - 1);
        } else {
            lemma_rank_at_least(rest, instant, 0);
        }
    } else if k > 0 {
        assert(entries[0].instant <= instant);
    }
}

/// Where the first `k` entries are due at `instant` or before it and the
/// next one, if there is one, is due later, the rank is `k`.
pub proof fn lemma_rank_is(entries: Seq<NotReady>, instant: u64, k: int)
    requires
        0 <= k <= entries.len(),
        forall|i: int| 0 <= i < k ==> (#[trigger] entries[i]).instant <= instant,
        k < entries.len() ==> entries[k].instant > instant,
    ensures
        rank(entries, instant) == k,
    decreases entries.len(),
{
    if k > 0 {
        let rest = entries.drop_first();
        assert(entries[0].instant <= instant);
        assert forall|i: int| 0 <= i < k - 1 implies (#[trigger] rest[i]).instant <= instant by {
            assert(rest[i] == entries[i + 1]);
        }
        if k - 1 < rest.len() {
            assert(rest[k - 1] == entries[k]);
        }
        lemma_rank_is(rest, instant, k - 1);
    }
}

/// An entry that goes into sorted entries leaves them sorted, one longer,
/// and, among the entries due at any one instant, behind those that were
/// there before it.
pub proof fn lemma_inserted(entries: Seq<NotReady>, entry: NotReady, instant: u64)
    requires
        sorted(entries),
    ensures
        sorted(inserted(entries, entry)),
        inserted(entries, entry).len() == entries.len() + 1,
        inserted(entries, entry).filter(due_at(instant)) == if entry.instant == instant {
            entries.filter(due_at(instant)).push(entry)
        } else {
            entries.filter(due_at(instant))
        },
{
    let pos = rank(entries, entry.instant);
    lemma_rank_splits(entries, entry.instant);
    let after = inserted(entries, entry);
    assert forall|i: int, j: int| 0 <= i < j < after.len() implies (#[trigger] after[i]).instant
        <= (#[trigger] after[j]).instant by {
        if i < pos {
            assert(after[i] == entries[i]);
        } else if i > pos {
            assert(after[i] == entries[i - 1]);
        }
        if j < pos {
            assert(after[j] == entries[j]);
        } else if j > pos {
            assert(after[j] == entries[j - 1]);
        }
    }
    let pred = due_at(instant);
    let front = entries.subrange(0, pos);
    let back = entries.subrange(pos, entries.len() as int);
    assert(entries =~= front + back);
    assert(after =~= front.push(entry) + back);
    Seq::filter_distributes_over_add(front, back, pred);
    Seq::filter_distributes_over_add(front.push(entry), back, pred);
    front.lemma_filter_push(entry, pred);
    if entry.instant == instant {
        assert(back.all(|x: NotReady| !pred(x))) by {
            assert forall|i: int| 0 <= i < back.len() implies !pred(#[trigger] back[i]) by {
                assert(back[i] == entries[pos + i]);
            }
        }
        back.lemma_all_neg_filter_empty(pred);
        assert(back.filter(pred) =~= Seq::<NotReady>::empty());
        assert(front.filter(pred).push(entry) + back.filter(pred) =~= (front.filter(pred)
            + back.filter(pred)).push(entry));
    }
}

/// Whatever entries go in, in whatever order, they stand sorted by
/// instant, and those due at one instant stand in the order in which they
/// went in: the queue hands out the earliest first, and the oldest first
/// among equals.
pub proof fn lemma_timer_order(entries: Seq<NotReady>, instant: u64)
    ensures
        sorted(inserted_all(Seq::empty(), entries)),
        inserted_all(Seq::empty(), entries).len() == entries.len(),
        inserted_all(Seq::empty(), entries).filter(due_at(instant)) == entries.filter(
            due_at(instant),
        ),
    decreases entries.len(),
{
    let pred = due_at(instant);
    if entries.len() == 0 {
        assert(entries =~= Seq::<NotReady>::empty());
    } else {
        lemma_timer_order(entries.drop_last(), instant);
        lemma_inserted(inserted_all(Seq::empty(), entries.drop_last()), entries.last(), instant);
        entries.drop_last().lemma_filter_push(entries.last(), pred);
        assert(entries.drop_last().push(entries.last()) =~= entries);
    }
}

/// Puts `entry` into the sorted `entries`, behind every entry that is due
/// at the same instant or before it.
fn insert_sorted(entries: &mut Vec<NotReady>, entry: NotReady)
    requires
        sorted(old(entries)@),
    ensures
        final(entries)@ == inserted(old(entries)@, entry),
{
    let mut pos: usize = 0;
    proof {
        lemma_rank_splits(entries@, entry.instant);
    }
    while pos < entries.len() && entries[pos].instant <= entry.instant
        invariant
            pos <= entries@.len(),
            sorted(entries@),
            forall|i: int| 0 <= i < pos ==> (#[trigger] entries@[i]).instant <= entry.instant,
        decreases entries@.len() - pos,
    {
        pos = pos + 1;
    }
    proof {
        let r = rank(entries@, entry.instant);
        lemma_rank_splits(entries@, entry.instant);
        if pos < r {
            assert(entries@[pos as int].instant <= entry.instant);
        }
        if r < pos {
            assert(entries@[r].instant <= entry.instant);
        }
    }
    entries.insert(pos, entry);
}

/// The queue of the task invocations that wait for their instant, with a
/// fixed capacity. The earliest entry leaves first; of entries due at the
/// same instant, the one that came in first.
pub struct TimerQueue {
    entries: Vec<NotReady>,
    capacity: usize,
}

impl TimerQueue {
    #[verifier::type_invariant]
    spec fn well_formed(&self) -> bool {
        sorted(self.entries@) && self.entries@.len() <= self.capacity
    }

    /// The entries, in the order in which they will leave.
    pub closed spec fn view(&self) -> Seq<NotReady> {
        self.entries@
    }

    /// The number of entries that the queue can hold.
    pub closed spec fn capacity(&self) -> nat {
        self.capacity as nat
    }

    /// An empty queue for `capacity` entries.
    pub fn new(capacity: usize) -> (q: TimerQueue)
        ensures
            q@ == Seq::<NotReady>::empty(),
            q.capacity() == capacity,
    {
        TimerQueue { entries: Vec::new(), capacity }
    }

    /// The number of entries in the queue.
    pub fn len(&self) -> (r: usize)
        ensures
            r == self@.len(),
            r <= self.capacity(),
            sorted(self@),
    {
        proof {
            use_type_invariant(self);
        }
        self.entries.len()
    }

    /// Whether the queue holds as much as it can.
    pub fn is_full(&self) -> (r: bool)
        ensures
            r == (self@.len() == self.capacity()),
            self@.len() <= self.capacity(),
            sorted(self@),
    {
        proof {
            use_type_invariant(self);
        }
        self.entries.len() == self.capacity
    }

    /// Puts `entry` into the queue, behind the entries due at the same
    /// instant or before it, or hands it back where the queue is full.
    pub fn try_insert(&mut self, entry: NotReady) -> (r: Result<(), NotReady>)
        ensures
            final(self).capacity() == old(self).capacity(),
            sorted(final(self)@),
            match r {
                Ok(_) => old(self)@.len() < old(self).capacity() && final(self)@ == inserted(
                    old(self)@,
                    entry,
                ),
                Err(back) => old(self)@.len() == old(self).capacity() && back == entry
                    && final(self)@ == old(self)@,
            },
    {
        proof {
            use_type_invariant(&*self);
        }
        if self.entries.len() >= self.capacity {
            return Err(entry);
        }
        let mut entries: Vec<NotReady> = Vec::new();
        core::mem::swap(&mut self.entries, &mut entries);
        proof {
            lemma_inserted(entries@, entry, 0);
        }
        insert_sorted(&mut entries, entry);
        self.entries = entries;
        Ok(())
    }

    /// The instant of the earliest entry, if there is one: the instant at
    /// which the timer must fire next.
    pub fn next_instant(&self) -> (r: Option<u64>)
        ensures
            r is Some <==> self@.len() > 0,
            r is Some ==> r->0 == self@[0].instant,
            sorted(self@),
    {
        proof {
            use_type_invariant(self);
        }
        if self.entries.len() > 0 {
            Some(self.entries[0].instant)
        } else {
            None
        }
    }

    /// Takes the earliest entry out of the queue, if it is due at `now` or
    /// was due before.
    pub fn pop_due(&mut self, now: u64) -> (r: Option<NotReady>)
        ensures
            final(self).capacity() == old(self).capacity(),
            sorted(final(self)@),
            match r {
                Some(entry) => old(self)@.len() > 0 && entry == old(self)@[0] && entry.instant
                    <= now && final(self)@ == old(self)@.drop_first(),
                None => (old(self)@.len() == 0 || old(self)@[0].instant > now) && final(self)@
                    == old(self)@,
            },
    {
        proof {
            use_type_invariant(&*self);
        }
        if self.entries.len() == 0 {
            return None;
        }
        if self.entries[0].instant > now {
            return None;
        }
        let mut entries: Vec<NotReady> = Vec::new();
        core::mem::swap(&mut self.entries, &mut entries);
        let ghost before = entries@;
        let entry = entries.remove(0);
        proof {
            assert(entries@ =~= before.drop_first());
            assert forall|i: int, j: int| 0 <= i < j < entries@.len() implies (
            #[trigger] entries@[i]).instant <= (#[trigger] entries@[j]).instant by {
                assert(entries@[i] == before[i + 1]);
                assert(entries@[j] == before[j + 1]);
            }
        }
        self.entries = entries;
        Some(entry)
    }
}

} // verus!
