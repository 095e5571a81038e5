//! Semaphore
//!
//! A counting semaphore whose waiting tasks, and the tasks that hold a unit
//! of it, are known by their thread ids. Blocking and waking a task is the
//! scheduler's work: `down` says whether the caller must block, and `up`
//! names the task that must be woken.
use vstd::prelude::*;
use std::collections::VecDeque;

verus! {

/// What a `down` asks of the scheduler.
#[derive(Clone, Copy, Debug, PartialEq, Eq, Structural)]
pub enum DownOutcome {
    /// A unit was free: the caller now holds it and runs on.
    Acquired,
    /// No unit was free: the caller was queued and must block.
    Blocked,
}

/// The abstract state of a semaphore.
pub ghost struct SemState {
    /// Free units when non-negative; minus the number of waiters otherwise.
    pub count: int,
    /// Waiting thread ids, earliest first.
    pub waiting: Seq<usize>,
    /// Thread ids holding a unit, in the order they got it (one entry per unit).
    pub owners: Seq<usize>,
}

impl SemState {
    /// The semaphore's invariant: while units are free nobody waits, and
    /// otherwise exactly `-count` tasks wait.
    pub open spec fn wf(self) -> bool {
        &&& self.count >= 0 ==> self.waiting.len() == 0
        &&& self.count < 0 ==> self.waiting.len() == -self.count
    }

    /// The state after thread `tid` performs `up`, and the task it wakes.
    pub open spec fn up(self, tid: usize) -> (SemState, Option<usize>) {
        let count = self.count + 1;
        let owners = self.owners.remove_value(tid);
        if count <= 0 && self.waiting.len() > 0 {
            (
                SemState {
                    count,
                    waiting: self.waiting.drop_first(),
                    owners: owners.push(self.waiting[0]),
                },
                Some(self.waiting[0]),
            )
        } else {
            (SemState { count, waiting: self.waiting, owners }, None)
        }
    }

    /// The state after thread `tid` performs `down`, and what it must do.
    pub open spec fn down(self, tid: usize) -> (SemState, DownOutcome) {
        let count = self.count - 1;
        if count < 0 {
            (
                SemState { count, waiting: self.waiting.push(tid), owners: self.owners },
                DownOutcome::Blocked,
            )
        } else {
            (
                SemState { count, waiting: self.waiting, owners: self.owners.push(tid) },
                DownOutcome::Acquired,
            )
        }
    }

    /// The tasks woken, in order, when the threads `releasers` perform `up`
    /// one after the other.
    pub open spec fn wake_order(self, releasers: Seq<usize>) -> Seq<Option<usize>>
        decreases releasers.len(),
    {
        if releasers.len() == 0 {
            Seq::empty()
        } else {
            let (next, woken) = self.up(releasers[0]);
            seq![woken] + next.wake_order(releasers.drop_first())
        }
    }
}

/// One call on a semaphore, by the thread `tid`.
pub ghost enum SemOp {
    Up { tid: usize },
    Down { tid: usize },
}

impl SemState {
    /// The state a semaphore created with `res_count` units starts in.
    pub open spec fn initial(res_count: nat) -> SemState {
        SemState { count: res_count as int, waiting: Seq::empty(), owners: Seq::empty() }
    }

    /// The state after the calls `ops`, made in order.
    pub open spec fn run(self, ops: Seq<SemOp>) -> SemState
        decreases ops.len(),
    {
        if ops.len() == 0 {
            self
        } else {
            let before = self.run(ops.drop_last());
            match ops.last() {
                SemOp::Up { tid } => before.up(tid).0,
                SemOp::Down { tid } => before.down(tid).0,
            }
        }
    }

    /// Every `up` among `ops` is made by a thread that holds a unit at the
    /// time of the call.
    pub open spec fn ups_by_owners(self, ops: Seq<SemOp>) -> bool
        decreases ops.len(),
    {
        if ops.len() == 0 {
            true
        } else {
            &&& self.ups_by_owners(ops.drop_last())
            &&& match ops.last() {
                SemOp::Up { tid } => self.run(ops.drop_last()).owners.contains(tid),
                SemOp::Down { .. } => true,
            }
        }
    }

    /// Units held plus units free.
    pub open spec fn units(self) -> int {
        self.owners.len() + if self.count > 0 {
            self.count
        } else {
            0
        }
    }
}

pub struct SemaphoreInner {
    pub count: isize,
    pub wait_queue: VecDeque<usize>,
    pub owners: Vec<usize>,
}

/// semaphore structure
pub struct Semaphore {
    /// semaphore inner
    pub inner: SemaphoreInner,
}

impl View for Semaphore {
    type V = SemState;

    open spec fn view(&self) -> SemState {
        SemState {
            count: self.inner.count as int,
            waiting: self.inner.wait_queue@,
            owners: self.inner.owners@,
        }
    }
}

impl Semaphore {
    /// Create a new semaphore with `res_count` free units.
    pub fn new(res_count: usize) -> (sem: Self)
        requires
    // the owner list reserves room for `res_count` thread ids

            res_count <= isize::MAX / 8,
        ensures
            sem@ == (SemState { count: res_count as int, waiting: Seq::empty(), owners: Seq::empty() }),
            sem@.wf(),
    {
        Self {
            inner: SemaphoreInner {
                count: res_count as isize,
                wait_queue: VecDeque::new(),
                owners: Vec::with_capacity(res_count),
            },
        }
    }

    /// up operation of semaphore, performed by thread `tid`: one unit is
    /// released, the first unit `tid` holds is dropped from the owners, and
    /// if a task waits, the earliest one gets the unit and is returned to
    /// be woken.
    pub fn up(&mut self, tid: usize) -> (woken: Option<usize>)
        requires
            old(self).inner.count < isize::MAX,
        ensures
            final(self)@ == old(self)@.up(tid).0,
            woken == old(self)@.up(tid).1,
            old(self)@.wf() ==> final(self)@.wf(),
    {
        self.inner.count = self.inner.count + 1;
        let mut i: usize = 0;
        let mut index: Option<usize> = None;
        while i < self.inner.owners.len()
            invariant_except_break
                index is None,
            invariant
                i <= self.inner.owners.len(),
                forall|j: int| 0 <= j < i ==> self.inner.owners@[j] != tid,
            ensures
                match index {
                    Some(k) => k == i && i < self.inner.owners.len() && self.inner.owners@[k as int]
                        == tid,
                    None => i == self.inner.owners.len(),
                },
            decreases self.inner.owners.len() - i,
        {
            if self.inner.owners[i] == tid {
                index = Some(i);
                break ;
            }
            i = i + 1;
        }
        let ghost before = self.inner.owners@;
        proof {
            before.index_of_first_ensures(tid);
        }
        match index {
            Some(k) => {
                assert(before.index_of_first(tid) == Some(k as int));
                self.inner.owners.remove(k);
            },
            None => {
                assert(!before.contains(tid));
            },
        }
        assert(self.inner.owners@ == before.remove_value(tid));
        if self.inner.count <= 0 {
            if let Some(task) = self.inner.wait_queue.pop_front() {
                self.inner.owners.push(task);
                return Some(task);
            }
        }
        None
    }

    /// down operation of semaphore, performed by thread `tid`: the caller
    /// takes a free unit, or, when none is free, joins the end of the wait
    /// queue and must block.
    pub fn down(&mut self, tid: usize) -> (outcome: DownOutcome)
        requires
            old(self).inner.count > isize::MIN,
        ensures
            final(self)@ == old(self)@.down(tid).0,
            outcome == old(self)@.down(tid).1,
            old(self)@.wf() ==> final(self)@.wf(),
    {
        self.inner.count = self.inner.count - 1;
        if self.inner.count < 0 {
            self.inner.wait_queue.push_back(tid);
            DownOutcome::Blocked
        } else {
            self.inner.owners.push(tid);
            DownOutcome::Acquired
        }
    }

    /// The thread ids that hold a unit, one entry per unit held.
    pub fn get_owners(&self) -> (owners: Vec<usize>)
        ensures
            owners@ == self@.owners,
    {
        let mut owners: Vec<usize> = Vec::new();
        let mut i: usize = 0;
        while i < self.inner.owners.len()
            invariant
                i <= self.inner.owners.len(),
                owners@ == self.inner.owners@.take(i as int),
            decreases self.inner.owners.len() - i,
        {
            owners.push(self.inner.owners[i]);
            i = i + 1;
            assert(owners@ == self.inner.owners@.take(i as int));
        }
        assert(self.inner.owners@.take(i as int) == self.inner.owners@);
        owners
    }

    /// The semaphore's count.
    pub fn get_count(&self) -> (count: isize)
        ensures
            count == self@.count,
    {
        self.inner.count
    }

    /// The waiting thread ids, earliest first.
    pub fn get_wait_tid_list(&self) -> (tid_list: Vec<usize>)
        ensures
            tid_list@ == self@.waiting,
    {
        let mut tid_list: Vec<usize> = Vec::new();
        let mut i: usize = 0;
        while i < self.inner.wait_queue.len()
            invariant
                i <= self.inner.wait_queue@.len(),
                tid_list@ == self.inner.wait_queue@.take(i as int),
            decreases self.inner.wait_queue@.len() - i,
        {
            tid_list.push(self.inner.wait_queue[i]);
            i = i + 1;
            assert(tid_list@ == self.inner.wait_queue@.take(i as int));
        }
        assert(self.inner.wait_queue@.take(i as int) == self.inner.wait_queue@);
        tid_list
    }
}

/// A task that takes a free unit and gives it back leaves the semaphore as
/// it found it: the same count, the same waiters, and the same holders
/// (counted with multiplicity).
pub proof fn lemma_down_then_up_restores(s: SemState, tid: usize)
    requires
        s.wf(),
        s.count > 0,
    ensures
        s.down(tid).1 == DownOutcome::Acquired,
        s.down(tid).0.up(tid).1 == None::<usize>,
        s.down(tid).0.up(tid).0.count == s.count,
        s.down(tid).0.up(tid).0.waiting == s.waiting,
        s.down(tid).0.up(tid).0.owners.to_multiset() == s.owners.to_multiset(),
{
    broadcast use vstd::seq_lib::group_to_multiset_ensures;

    let pushed = s.owners.push(tid);
    assert(pushed[s.owners.len() as int] == tid);
    assert(pushed.contains(tid));
    pushed.index_of_first_ensures(tid);
    let k = pushed.index_of_first(tid).unwrap();
    assert(pushed.remove_value(tid) == pushed.remove(k));
    assert(pushed.remove(k).to_multiset() == pushed.to_multiset().remove(tid));
    assert(pushed.to_multiset() == s.owners.to_multiset().insert(tid));
    assert(s.owners.to_multiset().insert(tid).remove(tid) =~= s.owners.to_multiset());
}

/// Waiting tasks are woken first-in, first-out: while at least as many
/// tasks wait as there are releases, the releases wake the waiters in the
/// order they joined the queue.
pub proof fn lemma_wakes_in_fifo_order(s: SemState, releasers: Seq<usize>)
    requires
        s.wf(),
        releasers.len() <= s.waiting.len(),
    ensures
        s.wake_order(releasers) == s.waiting.take(releasers.len() as int).map_values(
            |t: usize| Some(t),
        ),
    decreases releasers.len(),
{
    if releasers.len() > 0 {
        let next = s.up(releasers[0]).0;
        assert(s.count < 0);
        lemma_wakes_in_fifo_order(next, releasers.drop_first());
        assert(s.wake_order(releasers) =~= s.waiting.take(releasers.len() as int).map_values(
            |t: usize| Some(t),
        ));
    } else {
        assert(s.wake_order(releasers) =~= s.waiting.take(0).map_values(|t: usize| Some(t)));
    }
}

/// The invariant holds in every state a semaphore reaches: whatever calls
/// are made, the wait queue is empty while the count is non-negative and
/// holds exactly `-count` tasks while it is negative.
pub proof fn lemma_every_reachable_state_is_wf(res_count: nat, ops: Seq<SemOp>)
    ensures
        SemState::initial(res_count).run(ops).wf(),
    decreases ops.len(),
{
    if ops.len() > 0 {
        lemma_every_reachable_state_is_wf(res_count, ops.drop_last());
    }
}

/// Units are conserved: as long as every `up` is made by a task that holds
/// a unit, the units held plus the units free stay equal to the number the
/// semaphore was created with.
pub proof fn lemma_units_conserved(res_count: nat, ops: Seq<SemOp>)
    requires
        SemState::initial(res_count).ups_by_owners(ops),
    ensures
        SemState::initial(res_count).run(ops).units() == res_count,
    decreases ops.len(),
{
    let s0 = SemState::initial(res_count);
    if ops.len() > 0 {
        lemma_units_conserved(res_count, ops.drop_last());
        lemma_every_reachable_state_is_wf(res_count, ops.drop_last());
        let before = s0.run(ops.drop_last());
        match ops.last() {
            SemOp::Up { tid } => {
                let owners = before.owners;
                owners.index_of_first_ensures(tid);
                assert(owners.remove_value(tid).len() == owners.len() - 1);
            },
            SemOp::Down { .. } => {},
        }
    }
}

/// What `up` does, in terms of the state it starts from: the count goes
/// up by one; if tasks were waiting (count below zero) the earliest one is
/// woken, leaves the queue and becomes an owner; the caller gives up its
/// first unit if it holds one, and no owner entry is dropped otherwise.
pub proof fn lemma_up_behaviour(s: SemState, tid: usize)
    requires
        s.wf(),
    ensures
        ({
            let (after, woken) = s.up(tid);
            &&& after.count == s.count + 1
            &&& s.count < 0 ==> woken == Some(s.waiting[0]) && after.waiting == s.waiting.subrange(
                1,
                s.waiting.len() as int,
            )
            &&& s.count >= 0 ==> woken == None::<usize> && after.waiting == s.waiting
            &&& !s.owners.contains(tid) ==> after.owners == match woken {
                Some(w) => s.owners.push(w),
                None => s.owners,
            }
            &&& forall|i: int|
                0 <= i < s.owners.len() && #[trigger] s.owners[i] == tid && (forall|j: int|
                    0 <= j < i ==> s.owners[j] != tid) ==> after.owners == match woken {
                    Some(w) => s.owners.remove(i).push(w),
                    None => s.owners.remove(i),
                }
            &&& after.owners.to_multiset() == match woken {
                Some(w) => s.owners.to_multiset().remove(tid).insert(w),
                None => s.owners.to_multiset().remove(tid),
            }
        }),
{
    broadcast use vstd::seq_lib::group_to_multiset_ensures;

    let owners = s.owners;
    owners.index_of_first_ensures(tid);
    assert forall|i: int|
        0 <= i < owners.len() && #[trigger] owners[i] == tid && (forall|j: int|
            0 <= j < i ==> owners[j] != tid) implies owners.index_of_first(tid) == Some(i) by {
        let k = owners.index_of_first(tid).unwrap();
        if k < i {
            assert(owners[k] == tid);
        } else if k > i {
            assert(owners[i] != tid);
        }
    }
    if owners.contains(tid) {
        let k = owners.index_of_first(tid).unwrap();
        assert(owners.remove(k).to_multiset() == owners.to_multiset().remove(owners[k]));
    } else {
        assert(owners.to_multiset().count(tid) == 0);
        assert(owners.to_multiset().remove(tid) =~= owners.to_multiset());
    }
}

/// What `down` does, in terms of the state it starts from: the count goes
/// down by one; with a unit free (count above zero) the caller becomes an
/// owner and runs on, otherwise it joins the end of the queue and blocks.
pub proof fn lemma_down_behaviour(s: SemState, tid: usize)
    ensures
        ({
            let (after, outcome) = s.down(tid);
            &&& after.count == s.count - 1
            &&& s.count > 0 ==> outcome == DownOutcome::Acquired && after.owners == s.owners.push(
                tid,
            ) && after.waiting == s.waiting
            &&& s.count <= 0 ==> outcome == DownOutcome::Blocked && after.waiting
                == s.waiting.push(tid) && after.owners == s.owners
        }),
{
}

} // verus!
