//! Time-sliced round-robin scheduling policy.
//!
//! The policy keeps a pending list of admitted tasks and an active list,
//! the current round's dispatch order.  When the active list runs dry it is
//! regenerated by draining the pending list, most recent push first, until
//! the accumulated time slices exceed the configured round budget.

use vstd::prelude::*;

use crate::Tid;

verus! {

/// Time slice granted to a task when it is admitted or re-admitted without
/// an explicit slice length.
pub const DEFAULT_TIME_SLICE: usize = 10;

/// Per-task bookkeeping, indexed directly by task id.
#[derive(Debug, Copy, Clone)]
pub struct SSProcInfo {
    /// The task currently waits in the pending list for its next round.
    pub present: bool,
    /// Remaining time slice, in scheduler ticks, before forced preemption.
    pub rest_slice: usize,
}

/// Inner state of the static scheduler; every operation on it is guarded by
/// the lock in [`StaticScheduler`] when the policy is shared across CPUs.
pub struct StaticSchedulerInner {
    /// Total slice budget that bounds one regeneration round.
    pub time_slice: usize,
    /// Active list: the current round's dispatch order, drained front to back.
    pub task_list: Vec<Tid>,
    /// Pending list: tasks awaiting their next round, most recent push first.
    pub pre_task_list: Vec<Tid>,
    /// Per-task info table, indexed by task id.
    pub infos: Vec<SSProcInfo>,
}

/// Grow the info table with blank slots until task id `tid` has one.
pub fn expand(infos: &mut Vec<SSProcInfo>, tid: Tid)
    ensures
        final(infos)@.len() == if old(infos)@.len() > tid {
            old(infos)@.len() as int
        } else {
            tid + 1
        },
        forall|i: int| 0 <= i < old(infos)@.len() ==> final(infos)@[i] == old(infos)@[i],
        forall|i: int|
            old(infos)@.len() <= i < final(infos)@.len() ==> final(infos)@[i] == (SSProcInfo {
                present: false,
                rest_slice: 0,
            }),
{
    while infos.len() <= tid
        invariant
            forall|i: int| 0 <= i < old(infos)@.len() ==> infos@[i] == old(infos)@[i],
            forall|i: int|
                old(infos)@.len() <= i < infos@.len() ==> infos@[i] == (SSProcInfo {
                    present: false,
                    rest_slice: 0,
                }),
            infos@.len() >= old(infos)@.len(),
            old(infos)@.len() > tid ==> infos@.len() == old(infos)@.len(),
            old(infos)@.len() <= tid ==> infos@.len() <= tid + 1,
        decreases tid + 1 - infos@.len(),
    {
        infos.push(SSProcInfo { present: false, rest_slice: 0 });
    }
}

impl StaticSchedulerInner {
    /// Every task id queued in either list has a slot in the info table.
    pub open spec fn wf(&self) -> bool {
        &&& forall|i: int|
            0 <= i < self.task_list@.len() ==> (self.task_list@[i] as int) < self.infos@.len()
        &&& forall|i: int|
            0 <= i < self.pre_task_list@.len() ==> (self.pre_task_list@[i] as int)
                < self.infos@.len()
    }

    /// The presence flag of `tid`: it waits in the pending list.
    pub open spec fn spec_present(&self, tid: Tid) -> bool {
        tid < self.infos@.len() && self.infos@[tid as int].present
    }

    /// Remaining time slice recorded for `tid`.
    pub open spec fn spec_rest(&self, tid: Tid) -> nat {
        if tid < self.infos@.len() {
            self.infos@[tid as int].rest_slice as nat
        } else {
            0
        }
    }

    /// Remaining slice of `tid` as read from an info table.
    pub open spec fn slice_of(infos: Seq<SSProcInfo>, tid: Tid) -> nat {
        if (tid as int) < infos.len() {
            infos[tid as int].rest_slice as nat
        } else {
            0
        }
    }

    /// How many tasks one regeneration round drains from the front of the
    /// pending list: tasks are taken, most recent push first, while the
    /// accumulated slice total `acc` has not yet exceeded the round budget.
    pub open spec fn drain_count(pending: Seq<Tid>, infos: Seq<SSProcInfo>, budget: nat, acc: nat) -> nat
        decreases pending.len(),
    {
        if pending.len() == 0 || acc > budget {
            0
        } else {
            1 + Self::drain_count(
                pending.skip(1),
                infos,
                budget,
                acc + Self::slice_of(infos, pending[0]),
            )
        }
    }

    /// The active list after a regeneration round, if one is due.
    pub open spec fn regen_active(&self) -> Seq<Tid> {
        if self.task_list@.len() > 0 {
            self.task_list@
        } else {
            self.pre_task_list@.take(
                Self::drain_count(
                    self.pre_task_list@,
                    self.infos@,
                    self.time_slice as nat,
                    0,
                ) as int,
            )
        }
    }

    /// The pending list after a regeneration round, if one is due.
    pub open spec fn regen_pending(&self) -> Seq<Tid> {
        if self.task_list@.len() > 0 {
            self.pre_task_list@
        } else {
            self.pre_task_list@.skip(
                Self::drain_count(
                    self.pre_task_list@,
                    self.infos@,
                    self.time_slice as nat,
                    0,
                ) as int,
            )
        }
    }

    /// The task ids whose presence flag one `pop` clears: the round it
    /// drains, or just the dispatched head when no regeneration is due.
    pub open spec fn cleared_by_pop(&self) -> Seq<Tid> {
        if self.task_list@.len() > 0 {
            seq![self.task_list@[0]]
        } else {
            self.regen_active()
        }
    }

    /// An empty scheduler with round budget `time`.
    pub fn new(time: usize) -> (r: StaticSchedulerInner)
        ensures
            r.wf(),
            r.time_slice == time,
            r.task_list@.len() == 0,
            r.pre_task_list@.len() == 0,
            r.infos@.len() == 0,
    {
        StaticSchedulerInner {
            time_slice: time,
            task_list: Vec::new(),
            pre_task_list: Vec::new(),
            infos: Vec::new(),
        }
    }

    /// Admit or re-admit `tid` with a fresh slice of `time_slice` ticks.
    /// The task enters the pending list at the front, so the most recent
    /// push is dispatched soonest within its regeneration round.
    pub fn push(&mut self, tid: Tid, time_slice: usize)
        requires
            old(self).wf(),
        ensures
            final(self).wf(),
            final(self).time_slice == old(self).time_slice,
            final(self).task_list@ == old(self).task_list@,
            final(self).pre_task_list@ == old(self).pre_task_list@.insert(0, tid),
            final(self).spec_present(tid),
            final(self).spec_rest(tid) == time_slice,
            forall|t: Tid|
                t != tid ==> #[trigger] final(self).spec_present(t) == old(self).spec_present(t)
                    && final(self).spec_rest(t) == old(self).spec_rest(t),
    {
        expand(&mut self.infos, tid);
        self.infos[tid] = SSProcInfo { present: true, rest_slice: time_slice };
        self.pre_task_list.insert(0, tid);
    }

    /// Dispatch the next task of the round.  When the active list is empty a
    /// new round is generated first: the pending list is drained from the
    /// front while the accumulated slices stay within the round budget, each
    /// drained task marked not-present and appended in drain order.  Returns
    /// the front of the active list, or `None` when no task is runnable.
    pub fn pop(&mut self) -> (r: Option<Tid>)
        requires
            old(self).wf(),
        ensures
            final(self).wf(),
            final(self).time_slice == old(self).time_slice,
            final(self).infos@.len() == old(self).infos@.len(),
            final(self).pre_task_list@ == old(self).regen_pending(),
            r == (if old(self).regen_active().len() > 0 {
                Some(old(self).regen_active()[0])
            } else {
                None::<Tid>
            }),
            final(self).task_list@ == if old(self).regen_active().len() > 0 {
                old(self).regen_active().skip(1)
            } else {
                old(self).regen_active()
            },
            forall|t: Tid| #[trigger]
                final(self).spec_present(t) == (old(self).spec_present(t)
                    && !old(self).cleared_by_pop().contains(t)),
            forall|t: Tid| #[trigger] final(self).spec_rest(t) == old(self).spec_rest(t),
    {
        let ghost pending0 = self.pre_task_list@;
        let ghost infos0 = self.infos@;
        let ghost budget = self.time_slice as nat;
        if self.task_list.len() == 0 {
            let mut time_counter: u128 = 0;
            let ghost total = Self::drain_count(pending0, infos0, budget, 0);
            while time_counter <= self.time_slice as u128 && self.pre_task_list.len() > 0
                invariant
                    self.wf(),
                    self.infos@.len() == infos0.len(),
                    self.time_slice as nat == budget,
                    self.task_list@.len() <= pending0.len(),
                    self.pre_task_list@ == pending0.skip(self.task_list@.len() as int),
                    self.task_list@ == pending0.take(self.task_list@.len() as int),
                    time_counter <= 2 * (usize::MAX as u128),
                    forall|t: Tid|
                        Self::slice_of(self.infos@, t) == Self::slice_of(infos0, t),
                    forall|t: Tid| #[trigger] self.spec_present(t) == (
                        (t < infos0.len() && infos0[t as int].present)
                        && !self.task_list@.contains(t)),
                    total == self.task_list@.len() + Self::drain_count(
                        self.pre_task_list@,
                        infos0,
                        budget,
                        time_counter as nat,
                    ),
                    time_counter > budget ==> Self::drain_count(
                        self.pre_task_list@,
                        infos0,
                        budget,
                        time_counter as nat,
                    ) == 0,
                decreases self.pre_task_list@.len(),
            {
                let ghost drained_pre = self.task_list@;
                let ghost pre_before = self.pre_task_list@;
                let ghost counter_before = time_counter as nat;
                let ghost mid0 = *self;
                proof {
                    assert((pre_before[0] as int) < self.infos@.len());
                }
                let tid = self.pre_task_list.remove(0);
                let slice = self.infos[tid].rest_slice;
                self.infos[tid] = SSProcInfo { present: false, rest_slice: slice };
                time_counter = time_counter + slice as u128;
                self.task_list.push(tid);
                proof {
                    assert(tid == pending0[drained_pre.len() as int]);
                    assert(self.pre_task_list@ =~= pending0.skip(drained_pre.len() as int + 1));
                    assert(self.task_list@ =~= pending0.take(drained_pre.len() as int + 1));
                    assert(slice as nat == Self::slice_of(infos0, tid));
                    assert(Self::drain_count(pre_before, infos0, budget, counter_before) == 1
                        + Self::drain_count(
                        pre_before.skip(1),
                        infos0,
                        budget,
                        counter_before + Self::slice_of(infos0, pre_before[0]),
                    ));
                    assert(self.pre_task_list@ =~= pre_before.skip(1));
                    assert forall|t: Tid| #[trigger] self.task_list@.contains(t) <==> (
                    drained_pre.contains(t) || t == tid) by {
                        if self.task_list@.contains(t) {
                            let i = choose|i: int|
                                0 <= i < self.task_list@.len() && self.task_list@[i] == t;
                            if i < drained_pre.len() {
                                assert(drained_pre[i] == t);
                            }
                        }
                        if drained_pre.contains(t) {
                            let i = choose|i: int|
                                0 <= i < drained_pre.len() && drained_pre[i] == t;
                            assert(self.task_list@[i] == t);
                        }
                        assert(self.task_list@[drained_pre.len() as int] == tid);
                    }
                    assert forall|t: Tid| #[trigger] self.spec_present(t) == ((t < infos0.len()
                        && infos0[t as int].present) && !self.task_list@.contains(t)) by {
                        if t == tid {
                            assert(!self.spec_present(t));
                            assert(self.task_list@.contains(tid));
                        } else {
                            if t < self.infos@.len() {
                                assert(self.infos@[t as int] == mid0.infos@[t as int]);
                            }
                            assert(mid0.spec_present(t) == ((t < infos0.len() && infos0[t
                                as int].present) && !drained_pre.contains(t)));
                        }
                    }
                    assert forall|t: Tid| Self::slice_of(self.infos@, t) == Self::slice_of(
                        infos0,
                        t,
                    ) by {
                        if t != tid && t < self.infos@.len() {
                            assert(self.infos@[t as int] == mid0.infos@[t as int]);
                        }
                    }
                    assert forall|i: int|
                        0 <= i < self.task_list@.len() implies (self.task_list@[i] as int)
                        < self.infos@.len() by {
                        if i < drained_pre.len() {
                            assert(drained_pre[i] == self.task_list@[i]);
                        }
                    }
                }
            }
            proof {
                if self.pre_task_list@.len() == 0 {
                    assert(Self::drain_count(
                        self.pre_task_list@,
                        infos0,
                        budget,
                        time_counter as nat,
                    ) == 0);
                }
                assert(total == self.task_list@.len());
            }
        }
        let ghost mid = *self;
        proof {
            assert(mid.task_list@ == old(self).regen_active());
            assert(mid.pre_task_list@ == old(self).regen_pending());
            assert(forall|t: Tid| #[trigger] mid.spec_present(t) == (old(self).spec_present(t)
                && !(old(self).task_list@.len() == 0 && mid.task_list@.contains(t))));
            assert forall|t: Tid| #[trigger] mid.spec_rest(t) == old(self).spec_rest(t) by {
                assert(Self::slice_of(mid.infos@, t) == Self::slice_of(infos0, t));
            }
        }
        if self.task_list.len() > 0 {
            let first = self.task_list.remove(0);
            let slice = self.infos[first].rest_slice;
            self.infos[first] = SSProcInfo { present: false, rest_slice: slice };
            proof {
                assert(first == mid.task_list@[0]);
                assert(self.task_list@ =~= mid.task_list@.skip(1));
                assert(old(self).cleared_by_pop().contains(first)) by {
                    assert(old(self).cleared_by_pop()[0] == first);
                }
                assert forall|t: Tid| #[trigger] self.spec_present(t) == (old(
                    self,
                ).spec_present(t) && !old(self).cleared_by_pop().contains(t)) by {
                    if t == first {
                        assert(!self.spec_present(t));
                    } else {
                        if t < self.infos@.len() {
                            assert(self.infos@[t as int] == mid.infos@[t as int]);
                        }
                        assert(self.spec_present(t) == mid.spec_present(t));
                        assert(mid.spec_present(t) == (old(self).spec_present(t) && !(old(
                            self,
                        ).task_list@.len() == 0 && mid.task_list@.contains(t))));
                        if old(self).task_list@.len() == 0 {
                            assert(old(self).cleared_by_pop() == mid.task_list@);
                            assert(mid.task_list@.contains(t) <==> (mid.task_list@[0] == t
                                || self.task_list@.contains(t))) by {
                                if mid.task_list@.contains(t) {
                                    let i = choose|i: int|
                                        0 <= i < mid.task_list@.len() && mid.task_list@[i] == t;
                                    if i > 0 {
                                        assert(self.task_list@[i - 1] == t);
                                    }
                                } else {
                                    if self.task_list@.contains(t) {
                                        let i = choose|i: int|
                                            0 <= i < self.task_list@.len()
                                                && self.task_list@[i] == t;
                                        assert(mid.task_list@[i + 1] == t);
                                    }
                                }
                            }
                        } else {
                            assert(old(self).cleared_by_pop() == seq![first]);
                            assert(!old(self).cleared_by_pop().contains(t)) by {
                                if old(self).cleared_by_pop().contains(t) {
                                    assert(old(self).cleared_by_pop()[0] == t);
                                }
                            }
                        }
                    }
                }
                assert forall|t: Tid| #[trigger] self.spec_rest(t) == old(self).spec_rest(t) by {
                    if t != first && t < self.infos@.len() {
                        assert(self.infos@[t as int] == mid.infos@[t as int]);
                    }
                    assert(self.spec_rest(t) == mid.spec_rest(t));
                    assert(mid.spec_rest(t) == old(self).spec_rest(t));
                }
                assert forall|i: int|
                    0 <= i < self.task_list@.len() implies (self.task_list@[i] as int)
                    < self.infos@.len() by {
                    assert(mid.task_list@[i + 1] == self.task_list@[i]);
                }
            }
            Some(first)
        } else {
            proof {
                assert forall|t: Tid| #[trigger] self.spec_present(t) == (old(
                    self,
                ).spec_present(t) && !old(self).cleared_by_pop().contains(t)) by {
                    assert(!old(self).cleared_by_pop().contains(t));
                }
            }
            None
        }
    }

    /// Whether `tid` currently waits in the pending list — its presence
    /// flag, which the running task never carries.
    pub fn queued(&self, tid: Tid) -> (r: bool)
        ensures
            r == self.spec_present(tid),
    {
        tid < self.infos.len() && self.infos[tid].present
    }

    /// One bookkeeping tick on the running task, as the contract of `tick`
    /// states it: the remaining slice counts down, and on exhaustion the
    /// task is re-admitted with [`DEFAULT_TIME_SLICE`] and a reschedule is
    /// signalled.
    pub open spec fn tick_step(rest: nat) -> (nat, bool) {
        if rest <= 1 {
            (DEFAULT_TIME_SLICE as nat, true)
        } else {
            ((rest - 1) as nat, false)
        }
    }

    /// Account one timer tick to `current`, the task now running (and hence
    /// marked not-present, having been removed from both lists).  Decrements
    /// its remaining slice; on reaching zero the task is re-admitted with a
    /// fresh default slice and a reschedule is signalled.
    pub fn tick(&mut self, current: Tid) -> (r: bool)
        requires
            old(self).wf(),
            !old(self).spec_present(current),
        ensures
            final(self).wf(),
            final(self).time_slice == old(self).time_slice,
            final(self).task_list@ == old(self).task_list@,
            (final(self).spec_rest(current), r) == Self::tick_step(old(self).spec_rest(current)),
            r <==> old(self).spec_rest(current) <= 1,
            r ==> final(self).pre_task_list@ == old(self).pre_task_list@.insert(0, current)
                && final(self).spec_present(current),
            !r ==> final(self).pre_task_list@ == old(self).pre_task_list@
                && !final(self).spec_present(current),
            forall|t: Tid|
                t != current ==> #[trigger] final(self).spec_present(t) == old(
                    self,
                ).spec_present(t),
            forall|t: Tid|
                t != current ==> #[trigger] final(self).spec_rest(t) == old(self).spec_rest(t),
    {
        expand(&mut self.infos, current);
        proof {
            assert forall|t: Tid| t != current implies self.spec_present(t) == old(
                self,
            ).spec_present(t) && self.spec_rest(t) == old(self).spec_rest(t) by {
                if t < old(self).infos@.len() {
                    assert(self.infos@[t as int] == old(self).infos@[t as int]);
                }
            }
        }
        let rest = self.infos[current].rest_slice;
        if rest > 1 {
            let ghost mid = *self;
            self.infos[current] = SSProcInfo { present: false, rest_slice: rest - 1 };
            proof {
                assert forall|t: Tid|
                    t != current implies #[trigger] self.spec_present(t) == old(
                    self,
                ).spec_present(t) by {
                    if t < self.infos@.len() {
                        assert(self.infos@[t as int] == mid.infos@[t as int]);
                    }
                    assert(self.spec_present(t) == mid.spec_present(t));
                    assert(mid.spec_present(t) == old(self).spec_present(t));
                }
                assert forall|t: Tid|
                    t != current implies #[trigger] self.spec_rest(t) == old(self).spec_rest(
                    t,
                ) by {
                    if t < self.infos@.len() {
                        assert(self.infos@[t as int] == mid.infos@[t as int]);
                    }
                    assert(self.spec_rest(t) == mid.spec_rest(t));
                    assert(mid.spec_rest(t) == old(self).spec_rest(t));
                }
            }
            false
        } else {
            let ghost mid = *self;
            self.infos[current] = SSProcInfo { present: false, rest_slice: 0 };
            proof {
                assert forall|t: Tid| t != current implies self.spec_present(t)
                    == mid.spec_present(t) && self.spec_rest(t) == mid.spec_rest(t) by {
                    if t < self.infos@.len() {
                        assert(self.infos@[t as int] == mid.infos@[t as int]);
                    }
                }
            }
            let ghost mid2 = *self;
            self.push(current, DEFAULT_TIME_SLICE);
            proof {
                assert forall|t: Tid|
                    t != current implies #[trigger] self.spec_present(t) == old(
                    self,
                ).spec_present(t) by {
                    assert(self.spec_present(t) == mid2.spec_present(t));
                    assert(mid2.spec_present(t) == mid.spec_present(t));
                    assert(mid.spec_present(t) == old(self).spec_present(t));
                }
                assert forall|t: Tid|
                    t != current implies #[trigger] self.spec_rest(t) == old(self).spec_rest(
                    t,
                ) by {
                    assert(self.spec_present(t) == mid2.spec_present(t));
                    assert(self.spec_rest(t) == mid2.spec_rest(t));
                    assert(mid2.spec_rest(t) == mid.spec_rest(t));
                    assert(mid.spec_rest(t) == old(self).spec_rest(t));
                }
            }
            true
        }
    }
}

/// The scheduling-policy capability set, shared across CPUs: admit a task,
/// select the next task for a CPU, account a timer tick, and — where the
/// policy supports one — adjust a priority.  Every operation acquires the
/// policy's single lock for its full duration and blocks nowhere while
/// holding it, so it is safe to call with interrupts disabled; no operation
/// may be entered from a context that already holds the same lock.
pub trait Scheduler: 'static {
    /// Admit or re-admit `tid` with the default time slice.
    fn push(&self, tid: Tid);

    /// Select the next task to run on CPU `cpu_id`.
    fn pop(&self, cpu_id: usize) -> Option<Tid>;

    /// Account one timer tick to the running task `current_tid`, which must
    /// not be queued in either list; `true` demands a reschedule now.
    fn tick(&self, current_tid: Tid) -> bool;

    /// Adjust the priority of `tid`, where the policy has priorities.
    fn set_priority(&self, tid: Tid, priority: u8);
}

/// Lock invariant of the shared static scheduler: the guarded state is
/// well formed and keeps the round budget the scheduler was configured
/// with, so every operation may run on it and keeps both.
pub struct SsLockInv {
    /// The configured round budget.
    pub time_slice: usize,
}

impl vstd::rwlock::RwLockPredicate<StaticSchedulerInner> for SsLockInv {
    open spec fn inv(self, v: StaticSchedulerInner) -> bool {
        v.wf() && v.time_slice == self.time_slice
    }
}

/// The static policy as shared between CPUs: its whole inner state behind
/// one lock, every operation exclusive and atomic under it.
pub struct StaticScheduler {
    inner: vstd::rwlock::RwLock<StaticSchedulerInner, SsLockInv>,
}

impl StaticScheduler {
    /// The round budget this shared scheduler was configured with: every
    /// state the lock ever guards carries it.
    pub closed spec fn spec_time_slice(&self) -> usize {
        self.inner.pred().time_slice
    }

    /// A shared static scheduler with round budget `time_slice`.
    pub fn new(time_slice: usize) -> (r: Self)
        ensures
            r.spec_time_slice() == time_slice,
    {
        let inner = StaticSchedulerInner::new(time_slice);
        StaticScheduler {
            inner: vstd::rwlock::RwLock::new(inner, Ghost(SsLockInv { time_slice })),
        }
    }

    /// Account one timer tick to the running task `current_tid`, under the
    /// lock.  `None` reports a usage error — the task was still queued in a
    /// list, though the running task is removed from both when dispatched —
    /// with the state left untouched; such an outcome is fatal (the caller
    /// must abort, as verified code cannot).  `Some` carries the reschedule
    /// verdict.
    pub fn tick_checked(&self, current_tid: Tid) -> Option<bool> {
        let (mut inner, handle) = self.inner.acquire_write();
        let r = if inner.queued(current_tid) {
            None
        } else {
            Some(inner.tick(current_tid))
        };
        handle.release_write(inner);
        r
    }
}

impl Scheduler for StaticScheduler {
    fn push(&self, tid: Tid) {
        let (mut inner, handle) = self.inner.acquire_write();
        inner.push(tid, DEFAULT_TIME_SLICE);
        handle.release_write(inner);
    }

    fn pop(&self, _cpu_id: usize) -> Option<Tid> {
        let (mut inner, handle) = self.inner.acquire_write();
        let r = inner.pop();
        handle.release_write(inner);
        r
    }

    fn tick(&self, current_tid: Tid) -> bool {
        match self.tick_checked(current_tid) {
            Some(r) => r,
            // A usage error (see `tick_checked`): this interface offers no
            // channel to report it, so the tick is refused with no
            // reschedule demanded; callers that must fault use
            // `tick_checked` instead.
            None => false,
        }
    }

    fn set_priority(&self, _tid: Tid, _priority: u8) {
    }
}

/// Remaining slice after `n` bookkeeping ticks of a task that started with
/// `slice`, following [`StaticSchedulerInner::tick_step`].
pub open spec fn rest_after_ticks(slice: nat, n: nat) -> nat
    decreases n,
{
    if n == 0 {
        slice
    } else {
        StaticSchedulerInner::tick_step(rest_after_ticks(slice, (n - 1) as nat)).0
    }
}

/// While the slice lasts, each tick counts it down by exactly one.
pub proof fn lemma_rest_countdown(slice: nat, m: nat)
    requires
        m < slice,
    ensures
        rest_after_ticks(slice, m) == slice - m,
    decreases m,
{
    if m > 0 {
        lemma_rest_countdown(slice, (m - 1) as nat);
    }
}

/// Slice exhaustion triggers a reschedule: ticking a task admitted with
/// `slice` remaining returns "no reschedule" for the first `slice - 1` ticks
/// and signals a reschedule exactly on the `slice`-th tick, after which the
/// task holds a fresh default slice.
pub proof fn lemma_slice_exhaustion(slice: nat, n: nat)
    requires
        1 <= n <= slice,
    ensures
        StaticSchedulerInner::tick_step(rest_after_ticks(slice, (n - 1) as nat)).1 <==> n
            == slice,
        n == slice ==> rest_after_ticks(slice, n) == DEFAULT_TIME_SLICE,
{
    if n < slice {
        lemma_rest_countdown(slice, (n - 1) as nat);
    } else {
        lemma_rest_countdown(slice, (n - 1) as nat);
        assert(rest_after_ticks(slice, (n - 1) as nat) == 1);
    }
}

} // verus!
