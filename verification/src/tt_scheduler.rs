//! Time-triggered scheduling policy.
//!
//! Periodic reservations `(tid, cycle, offset, max_time)` claim the processor
//! for up to `max_time` logical milliseconds starting `offset` ms into every
//! `cycle`-ms period.  Admission rejects a window that does not fit in its
//! period and runs a pairwise endpoint conflict test against every existing
//! reservation.  A table of pending activations, one per reservation, drives
//! dispatch: `pop` hands out a task exactly when the logical clock equals its
//! next activation, and the logical clock advances once per `ticks_per_msec`
//! hardware ticks.

use vstd::arithmetic::div_mod::lemma_fundamental_div_mod;
use vstd::arithmetic::div_mod::lemma_mod_bound;
use vstd::arithmetic::div_mod::lemma_mod_multiples_vanish;
use vstd::arithmetic::div_mod::lemma_small_mod;
use vstd::arithmetic::mul::lemma_mul_basics;
use vstd::arithmetic::mul::lemma_mul_is_commutative;
use vstd::arithmetic::mul::lemma_mul_inequality;
use vstd::arithmetic::mul::lemma_mul_is_distributive_add;
use vstd::arithmetic::mul::lemma_mul_is_distributive_add_other_way;
use vstd::prelude::*;

use crate::Tid;

verus! {

/// One admitted periodic reservation.
pub struct NaiveTTInfo {
    /// Task that owns the reservation.
    pub tid: Tid,
    /// Period, in logical milliseconds, after which the window repeats.
    pub cycle: usize,
    /// Delay, within one cycle, before the window opens.
    pub offset: usize,
    /// Execution budget, in logical milliseconds, of each window.
    pub max_time: usize,
}

impl NaiveTTInfo {
    /// The reservation has a period and its window fits in one period.
    pub open spec fn window_wf(&self) -> bool {
        1 <= self.cycle && self.offset + self.max_time <= self.cycle
    }

    /// Either endpoint of `[lo, hi]` falls inside `[begin, end]`.
    pub open spec fn hits(lo: int, hi: int, begin: int, end: int) -> bool {
        (begin <= lo && lo <= end) || (begin <= hi && hi <= end)
    }

    /// The window of `s`, shifted by `shift`, hits the window of `l` in the
    /// endpoint test.
    pub open spec fn conflicts_at(s: &NaiveTTInfo, l: &NaiveTTInfo, shift: int) -> bool {
        Self::hits(
            s.offset + shift,
            s.offset + s.max_time + shift,
            l.offset as int,
            l.offset + l.max_time,
        )
    }

    /// The `k`-th replication shift of the smaller-cycle reservation `s`.
    pub open spec fn shift_of(s: &NaiveTTInfo, k: nat) -> int {
        k * s.cycle
    }

    /// The admission-time endpoint conflict test: replicate the window of
    /// the smaller-cycle reservation across one period of the larger and
    /// report a conflict when either endpoint of a shifted copy lands inside
    /// the larger reservation's window.
    pub open spec fn spec_conflict(a: &NaiveTTInfo, b: &NaiveTTInfo) -> bool {
        if a.cycle < b.cycle {
            exists|k: nat|
                #[trigger] Self::shift_of(a, k) < b.cycle && Self::conflicts_at(
                    a,
                    b,
                    Self::shift_of(a, k),
                )
        } else {
            exists|k: nat|
                #[trigger] Self::shift_of(b, k) < a.cycle && Self::conflicts_at(
                    b,
                    a,
                    Self::shift_of(b, k),
                )
        }
    }

    /// A new reservation record.
    pub fn new(tid: Tid, cycle: usize, offset: usize, max_time: usize) -> (r: Self)
        ensures
            r == (NaiveTTInfo { tid, cycle, offset, max_time }),
    {
        NaiveTTInfo { tid, cycle, offset, max_time }
    }

    /// Run the endpoint conflict test between this reservation and `other`.
    pub fn check_conflict(&self, other: &NaiveTTInfo) -> (r: bool)
        requires
            self.window_wf(),
            other.window_wf(),
        ensures
            r == Self::spec_conflict(self, other),
    {
        let (lo, hi, min_cycle, begin, end, max_cycle) = if self.cycle < other.cycle {
            (
                self.offset,
                self.offset + self.max_time,
                self.cycle,
                other.offset,
                other.offset + other.max_time,
                other.cycle,
            )
        } else {
            (
                other.offset,
                other.offset + other.max_time,
                other.cycle,
                self.offset,
                self.offset + self.max_time,
                self.cycle,
            )
        };
        let ghost s = if self.cycle < other.cycle { *self } else { *other };
        let ghost l = if self.cycle < other.cycle { *other } else { *self };
        let lo_w = lo as u128;
        let hi_w = hi as u128;
        let begin_w = begin as u128;
        let end_w = end as u128;
        let step = min_cycle as u128;
        let limit = max_cycle as u128;
        let mut i: u128 = 0;
        let ghost mut k: nat = 0;
        while i < limit
            invariant
                s.window_wf(),
                l.window_wf(),
                lo_w == s.offset,
                hi_w == s.offset + s.max_time,
                begin_w == l.offset,
                end_w == l.offset + l.max_time,
                step == s.cycle,
                limit == l.cycle,
                i as int == Self::shift_of(&s, k),
                i <= limit + step,
                forall|j: nat|
                    j < k ==> !(#[trigger] Self::shift_of(&s, j) < l.cycle && Self::conflicts_at(
                        &s,
                        &l,
                        Self::shift_of(&s, j),
                    )),
                Self::spec_conflict(self, other) == exists|j: nat|
                    #[trigger] Self::shift_of(&s, j) < l.cycle && Self::conflicts_at(
                        &s,
                        &l,
                        Self::shift_of(&s, j),
                    ),
            decreases limit + step - i,
        {
            let low = lo_w + i;
            let high = hi_w + i;
            if (begin_w <= low && end_w >= low) || (begin_w <= high && end_w >= high) {
                proof {
                    assert(Self::shift_of(&s, k) < l.cycle && Self::conflicts_at(
                        &s,
                        &l,
                        Self::shift_of(&s, k),
                    ));
                }
                return true;
            }
            i = i + step;
            proof {
                let ghost k0 = k;
                k = k0 + 1;
                assert(i as int == Self::shift_of(&s, k)) by {
                    lemma_mul_is_distributive_add_other_way(s.cycle as int, k0 as int, 1);
                }
                assert forall|j: nat|
                    j < k implies !(#[trigger] Self::shift_of(&s, j) < l.cycle
                    && Self::conflicts_at(&s, &l, Self::shift_of(&s, j))) by {
                    if j == k0 {
                        assert(!Self::conflicts_at(&s, &l, Self::shift_of(&s, j)));
                    }
                }
            }
        }
        proof {
            assert forall|j: nat|
                !(#[trigger] Self::shift_of(&s, j) < l.cycle && Self::conflicts_at(
                    &s,
                    &l,
                    Self::shift_of(&s, j),
                )) by {
                if j >= k {
                    lemma_mul_inequality(k as int, j as int, s.cycle as int);
                    assert(Self::shift_of(&s, j) >= Self::shift_of(&s, k));
                }
            }
        }
        false
    }
}

/// Inner state of the time-triggered scheduler; every operation on it is
/// guarded by the lock in [`NaiveTTScheduler`] when the policy is shared
/// across CPUs.
pub struct NaiveTTSchedulerInner {
    /// Registry of admitted reservations.
    pub infos: Vec<NaiveTTInfo>,
    /// Pending activations: one `(next_activation_time, registry_index)`
    /// entry per admitted reservation.
    pub time_table: Vec<(usize, usize)>,
    /// Logical clock, in elapsed milliseconds.
    pub time: usize,
    /// Hardware ticks per logical millisecond.
    pub ticks_per_msec: usize,
    /// Hardware ticks accumulated toward the next millisecond.
    pub tick_counter: usize,
    /// Task of the reservation holding its window, meaningful while
    /// `time_slice > 0`.
    pub current: Tid,
    /// Milliseconds left in the window now held; `0` means none is held.
    pub time_slice: usize,
}

/// Addition on the clock domain, saturating at the last representable
/// millisecond.
pub open spec fn sat_add(a: usize, b: usize) -> usize {
    if a + b <= usize::MAX {
        (a + b) as usize
    } else {
        usize::MAX
    }
}

/// Entry `a` is dispatched before entry `b`: earlier activation time, ties
/// resolved toward the reservation registered later.
pub open spec fn entry_prior(a: (usize, usize), b: (usize, usize)) -> bool {
    a.0 < b.0 || (a.0 == b.0 && a.1 > b.1)
}

/// Some pending activation is due exactly at instant `now`: the earliest
/// entry of the table activates at `now`.
pub open spec fn some_due(table: Seq<(usize, usize)>, now: usize) -> bool {
    (exists|j: int| 0 <= j < table.len() && (#[trigger] table[j]).0 == now) && (forall|j: int|
        0 <= j < table.len() ==> (#[trigger] table[j]).0 >= now)
}

/// The activation instant admission computes for a new reservation: the
/// first instant at or after `now` whose phase within `cycle` equals
/// `offset`.
pub open spec fn spec_next_activation(now: int, cycle: int, offset: int) -> int {
    if now % cycle <= offset {
        now + (offset - now % cycle)
    } else {
        now + (cycle - now % cycle) + offset
    }
}

impl NaiveTTSchedulerInner {
    /// Reservations have well-formed windows and the activation table holds
    /// exactly one entry per reservation.
    pub open spec fn wf(&self) -> bool {
        &&& self.ticks_per_msec >= 1
        &&& self.tick_counter < self.ticks_per_msec
        &&& forall|j: int| 0 <= j < self.infos@.len() ==> (#[trigger] self.infos@[j]).window_wf()
        &&& self.time_table@.len() == self.infos@.len()
        &&& forall|p: int|
            0 <= p < self.time_table@.len() ==> ((#[trigger] self.time_table@[p]).1 as int)
                < self.infos@.len()
        &&& forall|p: int, q: int|
            0 <= p < q < self.time_table@.len() ==> (#[trigger] self.time_table@[p]).1 != (
            #[trigger] self.time_table@[q]).1
        &&& forall|p: int|
            0 <= p < self.time_table@.len() ==> Self::entry_in_phase(
                #[trigger] self.time_table@[p],
                self.infos@,
            )
    }

    /// A pending activation lies on its reservation's phase — every
    /// activation of a reservation is congruent to its offset modulo its
    /// cycle — unless it has saturated at the end of the clock domain.
    pub open spec fn entry_in_phase(e: (usize, usize), infos: Seq<NaiveTTInfo>) -> bool {
        let info = infos[e.1 as int];
        (e.0 as int) % (info.cycle as int) == (info.offset as int) % (info.cycle as int)
            || e.0 == usize::MAX
    }

    /// The reservation is well formed and conflicts with no admitted one
    /// under the endpoint test.
    pub open spec fn spec_admissible(infos: Seq<NaiveTTInfo>, nr: NaiveTTInfo) -> bool {
        &&& nr.window_wf()
        &&& forall|j: int|
            0 <= j < infos.len() ==> !NaiveTTInfo::spec_conflict(&infos[j], &nr)
    }

    /// An empty scheduler that advances its logical clock every
    /// `ticks_per_msec` hardware ticks.
    pub fn new(ticks_per_msec: usize) -> (r: NaiveTTSchedulerInner)
        requires
            ticks_per_msec >= 1,
        ensures
            r.wf(),
            r.infos@.len() == 0,
            r.time_table@.len() == 0,
            r.time == 0,
            r.ticks_per_msec == ticks_per_msec,
            r.tick_counter == 0,
            r.current == 0,
            r.time_slice == 0,
    {
        NaiveTTSchedulerInner {
            infos: Vec::new(),
            time_table: Vec::new(),
            time: 0,
            ticks_per_msec,
            tick_counter: 0,
            current: 0,
            time_slice: 0,
        }
    }

    /// Admit the reservation if its window fits in its period, it passes the
    /// endpoint conflict test against every admitted reservation, and its
    /// first activation — the first instant at or after the current time
    /// whose phase within the cycle equals the offset — is representable; on
    /// admission that activation and the registry index enter the table.
    pub fn push(&mut self, tid: Tid, cycle: usize, offset: usize, max_time: usize) -> (r: bool)
        requires
            old(self).wf(),
        ensures
            final(self).wf(),
            r == (Self::spec_admissible(
                old(self).infos@,
                NaiveTTInfo { tid, cycle, offset, max_time },
            ) && spec_next_activation(old(self).time as int, cycle as int, offset as int)
                <= usize::MAX),
            !r ==> final(self).infos@ == old(self).infos@ && final(self).time_table@ == old(
                self,
            ).time_table@,
            r ==> final(self).infos@ == old(self).infos@.push(
                NaiveTTInfo { tid, cycle, offset, max_time },
            ) && final(self).time_table@ == old(self).time_table@.push(
                (
                    spec_next_activation(
                        old(self).time as int,
                        cycle as int,
                        offset as int,
                    ) as usize,
                    old(self).infos@.len() as usize,
                ),
            ),
            final(self).time == old(self).time,
            final(self).ticks_per_msec == old(self).ticks_per_msec,
            final(self).tick_counter == old(self).tick_counter,
            final(self).current == old(self).current,
            final(self).time_slice == old(self).time_slice,
    {
        let new_info = NaiveTTInfo::new(tid, cycle, offset, max_time);
        if cycle == 0 {
            // a reservation without a period can hold no window
            return false;
        }
        if max_time > cycle || offset > cycle - max_time {
            return false;
        }
        let mut j: usize = 0;
        while j < self.infos.len()
            invariant
                self.wf(),
                j <= self.infos@.len(),
                new_info == (NaiveTTInfo { tid, cycle, offset, max_time }),
                new_info.window_wf(),
                forall|q: int|
                    0 <= q < j ==> !NaiveTTInfo::spec_conflict(&self.infos@[q], &new_info),
            decreases self.infos@.len() - j,
        {
            if self.infos[j].check_conflict(&new_info) {
                return false;
            }
            j += 1;
        }
        let rem = self.time % cycle;
        let new_time = if rem <= offset {
            let delta = offset - rem;
            if delta > usize::MAX - self.time {
                // the first activation would lie beyond the clock domain
                return false;
            }
            self.time + delta
        } else {
            let step = cycle - rem;
            if self.time > usize::MAX - step {
                return false;
            }
            let t1 = self.time + step;
            if offset > usize::MAX - t1 {
                return false;
            }
            t1 + offset
        };
        let index = self.infos.len();
        let ghost table0 = self.time_table@;
        self.time_table.push((new_time, index));
        self.infos.push(new_info);
        proof {
            assert forall|p: int, q: int|
                0 <= p < q < self.time_table@.len() implies (#[trigger] self.time_table@[p]).1
                != (#[trigger] self.time_table@[q]).1 by {
                if q < table0.len() {
                    assert(self.time_table@[p] == table0[p]);
                    assert(self.time_table@[q] == table0[q]);
                } else {
                    assert((table0[p].1 as int) < index);
                }
            }
            assert forall|p: int|
                0 <= p < self.time_table@.len() implies Self::entry_in_phase(
                #[trigger] self.time_table@[p],
                self.infos@,
            ) by {
                if p < table0.len() {
                    assert(self.time_table@[p] == table0[p]);
                    assert(Self::entry_in_phase(table0[p], old(self).infos@));
                    assert(self.infos@[table0[p].1 as int] == old(self).infos@[table0[p].1
                        as int]);
                } else {
                    lemma_next_activation_mod(
                        old(self).time as int,
                        cycle as int,
                        offset as int,
                    );
                }
            }
        }
        true
    }

    /// Position of the table entry dispatched first: the earliest activation
    /// time, ties resolved toward the larger registry index.  This is also
    /// the entry a peek ahead of the removal observes, so the two can never
    /// disagree.
    fn first_pos(table: &Vec<(usize, usize)>) -> (r: usize)
        requires
            table@.len() > 0,
        ensures
            r < table@.len(),
            forall|j: int|
                0 <= j < table@.len() ==> !entry_prior(#[trigger] table@[j], table@[r as int]),
    {
        let mut best: usize = 0;
        let mut j: usize = 1;
        while j < table.len()
            invariant
                table@.len() > 0,
                best < j,
                j <= table@.len(),
                forall|q: int| 0 <= q < j ==> !entry_prior(#[trigger] table@[q], table@[best as int]),
            decreases table@.len() - j,
        {
            let cand = table[j];
            let cur = table[best];
            if cand.0 < cur.0 || (cand.0 == cur.0 && cand.1 > cur.1) {
                best = j;
            }
            j += 1;
        }
        best
    }

    /// The dispatch `pop` performs when the entry at position `p` of the old
    /// table is due: that reservation becomes current for its full budget
    /// and its next occurrence, one cycle ahead, replaces the entry.
    pub open spec fn dispatched(
        pre: NaiveTTSchedulerInner,
        post: NaiveTTSchedulerInner,
        p: int,
        r: Option<Tid>,
    ) -> bool {
        let e = pre.time_table@[p];
        let info = pre.infos@[e.1 as int];
        &&& 0 <= p < pre.time_table@.len()
        &&& e.0 == pre.time
        &&& forall|j: int|
            0 <= j < pre.time_table@.len() ==> !entry_prior(#[trigger] pre.time_table@[j], e)
        &&& r == Some(info.tid)
        &&& post.current == info.tid
        &&& post.time_slice == info.max_time
        &&& post.time_table@ == pre.time_table@.remove(p).push((sat_add(e.0, info.cycle), e.1))
    }

    /// Dispatch the reservation whose activation time equals the logical
    /// clock, if any: it becomes current with its full budget and its next
    /// occurrence, one cycle ahead, is queued.  Returns its task id, or
    /// `None` when no activation is due this very millisecond.
    pub fn pop(&mut self) -> (r: Option<Tid>)
        requires
            old(self).wf(),
        ensures
            final(self).wf(),
            final(self).infos@ == old(self).infos@,
            final(self).time == old(self).time,
            final(self).ticks_per_msec == old(self).ticks_per_msec,
            final(self).tick_counter == old(self).tick_counter,
            r is Some <==> some_due(old(self).time_table@, old(self).time),
            r is None ==> final(self).time_table@ == old(self).time_table@ && final(self).current
                == old(self).current && final(self).time_slice == old(self).time_slice,
            r is Some ==> exists|p: int|
                #[trigger] Self::dispatched(*old(self), *final(self), p, r),
    {
        if self.time_table.len() == 0 {
            return None;
        }
        let p = Self::first_pos(&self.time_table);
        let entry = self.time_table[p];
        if entry.0 != self.time {
            proof {
                if some_due(self.time_table@, self.time) {
                    let j0 = choose|j: int|
                        0 <= j < self.time_table@.len() && (#[trigger] self.time_table@[j]).0
                            == self.time;
                    assert(!entry_prior(self.time_table@[j0], self.time_table@[p as int]));
                    assert(self.time_table@[p as int].0 >= self.time);
                }
            }
            return None;
        }
        let index = entry.1;
        let tid = self.infos[index].tid;
        let info_cycle = self.infos[index].cycle;
        let new_time_slice = self.infos[index].max_time;
        self.current = tid;
        self.time_slice = new_time_slice;
        let ghost table0 = self.time_table@;
        let _dispatched_entry = self.time_table.remove(p);
        let next = if entry.0 > usize::MAX - info_cycle {
            // the next occurrence saturates at the end of the clock domain
            usize::MAX
        } else {
            entry.0 + info_cycle
        };
        self.time_table.push((next, index));
        proof {
            let t1 = table0.remove(p as int);
            assert forall|q: int| 0 <= q < t1.len() implies (#[trigger] t1[q]).1 != index by {
                if q < p {
                    assert(t1[q] == table0[q]);
                } else {
                    assert(t1[q] == table0[q + 1]);
                }
            }
            assert forall|q: int|
                0 <= q < t1.len() implies ((#[trigger] t1[q]).1 as int) < self.infos@.len() by {
                if q < p {
                    assert(t1[q] == table0[q]);
                } else {
                    assert(t1[q] == table0[q + 1]);
                }
            }
            assert forall|a: int, b: int|
                0 <= a < b < t1.len() implies (#[trigger] t1[a]).1 != (#[trigger] t1[b]).1 by {
                assert(t1[a] == if a < p {
                    table0[a]
                } else {
                    table0[a + 1]
                });
                assert(t1[b] == if b < p {
                    table0[b]
                } else {
                    table0[b + 1]
                });
            }
            assert forall|q: int|
                0 <= q < self.time_table@.len() implies Self::entry_in_phase(
                #[trigger] self.time_table@[q],
                self.infos@,
            ) by {
                if q < t1.len() {
                    assert(self.time_table@[q] == t1[q]);
                    if q < p {
                        assert(t1[q] == table0[q]);
                        assert(Self::entry_in_phase(table0[q], self.infos@));
                    } else {
                        assert(t1[q] == table0[q + 1]);
                        assert(Self::entry_in_phase(table0[q + 1], self.infos@));
                    }
                } else {
                    // the reinserted occurrence: one full cycle later keeps
                    // the reservation's phase, or saturates at the end of
                    // the clock domain
                    let info = self.infos@[index as int];
                    assert(Self::entry_in_phase(table0[p as int], self.infos@));
                    if entry.0 + info.cycle <= usize::MAX {
                        assert(entry.0 < usize::MAX);
                        assert(((entry.0 + info.cycle) as int) % (info.cycle as int) == (entry.0
                            as int) % (info.cycle as int)) by {
                            lemma_mod_multiples_vanish(1, entry.0 as int, info.cycle as int);
                            lemma_mul_basics(info.cycle as int);
                        }
                    }
                }
            }
            assert(Self::dispatched(*old(self), *self, p as int, Some(tid)));
        }
        Some(tid)
    }

    /// Account one hardware tick.  Every `ticks_per_msec`-th tick advances
    /// the logical clock one millisecond; on such a boundary the running
    /// window's budget is consumed, or, when none is held, a reschedule is
    /// signalled exactly when an activation has become due at the new
    /// instant.
    pub fn tick(&mut self) -> (r: bool)
        requires
            old(self).wf(),
        ensures
            final(self).wf(),
            final(self).infos@ == old(self).infos@,
            final(self).time_table@ == old(self).time_table@,
            final(self).ticks_per_msec == old(self).ticks_per_msec,
            final(self).current == old(self).current,
            (final(self).tick_counter as nat, final(self).time) == clock_step(
                old(self).tick_counter as nat,
                old(self).time,
                old(self).ticks_per_msec as nat,
            ),
            old(self).tick_counter + 1 < old(self).ticks_per_msec ==> {
                &&& final(self).tick_counter == old(self).tick_counter + 1
                &&& final(self).time == old(self).time
                &&& final(self).time_slice == old(self).time_slice
                &&& r == false
            },
            old(self).tick_counter + 1 == old(self).ticks_per_msec ==> {
                &&& final(self).tick_counter == 0
                &&& final(self).time == sat_add(old(self).time, 1)
                &&& old(self).time_slice == 0 ==> final(self).time_slice == 0 && (r <==> some_due(
                    old(self).time_table@,
                    final(self).time,
                ))
                &&& old(self).time_slice > 0 ==> final(self).time_slice == old(self).time_slice
                    - 1 && r == false
            },
    {
        let mut ret = false;
        self.tick_counter = self.tick_counter + 1;
        if self.tick_counter == self.ticks_per_msec {
            self.tick_counter = 0;
            if self.time < usize::MAX {
                // the logical clock saturates at the last representable instant
                self.time = self.time + 1;
            }
            if self.time_slice == 0 {
                if self.time_table.len() > 0 {
                    let p = Self::first_pos(&self.time_table);
                    ret = self.time_table[p].0 == self.time;
                    proof {
                        if ret {
                            assert(some_due(self.time_table@, self.time)) by {
                                assert((self.time_table@[p as int]).0 == self.time);
                                assert forall|j: int|
                                    0 <= j < self.time_table@.len() implies (
                                #[trigger] self.time_table@[j]).0 >= self.time by {
                                    assert(!entry_prior(
                                        self.time_table@[j],
                                        self.time_table@[p as int],
                                    ));
                                }
                            }
                        } else {
                            if some_due(self.time_table@, self.time) {
                                let j0 = choose|j: int|
                                    0 <= j < self.time_table@.len() && (
                                    #[trigger] self.time_table@[j]).0 == self.time;
                                assert(!entry_prior(
                                    self.time_table@[j0],
                                    self.time_table@[p as int],
                                ));
                                assert(self.time_table@[p as int].0 >= self.time);
                            }
                        }
                    }
                }
            } else {
                self.time_slice = self.time_slice - 1;
            }
        }
        ret
    }

    /// A reservation currently owns its window.
    pub fn working(&self) -> (r: bool)
        ensures
            r == (self.time_slice > 0),
    {
        self.time_slice > 0
    }

    /// Relinquish the remaining budget of the window now held, if any.
    pub fn stop(&mut self)
        ensures
            final(self).time_slice == 0,
            final(self).infos@ == old(self).infos@,
            final(self).time_table@ == old(self).time_table@,
            final(self).time == old(self).time,
            final(self).ticks_per_msec == old(self).ticks_per_msec,
            final(self).tick_counter == old(self).tick_counter,
            final(self).current == old(self).current,
    {
        self.time_slice = 0;
    }
}

/// The time-triggered policy's capability set, shared across CPUs.  Every
/// operation acquires the policy's single lock for its full duration and
/// blocks nowhere while holding it, so it is safe to call with interrupts
/// disabled; no operation may be entered from a context that already holds
/// the same lock.
pub trait TTScheduler: 'static {
    /// Admit the reservation `(tid, cycle, offset, max_time)`; `false`
    /// reports a window that does not fit its period or conflicts with an
    /// admitted reservation.
    fn push(&self, tid: Tid, cycle: usize, offset: usize, max_time: usize) -> bool;

    /// Dispatch the reservation due exactly now, if any.
    fn pop(&self) -> Option<Tid>;

    /// Account one hardware tick; `true` demands a reschedule now.
    fn tick(&self) -> bool;

    /// A reservation currently owns its window.
    fn working(&self) -> bool;

    /// Relinquish the remaining budget of the window now held.
    fn stop(&self);
}

/// Lock invariant of the shared time-triggered scheduler: the guarded state
/// is well formed and keeps the hardware-tick ratio the scheduler was
/// configured with, so every operation may run on it and keeps both.
pub struct TtLockInv {
    /// The configured hardware ticks per logical millisecond.
    pub ticks_per_msec: usize,
}

impl vstd::rwlock::RwLockPredicate<NaiveTTSchedulerInner> for TtLockInv {
    open spec fn inv(self, v: NaiveTTSchedulerInner) -> bool {
        v.wf() && v.ticks_per_msec == self.ticks_per_msec
    }
}

/// The time-triggered policy as shared between CPUs: its whole inner state
/// behind one lock, every operation exclusive and atomic under it.
pub struct NaiveTTScheduler {
    inner: vstd::rwlock::RwLock<NaiveTTSchedulerInner, TtLockInv>,
}

impl NaiveTTScheduler {
    /// The hardware-tick ratio this shared scheduler was configured with:
    /// every state the lock ever guards carries it.
    pub closed spec fn spec_ticks_per_msec(&self) -> usize {
        self.inner.pred().ticks_per_msec
    }

    /// A shared time-triggered scheduler whose logical clock advances every
    /// `ticks_per_msec` hardware ticks.
    pub fn new(ticks_per_msec: usize) -> (r: Self)
        requires
            ticks_per_msec >= 1,
        ensures
            r.spec_ticks_per_msec() == ticks_per_msec,
    {
        let inner = NaiveTTSchedulerInner::new(ticks_per_msec);
        NaiveTTScheduler {
            inner: vstd::rwlock::RwLock::new(inner, Ghost(TtLockInv { ticks_per_msec })),
        }
    }
}

impl TTScheduler for NaiveTTScheduler {
    fn push(&self, tid: Tid, cycle: usize, offset: usize, max_time: usize) -> bool {
        let (mut inner, handle) = self.inner.acquire_write();
        let r = inner.push(tid, cycle, offset, max_time);
        handle.release_write(inner);
        r
    }

    fn pop(&self) -> Option<Tid> {
        let (mut inner, handle) = self.inner.acquire_write();
        let r = inner.pop();
        handle.release_write(inner);
        r
    }

    fn tick(&self) -> bool {
        let (mut inner, handle) = self.inner.acquire_write();
        let r = inner.tick();
        handle.release_write(inner);
        r
    }

    fn working(&self) -> bool {
        let handle = self.inner.acquire_read();
        let r = handle.borrow().working();
        handle.release_read();
        r
    }

    fn stop(&self) {
        let (mut inner, handle) = self.inner.acquire_write();
        inner.stop();
        handle.release_write(inner);
    }
}

/// Start of the `n`-th periodic window of reservation `r`.
pub open spec fn window_start(r: NaiveTTInfo, n: int) -> int {
    n * r.cycle + r.offset
}

/// Instant `t` lies inside one of the reservation's periodic execution
/// windows, each spanning `max_time` milliseconds from its start.
pub open spec fn occupies(r: NaiveTTInfo, t: int) -> bool {
    exists|n: int|
        0 <= n && #[trigger] window_start(r, n) <= t && t < window_start(r, n) + r.max_time
}

/// Admission soundness for reservations that share one cycle: when the
/// endpoint conflict test clears the pair in both orders, no instant lies in
/// an execution window of both.  Admission itself runs the test in one order
/// only, which can miss a window strictly containing the other — a known gap
/// of the endpoint test that this law deliberately leaves uncovered.
pub proof fn lemma_admission_soundness_shared_cycle(a: NaiveTTInfo, b: NaiveTTInfo, t: int)
    requires
        a.window_wf(),
        b.window_wf(),
        a.cycle == b.cycle,
        !NaiveTTInfo::spec_conflict(&a, &b),
        !NaiveTTInfo::spec_conflict(&b, &a),
    ensures
        !(occupies(a, t) && occupies(b, t)),
{
    if occupies(a, t) && occupies(b, t) {
        let na = choose|n: int|
            0 <= n && #[trigger] window_start(a, n) <= t && t < window_start(a, n) + a.max_time;
        let nb = choose|n: int|
            0 <= n && #[trigger] window_start(b, n) <= t && t < window_start(b, n) + b.max_time;
        let c = a.cycle as int;
        assert(NaiveTTInfo::shift_of(&a, 0) == 0) by {
            lemma_mul_basics(a.cycle as int);
        }
        assert(NaiveTTInfo::shift_of(&b, 0) == 0) by {
            lemma_mul_basics(b.cycle as int);
        }
        assert(!NaiveTTInfo::conflicts_at(&b, &a, 0) && !NaiveTTInfo::conflicts_at(&a, &b, 0))
            by {
            if NaiveTTInfo::conflicts_at(&b, &a, 0) {
                assert(NaiveTTInfo::shift_of(&b, 0) < a.cycle && NaiveTTInfo::conflicts_at(
                    &b,
                    &a,
                    NaiveTTInfo::shift_of(&b, 0),
                ));
                assert(NaiveTTInfo::spec_conflict(&a, &b));
            }
            if NaiveTTInfo::conflicts_at(&a, &b, 0) {
                assert(NaiveTTInfo::shift_of(&a, 0) < b.cycle && NaiveTTInfo::conflicts_at(
                    &a,
                    &b,
                    NaiveTTInfo::shift_of(&a, 0),
                ));
                assert(NaiveTTInfo::spec_conflict(&b, &a));
            }
        }
        if na == nb {
            assert(na * a.cycle == nb * b.cycle);
            if a.offset >= b.offset {
                assert(NaiveTTInfo::conflicts_at(&a, &b, 0));
            } else {
                assert(NaiveTTInfo::conflicts_at(&b, &a, 0));
            }
        } else if na < nb {
            lemma_mul_inequality(na + 1, nb, c);
            lemma_mul_is_distributive_add_other_way(c, na, 1);
            assert(nb * b.cycle == nb * c);
            assert(t >= window_start(b, nb));
            assert(t < window_start(a, na) + a.max_time);
            assert(false);
        } else {
            lemma_mul_inequality(nb + 1, na, c);
            lemma_mul_is_distributive_add_other_way(c, nb, 1);
            assert(na * a.cycle == na * c);
            assert(t >= window_start(a, na));
            assert(t < window_start(b, nb) + b.max_time);
            assert(false);
        }
    }
}

/// The computed first activation keeps the reservation's phase.
pub proof fn lemma_next_activation_mod(now: int, cycle: int, offset: int)
    requires
        0 <= now,
        1 <= cycle,
        0 <= offset <= cycle,
    ensures
        spec_next_activation(now, cycle, offset) % cycle == offset % cycle,
{
    lemma_fundamental_div_mod(now, cycle);
    lemma_mod_bound(now, cycle);
    let q = now / cycle;
    if now % cycle <= offset {
        assert(spec_next_activation(now, cycle, offset) == cycle * q + offset);
        lemma_mod_multiples_vanish(q, offset, cycle);
    } else {
        assert(spec_next_activation(now, cycle, offset) == cycle * (q + 1) + offset) by {
            lemma_mul_is_distributive_add(cycle, q, 1);
            lemma_mul_basics(cycle);
        }
        lemma_mod_multiples_vanish(q + 1, offset, cycle);
    }
}

/// Activation punctuality, the arithmetic half: the computed first
/// activation is the first instant at or after `now` whose phase within the
/// cycle equals the reservation's offset — it never lies more than one
/// period ahead, and no earlier instant at or after `now` has that phase.
/// The contract of `pop` supplies the other half: a reservation is
/// dispatched exactly when the logical clock equals its pending activation.
pub proof fn lemma_next_activation_phase(now: int, cycle: int, offset: int)
    requires
        0 <= now,
        1 <= cycle,
        0 <= offset < cycle,
    ensures
        now <= spec_next_activation(now, cycle, offset),
        spec_next_activation(now, cycle, offset) <= now + cycle,
        spec_next_activation(now, cycle, offset) % cycle == offset,
        forall|t: int|
            now <= t < spec_next_activation(now, cycle, offset) ==> (#[trigger] (t % cycle))
                != offset,
{
    lemma_fundamental_div_mod(now, cycle);
    lemma_mod_bound(now, cycle);
    lemma_small_mod(offset as nat, cycle as nat);
    let q = now / cycle;
    let rem = now % cycle;
    let act = spec_next_activation(now, cycle, offset);
    if rem <= offset {
        assert(act == cycle * q + offset);
        lemma_mod_multiples_vanish(q, offset, cycle);
    } else {
        assert(act == cycle * (q + 1) + offset) by {
            lemma_mul_is_distributive_add(cycle, q, 1);
            lemma_mul_basics(cycle);
        }
        lemma_mod_multiples_vanish(q + 1, offset, cycle);
    }
    assert forall|t: int| now <= t < act implies (#[trigger] (t % cycle)) != offset by {
        if t % cycle == offset {
            lemma_fundamental_div_mod(t, cycle);
            let qt = t / cycle;
            assert(t == cycle * qt + offset);
            // any phase-matching instant below the activation sits a whole
            // period down, hence before `now`
            if rem <= offset {
                assert(qt < q) by {
                    if qt >= q {
                        lemma_mul_inequality(q, qt, cycle);
                        lemma_mul_is_commutative(cycle, q);
                        lemma_mul_is_commutative(cycle, qt);
                    }
                }
                lemma_mul_inequality(qt, q - 1, cycle);
                lemma_mul_is_commutative(cycle, qt);
                lemma_mul_is_commutative(cycle, q - 1);
                assert(cycle * (q - 1) == cycle * q - cycle) by {
                    lemma_mul_is_distributive_add(cycle, q - 1, 1);
                    lemma_mul_basics(cycle);
                }
                assert(t <= cycle * q - cycle + offset);
                assert(t < now);
            } else {
                assert(qt < q + 1) by {
                    if qt >= q + 1 {
                        lemma_mul_inequality(q + 1, qt, cycle);
                        lemma_mul_is_commutative(cycle, q + 1);
                        lemma_mul_is_commutative(cycle, qt);
                    }
                }
                lemma_mul_inequality(qt, q, cycle);
                lemma_mul_is_commutative(cycle, qt);
                lemma_mul_is_commutative(cycle, q);
                assert(t <= cycle * q + offset);
                assert(t < now);
            }
        }
    }
}

/// One hardware tick's effect on the clock, as the contract of `tick`
/// states it: the sub-millisecond counter advances, and on reaching
/// `ticks_per_msec` it resets while the logical clock gains a millisecond.
pub open spec fn clock_step(counter: nat, time: usize, tpm: nat) -> (nat, usize) {
    if counter + 1 < tpm {
        (counter + 1, time)
    } else {
        (0, sat_add(time, 1))
    }
}

/// The clock fields after `n` hardware ticks.
pub open spec fn clock_after(counter: nat, time: usize, tpm: nat, n: nat) -> (nat, usize)
    decreases n,
{
    if n == 0 {
        (counter, time)
    } else {
        let s = clock_step(counter, time, tpm);
        clock_after(s.0, s.1, tpm, (n - 1) as nat)
    }
}

/// Ticking from within a millisecond to its boundary: the remaining
/// `tpm - counter` hardware ticks advance the logical clock by exactly one.
pub proof fn lemma_clock_one_msec(counter: nat, time: usize, tpm: nat)
    requires
        counter < tpm,
        time < usize::MAX,
    ensures
        clock_after(counter, time, tpm, (tpm - counter) as nat) == (
            0nat,
            (time + 1) as usize,
        ),
    decreases tpm - counter,
{
    let n = (tpm - counter) as nat;
    let s = clock_step(counter, time, tpm);
    assert(clock_after(counter, time, tpm, n) == clock_after(s.0, s.1, tpm, (n - 1) as nat));
    if counter + 1 < tpm {
        lemma_clock_one_msec(counter + 1, time, tpm);
        assert(s == (counter + 1, time));
    } else {
        assert(s == (0nat, (time + 1) as usize));
        assert(clock_after(s.0, s.1, tpm, 0) == (0nat, (time + 1) as usize));
    }
}

/// Hardware ticks compose: `a + b` ticks are `a` ticks, then `b` more.
pub proof fn lemma_clock_split(counter: nat, time: usize, tpm: nat, a: nat, b: nat)
    ensures
        clock_after(counter, time, tpm, a + b) == {
            let s = clock_after(counter, time, tpm, a);
            clock_after(s.0, s.1, tpm, b)
        },
    decreases a,
{
    if a > 0 {
        let s = clock_step(counter, time, tpm);
        lemma_clock_split(s.0, s.1, tpm, (a - 1) as nat, b);
    }
}

/// Activation punctuality, the clock half: from a millisecond boundary,
/// driving `tick` for exactly `n * ticks_per_msec` hardware ticks advances
/// the logical clock by exactly `n` milliseconds, ending on a boundary.
pub proof fn lemma_clock_progression(time: usize, tpm: nat, n: nat)
    requires
        1 <= tpm,
        time + n <= usize::MAX,
    ensures
        clock_after(0, time, tpm, n * tpm) == (0nat, (time + n) as usize),
    decreases n,
{
    if n > 0 {
        assert(n * tpm == tpm + (n - 1) * tpm) by {
            lemma_mul_is_distributive_add_other_way(tpm as int, 1, n as int - 1);
            lemma_mul_basics(tpm as int);
        }
        lemma_clock_one_msec(0, time, tpm);
        let s = clock_after(0, time, tpm, tpm);
        assert(s == (0nat, (time + 1) as usize));
        lemma_clock_split(0, time, tpm, tpm, ((n - 1) * tpm) as nat);
        assert(clock_after(0, time, tpm, n * tpm) == clock_after(
            s.0,
            s.1,
            tpm,
            ((n - 1) * tpm) as nat,
        ));
        lemma_clock_progression((time + 1) as usize, tpm, (n - 1) as nat);
    } else {
        assert(n * tpm == 0) by {
            lemma_mul_basics(tpm as int);
        }
    }
}

/// Activation punctuality, the dispatch half: with a single pending
/// activation, the due-now condition that `pop`'s contract ties to a `Some`
/// result holds exactly when the logical clock equals that activation — at
/// any other clock value `pop` returns nothing.
pub proof fn lemma_single_reservation_punctuality(s: NaiveTTSchedulerInner)
    requires
        s.wf(),
        s.time_table@.len() == 1,
    ensures
        some_due(s.time_table@, s.time) <==> s.time_table@[0].0 == s.time,
{
    if s.time_table@[0].0 == s.time {
        assert(exists|j: int|
            0 <= j < s.time_table@.len() && (#[trigger] s.time_table@[j]).0 == s.time) by {
            assert((s.time_table@[0]).0 == s.time);
        }
    }
}

/// Periodicity: when `pop` dispatches the reservation at registry index
/// `idx` through its due entry `(pre.time, idx)`, the table afterwards
/// holds that reservation's one pending activation at exactly one cycle
/// later, so no entry lets `pop` dispatch it at any earlier clock value.
/// With the phase clause of `wf` — every pending activation stays congruent
/// to its reservation's offset modulo its cycle — consecutive dispatches of
/// one reservation are always a whole number of cycles apart.
pub proof fn lemma_periodicity(
    pre: NaiveTTSchedulerInner,
    post: NaiveTTSchedulerInner,
    p: int,
    r: Option<Tid>,
    clock: usize,
)
    requires
        pre.wf(),
        NaiveTTSchedulerInner::dispatched(pre, post, p, r),
        pre.time + pre.infos@[pre.time_table@[p].1 as int].cycle <= usize::MAX,
        clock < pre.time + pre.infos@[pre.time_table@[p].1 as int].cycle,
    ensures
        forall|q: int|
            0 <= q < post.time_table@.len() && (#[trigger] post.time_table@[q]).1
                == pre.time_table@[p].1 ==> post.time_table@[q].0 == pre.time
                + pre.infos@[pre.time_table@[p].1 as int].cycle && post.time_table@[q].0 != clock,
{
    let e = pre.time_table@[p];
    let t1 = pre.time_table@.remove(p);
    assert forall|q: int| 0 <= q < t1.len() implies (#[trigger] t1[q]).1 != e.1 by {
        if q < p {
            assert(t1[q] == pre.time_table@[q]);
        } else {
            assert(t1[q] == pre.time_table@[q + 1]);
        }
    }
    assert(post.time_table@ == t1.push((sat_add(e.0, pre.infos@[e.1 as int].cycle), e.1)));
    assert forall|q: int|
        0 <= q < post.time_table@.len() && (#[trigger] post.time_table@[q]).1 == e.1 implies q
        == t1.len() as int by {
        if q < t1.len() {
            assert(post.time_table@[q] == t1[q]);
        }
    }
}

} // verus!
