//! Laws of the request manager, stated over its mathematical model and proved for every
//! state that any sequence of operations can lead to.

use crate::manager_state::{all_recorded, batch_result, ManagerState, Outcome, SlotState, Waiter};
use vstd::prelude::*;
use vstd::seq_lib::seq_to_set_is_finite;
use vstd::set_lib::{
    lemma_int_range, lemma_len_subset, lemma_set_disjoint_lens, lemma_subset_equality, set_int_range,
};

verus! {

/// One operation on a request manager.
pub enum Operation<C, S, B> {
    /// Allocate the identifier of a call or of a batch member.
    Allocate,
    /// Return an identifier to the free pool.
    Reclaim(u64),
    /// Register a call.
    InsertCall(u64, C),
    /// Register a subscription with the name of its unsubscribe method.
    InsertSubscription(u64, S, Seq<char>),
    /// Register a batch: its members, its handle, its own identifier.
    InsertBatch(Seq<u64>, B, u64),
    /// Complete a call.
    CompleteCall(u64),
    /// Record the outcome of a batch member.
    CompleteMember(u64, Outcome),
    /// Remove a subscription.
    RemoveSubscription(u64),
    /// Clear the table after a connection failure.
    FailAll,
}

/// The identifiers `0` to `n - 1`.
pub open spec fn ids_below(n: nat) -> Set<u64> {
    Set::new(|id: u64| id < n)
}

proof fn lemma_ids_below(n: nat)
    requires
        n <= u64::MAX,
    ensures
        ids_below(n).finite(),
        ids_below(n).len() == n,
    decreases n,
{
    if n == 0 {
        assert(ids_below(n) =~= Set::empty());
    } else {
        lemma_ids_below((n - 1) as nat);
        assert(ids_below((n - 1) as nat).insert((n - 1) as u64) =~= ids_below(n));
    }
}

/// `order` lists positions of a batch of `n` members, none of them twice.
pub open spec fn distinct_positions(order: Seq<int>, n: int) -> bool {
    &&& order.no_duplicates()
    &&& forall|j: int| 0 <= j < order.len() ==> 0 <= #[trigger] order[j] < n
}

/// What a batch holds for its members once those at the positions `done` have ended, the
/// member at position `k` with `outcomes[k]`.
pub open spec fn partial_outcomes(outcomes: Seq<Outcome>, done: Seq<int>) -> Seq<Option<Outcome>> {
    Seq::new(
        outcomes.len(),
        |k: int|
            if done.contains(k) {
                Some(outcomes[k])
            } else {
                None
            },
    )
}

/// Fewer than `n` distinct positions leave one out, and `n` of them leave none out.
proof fn lemma_positions(order: Seq<int>, n: int)
    requires
        distinct_positions(order, n),
        0 <= n,
    ensures
        order.len() <= n,
        order.len() < n ==> exists|k: int| 0 <= k < n && !order.contains(k),
        order.len() == n ==> forall|k: int| 0 <= k < n ==> order.contains(k),
{
    let seen = order.to_set();
    let all = set_int_range(0, n);
    order.unique_seq_to_set();
    seq_to_set_is_finite(order);
    lemma_int_range(0, n);
    assert(seen.subset_of(all)) by {
        assert forall|k: int| seen.contains(k) implies all.contains(k) by {
            let j = choose|j: int| 0 <= j < order.len() && order[j] == k;
            assert(0 <= order[j] < n);
        }
    }
    lemma_len_subset(seen, all);
    if order.len() < n {
        if forall|k: int| 0 <= k < n ==> order.contains(k) {
            assert(all.subset_of(seen));
            lemma_len_subset(all, seen);
        }
    }
    if order.len() == n {
        lemma_subset_equality(seen, all);
        assert forall|k: int| 0 <= k < n implies order.contains(k) by {
            assert(all.contains(k));
        }
    }
}

impl<C, S, B> ManagerState<C, S, B> {
    /// The batch under `outer` and its members are registered, and the members at the
    /// positions `done` have ended.
    pub open spec fn batch_in_progress(
        self,
        members: Seq<u64>,
        slot: B,
        outer: u64,
        outcomes: Seq<Outcome>,
        done: Seq<int>,
    ) -> bool {
        &&& self.wf()
        &&& outer < self.slots.len()
        &&& self.slots[outer as int] == (SlotState::<C, S, B>::Batch {
            members,
            outcomes: partial_outcomes(outcomes, done),
            slot,
        })
        &&& forall|k: int|
            0 <= k < members.len() ==> (#[trigger] members[k]) < self.slots.len()
                && self.slots[members[k] as int] == (SlotState::<C, S, B>::BatchMember {
                batch: outer,
                index: k as nat,
            })
    }

    /// While members of a batch end in any order, the batch stays registered and keeps
    /// what each has ended with, as long as one member is missing.
    proof fn lemma_batch_progress(
        self,
        members: Seq<u64>,
        slot: B,
        outer: u64,
        outcomes: Seq<Outcome>,
        order: Seq<int>,
    )
        requires
            self.wf(),
            self.can_insert_batch(members, outer),
            outcomes.len() == members.len(),
            distinct_positions(order, members.len() as int),
            order.len() < members.len(),
        ensures
            self.insert_batch(members, slot, outer).complete_members(
                members,
                outcomes,
                order,
            ).batch_in_progress(members, slot, outer, outcomes, order),
        decreases order.len(),
    {
        let start = self.insert_batch(members, slot, outer);
        if order.len() == 0 {
            self.lemma_insert_batch_wf(members, slot, outer);
            assert(start.slots[outer as int]->outcomes =~= partial_outcomes(outcomes, order));
            assert forall|k: int| 0 <= k < members.len() implies (#[trigger] members[k]) < start.slots.len()
                && start.slots[members[k] as int] == (SlotState::<C, S, B>::BatchMember {
                batch: outer,
                index: k as nat,
            }) by {
                assert(self.is_allocated(members[k]));
                assert(members.contains(members[k]));
                let found = members.index_of(members[k]);
                assert(0 <= found < members.len() && members[found] == members[k]);
            }
        } else {
            let earlier = order.drop_last();
            let position = order.last();
            assert(distinct_positions(earlier, members.len() as int)) by {
                assert forall|j: int| 0 <= j < earlier.len() implies 0 <= #[trigger] earlier[j]
                    < members.len() by {
                    assert(earlier[j] == order[j]);
                }
            }
            self.lemma_batch_progress(members, slot, outer, outcomes, earlier);
            let before = start.complete_members(members, outcomes, earlier);
            assert(earlier.push(position) =~= order);
            assert(!earlier.contains(position)) by {
                if earlier.contains(position) {
                    let j = choose|j: int| 0 <= j < earlier.len() && earlier[j] == position;
                    assert(order[j] == order[order.len() - 1]);
                }
            }
            before.lemma_batch_step(members, slot, outer, outcomes, earlier, position);
            lemma_positions(order, members.len() as int);
            let missing = choose|k: int| 0 <= k < members.len() && !order.contains(k);
            assert(partial_outcomes(outcomes, order)[missing] is None);
            before.lemma_complete_member_wf(members[position], outcomes[position]);
        }
    }

    /// The next member of a batch in progress is one that the batch waits for, and
    /// recording its outcome adds it to what the batch holds.
    proof fn lemma_batch_step(
        self,
        members: Seq<u64>,
        slot: B,
        outer: u64,
        outcomes: Seq<Outcome>,
        done: Seq<int>,
        position: int,
    )
        requires
            self.batch_in_progress(members, slot, outer, outcomes, done),
            outcomes.len() == members.len(),
            0 <= position < members.len(),
            !done.contains(position),
        ensures
            self.awaited_member(members[position]),
            self.batch_slot_of(members[position]) == slot,
            self.recorded(members[position], outcomes[position]) == partial_outcomes(
                outcomes,
                done.push(position),
            ),
            !all_recorded(partial_outcomes(outcomes, done.push(position))) ==> self.complete_member(
                members[position],
                outcomes[position],
            ).batch_in_progress(members, slot, outer, outcomes, done.push(position)),
    {
        let id = members[position];
        let after = done.push(position);
        assert(self.slots[id as int] == (SlotState::<C, S, B>::BatchMember {
            batch: outer,
            index: position as nat,
        }));
        assert forall|k: int| 0 <= k < outcomes.len() implies self.recorded(id, outcomes[position])[k]
            == partial_outcomes(outcomes, after)[k] by {
            if k == position {
                assert(after[done.len() as int] == k);
            } else if done.contains(k) {
                let j = choose|j: int| 0 <= j < done.len() && done[j] == k;
                assert(after[j] == k);
            } else if after.contains(k) {
                let j = choose|j: int| 0 <= j < after.len() && after[j] == k;
                assert(done[j] == k);
            }
        }
        assert(self.recorded(id, outcomes[position]) =~= partial_outcomes(outcomes, after));
        if !all_recorded(partial_outcomes(outcomes, after)) {
            let next = self.complete_member(id, outcomes[position]);
            self.lemma_complete_member_wf(id, outcomes[position]);
            assert forall|k: int| 0 <= k < members.len() implies (#[trigger] members[k]) < next.slots.len()
                && next.slots[members[k] as int] == (SlotState::<C, S, B>::BatchMember {
                batch: outer,
                index: k as nat,
            }) by {
                assert(self.slots[members[k] as int] is BatchMember);
            }
        }
    }

    /// Batch atomicity: after a batch of `n` members is registered, let its members end
    /// in any order, the member at position `k` with `outcomes[k]`. Then each member in
    /// turn is one that the batch waits for; none but the last resolves the batch; and the
    /// last resolves it with `outcomes`, the outcomes in request order, whatever the
    /// order of arrival was.
    pub proof fn lemma_batch_resolves_in_request_order(
        self,
        members: Seq<u64>,
        slot: B,
        outer: u64,
        outcomes: Seq<Outcome>,
        order: Seq<int>,
        step: int,
    )
        requires
            self.wf(),
            self.can_insert_batch(members, outer),
            outcomes.len() == members.len(),
            order.len() == members.len(),
            distinct_positions(order, members.len() as int),
            0 <= step < order.len(),
        ensures
            ({
                let before = self.insert_batch(members, slot, outer).complete_members(
                    members,
                    outcomes,
                    order.take(step),
                );
                let id = members[order[step]];
                &&& before.awaited_member(id)
                &&& before.completes_batch(id, outcomes[order[step]]) <==> step == order.len() - 1
                &&& step == order.len() - 1 ==> before.batch_slot_of(id) == slot && batch_result(
                    before.recorded(id, outcomes[order[step]]),
                ) == outcomes
            }),
    {
        let n = members.len() as int;
        let earlier = order.take(step);
        let position = order[step];
        let upto = earlier.push(position);
        assert(upto =~= order.take(step + 1));
        assert(distinct_positions(earlier, n)) by {
            assert forall|j: int| 0 <= j < earlier.len() implies 0 <= #[trigger] earlier[j] < n by {
                assert(earlier[j] == order[j]);
            }
        }
        assert(distinct_positions(upto, n)) by {
            assert forall|j: int| 0 <= j < upto.len() implies 0 <= #[trigger] upto[j] < n by {
                assert(upto[j] == order[j]);
            }
        }
        assert(!earlier.contains(position)) by {
            if earlier.contains(position) {
                let j = choose|j: int| 0 <= j < earlier.len() && earlier[j] == position;
                assert(order[j] == order[step]);
            }
        }
        self.lemma_batch_progress(members, slot, outer, outcomes, earlier);
        let before = self.insert_batch(members, slot, outer).complete_members(members, outcomes, earlier);
        before.lemma_batch_step(members, slot, outer, outcomes, earlier, position);
        lemma_positions(upto, n);
        let held = partial_outcomes(outcomes, upto);
        if step == order.len() - 1 {
            assert forall|k: int| 0 <= k < held.len() implies (#[trigger] held[k]) is Some by {
                assert(upto.contains(k));
            }
            assert(batch_result(held) =~= outcomes);
        } else {
            let missing = choose|k: int| 0 <= k < n && !upto.contains(k);
            assert(held[missing] is None);
        }
    }

    /// `waiters_below(n)` holds the waiter of each identifier of `waiting_below(n)`, in
    /// that order; and `waiting_below(n)` lists the identifiers below `n` that have a
    /// waiter of their own, each once, ascending.
    pub proof fn lemma_waiters_below(self, n: int)
        requires
            0 <= n <= self.slots.len() <= u64::MAX,
        ensures
            self.waiters_below(n).len() == self.waiting_below(n).len(),
            forall|k: int|
                0 <= k < self.waiting_below(n).len() ==> (#[trigger] self.waiting_below(n)[k]) < n
                    && self.has_waiter(self.waiting_below(n)[k]) && self.waiters_below(n)[k]
                    == self.waiter_at(self.waiting_below(n)[k]),
            forall|id: u64| id < n && #[trigger] self.has_waiter(id) ==> self.waiting_below(n).contains(id),
            forall|j: int, k: int|
                0 <= j < k < self.waiting_below(n).len() ==> self.waiting_below(n)[j]
                    < self.waiting_below(n)[k],
        decreases n,
    {
        if n > 0 {
            self.lemma_waiters_below(n - 1);
            let rest = self.waiting_below(n - 1);
            let all = self.waiting_below(n);
            assert forall|id: u64| id < n && #[trigger] self.has_waiter(id) implies all.contains(id) by {
                if id < n - 1 {
                    let j = choose|j: int| 0 <= j < rest.len() && rest[j] == id;
                    assert(all[j] == id);
                } else {
                    assert(all[all.len() - 1] == id);
                }
            }
        }
    }

    /// Teardown hands every waiter out exactly once: the waiters of a manager are those
    /// of the identifiers that have one, each identifier counted once.
    pub proof fn lemma_teardown_complete(self)
        requires
            self.wf(),
        ensures
            ({
                let waiting = self.waiting_below(self.slots.len() as int);
                &&& self.waiters().len() == waiting.len()
                &&& waiting.no_duplicates()
                &&& forall|id: u64| self.has_waiter(id) <==> waiting.contains(id)
                &&& forall|k: int|
                    0 <= k < waiting.len() ==> self.waiters()[k] == self.waiter_at(#[trigger] waiting[k])
            }),
    {
        self.lemma_waiters_below(self.slots.len() as int);
        let waiting = self.waiting_below(self.slots.len() as int);
        assert forall|id: u64| waiting.contains(id) implies self.has_waiter(id) by {
            let k = choose|k: int| 0 <= k < waiting.len() && waiting[k] == id;
            assert(self.has_waiter(waiting[k]));
        }
        assert forall|j: int, k: int| 0 <= j < waiting.len() && 0 <= k < waiting.len() && j != k implies waiting[j]
            != waiting[k] by {
            if j < k {
                assert(waiting[j] < waiting[k]);
            } else {
                assert(waiting[k] < waiting[j]);
            }
        }
    }

    /// The state after one operation.
    pub open spec fn apply(self, op: Operation<C, S, B>) -> Self {
        match op {
            Operation::Allocate => self.allocate(),
            Operation::Reclaim(id) => self.reclaim(id),
            Operation::InsertCall(id, slot) => self.insert_call(id, slot),
            Operation::InsertSubscription(id, slot, unsubscribe) => self.insert_subscription(
                id,
                slot,
                unsubscribe,
            ),
            Operation::InsertBatch(members, slot, outer) => self.insert_batch(members, slot, outer),
            Operation::CompleteCall(id) => self.complete_call(id),
            Operation::CompleteMember(id, outcome) => self.complete_member(id, outcome),
            Operation::RemoveSubscription(id) => self.remove_subscription(id),
            Operation::FailAll => self.fail_all(),
        }
    }

    /// The state after a sequence of operations, first to last.
    pub open spec fn run(self, ops: Seq<Operation<C, S, B>>) -> Self
        decreases ops.len(),
    {
        if ops.len() == 0 {
            self
        } else {
            self.run(ops.drop_last()).apply(ops.last())
        }
    }

    /// Every operation keeps the manager well formed and its capacity unchanged.
    pub proof fn lemma_apply_wf(self, op: Operation<C, S, B>)
        requires
            self.wf(),
        ensures
            self.apply(op).wf(),
            self.apply(op).capacity() == self.capacity(),
    {
        match op {
            Operation::Allocate => self.lemma_allocate_wf(),
            Operation::Reclaim(id) => self.lemma_reclaim_wf(id),
            Operation::InsertCall(id, slot) => self.lemma_insert_call_wf(id, slot),
            Operation::InsertSubscription(id, slot, unsubscribe) => self.lemma_insert_subscription_wf(
                id,
                slot,
                unsubscribe,
            ),
            Operation::InsertBatch(members, slot, outer) => self.lemma_insert_batch_wf(
                members,
                slot,
                outer,
            ),
            Operation::CompleteCall(id) => self.lemma_complete_call_wf(id),
            Operation::CompleteMember(id, outcome) => self.lemma_complete_member_wf(id, outcome),
            Operation::RemoveSubscription(id) => self.lemma_remove_subscription_wf(id),
            Operation::FailAll => self.lemma_fail_all_wf(),
        }
    }

    /// Every sequence of operations keeps the manager well formed and its capacity
    /// unchanged.
    pub proof fn lemma_run_wf(self, ops: Seq<Operation<C, S, B>>)
        requires
            self.wf(),
        ensures
            self.run(ops).wf(),
            self.run(ops).capacity() == self.capacity(),
        decreases ops.len(),
    {
        if ops.len() > 0 {
            self.lemma_run_wf(ops.drop_last());
            self.run(ops.drop_last()).lemma_apply_wf(ops.last());
        }
    }

    /// In a well-formed manager an identifier is in exactly one state: no identifier of
    /// the free pool occurs twice or is registered, and no identifier is a member of two
    /// batches or twice a member of one.
    pub proof fn lemma_wf_unique(self)
        requires
            self.wf(),
        ensures
            self.free.no_duplicates(),
            forall|id: u64| self.free.contains(id) ==> self.is_free(id) && !self.is_pending(id),
            forall|a: int, b: int, j: int, k: int|
                #![trigger self.slots[a]->members[j], self.slots[b]->members[k]]
                0 <= a < self.slots.len() && 0 <= b < self.slots.len() && self.slots[a] is Batch
                    && self.slots[b] is Batch && 0 <= j < self.slots[a]->members.len() && 0 <= k
                    < self.slots[b]->members.len() && self.slots[a]->members[j]
                    == self.slots[b]->members[k] ==> a == b && j == k,
    {
        assert forall|id: u64| self.free.contains(id) implies self.is_free(id) && !self.is_pending(
            id,
        ) by {
            let k = choose|k: int| 0 <= k < self.free.len() && self.free[k] == id;
            assert(self.is_free(self.free[k]));
        }
        assert forall|a: int, b: int, j: int, k: int|
            #![trigger self.slots[a]->members[j], self.slots[b]->members[k]]
            0 <= a < self.slots.len() && 0 <= b < self.slots.len() && self.slots[a] is Batch
                && self.slots[b] is Batch && 0 <= j < self.slots[a]->members.len() && 0 <= k
                < self.slots[b]->members.len() && self.slots[a]->members[j]
                == self.slots[b]->members[k] implies a == b && j == k by {
            assert(self.linked(a));
            assert(self.linked(b));
        }
    }

    /// Identifier uniqueness: whatever operations were applied to a fresh manager, no two
    /// entries share an identifier. An identifier that allocation hands out was free, so
    /// it is neither registered nor held by another caller, and it is not handed out again
    /// before it returns to the pool; registering an identifier that is already pending
    /// changes nothing.
    pub proof fn lemma_identifiers_unique(capacity: nat, ops: Seq<Operation<C, S, B>>)
        requires
            capacity <= u64::MAX,
        ensures
            ({
                let s = Self::init(capacity).run(ops);
                &&& s.wf()
                &&& s.free.len() > 0 ==> {
                    &&& s.is_free(s.free[0])
                    &&& s.allocate().is_allocated(s.free[0])
                    &&& !s.allocate().free.contains(s.free[0])
                }
                &&& forall|id: u64, slot: C| !s.is_allocated(id) ==> s.insert_call(id, slot) == s
                &&& forall|id: u64, slot: S, unsubscribe: Seq<char>|
                    !s.is_allocated(id) ==> s.insert_subscription(id, slot, unsubscribe) == s
                &&& forall|members: Seq<u64>, slot: B, outer: u64|
                    !s.can_insert_batch(members, outer) ==> s.insert_batch(members, slot, outer) == s
            }),
    {
        Self::lemma_init_wf(capacity);
        Self::init(capacity).lemma_run_wf(ops);
        let s = Self::init(capacity).run(ops);
        if s.free.len() > 0 {
            assert(s.is_free(s.free[0]));
            let after = s.allocate();
            if after.free.contains(s.free[0]) {
                let k = choose|k: int| 0 <= k < after.free.len() && after.free[k] == s.free[0];
                assert(s.free[k + 1] == s.free[0]);
            }
        }
    }

    /// The free pool and the identifiers in flight make up the whole pool.
    pub proof fn lemma_pool_count(self)
        requires
            self.wf(),
        ensures
            self.in_flight().finite(),
            self.free.len() + self.in_flight().len() == self.capacity(),
    {
        let pool = self.free.to_set();
        let all = ids_below(self.slots.len());
        self.free.unique_seq_to_set();
        seq_to_set_is_finite(self.free);
        lemma_ids_below(self.slots.len());
        assert(self.in_flight().subset_of(all));
        lemma_len_subset(self.in_flight(), all);
        assert forall|id: u64| pool.contains(id) implies self.is_free(id) by {
            let k = choose|k: int| 0 <= k < self.free.len() && self.free[k] == id;
            assert(self.is_free(self.free[k]));
        }
        assert(pool.disjoint(self.in_flight()));
        assert forall|id: u64| all.contains(id) implies (pool + self.in_flight()).contains(id) by {
            if self.slots[id as int] is Free {
                assert(self.free.contains(id));
            }
        }
        assert(pool + self.in_flight() =~= all);
        lemma_set_disjoint_lens(pool, self.in_flight());
    }

    /// No leak: whatever operations were applied to a fresh manager, the free identifiers
    /// and those in flight add up to the capacity. Once every allocated identifier is
    /// resolved or reclaimed, the free pool is as large as it was at the start.
    pub proof fn lemma_no_leak(capacity: nat, ops: Seq<Operation<C, S, B>>)
        requires
            capacity <= u64::MAX,
        ensures
            ({
                let s = Self::init(capacity).run(ops);
                &&& s.in_flight().finite()
                &&& s.free.len() + s.in_flight().len() == capacity
                &&& s.in_flight().is_empty() ==> s.free.len() == capacity
            }),
    {
        Self::lemma_init_wf(capacity);
        Self::init(capacity).lemma_run_wf(ops);
        Self::init(capacity).run(ops).lemma_pool_count();
    }

    /// A registered identifier returns to the free pool only when what it is registered
    /// for has ended: reclaiming it before changes nothing. This holds in particular of
    /// the members of a batch, none of which is reclaimed on its own.
    pub proof fn lemma_pending_not_reclaimed(self, id: u64)
        requires
            self.is_pending(id),
        ensures
            self.reclaim(id) == self,
    {
    }

    /// At most one delivery: once a call is completed, a second response with the same
    /// identifier finds no call and changes nothing.
    pub proof fn lemma_call_resolved_once(self, id: u64)
        ensures
            self.complete_call(id).call_slot(id) is None,
            self.complete_call(id).complete_call(id) == self.complete_call(id),
    {
    }

    /// A removed subscription receives nothing: notifications for its identifier find no
    /// subscription, and removing it again changes nothing.
    pub proof fn lemma_subscription_removed_once(self, id: u64)
        ensures
            self.remove_subscription(id).subscription(id) is None,
            self.remove_subscription(id).remove_subscription(id) == self.remove_subscription(id),
    {
    }

    /// A batch is resolved by the last member it waits for and by no other: recording an
    /// outcome completes the batch exactly when every other member has ended.
    pub proof fn lemma_batch_waits_for_all(self, id: u64, outcome: Outcome)
        requires
            self.wf(),
            self.awaited_member(id),
        ensures
            self.completes_batch(id, outcome) <==> (forall|k: int|
                0 <= k < self.slots[self.slots[id as int]->batch as int]->outcomes.len() && k
                    != self.slots[id as int]->index ==> (
                #[trigger] self.slots[self.slots[id as int]->batch as int]->outcomes[k]) is Some),
            !self.completes_batch(id, outcome) ==> self.complete_member(id, outcome).free
                == self.free,
    {
        let outcomes = self.slots[self.slots[id as int]->batch as int]->outcomes;
        let index = self.slots[id as int]->index as int;
        let recorded = self.recorded(id, outcome);
        if all_recorded(recorded) {
            assert forall|k: int| 0 <= k < outcomes.len() && k != index implies (
            #[trigger] outcomes[k]) is Some by {
                assert(recorded[k] is Some);
            }
        }
        if forall|k: int| 0 <= k < outcomes.len() && k != index ==> (#[trigger] outcomes[k]) is Some {
            assert forall|k: int| 0 <= k < recorded.len() implies (#[trigger] recorded[k]) is Some by {
                if k != index {
                    assert(outcomes[k] is Some);
                }
            }
        }
    }

    /// Nothing is registered below `n`.
    proof fn lemma_nothing_pending(self, n: int)
        requires
            0 <= n <= self.slots.len() <= u64::MAX,
            forall|id: u64| !self.is_pending(id),
        ensures
            self.pending_below(n) == Seq::<u64>::empty(),
            self.waiters_below(n) == Seq::<Waiter<C, S, B>>::empty(),
        decreases n,
    {
        if n > 0 {
            self.lemma_nothing_pending(n - 1);
            assert(!self.is_pending((n - 1) as u64));
        }
    }

    /// Teardown is idempotent: clearing the table leaves nothing pending and no waiter, so
    /// clearing it again hands out nothing and changes nothing.
    pub proof fn lemma_teardown_idempotent(self)
        requires
            self.wf(),
        ensures
            forall|id: u64| !self.fail_all().is_pending(id),
            self.fail_all().waiters() == Seq::<Waiter<C, S, B>>::empty(),
            self.fail_all().fail_all() == self.fail_all(),
    {
        let once = self.fail_all();
        self.lemma_fail_all_wf();
        once.lemma_nothing_pending(once.slots.len() as int);
        assert(once.fail_all().free =~= once.free);
        assert(once.fail_all().slots =~= once.slots);
    }
}

} // verus!
