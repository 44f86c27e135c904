//! Mathematical model of the request manager: the state of every identifier of the pool,
//! and each operation as a function from state to state.

use crate::error::Error;
use crate::json::JsonValue;
use vstd::prelude::*;

verus! {

/// What a call, or one member of a batch, ended with.
pub type Outcome = Result<JsonValue, Error>;

/// State of one identifier of the pool.
///
/// `C`, `S` and `B` are the caller's handles for waking the waiter of a call, of a
/// subscription and of a batch.
pub enum SlotState<C, S, B> {
    /// In the free pool.
    Free,
    /// Handed out, and registered under no kind.
    Allocated,
    /// A call that waits for its response.
    Call(C),
    /// A subscription with its delivery handle and the name of its unsubscribe method.
    Subscription(S, Seq<char>),
    /// Member number `index` of the batch registered under `batch`.
    BatchMember { batch: u64, index: nat },
    /// A batch: its members in request order, what each has ended with so far, and the
    /// handle that receives all outcomes together.
    Batch { members: Seq<u64>, outcomes: Seq<Option<Outcome>>, slot: B },
}

/// A waiter that has to be woken, with the handle that wakes it.
#[derive(Debug, PartialEq)]
pub enum Waiter<C, S, B> {
    /// Waiter of a call.
    Call(C),
    /// Receiving side of a subscription.
    Subscription(S),
    /// Waiter of a batch.
    Batch(B),
}

/// State of a request manager.
pub struct ManagerState<C, S, B> {
    /// The free pool, oldest first.
    pub free: Seq<u64>,
    /// State of identifier `i` at index `i`.
    pub slots: Seq<SlotState<C, S, B>>,
}

/// Every member of a batch has ended.
pub open spec fn all_recorded(outcomes: Seq<Option<Outcome>>) -> bool {
    forall|k: int| 0 <= k < outcomes.len() ==> (#[trigger] outcomes[k]) is Some
}

/// The outcomes of a batch whose members have all ended, in request order.
pub open spec fn batch_result(outcomes: Seq<Option<Outcome>>) -> Seq<Outcome> {
    Seq::new(outcomes.len(), |k: int| outcomes[k]->Some_0)
}

impl<C, S, B> ManagerState<C, S, B> {
    /// Number of identifiers in the pool, free or not.
    pub open spec fn capacity(self) -> nat {
        self.slots.len()
    }

    pub open spec fn is_free(self, id: u64) -> bool {
        id < self.slots.len() && self.slots[id as int] is Free
    }

    pub open spec fn is_allocated(self, id: u64) -> bool {
        id < self.slots.len() && self.slots[id as int] is Allocated
    }

    /// `id` is registered: as a call, a subscription, a batch or a member of a batch.
    pub open spec fn is_pending(self, id: u64) -> bool {
        id < self.slots.len() && !(self.slots[id as int] is Free) && !(self.slots[id as int] is Allocated)
    }

    /// Identifiers that are not in the free pool.
    pub open spec fn in_flight(self) -> Set<u64> {
        Set::new(|id: u64| id < self.slots.len() && !(self.slots[id as int] is Free))
    }

    /// Slot `i` agrees with the slots it refers to: a member with its batch, a batch with
    /// each of its members.
    pub open spec fn linked(self, i: int) -> bool {
        match self.slots[i] {
            SlotState::BatchMember { batch, index } => {
                &&& batch < self.slots.len()
                &&& self.slots[batch as int] is Batch
                &&& index < self.slots[batch as int]->members.len()
                &&& self.slots[batch as int]->members[index as int] == i
            },
            SlotState::Batch { members, outcomes, slot } => {
                &&& members.len() == outcomes.len()
                &&& members.len() > 0
                &&& forall|k: int|
                    0 <= k < members.len() ==> (#[trigger] members[k]) < self.slots.len()
                        && self.slots[members[k] as int] == (SlotState::<C, S, B>::BatchMember {
                        batch: i as u64,
                        index: k as nat,
                    })
            },
            _ => true,
        }
    }

    /// The free pool holds exactly the free identifiers, each once, and batches and their
    /// members agree.
    pub open spec fn wf(self) -> bool {
        &&& self.slots.len() <= u64::MAX
        &&& self.free.no_duplicates()
        &&& forall|k: int| 0 <= k < self.free.len() ==> self.is_free(#[trigger] self.free[k])
        &&& forall|i: int|
            #![trigger self.slots[i]]
            0 <= i < self.slots.len() && self.slots[i] is Free ==> self.free.contains(i as u64)
        &&& forall|i: int| 0 <= i < self.slots.len() ==> #[trigger] self.linked(i)
    }

    /// A manager of `capacity` identifiers, all free, lowest first.
    pub open spec fn init(capacity: nat) -> Self {
        ManagerState {
            free: Seq::new(capacity, |i: int| i as u64),
            slots: Seq::new(capacity, |i: int| SlotState::Free),
        }
    }

    /// Takes the oldest free identifier, if there is one.
    pub open spec fn allocate(self) -> Self {
        if self.free.len() > 0 {
            ManagerState {
                free: self.free.subrange(1, self.free.len() as int),
                slots: self.slots.update(self.free[0] as int, SlotState::Allocated),
            }
        } else {
            self
        }
    }

    /// Takes the `n` oldest free identifiers.
    pub open spec fn allocate_first(self, n: nat) -> Self {
        ManagerState {
            free: self.free.skip(n as int),
            slots: Seq::new(
                self.slots.len(),
                |i: int|
                    if self.free.take(n as int).contains(i as u64) {
                        SlotState::Allocated
                    } else {
                        self.slots[i]
                    },
            ),
        }
    }

    /// Returns the identifiers to the pool, first to last.
    pub open spec fn reclaim_all(self, ids: Seq<u64>) -> Self
        decreases ids.len(),
    {
        if ids.len() == 0 {
            self
        } else {
            self.reclaim_all(ids.drop_last()).reclaim(ids.last())
        }
    }

    /// Returns an allocated identifier to the pool.
    pub open spec fn reclaim(self, id: u64) -> Self {
        if self.is_allocated(id) {
            ManagerState { free: self.free.push(id), slots: self.slots.update(id as int, SlotState::Free) }
        } else {
            self
        }
    }

    /// Registers an allocated identifier as a call.
    pub open spec fn insert_call(self, id: u64, slot: C) -> Self {
        if self.is_allocated(id) {
            ManagerState { free: self.free, slots: self.slots.update(id as int, SlotState::Call(slot)) }
        } else {
            self
        }
    }

    /// Registers an allocated identifier as a subscription.
    pub open spec fn insert_subscription(self, id: u64, slot: S, unsubscribe: Seq<char>) -> Self {
        if self.is_allocated(id) {
            ManagerState {
                free: self.free,
                slots: self.slots.update(id as int, SlotState::Subscription(slot, unsubscribe)),
            }
        } else {
            self
        }
    }

    /// A batch can be registered under `outer` with these members: there is a member, all
    /// identifiers are allocated, and no two are the same.
    pub open spec fn can_insert_batch(self, members: Seq<u64>, outer: u64) -> bool {
        &&& self.is_allocated(outer)
        &&& members.len() > 0
        &&& members.no_duplicates()
        &&& forall|k: int|
            0 <= k < members.len() ==> self.is_allocated(#[trigger] members[k]) && members[k] != outer
    }

    /// Registers a batch and all its members, or nothing.
    pub open spec fn insert_batch(self, members: Seq<u64>, slot: B, outer: u64) -> Self {
        if self.can_insert_batch(members, outer) {
            ManagerState {
                free: self.free,
                slots: Seq::new(
                    self.slots.len(),
                    |i: int|
                        if i == outer {
                            SlotState::Batch {
                                members,
                                outcomes: Seq::new(members.len(), |k: int| None),
                                slot,
                            }
                        } else if members.contains(i as u64) {
                            SlotState::BatchMember {
                                batch: outer,
                                index: members.index_of(i as u64) as nat,
                            }
                        } else {
                            self.slots[i]
                        },
                ),
            }
        } else {
            self
        }
    }

    /// The handle of the call registered under `id`.
    pub open spec fn call_slot(self, id: u64) -> Option<C> {
        if id < self.slots.len() && self.slots[id as int] is Call {
            Some(self.slots[id as int]->Call_0)
        } else {
            None
        }
    }

    /// Removes the call registered under `id`; the identifier stays allocated.
    pub open spec fn complete_call(self, id: u64) -> Self {
        if self.call_slot(id) is Some {
            ManagerState { free: self.free, slots: self.slots.update(id as int, SlotState::Allocated) }
        } else {
            self
        }
    }

    /// The delivery handle and unsubscribe method of the subscription registered under `id`.
    pub open spec fn subscription(self, id: u64) -> Option<(S, Seq<char>)> {
        if id < self.slots.len() && self.slots[id as int] is Subscription {
            Some((self.slots[id as int]->Subscription_0, self.slots[id as int]->Subscription_1))
        } else {
            None
        }
    }

    /// Removes the subscription registered under `id`; the identifier stays allocated.
    pub open spec fn remove_subscription(self, id: u64) -> Self {
        if self.subscription(id) is Some {
            ManagerState { free: self.free, slots: self.slots.update(id as int, SlotState::Allocated) }
        } else {
            self
        }
    }

    /// `id` is a member of a registered batch and has not ended yet.
    pub open spec fn awaited_member(self, id: u64) -> bool {
        &&& id < self.slots.len()
        &&& self.slots[id as int] is BatchMember
        &&& self.slots[id as int]->batch < self.slots.len()
        &&& self.slots[self.slots[id as int]->batch as int] is Batch
        &&& self.slots[id as int]->index < self.slots[self.slots[id as int]->batch as int]->outcomes.len()
        &&& self.slots[self.slots[id as int]->batch as int]->outcomes[self.slots[id as int]->index as int] is None
    }

    /// The outcomes of the batch of member `id` once `outcome` is recorded for it.
    pub open spec fn recorded(self, id: u64, outcome: Outcome) -> Seq<Option<Outcome>> {
        self.slots[self.slots[id as int]->batch as int]->outcomes.update(
            self.slots[id as int]->index as int,
            Some(outcome),
        )
    }

    /// The handle of the batch that `id` is a member of.
    pub open spec fn batch_slot_of(self, id: u64) -> B {
        self.slots[self.slots[id as int]->batch as int]->slot
    }

    /// `id` is the last member that its batch waits for.
    pub open spec fn completes_batch(self, id: u64, outcome: Outcome) -> bool {
        self.awaited_member(id) && all_recorded(self.recorded(id, outcome))
    }

    /// Records the outcome of member `id`. With the last member the batch and its members
    /// return to the free pool: the members in request order, then the batch.
    pub open spec fn complete_member(self, id: u64, outcome: Outcome) -> Self {
        if self.awaited_member(id) {
            let batch = self.slots[id as int]->batch;
            let members = self.slots[batch as int]->members;
            if all_recorded(self.recorded(id, outcome)) {
                ManagerState {
                    free: (self.free + members).push(batch),
                    slots: Seq::new(
                        self.slots.len(),
                        |i: int|
                            if i == batch || members.contains(i as u64) {
                                SlotState::Free
                            } else {
                                self.slots[i]
                            },
                    ),
                }
            } else {
                ManagerState {
                    free: self.free,
                    slots: self.slots.update(
                        batch as int,
                        SlotState::Batch {
                            members,
                            outcomes: self.recorded(id, outcome),
                            slot: self.slots[batch as int]->slot,
                        },
                    ),
                }
            }
        } else {
            self
        }
    }

    /// The state after members of a batch have ended one after the other: `order` holds
    /// their positions in the batch, and the member at position `k` ends with
    /// `outcomes[k]`.
    pub open spec fn complete_members(self, members: Seq<u64>, outcomes: Seq<Outcome>, order: Seq<int>) -> Self
        decreases order.len(),
    {
        if order.len() == 0 {
            self
        } else {
            self.complete_members(members, outcomes, order.drop_last()).complete_member(
                members[order.last()],
                outcomes[order.last()],
            )
        }
    }

    /// `id` is registered with a waiter of its own: as a call, a subscription or a batch.
    pub open spec fn has_waiter(self, id: u64) -> bool {
        id < self.slots.len() && (self.slots[id as int] is Call || self.slots[id as int] is Subscription
            || self.slots[id as int] is Batch)
    }

    /// The waiter registered under `id`.
    pub open spec fn waiter_at(self, id: u64) -> Waiter<C, S, B> {
        match self.slots[id as int] {
            SlotState::Call(slot) => Waiter::Call(slot),
            SlotState::Subscription(slot, _) => Waiter::Subscription(slot),
            SlotState::Batch { slot, .. } => Waiter::Batch(slot),
            _ => arbitrary(),
        }
    }

    /// The identifiers below `n` that have a waiter of their own, ascending.
    pub open spec fn waiting_below(self, n: int) -> Seq<u64>
        decreases n,
    {
        if n <= 0 {
            Seq::empty()
        } else if self.has_waiter((n - 1) as u64) {
            self.waiting_below(n - 1).push((n - 1) as u64)
        } else {
            self.waiting_below(n - 1)
        }
    }

    /// The registered identifiers below `n`, ascending.
    pub open spec fn pending_below(self, n: int) -> Seq<u64>
        decreases n,
    {
        if n <= 0 {
            Seq::empty()
        } else if self.is_pending((n - 1) as u64) {
            self.pending_below(n - 1).push((n - 1) as u64)
        } else {
            self.pending_below(n - 1)
        }
    }

    /// The handles of the calls, subscriptions and batches registered below `n`, by
    /// ascending identifier.
    pub open spec fn waiters_below(self, n: int) -> Seq<Waiter<C, S, B>>
        decreases n,
    {
        if n <= 0 {
            Seq::empty()
        } else {
            let rest = self.waiters_below(n - 1);
            match self.slots[n - 1] {
                SlotState::Call(slot) => rest.push(Waiter::Call(slot)),
                SlotState::Subscription(slot, _) => rest.push(Waiter::Subscription(slot)),
                SlotState::Batch { slot, .. } => rest.push(Waiter::Batch(slot)),
                _ => rest,
            }
        }
    }

    /// Every waiter of the manager, by ascending identifier.
    pub open spec fn waiters(self) -> Seq<Waiter<C, S, B>> {
        self.waiters_below(self.slots.len() as int)
    }

    /// Clears the table: every registered identifier returns to the free pool, ascending.
    /// Identifiers that are allocated and not registered stay with their owners.
    pub open spec fn fail_all(self) -> Self {
        ManagerState {
            free: self.free + self.pending_below(self.slots.len() as int),
            slots: Seq::new(
                self.slots.len(),
                |i: int|
                    if self.slots[i] is Allocated {
                        SlotState::Allocated
                    } else {
                        SlotState::Free
                    },
            ),
        }
    }
}


/// The slot refers to no other slot.
pub open spec fn unlinked<C, S, B>(slot: SlotState<C, S, B>) -> bool {
    !(slot is BatchMember) && !(slot is Batch)
}

impl<C, S, B> ManagerState<C, S, B> {
    /// Replacing a slot that refers to no other slot by another such slot keeps batches
    /// and their members in agreement.
    proof fn lemma_links_kept(self, after: Self, id: int, slot: SlotState<C, S, B>)
        requires
            forall|i: int| 0 <= i < self.slots.len() ==> #[trigger] self.linked(i),
            0 <= id < self.slots.len(),
            unlinked(self.slots[id]),
            unlinked(slot),
            after.slots == self.slots.update(id, slot),
        ensures
            forall|i: int| 0 <= i < after.slots.len() ==> #[trigger] after.linked(i),
    {
        assert forall|i: int| 0 <= i < after.slots.len() implies #[trigger] after.linked(i) by {
            assert(self.linked(i));
            if i != id {
                match self.slots[i] {
                    SlotState::Batch { members, outcomes, slot } => {
                        assert forall|k: int| 0 <= k < members.len() implies (#[trigger] members[k])
                            < after.slots.len() && after.slots[members[k] as int] == (
                        SlotState::<C, S, B>::BatchMember { batch: i as u64, index: k as nat }) by {
                            assert(members[k] as int != id);
                        }
                    },
                    _ => {},
                }
            }
        }
    }

    /// A fresh manager is well formed.
    pub proof fn lemma_init_wf(capacity: nat)
        requires
            capacity <= u64::MAX,
        ensures
            Self::init(capacity).wf(),
            Self::init(capacity).capacity() == capacity,
            Self::init(capacity).free.len() == capacity,
    {
        let s = Self::init(capacity);
        assert forall|i: int| #![trigger s.slots[i]] 0 <= i < s.slots.len() && s.slots[i] is Free implies s.free.contains(i as u64) by {
            assert(s.free[i] == i as u64);
        }
        assert forall|i: int| 0 <= i < s.slots.len() implies #[trigger] s.linked(i) by {}
    }

    /// Allocation keeps the manager well formed.
    pub proof fn lemma_allocate_wf(self)
        requires
            self.wf(),
        ensures
            self.allocate().wf(),
    {
        if self.free.len() > 0 {
            let after = self.allocate();
            let id = self.free[0];
            assert(self.is_free(id));
            self.lemma_links_kept(after, id as int, SlotState::Allocated);
            assert forall|k: int| 0 <= k < after.free.len() implies after.is_free(#[trigger] after.free[k]) by {
                assert(after.free[k] == self.free[k + 1]);
                assert(self.is_free(self.free[k + 1]));
            }
            assert forall|i: int| #![trigger after.slots[i]] 0 <= i < after.slots.len() && after.slots[i] is Free implies after.free.contains(i as u64) by {
                assert(self.slots[i] is Free);
                let j = choose|j: int| 0 <= j < self.free.len() && self.free[j] == i as u64;
                assert(after.free[j - 1] == i as u64);
            }
        }
    }

    /// Taking no identifier changes nothing, and taking one more is one allocation.
    pub proof fn lemma_allocate_first(self, n: nat)
        requires
            self.wf(),
            n < self.free.len(),
        ensures
            self.allocate_first(0) == self,
            self.allocate_first(n).allocate() == self.allocate_first(n + 1),
            self.allocate_first(n).free.len() > 0,
            self.allocate_first(n).free[0] == self.free[n as int],
    {
        assert(self.allocate_first(0).free =~= self.free);
        assert(self.allocate_first(0).slots =~= self.slots);
        let before = self.allocate_first(n);
        let after = self.allocate_first(n + 1);
        assert(before.allocate().free =~= after.free);
        assert(self.is_free(self.free[n as int]));
        assert forall|i: int| 0 <= i < self.slots.len() implies before.allocate().slots[i]
            == after.slots[i] by {
            let shorter = self.free.take(n as int);
            let longer = self.free.take(n as int + 1);
            if shorter.contains(i as u64) {
                let k = choose|k: int| 0 <= k < shorter.len() && shorter[k] == i as u64;
                assert(longer[k] == i as u64);
            }
            if longer.contains(i as u64) {
                let k = choose|k: int| 0 <= k < longer.len() && longer[k] == i as u64;
                if k < n {
                    assert(shorter[k] == i as u64);
                }
            }
            if i == self.free[n as int] {
                assert(longer[n as int] == i as u64);
            }
        }
        assert(before.allocate().slots =~= after.slots);
    }

    /// Reclaiming keeps the manager well formed.
    pub proof fn lemma_reclaim_wf(self, id: u64)
        requires
            self.wf(),
        ensures
            self.reclaim(id).wf(),
    {
        if self.is_allocated(id) {
            let after = self.reclaim(id);
            self.lemma_links_kept(after, id as int, SlotState::Free);
            assert forall|i: int| #![trigger after.slots[i]] 0 <= i < after.slots.len() && after.slots[i] is Free implies after.free.contains(i as u64) by {
                if i == id {
                    assert(after.free[self.free.len() as int] == id);
                } else {
                    let j = choose|j: int| 0 <= j < self.free.len() && self.free[j] == i as u64;
                    assert(after.free[j] == i as u64);
                }
            }
            assert forall|k: int| 0 <= k < after.free.len() implies after.is_free(#[trigger] after.free[k]) by {
                if k < self.free.len() {
                    assert(self.is_free(self.free[k]));
                }
            }
            assert forall|j: int, k: int| 0 <= j < after.free.len() && 0 <= k < after.free.len() && j != k implies after.free[j] != after.free[k] by {
                if j < self.free.len() {
                    assert(self.is_free(self.free[j]));
                }
                if k < self.free.len() {
                    assert(self.is_free(self.free[k]));
                }
            }
        }
    }

    /// A slot that is neither free before nor after a change of one slot leaves the free
    /// pool as it is.
    proof fn lemma_pool_kept(self, after: Self, id: int, slot: SlotState<C, S, B>)
        requires
            self.wf(),
            0 <= id < self.slots.len(),
            !(self.slots[id] is Free),
            !(slot is Free),
            after.slots == self.slots.update(id, slot),
            after.free == self.free,
        ensures
            after.free.no_duplicates(),
            forall|k: int| 0 <= k < after.free.len() ==> after.is_free(#[trigger] after.free[k]),
            forall|i: int|
                #![trigger after.slots[i]]
                0 <= i < after.slots.len() && after.slots[i] is Free ==> after.free.contains(i as u64),
    {
        assert forall|k: int| 0 <= k < after.free.len() implies after.is_free(#[trigger] after.free[k]) by {
            assert(self.is_free(self.free[k]));
        }
        assert forall|i: int| #![trigger after.slots[i]] 0 <= i < after.slots.len() && after.slots[i] is Free implies after.free.contains(i as u64) by {
            assert(self.slots[i] is Free);
        }
    }

    /// Registering a call keeps the manager well formed.
    pub proof fn lemma_insert_call_wf(self, id: u64, slot: C)
        requires
            self.wf(),
        ensures
            self.insert_call(id, slot).wf(),
    {
        if self.is_allocated(id) {
            let after = self.insert_call(id, slot);
            self.lemma_links_kept(after, id as int, SlotState::Call(slot));
            self.lemma_pool_kept(after, id as int, SlotState::Call(slot));
        }
    }

    /// Registering a subscription keeps the manager well formed.
    pub proof fn lemma_insert_subscription_wf(self, id: u64, slot: S, unsubscribe: Seq<char>)
        requires
            self.wf(),
        ensures
            self.insert_subscription(id, slot, unsubscribe).wf(),
    {
        if self.is_allocated(id) {
            let after = self.insert_subscription(id, slot, unsubscribe);
            self.lemma_links_kept(after, id as int, SlotState::Subscription(slot, unsubscribe));
            self.lemma_pool_kept(after, id as int, SlotState::Subscription(slot, unsubscribe));
        }
    }

    /// Completing a call keeps the manager well formed.
    pub proof fn lemma_complete_call_wf(self, id: u64)
        requires
            self.wf(),
        ensures
            self.complete_call(id).wf(),
    {
        if self.call_slot(id) is Some {
            let after = self.complete_call(id);
            self.lemma_links_kept(after, id as int, SlotState::Allocated);
            self.lemma_pool_kept(after, id as int, SlotState::Allocated);
        }
    }

    /// Removing a subscription keeps the manager well formed.
    pub proof fn lemma_remove_subscription_wf(self, id: u64)
        requires
            self.wf(),
        ensures
            self.remove_subscription(id).wf(),
    {
        if self.subscription(id) is Some {
            let after = self.remove_subscription(id);
            self.lemma_links_kept(after, id as int, SlotState::Allocated);
            self.lemma_pool_kept(after, id as int, SlotState::Allocated);
        }
    }
}


impl<C, S, B> ManagerState<C, S, B> {
    /// Registering a batch keeps the manager well formed.
    pub proof fn lemma_insert_batch_wf(self, members: Seq<u64>, slot: B, outer: u64)
        requires
            self.wf(),
        ensures
            self.insert_batch(members, slot, outer).wf(),
    {
        if self.can_insert_batch(members, outer) {
            let after = self.insert_batch(members, slot, outer);
            assert forall|k: int| 0 <= k < members.len() implies members.index_of(
                #[trigger] members[k],
            ) == k by {
                let j = members.index_of(members[k]);
                assert(0 <= j < members.len() && members[j] == members[k]);
            }
            assert forall|i: int| 0 <= i < self.slots.len() && members.contains(i as u64) implies #[trigger] self.slots[i] is Allocated by {
                let k = choose|k: int| 0 <= k < members.len() && members[k] == i as u64;
                assert(self.is_allocated(members[k]));
            }
            assert forall|k: int| 0 <= k < after.free.len() implies after.is_free(#[trigger] after.free[k]) by {
                assert(self.is_free(self.free[k]));
                assert(self.slots[self.free[k] as int] is Free);
            }
            assert forall|i: int| #![trigger after.slots[i]] 0 <= i < after.slots.len() && after.slots[i] is Free implies after.free.contains(i as u64) by {
                assert(self.slots[i] is Free);
            }
            assert forall|i: int| 0 <= i < after.slots.len() implies #[trigger] after.linked(i) by {
                assert(self.linked(i));
                if i == outer {
                    assert forall|k: int| 0 <= k < members.len() implies (#[trigger] members[k])
                        < after.slots.len() && after.slots[members[k] as int] == (
                    SlotState::<C, S, B>::BatchMember { batch: i as u64, index: k as nat }) by {
                        assert(self.is_allocated(members[k]));
                        assert(members.contains(members[k]));
                    }
                } else if members.contains(i as u64) {
                    let k = choose|k: int| 0 <= k < members.len() && members[k] == i as u64;
                    assert(members.index_of(members[k]) == k);
                } else {
                    match self.slots[i] {
                        SlotState::BatchMember { batch, index } => {
                            assert(self.slots[batch as int] is Batch);
                        },
                        SlotState::Batch { members: own, outcomes, slot } => {
                            assert forall|k: int| 0 <= k < own.len() implies (#[trigger] own[k])
                                < after.slots.len() && after.slots[own[k] as int] == (
                            SlotState::<C, S, B>::BatchMember { batch: i as u64, index: k as nat }) by {
                                assert(self.slots[own[k] as int] is BatchMember);
                            }
                        },
                        _ => {},
                    }
                }
            }
        }
    }

    /// Recording the outcome of a batch member keeps the manager well formed.
    pub proof fn lemma_complete_member_wf(self, id: u64, outcome: Outcome)
        requires
            self.wf(),
        ensures
            self.complete_member(id, outcome).wf(),
    {
        if self.awaited_member(id) {
            let after = self.complete_member(id, outcome);
            let batch = self.slots[id as int]->batch;
            let members = self.slots[batch as int]->members;
            assert(self.linked(id as int));
            assert(self.linked(batch as int));
            assert forall|i: int| 0 <= i < self.slots.len() && members.contains(i as u64) implies #[trigger] self.slots[i]
                is BatchMember && self.slots[i]->batch == batch by {
                let k = choose|k: int| 0 <= k < members.len() && members[k] == i as u64;
                assert(self.slots[members[k] as int] is BatchMember);
            }
            if all_recorded(self.recorded(id, outcome)) {
                let n = self.free.len() as int;
                let m = members.len() as int;
                assert(after.free.len() == n + m + 1);
                assert forall|k: int| 0 <= k < after.free.len() implies after.is_free(#[trigger] after.free[k]) by {
                    if k < n {
                        assert(self.is_free(self.free[k]));
                    } else if k < n + m {
                        assert(after.free[k] == members[k - n]);
                        assert(members.contains(members[k - n]));
                    } else {
                        assert(after.free[k] == batch);
                    }
                }
                assert forall|j: int, k: int| 0 <= j < after.free.len() && 0 <= k < after.free.len() && j != k implies after.free[j] != after.free[k] by {
                    if j < n {
                        assert(self.is_free(self.free[j]));
                    } else if j < n + m {
                        assert(self.slots[members[j - n] as int] is BatchMember);
                    }
                    if k < n {
                        assert(self.is_free(self.free[k]));
                    } else if k < n + m {
                        assert(self.slots[members[k - n] as int] is BatchMember);
                    }
                }
                assert forall|i: int| #![trigger after.slots[i]] 0 <= i < after.slots.len() && after.slots[i] is Free implies after.free.contains(i as u64) by {
                    if i == batch {
                        assert(after.free[n + m] == i as u64);
                    } else if members.contains(i as u64) {
                        let k = choose|k: int| 0 <= k < members.len() && members[k] == i as u64;
                        assert(after.free[n + k] == i as u64);
                    } else {
                        assert(self.slots[i] is Free);
                        let j = choose|j: int| 0 <= j < self.free.len() && self.free[j] == i as u64;
                        assert(after.free[j] == i as u64);
                    }
                }
                assert forall|i: int| 0 <= i < after.slots.len() implies #[trigger] after.linked(i) by {
                    assert(self.linked(i));
                    if i != batch && !members.contains(i as u64) {
                        match self.slots[i] {
                            SlotState::BatchMember { batch: other, index } => {
                                assert(self.linked(other as int));
                                if other == batch {
                                    assert(members.contains(members[index as int]));
                                }
                                assert(self.slots[other as int] is Batch);
                            },
                            SlotState::Batch { members: own, outcomes, slot } => {
                                assert forall|k: int| 0 <= k < own.len() implies (
                                #[trigger] own[k]) < after.slots.len()
                                    && after.slots[own[k] as int] == (SlotState::<
                                    C,
                                    S,
                                    B,
                                >::BatchMember { batch: i as u64, index: k as nat }) by {
                                    assert(self.slots[own[k] as int]->batch == i as u64);
                                }
                            },
                            _ => {},
                        }
                    }
                }
            } else {
                assert forall|k: int| 0 <= k < after.free.len() implies after.is_free(#[trigger] after.free[k]) by {
                    assert(self.is_free(self.free[k]));
                }
                assert forall|i: int| #![trigger after.slots[i]] 0 <= i < after.slots.len() && after.slots[i] is Free implies after.free.contains(i as u64) by {
                    assert(self.slots[i] is Free);
                }
                assert forall|i: int| 0 <= i < after.slots.len() implies #[trigger] after.linked(i) by {
                    assert(self.linked(i));
                    if i != batch {
                        match self.slots[i] {
                            SlotState::Batch { members: own, outcomes, slot } => {
                                assert forall|k: int| 0 <= k < own.len() implies (
                                #[trigger] own[k]) < after.slots.len()
                                    && after.slots[own[k] as int] == (SlotState::<
                                    C,
                                    S,
                                    B,
                                >::BatchMember { batch: i as u64, index: k as nat }) by {
                                    assert(self.slots[own[k] as int] is BatchMember);
                                }
                            },
                            _ => {},
                        }
                    } else {
                        assert forall|k: int| 0 <= k < members.len() implies (
                        #[trigger] members[k]) < after.slots.len()
                            && after.slots[members[k] as int] == (SlotState::<
                            C,
                            S,
                            B,
                        >::BatchMember { batch: i as u64, index: k as nat }) by {
                            assert(self.slots[members[k] as int] is BatchMember);
                        }
                    }
                }
            }
        }
    }

    /// `pending_below(n)` lists the registered identifiers below `n`, each once, ascending.
    pub proof fn lemma_pending_below(self, n: int)
        requires
            0 <= n <= self.slots.len() <= u64::MAX,
        ensures
            forall|k: int|
                0 <= k < self.pending_below(n).len() ==> (#[trigger] self.pending_below(n)[k]) < n
                    && self.is_pending(self.pending_below(n)[k]),
            forall|id: u64| id < n && #[trigger] self.is_pending(id) ==> self.pending_below(n).contains(id),
            forall|j: int, k: int|
                0 <= j < k < self.pending_below(n).len() ==> self.pending_below(n)[j]
                    < self.pending_below(n)[k],
        decreases n,
    {
        if n > 0 {
            self.lemma_pending_below(n - 1);
            let rest = self.pending_below(n - 1);
            let all = self.pending_below(n);
            assert forall|id: u64| id < n && #[trigger] self.is_pending(id) implies all.contains(id) by {
                if id < n - 1 {
                    let j = choose|j: int| 0 <= j < rest.len() && rest[j] == id;
                    assert(all[j] == id);
                } else {
                    assert(all[all.len() - 1] == id);
                }
            }
        }
    }

    /// Clearing the table keeps the manager well formed and leaves nothing registered.
    pub proof fn lemma_fail_all_wf(self)
        requires
            self.wf(),
        ensures
            self.fail_all().wf(),
            forall|id: u64| !self.fail_all().is_pending(id),
    {
        let after = self.fail_all();
        let released = self.pending_below(self.slots.len() as int);
        let n = self.free.len() as int;
        self.lemma_pending_below(self.slots.len() as int);
        assert forall|k: int| 0 <= k < after.free.len() implies after.is_free(#[trigger] after.free[k]) by {
            if k < n {
                assert(self.is_free(self.free[k]));
            } else {
                assert(after.free[k] == released[k - n]);
            }
        }
        assert forall|j: int, k: int| 0 <= j < after.free.len() && 0 <= k < after.free.len() && j != k implies after.free[j] != after.free[k] by {
            if j < n {
                assert(self.is_free(self.free[j]));
            } else {
                assert(self.is_pending(released[j - n]));
            }
            if k < n {
                assert(self.is_free(self.free[k]));
            } else {
                assert(self.is_pending(released[k - n]));
            }
        }
        assert forall|i: int| #![trigger after.slots[i]] 0 <= i < after.slots.len() && after.slots[i] is Free implies after.free.contains(i as u64) by {
            if self.slots[i] is Free {
                let j = choose|j: int| 0 <= j < self.free.len() && self.free[j] == i as u64;
                assert(after.free[j] == i as u64);
            } else {
                assert(self.is_pending(i as u64));
                let j = choose|j: int| 0 <= j < released.len() && released[j] == i as u64;
                assert(after.free[n + j] == i as u64);
            }
        }
        assert forall|i: int| 0 <= i < after.slots.len() implies #[trigger] after.linked(i) by {}
    }
}

} // verus!
