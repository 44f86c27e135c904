//! The request manager: owner of the identifier pool and of the table of pending calls,
//! subscriptions and batches of one connection.
//!
//! The table is an arena indexed by identifier. No operation suspends or performs I/O.
//! Where a waiter has to be woken, the operation hands its handle out together with the
//! value it is owed, and never keeps a handle it has handed out.

use crate::error::Error;
use crate::json::JsonValue;
use crate::manager_state::{all_recorded, batch_result, ManagerState, Outcome, SlotState, Waiter};
use std::collections::VecDeque;
use vstd::prelude::*;

verus! {

/// One entry of the arena.
enum Slot<C, S, B> {
    Free,
    Allocated,
    Call(C),
    Subscription(S, String),
    BatchMember { batch: u64, index: usize },
    Batch { members: Vec<u64>, outcomes: Vec<Option<Outcome>>, missing: usize, slot: B },
}

/// Number of members of a batch that have not ended.
spec fn count_missing(outcomes: Seq<Option<Outcome>>) -> nat
    decreases outcomes.len(),
{
    if outcomes.len() == 0 {
        0
    } else {
        count_missing(outcomes.drop_last()) + if outcomes.last() is None {
            1nat
        } else {
            0nat
        }
    }
}

impl<C, S, B> Slot<C, S, B> {
    spec fn state(self) -> SlotState<C, S, B> {
        match self {
            Slot::Free => SlotState::Free,
            Slot::Allocated => SlotState::Allocated,
            Slot::Call(slot) => SlotState::Call(slot),
            Slot::Subscription(slot, unsubscribe) => SlotState::Subscription(slot, unsubscribe@),
            Slot::BatchMember { batch, index } => SlotState::BatchMember { batch, index: index as nat },
            Slot::Batch { members, outcomes, missing, slot } => SlotState::Batch {
                members: members@,
                outcomes: outcomes@,
                slot,
            },
        }
    }

    /// The counter of a batch agrees with its recorded outcomes. The counter is no part of
    /// the state of the manager: it only saves counting the outcomes that are missing.
    spec fn counted(self) -> bool {
        match self {
            Slot::Batch { outcomes, missing, .. } => missing == count_missing(outcomes@),
            _ => true,
        }
    }
}

/// Why an identifier is known to the manager, as far as an inbound frame is concerned.
#[derive(Debug, PartialEq, Eq, Clone, Copy)]
pub enum RequestStatus {
    /// A call waits under the identifier.
    PendingCall,
    /// A subscription is registered under the identifier.
    PendingSubscription,
    /// The identifier is a member of a batch that has not ended.
    PendingBatchMember,
    /// Nothing that a frame could answer.
    Invalid,
}

/// A registration that was refused, with the handle that came with it.
#[derive(Debug, PartialEq)]
pub struct Rejected<T> {
    /// Why the registration was refused.
    pub error: Error,
    /// The handle, returned to the caller.
    pub slot: T,
}

/// What recording the outcome of a batch member led to.
#[derive(Debug, PartialEq)]
pub enum BatchStep<B> {
    /// The identifier is no member of a batch that waits for it; the outcome is dropped.
    Ignored,
    /// The outcome is recorded, and the batch waits for other members.
    Recorded,
    /// The last member has ended: the handle of the batch, and the outcomes of all
    /// members in request order.
    Completed(B, Vec<Outcome>),
}

/// The waiters that a connection failure leaves behind. Each is owed `reason`.
#[derive(Debug, PartialEq)]
pub struct Teardown<C, S, B> {
    /// The failure that every waiter is to be woken with.
    pub reason: Error,
    /// The handles of all waiters, by ascending identifier.
    pub waiters: Vec<Waiter<C, S, B>>,
}

/// The pool of identifiers and the table of pending entries of one connection.
pub struct RequestManager<C, S, B> {
    free: VecDeque<u64>,
    table: Vec<Slot<C, S, B>>,
}

/// A batch that was just registered waits for all of its members.
proof fn lemma_count_fresh(n: nat)
    ensures
        count_missing(Seq::new(n, |k: int| None::<Outcome>)) == n,
    decreases n,
{
    if n > 0 {
        assert(Seq::new(n, |k: int| None::<Outcome>).drop_last() =~= Seq::new(
            (n - 1) as nat,
            |k: int| None::<Outcome>,
        ));
        lemma_count_fresh((n - 1) as nat);
    }
}

/// Recording an outcome for a member that has not ended lowers the count by one.
proof fn lemma_count_record(outcomes: Seq<Option<Outcome>>, index: int, outcome: Outcome)
    requires
        0 <= index < outcomes.len(),
        outcomes[index] is None,
    ensures
        count_missing(outcomes) > 0,
        count_missing(outcomes.update(index, Some(outcome))) == count_missing(outcomes) - 1,
    decreases outcomes.len(),
{
    let after = outcomes.update(index, Some(outcome));
    if index == outcomes.len() - 1 {
        assert(after.drop_last() =~= outcomes.drop_last());
    } else {
        assert(after.drop_last() =~= outcomes.drop_last().update(index, Some(outcome)));
        lemma_count_record(outcomes.drop_last(), index, outcome);
    }
}

/// The count is zero exactly when every member has ended.
proof fn lemma_count_zero(outcomes: Seq<Option<Outcome>>)
    ensures
        count_missing(outcomes) == 0 <==> all_recorded(outcomes),
    decreases outcomes.len(),
{
    if outcomes.len() > 0 {
        let rest = outcomes.drop_last();
        lemma_count_zero(rest);
        if all_recorded(outcomes) {
            assert forall|k: int| 0 <= k < rest.len() implies (#[trigger] rest[k]) is Some by {
                assert(outcomes[k] is Some);
            }
            assert(outcomes[outcomes.len() - 1] is Some);
        }
        if count_missing(outcomes) == 0 {
            assert forall|k: int| 0 <= k < outcomes.len() implies (#[trigger] outcomes[k]) is Some by {
                if k < rest.len() {
                    assert(rest[k] is Some);
                }
            }
        }
    }
}

/// Slot `i` was allocated in `initial` and is now member number `index` of the batch
/// under `outer`, for some `index` from `lo` up to and without `hi`.
spec fn marked<C, S, B>(
    initial: Seq<Slot<C, S, B>>,
    current: Seq<Slot<C, S, B>>,
    i: int,
    members: Seq<u64>,
    outer: u64,
    lo: int,
    hi: int,
) -> bool {
    &&& initial[i] == Slot::<C, S, B>::Allocated
    &&& current[i] is BatchMember
    &&& current[i]->batch == outer
    &&& lo <= current[i]->index < hi
    &&& members[current[i]->index as int] == i
}

/// Slot `i` is one of the first `k` members.
spec fn released(members: Seq<u64>, k: int, i: int) -> bool {
    exists|j: int| 0 <= j < k && #[trigger] members[j] == i
}

/// Takes the outcomes of a batch whose members have all ended out of their cells.
fn unwrap_all(outcomes: Vec<Option<Outcome>>) -> (results: Vec<Outcome>)
    requires
        all_recorded(outcomes@),
    ensures
        results@ == batch_result(outcomes@),
{
    let mut outcomes = outcomes;
    let ghost recorded = outcomes@;
    let mut results: Vec<Outcome> = Vec::new();
    let n = outcomes.len();
    let mut k: usize = 0;
    while k < n
        invariant
            k <= n,
            n == recorded.len(),
            outcomes@.len() == n,
            all_recorded(recorded),
            forall|j: int| k <= j < n ==> #[trigger] outcomes@[j] == recorded[j],
            results@.len() == k,
            forall|j: int| 0 <= j < k ==> #[trigger] results@[j] == recorded[j]->Some_0,
        decreases n - k,
    {
        let mut cell: Option<Outcome> = None;
        std::mem::swap(&mut outcomes[k], &mut cell);
        assert(cell == recorded[k as int]);
        match cell {
            Some(outcome) => {
                results.push(outcome);
            },
            None => {
                assert(false);
            },
        }
        k += 1;
    }
    assert(results@ =~= batch_result(recorded));
    results
}

/// Whether `id` is an allocated identifier of the arena.
fn slot_allocated<C, S, B>(table: &Vec<Slot<C, S, B>>, id: u64) -> (b: bool)
    ensures
        b == (id < table@.len() && table@[id as int] == Slot::<C, S, B>::Allocated),
{
    if id >= table.len() as u64 {
        return false;
    }
    match &table[id as usize] {
        Slot::Allocated => true,
        _ => false,
    }
}

/// Puts `slot` at index `i` of the arena and returns what was there.
fn put<C, S, B>(table: &mut Vec<Slot<C, S, B>>, i: usize, slot: Slot<C, S, B>) -> (before: Slot<C, S, B>)
    requires
        i < old(table).len(),
    ensures
        before == old(table)[i as int],
        final(table)@ == old(table)@.update(i as int, slot),
{
    let mut taken = slot;
    std::mem::swap(&mut table[i], &mut taken);
    taken
}

impl<C, S, B> View for RequestManager<C, S, B> {
    type V = ManagerState<C, S, B>;

    closed spec fn view(&self) -> ManagerState<C, S, B> {
        ManagerState {
            free: self.free@,
            slots: Seq::new(self.table.len() as nat, |i: int| self.table@[i].state()),
        }
    }
}

impl<C, S, B> RequestManager<C, S, B> {
    /// The state is well formed, and the arena agrees with it.
    pub closed spec fn wf(&self) -> bool {
        &&& self@.wf()
        &&& forall|i: int| 0 <= i < self.table@.len() ==> (#[trigger] self.table@[i]).counted()
    }

    /// A well-formed manager has a well-formed state.
    pub proof fn lemma_state_wf(&self)
        requires
            self.wf(),
        ensures
            self@.wf(),
    {
    }

    /// Creates a manager with `capacity` identifiers, `0` to `capacity - 1`, all free.
    pub fn new(capacity: usize) -> (manager: Self)
        ensures
            manager.wf(),
            manager@ == ManagerState::<C, S, B>::init(capacity as nat),
    {
        let mut free: VecDeque<u64> = VecDeque::new();
        let mut table: Vec<Slot<C, S, B>> = Vec::new();
        let mut i: usize = 0;
        while i < capacity
            invariant
                i <= capacity,
                free@.len() == i,
                table@.len() == i,
                forall|k: int| 0 <= k < i ==> #[trigger] free@[k] == k as u64,
                forall|k: int| 0 <= k < i ==> #[trigger] table@[k] == Slot::<C, S, B>::Free,
            decreases capacity - i,
        {
            free.push_back(i as u64);
            table.push(Slot::Free);
            i += 1;
        }
        let manager = RequestManager { free, table };
        proof {
            ManagerState::<C, S, B>::lemma_init_wf(capacity as nat);
            assert(manager@.free =~= ManagerState::<C, S, B>::init(capacity as nat).free);
            assert(manager@.slots =~= ManagerState::<C, S, B>::init(capacity as nat).slots);
        }
        manager
    }

    /// Number of identifiers in the pool, free or not.
    pub fn capacity(&self) -> (n: usize)
        ensures
            n == self@.capacity(),
    {
        self.table.len()
    }

    /// Number of identifiers that are free.
    pub fn free_slots(&self) -> (n: usize)
        ensures
            n == self@.free.len(),
    {
        self.free.len()
    }

    /// Allocates the oldest free identifier.
    ///
    /// Fails with [`Error::MaxSlotsExceeded`] when every identifier is in flight: the
    /// number of identifiers that are allocated or registered, as a call, a subscription,
    /// a batch or a member of one, has reached the capacity.
    pub fn next_request_id(&mut self) -> (id: Result<u64, Error>)
        requires
            old(self).wf(),
        ensures
            final(self).wf(),
            final(self)@ == old(self)@.allocate(),
            match id {
                Ok(id) => old(self)@.free.len() > 0 && id == old(self)@.free[0],
                Err(error) => old(self)@.free.len() == 0 && error == Error::MaxSlotsExceeded,
            },
            id is Err <==> old(self)@.in_flight().len() == old(self)@.capacity(),
    {
        proof {
            old(self)@.lemma_pool_count();
        }
        match self.free.pop_front() {
            Some(id) => {
                proof {
                    assert(old(self)@.is_free(old(self)@.free[0]));
                }
                let _ = put(&mut self.table, id as usize, Slot::Allocated);
                proof {
                    old(self)@.lemma_allocate_wf();
                    assert(self@.slots =~= old(self)@.allocate().slots);
                }
                Ok(id)
            },
            None => Err(Error::MaxSlotsExceeded),
        }
    }

    /// Allocates the identifier of one member of a batch that is being assembled. It is
    /// drawn from the same pool as the identifiers of calls.
    pub fn next_batch_id(&mut self) -> (id: Result<u64, Error>)
        requires
            old(self).wf(),
        ensures
            final(self).wf(),
            final(self)@ == old(self)@.allocate(),
            match id {
                Ok(id) => old(self)@.free.len() > 0 && id == old(self)@.free[0],
                Err(error) => old(self)@.free.len() == 0 && error == Error::MaxSlotsExceeded,
            },
            id is Err <==> old(self)@.in_flight().len() == old(self)@.capacity(),
    {
        self.next_request_id()
    }

    /// Returns `id` to the free pool if it is allocated and registered under no kind, and
    /// says whether it did. Any other identifier is left as it is.
    pub fn reclaim_request_id(&mut self, id: u64) -> (reclaimed: bool)
        requires
            old(self).wf(),
        ensures
            final(self).wf(),
            final(self)@ == old(self)@.reclaim(id),
            reclaimed == old(self)@.is_allocated(id),
    {
        if !self.is_allocated(id) {
            return false;
        }
        let _ = put(&mut self.table, id as usize, Slot::Free);
        self.free.push_back(id);
        proof {
            old(self)@.lemma_reclaim_wf(id);
            assert(self@.slots =~= old(self)@.reclaim(id).slots);
        }
        true
    }

    /// Whether `id` is allocated and registered under no kind: handed out by
    /// [`Self::next_request_id`] or [`Self::next_batch_id`] and not yet registered or
    /// reclaimed, or left behind by a completed call or a removed subscription.
    pub fn is_allocated(&self, id: u64) -> (b: bool)
        ensures
            b == self@.is_allocated(id),
    {
        if id >= self.table.len() as u64 {
            return false;
        }
        match &self.table[id as usize] {
            Slot::Allocated => true,
            _ => false,
        }
    }

    /// What a frame that carries `id` would answer.
    pub fn request_status(&self, id: u64) -> (status: RequestStatus)
        requires
            self.wf(),
        ensures
            status == RequestStatus::PendingCall <==> self@.call_slot(id) is Some,
            status == RequestStatus::PendingSubscription <==> self@.subscription(id) is Some,
            status == RequestStatus::PendingBatchMember <==> self@.awaited_member(id),
    {
        if id >= self.table.len() as u64 {
            return RequestStatus::Invalid;
        }
        match &self.table[id as usize] {
            Slot::Call(_) => RequestStatus::PendingCall,
            Slot::Subscription(_, _) => RequestStatus::PendingSubscription,
            Slot::BatchMember { batch, index } => {
                proof {
                    assert(self@.linked(id as int));
                    assert(self@.linked(*batch as int));
                }
                match &self.table[*batch as usize] {
                    Slot::Batch { outcomes, .. } => {
                        if outcomes[*index].is_none() {
                            RequestStatus::PendingBatchMember
                        } else {
                            RequestStatus::Invalid
                        }
                    },
                    _ => RequestStatus::Invalid,
                }
            },
            _ => RequestStatus::Invalid,
        }
    }

    /// Registers `id` as a pending call that `slot` waits for.
    ///
    /// Fails with [`Error::InvalidRequestId`], changing nothing, unless `id` is allocated
    /// and registered under no kind.
    pub fn insert_pending_call(&mut self, id: u64, slot: C) -> (r: Result<(), Rejected<C>>)
        requires
            old(self).wf(),
        ensures
            final(self).wf(),
            final(self)@ == old(self)@.insert_call(id, slot),
            match r {
                Ok(()) => old(self)@.is_allocated(id),
                Err(rejected) => !old(self)@.is_allocated(id) && rejected == (Rejected {
                    error: Error::InvalidRequestId,
                    slot,
                }),
            },
    {
        if !self.is_allocated(id) {
            return Err(Rejected { error: Error::InvalidRequestId, slot });
        }
        let _ = put(&mut self.table, id as usize, Slot::Call(slot));
        proof {
            old(self)@.lemma_insert_call_wf(id, slot);
            assert(self@.slots =~= old(self)@.insert_call(id, slot).slots);
        }
        Ok(())
    }

    /// Registers `id` as a subscription that delivers through `slot` and is ended by
    /// calling `unsubscribe_method`.
    ///
    /// Fails with [`Error::InvalidRequestId`], changing nothing, unless `id` is allocated
    /// and registered under no kind.
    pub fn insert_pending_subscription(&mut self, id: u64, slot: S, unsubscribe_method: String) -> (r:
        Result<(), Rejected<S>>)
        requires
            old(self).wf(),
        ensures
            final(self).wf(),
            final(self)@ == old(self)@.insert_subscription(id, slot, unsubscribe_method@),
            match r {
                Ok(()) => old(self)@.is_allocated(id),
                Err(rejected) => !old(self)@.is_allocated(id) && rejected == (Rejected {
                    error: Error::InvalidRequestId,
                    slot,
                }),
            },
    {
        if !self.is_allocated(id) {
            return Err(Rejected { error: Error::InvalidRequestId, slot });
        }
        let _ = put(&mut self.table, id as usize, Slot::Subscription(slot, unsubscribe_method));
        proof {
            old(self)@.lemma_insert_subscription_wf(id, slot, unsubscribe_method@);
            assert(self@.slots =~= old(self)@.insert_subscription(
                id,
                slot,
                unsubscribe_method@,
            ).slots);
        }
        Ok(())
    }

    /// Removes the call pending under `id` and hands out its handle with the outcome it
    /// is to be woken with. The identifier stays allocated until it is reclaimed.
    ///
    /// Returns `None`, changing nothing, if no call is pending under `id`: the response
    /// is stale, a duplicate or unsolicited.
    pub fn complete_call(&mut self, id: u64, outcome: Outcome) -> (resolved: Option<(C, Outcome)>)
        requires
            old(self).wf(),
        ensures
            final(self).wf(),
            final(self)@ == old(self)@.complete_call(id),
            resolved == match old(self)@.call_slot(id) {
                Some(slot) => Some((slot, outcome)),
                None => None,
            },
    {
        if id >= self.table.len() as u64 {
            return None;
        }
        match &self.table[id as usize] {
            Slot::Call(_) => {},
            _ => {
                return None;
            },
        }
        let taken = put(&mut self.table, id as usize, Slot::Allocated);
        proof {
            old(self)@.lemma_complete_call_wf(id);
            assert(self@.slots =~= old(self)@.complete_call(id).slots);
        }
        match taken {
            Slot::Call(slot) => Some((slot, outcome)),
            _ => None,
        }
    }

    /// Removes the subscription registered under `id` and hands out its delivery handle
    /// and the name of its unsubscribe method. The identifier stays allocated until it is
    /// reclaimed.
    pub fn remove_subscription(&mut self, id: u64) -> (removed: Option<(S, String)>)
        requires
            old(self).wf(),
        ensures
            final(self).wf(),
            final(self)@ == old(self)@.remove_subscription(id),
            match removed {
                Some((slot, unsubscribe)) => old(self)@.subscription(id) == Some((slot, unsubscribe@)),
                None => old(self)@.subscription(id) is None,
            },
    {
        if id >= self.table.len() as u64 {
            return None;
        }
        match &self.table[id as usize] {
            Slot::Subscription(_, _) => {},
            _ => {
                return None;
            },
        }
        let taken = put(&mut self.table, id as usize, Slot::Allocated);
        proof {
            old(self)@.lemma_remove_subscription_wf(id);
            assert(self@.slots =~= old(self)@.remove_subscription(id).slots);
        }
        match taken {
            Slot::Subscription(slot, unsubscribe) => Some((slot, unsubscribe)),
            _ => None,
        }
    }

    /// Pairs a notification with the delivery handle of the subscription registered under
    /// `id`. Returns `None` if there is none: the notification is then dropped.
    pub fn deliver_subscription_notification(&self, id: u64, payload: JsonValue) -> (delivery: Option<
        (&S, JsonValue),
    >)
        ensures
            match delivery {
                Some((slot, value)) => self@.subscription(id) is Some && *slot
                    == self@.subscription(id)->Some_0.0 && value == payload,
                None => self@.subscription(id) is None,
            },
    {
        if id >= self.table.len() as u64 {
            return None;
        }
        match &self.table[id as usize] {
            Slot::Subscription(slot, _) => Some((slot, payload)),
            _ => None,
        }
    }

    /// Registers a batch under `outer` with the members `member_ids`, in request order,
    /// all at once or not at all.
    ///
    /// Fails with [`Error::InvalidRequestId`], changing nothing, unless there is at least
    /// one member, `outer` and every member are allocated and registered under no kind,
    /// and no identifier occurs twice. The caller then reclaims the identifiers.
    pub fn insert_pending_batch(&mut self, member_ids: &Vec<u64>, slot: B, outer: u64) -> (r: Result<
        (),
        Rejected<B>,
    >)
        requires
            old(self).wf(),
        ensures
            final(self).wf(),
            final(self)@ == old(self)@.insert_batch(member_ids@, slot, outer),
            match r {
                Ok(()) => old(self)@.can_insert_batch(member_ids@, outer),
                Err(rejected) => !old(self)@.can_insert_batch(member_ids@, outer) && rejected == (
                Rejected { error: Error::InvalidRequestId, slot }),
            },
    {
        let n = member_ids.len();
        if n == 0 || !slot_allocated(&self.table, outer) {
            return Err(Rejected { error: Error::InvalidRequestId, slot });
        }
        let ghost initial = self.table@;
        let ghost members = member_ids@;
        assert(initial.len() == self.table.len());
        let mut copy: Vec<u64> = Vec::with_capacity(n);
        let mut k: usize = 0;
        let mut clash = false;
        while k < n && !clash
            invariant
                n == members.len(),
                members == member_ids@,
                k <= n,
                copy@ == members.take(k as int),
                self.free@ == old(self).free@,
                self.table@.len() == initial.len(),
                initial == old(self).table@,
                outer < initial.len() <= usize::MAX,
                initial[outer as int] == Slot::<C, S, B>::Allocated,
                self.table@[outer as int] == Slot::<C, S, B>::Allocated,
                clash ==> k < n && (members[k as int] == outer || !(members[k as int] < initial.len()
                    && self.table@[members[k as int] as int] == Slot::<C, S, B>::Allocated)),
                forall|j: int|
                    0 <= j < k ==> (#[trigger] members[j]) < initial.len() && members[j] != outer
                        && initial[members[j] as int] == Slot::<C, S, B>::Allocated
                        && self.table@[members[j] as int] == (Slot::<C, S, B>::BatchMember {
                        batch: outer,
                        index: j as usize,
                    }),
                forall|i: int|
                    0 <= i < initial.len() ==> (#[trigger] self.table@[i]) == initial[i] || marked(
                        initial,
                        self.table@,
                        i,
                        members,
                        outer,
                        0,
                        k as int,
                    ),
            decreases n - k + (if clash { 0int } else { 1int }),
        {
            let member = member_ids[k];
            if member != outer && slot_allocated(&self.table, member) {
                let ghost marking = self.table@;
                let _ = put(&mut self.table, member as usize, Slot::BatchMember { batch: outer, index: k });
                copy.push(member);
                proof {
                    assert(copy@ =~= members.take(k + 1));
                    assert forall|j: int| 0 <= j < k + 1 implies (#[trigger] members[j]) < initial.len()
                        && members[j] != outer && initial[members[j] as int] == Slot::<
                        C,
                        S,
                        B,
                    >::Allocated && self.table@[members[j] as int] == (Slot::<C, S, B>::BatchMember {
                        batch: outer,
                        index: j as usize,
                    }) by {
                        if j < k {
                            assert(members[j] != member);
                        } else {
                            assert(marking[member as int] == initial[member as int] || marked(
                                initial,
                                marking,
                                member as int,
                                members,
                                outer,
                                0,
                                k as int,
                            ));
                        }
                    }
                    assert forall|i: int| 0 <= i < initial.len() implies (#[trigger] self.table@[i])
                        == initial[i] || marked(initial, self.table@, i, members, outer, 0, k + 1) by {
                        if i != member {
                            assert(marking[i] == initial[i] || marked(
                                initial,
                                marking,
                                i,
                                members,
                                outer,
                                0,
                                k as int,
                            ));
                        }
                    }
                }
                k += 1;
            } else {
                clash = true;
            }
        }
        if clash {
            proof {
                let bad = members[k as int];
                if bad != outer && old(self)@.is_allocated(bad) {
                    assert(marked(initial, self.table@, bad as int, members, outer, 0, k as int));
                    let twin = self.table@[bad as int]->index as int;
                    assert(members[twin] == members[k as int] && twin != k);
                    assert(!members.no_duplicates());
                }
                assert(!old(self)@.can_insert_batch(members, outer));
            }
            let mut j: usize = 0;
            while j < k
                invariant
                    n == members.len(),
                    members == member_ids@,
                    j <= k <= n,
                    self.free@ == old(self).free@,
                    self.table@.len() == initial.len() <= usize::MAX,
                    forall|q: int|
                        j <= q < k ==> (#[trigger] members[q]) < initial.len()
                            && initial[members[q] as int] == Slot::<C, S, B>::Allocated,
                    forall|i: int|
                        0 <= i < initial.len() ==> (#[trigger] self.table@[i]) == initial[i]
                            || marked(initial, self.table@, i, members, outer, j as int, k as int),
                decreases k - j,
            {
                let ghost unmarking = self.table@;
                let _ = put(&mut self.table, member_ids[j] as usize, Slot::Allocated);
                proof {
                    assert forall|i: int| 0 <= i < initial.len() implies (#[trigger] self.table@[i])
                        == initial[i] || marked(
                        initial,
                        self.table@,
                        i,
                        members,
                        outer,
                        j + 1,
                        k as int,
                    ) by {
                        if i != members[j as int] {
                            assert(unmarking[i] == initial[i] || marked(
                                initial,
                                unmarking,
                                i,
                                members,
                                outer,
                                j as int,
                                k as int,
                            ));
                        }
                    }
                }
                j += 1;
            }
            proof {
                assert(self.table@ =~= initial);
                assert(self@.slots =~= old(self)@.slots);
            }
            return Err(Rejected { error: Error::InvalidRequestId, slot });
        }
        let mut outcomes: Vec<Option<Outcome>> = Vec::new();
        let mut j: usize = 0;
        while j < n
            invariant
                j <= n,
                outcomes@.len() == j,
                forall|q: int| 0 <= q < j ==> #[trigger] outcomes@[q] == None::<Outcome>,
            decreases n - j,
        {
            outcomes.push(None);
            j += 1;
        }
        let ghost marking = self.table@;
        let _ = put(
            &mut self.table,
            outer as usize,
            Slot::Batch { members: copy, outcomes, missing: n, slot },
        );
        proof {
            assert(copy@ =~= members);
            let fresh = Seq::new(members.len(), |k: int| None::<Outcome>);
            assert(outcomes@ =~= fresh);
            lemma_count_fresh(n as nat);
            assert forall|a: int, b: int| 0 <= a < members.len() && 0 <= b < members.len() && a != b implies members[a]
                != members[b] by {
                assert(marking[members[a] as int]->index == a);
                assert(marking[members[b] as int]->index == b);
            }
            assert forall|q: int| 0 <= q < members.len() implies old(self)@.is_allocated(#[trigger] members[q])
                && members[q] != outer by {
                assert(initial[members[q] as int] == Slot::<C, S, B>::Allocated);
            }
            assert(old(self)@.can_insert_batch(members, outer));
            old(self)@.lemma_insert_batch_wf(members, slot, outer);
            let target = old(self)@.insert_batch(members, slot, outer);
            assert forall|i: int| 0 <= i < target.slots.len() implies self@.slots[i] == target.slots[i] by {
                if i == outer {
                } else if members.contains(i as u64) {
                    let q = choose|q: int| 0 <= q < members.len() && members[q] == i as u64;
                    let found = members.index_of(i as u64);
                    assert(0 <= found < members.len() && members[found] == i as u64);
                    assert(marking[members[q] as int]->index == q);
                } else {
                    assert(marking[i] == initial[i] || marked(
                        initial,
                        marking,
                        i,
                        members,
                        outer,
                        0,
                        k as int,
                    ));
                    if marking[i] != initial[i] {
                        assert(members[marking[i]->index as int] == i as u64);
                    }
                }
            }
            assert(self@.slots =~= target.slots);
            assert forall|i: int| 0 <= i < self.table@.len() implies (#[trigger] self.table@[i]).counted() by {
                if i != outer {
                    assert(marking[i] == initial[i] || marked(
                        initial,
                        marking,
                        i,
                        members,
                        outer,
                        0,
                        k as int,
                    ));
                    assert(initial[i].counted());
                }
            }
        }
        Ok(())
    }

    /// Records `outcome` for member `id` of a batch.
    ///
    /// Nothing is handed out before the last member has ended. With the last member the
    /// handle of the batch is handed out with the outcomes of all members in request
    /// order, and the identifiers of the members and of the batch return to the free pool
    /// together. An identifier that is no member of a pending batch, or whose outcome is
    /// already recorded, changes nothing.
    pub fn complete_batch_member(&mut self, id: u64, outcome: Outcome) -> (step: BatchStep<B>)
        requires
            old(self).wf(),
        ensures
            final(self).wf(),
            final(self)@ == old(self)@.complete_member(id, outcome),
            match step {
                BatchStep::Ignored => !old(self)@.awaited_member(id),
                BatchStep::Recorded => old(self)@.awaited_member(id) && !old(self)@.completes_batch(
                    id,
                    outcome,
                ),
                BatchStep::Completed(slot, outcomes) => old(self)@.completes_batch(id, outcome)
                    && slot == old(self)@.batch_slot_of(id) && outcomes@ == batch_result(
                    old(self)@.recorded(id, outcome),
                ),
            },
    {
        let size = self.table.len();
        if id >= size as u64 {
            return BatchStep::Ignored;
        }
        let (batch, index) = match &self.table[id as usize] {
            Slot::BatchMember { batch, index } => (*batch, *index),
            _ => {
                return BatchStep::Ignored;
            },
        };
        let ghost initial = self.table@;
        proof {
            assert(old(self)@.linked(id as int));
            assert(old(self)@.linked(batch as int));
        }
        let taken = put(&mut self.table, batch as usize, Slot::Allocated);
        let ghost lifted = self.table@;
        match taken {
            Slot::Batch { members, outcomes, missing, slot } => {
                let mut outcomes = outcomes;
                let ghost before = outcomes@;
                if outcomes[index].is_some() {
                    let _ = put(
                        &mut self.table,
                        batch as usize,
                        Slot::Batch { members, outcomes, missing, slot },
                    );
                    proof {
                        assert(self.table@ =~= initial);
                        assert(self@.slots =~= old(self)@.slots);
                    }
                    return BatchStep::Ignored;
                }
                proof {
                    lemma_count_record(before, index as int, outcome);
                }
                outcomes.set(index, Some(outcome));
                let missing = missing - 1;
                let ghost recorded = outcomes@;
                assert(recorded == old(self)@.recorded(id, outcome));
                proof {
                    lemma_count_zero(recorded);
                    old(self)@.lemma_complete_member_wf(id, outcome);
                }
                if missing > 0 {
                    let _ = put(
                        &mut self.table,
                        batch as usize,
                        Slot::Batch { members, outcomes, missing, slot },
                    );
                    proof {
                        assert(self@.slots =~= old(self)@.complete_member(id, outcome).slots);
                    }
                    return BatchStep::Recorded;
                }
                let count = members.len();
                let mut k: usize = 0;
                while k < count
                    invariant
                        k <= count == members@.len(),
                        self.table@.len() == lifted.len() == size,
                        forall|j: int|
                            0 <= j < count ==> (#[trigger] members@[j]) < size && members@[j] != batch,
                        self.free@ == old(self).free@ + members@.take(k as int),
                        forall|i: int|
                            0 <= i < size ==> #[trigger] self.table@[i] == (if released(
                                members@,
                                k as int,
                                i,
                            ) {
                                Slot::<C, S, B>::Free
                            } else {
                                lifted[i]
                            }),
                    decreases count - k,
                {
                    let member = members[k];
                    let ghost releasing = self.table@;
                    let _ = put(&mut self.table, member as usize, Slot::Free);
                    self.free.push_back(member);
                    proof {
                        assert(self.free@ =~= old(self).free@ + members@.take(k + 1));
                        assert forall|i: int| 0 <= i < size implies #[trigger] self.table@[i] == (
                        if released(members@, k + 1, i) {
                            Slot::<C, S, B>::Free
                        } else {
                            lifted[i]
                        }) by {
                            if i == member {
                                assert(members@[k as int] == i);
                            } else if released(members@, k + 1, i) {
                                let j = choose|j: int| 0 <= j < k + 1 && #[trigger] members@[j] == i;
                                assert(released(members@, k as int, i));
                            } else {
                                if released(members@, k as int, i) {
                                    let j = choose|j: int| 0 <= j < k && #[trigger] members@[j] == i;
                                    assert(members@[j] == i);
                                }
                            }
                        }
                    }
                    k += 1;
                }
                let _ = put(&mut self.table, batch as usize, Slot::Free);
                self.free.push_back(batch);
                let results = unwrap_all(outcomes);
                proof {
                    let target = old(self)@.complete_member(id, outcome);
                    assert(members@.take(count as int) =~= members@);
                    assert(self@.free =~= target.free);
                    assert forall|i: int| 0 <= i < target.slots.len() implies self@.slots[i]
                        == target.slots[i] by {
                        if i == batch {
                        } else if members@.contains(i as u64) {
                            let j = choose|j: int| 0 <= j < members@.len() && members@[j] == i as u64;
                            assert(members@[j] == i);
                            assert(released(members@, count as int, i));
                        } else {
                            if released(members@, count as int, i) {
                                let j = choose|j: int| 0 <= j < count && #[trigger] members@[j] == i;
                                assert(members@[j] == i as u64);
                            }
                        }
                    }
                    assert(self@.slots =~= target.slots);
                    assert forall|i: int| 0 <= i < self.table@.len() implies (
                    #[trigger] self.table@[i]).counted() by {
                        if i != batch && !released(members@, count as int, i) {
                            assert(initial[i].counted());
                        }
                    }
                }
                BatchStep::Completed(slot, results)
            },
            _ => {
                proof {
                    assert(false);
                }
                BatchStep::Ignored
            },
        }
    }

    /// Clears the table after a terminal failure of the connection.
    ///
    /// Every call, subscription and batch that was pending is handed out, by ascending
    /// identifier, to be woken with `reason`, and all their identifiers return to the
    /// free pool. What members of an unfinished batch have ended with is discarded with
    /// the batch. Afterwards nothing is pending, so a second call hands out nothing.
    /// Identifiers that are allocated and not yet registered stay with their owners.
    pub fn fail_all_pending(&mut self, reason: Error) -> (teardown: Teardown<C, S, B>)
        requires
            old(self).wf(),
        ensures
            final(self).wf(),
            final(self)@ == old(self)@.fail_all(),
            teardown.reason == reason,
            teardown.waiters@ == old(self)@.waiters(),
    {
        let size = self.table.len();
        let mut waiters: Vec<Waiter<C, S, B>> = Vec::new();
        let ghost initial = self.table@;
        let mut i: usize = 0;
        while i < size
            invariant
                i <= size == initial.len(),
                initial == old(self).table@,
                self.table@.len() == size,
                old(self)@.slots.len() == size,
                self.free@ == old(self).free@ + old(self)@.pending_below(i as int),
                waiters@ == old(self)@.waiters_below(i as int),
                forall|j: int| i <= j < size ==> #[trigger] self.table@[j] == initial[j],
                forall|j: int|
                    0 <= j < i ==> #[trigger] self.table@[j] == (if initial[j] is Allocated {
                        Slot::<C, S, B>::Allocated
                    } else {
                        Slot::<C, S, B>::Free
                    }),
            decreases size - i,
        {
            let pending = match &self.table[i] {
                Slot::Free => false,
                Slot::Allocated => false,
                _ => true,
            };
            proof {
                assert(pending == old(self)@.is_pending(i as u64));
                assert(old(self)@.slots[i as int] == initial[i as int].state());
            }
            if pending {
                let taken = put(&mut self.table, i, Slot::Free);
                self.free.push_back(i as u64);
                match taken {
                    Slot::Call(slot) => {
                        waiters.push(Waiter::Call(slot));
                    },
                    Slot::Subscription(slot, _) => {
                        waiters.push(Waiter::Subscription(slot));
                    },
                    Slot::Batch { slot, .. } => {
                        waiters.push(Waiter::Batch(slot));
                    },
                    _ => {},
                }
                proof {
                    assert(self.free@ =~= old(self).free@ + old(self)@.pending_below(i + 1));
                }
            }
            i += 1;
        }
        proof {
            let target = old(self)@.fail_all();
            old(self)@.lemma_fail_all_wf();
            assert(self@.slots =~= target.slots);
        }
        Teardown { reason, waiters }
    }
}

} // verus!
