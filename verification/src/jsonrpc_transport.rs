//! The client's two halves: the sender, which starts calls, notifications, subscriptions
//! and batches, and the receiver, which routes inbound frames to their waiters.
//!
//! Neither half touches the wire. Starting an operation yields the message to send and a
//! ticket; the caller sends the message and hands the ticket back with the result of the
//! send. Whatever has to reach a waiter is returned as a [`Wake`] for the caller to carry
//! out.

use crate::error::Error;
use crate::json::JsonValue;
use crate::jsonrpc::{Call, Id, Notification, Output, Params, Request, Version};
use crate::manager::{BatchStep, RequestManager, RequestStatus, Teardown};
use crate::manager_state::{batch_result, Outcome};
use vstd::prelude::*;

verus! {

/// A call to start: its method, its parameters, and the handle of whoever waits for the
/// response, if anybody does.
#[derive(Debug, PartialEq)]
pub struct RequestMessage<C> {
    /// Name of the method to call.
    pub method: String,
    /// Parameters of the call.
    pub params: Params,
    /// Handle of the waiter.
    pub send_back: Option<C>,
}

/// A notification to send.
#[derive(Debug, PartialEq)]
pub struct NotificationMessage {
    /// Name of the method to notify.
    pub method: String,
    /// Parameters of the notification.
    pub params: Params,
}

/// A subscription to start.
#[derive(Debug, PartialEq)]
pub struct SubscriptionMessage<S> {
    /// Name of the method that subscribes.
    pub subscribe_method: String,
    /// Parameters of the subscription.
    pub params: Params,
    /// Name of the method that ends the subscription.
    pub unsubscribe_method: String,
    /// Handle through which the subscriber receives.
    pub send_back: S,
}

/// A batch to start: its calls in request order, and the handle of whoever waits for all
/// responses together.
#[derive(Debug, PartialEq)]
pub struct BatchMessage<B> {
    /// Method and parameters of each call.
    pub requests: Vec<(String, Params)>,
    /// Handle of the waiter.
    pub send_back: B,
}

/// Something that the caller has to deliver to a waiter.
#[derive(Debug, PartialEq)]
pub enum Wake<C, S, B> {
    /// The waiter of a call gets its outcome.
    Call(C, Outcome),
    /// A subscriber learns that the subscription has failed.
    Subscription(S, Error),
    /// The waiter of a batch gets the outcomes of all members in request order, or the
    /// failure of the batch as a whole.
    Batch(B, Result<Vec<Outcome>, Error>),
}

/// An operation that failed at the sender: the error for whoever started it, and what the
/// waiter is owed.
#[derive(Debug, PartialEq)]
pub struct Failed<C, S, B> {
    /// The error that the operation ends with.
    pub error: Error,
    /// What to deliver to the waiter, if there is one.
    pub wake: Option<Wake<C, S, B>>,
}

/// A call whose message is being sent.
#[derive(Debug, PartialEq)]
pub struct CallTicket<C> {
    /// Identifier of the call.
    pub id: u64,
    /// Handle of the waiter.
    pub send_back: Option<C>,
}

/// A subscription whose message is being sent.
#[derive(Debug, PartialEq)]
pub struct SubscriptionTicket<S> {
    /// Identifier of the subscribe call.
    pub id: u64,
    /// Handle through which the subscriber receives.
    pub send_back: S,
    /// Name of the method that ends the subscription.
    pub unsubscribe_method: String,
}

/// A batch whose message is being sent.
#[derive(Debug, PartialEq)]
pub struct BatchTicket<B> {
    /// Identifier of the batch.
    pub outer: u64,
    /// Identifiers of the calls, in request order.
    pub members: Vec<u64>,
    /// Handle of the waiter.
    pub send_back: B,
}

/// What the receiver made of an inbound frame.
#[derive(Debug, PartialEq)]
pub enum Dispatch<'a, C, S, B> {
    /// A waiter is to be woken.
    Wake(Wake<C, S, B>),
    /// The payload goes to the subscriber behind this handle.
    Notify(&'a S, JsonValue),
    /// The outcome of a batch member is kept until the batch is complete.
    Buffered,
    /// Nobody waits for the frame: it is stale, a duplicate or unsolicited.
    Dropped,
}

/// The outcome that a response carries, and the identifier it answers.
pub open spec fn output_outcome(output: Output) -> (Id, Outcome) {
    match output {
        Output::Success { result, id, .. } => (id, Ok(result)),
        Output::Failure { error, id, .. } => (id, Err(Error::Request(error))),
    }
}

/// What is delivered for a call that is completed with `outcome`.
pub open spec fn call_delivery<'a, C, S, B>(slot: Option<C>, outcome: Outcome) -> Dispatch<'a, C, S, B> {
    match slot {
        Some(waiter) => Dispatch::Wake(Wake::Call(waiter, outcome)),
        None => Dispatch::Dropped,
    }
}

/// What the waiter of a call is owed when the call ends with `error` before it was
/// registered.
pub open spec fn call_failure<C, S, B>(slot: Option<C>, error: Error) -> Option<Wake<C, S, B>> {
    match slot {
        Some(waiter) => Some(Wake::Call(waiter, Err(error))),
        None => None,
    }
}

/// JSONRPC WebSocket sender.
#[derive(Debug)]
pub struct Sender<T> {
    /// The sending half of the transport. The caller sends through it.
    pub transport: T,
}

impl<T> Sender<T> {
    /// Creates a new JSONRPC sender.
    pub fn new(transport: T) -> (sender: Self)
        ensures
            sender.transport == transport,
    {
        Self { transport }
    }

    /// Starts a call: allocates its identifier and builds its message.
    ///
    /// When every identifier is in flight the call is refused: the waiter is owed
    /// [`Error::MaxSlotsExceeded`], and the operation ends with the text of that error.
    pub fn start_request<C, S, B>(
        &mut self,
        request: RequestMessage<C>,
        manager: &mut RequestManager<Option<C>, S, B>,
    ) -> (r: Result<(Call, CallTicket<C>), Failed<C, S, B>>)
        requires
            old(manager).wf(),
        ensures
            final(self).transport == old(self).transport,
            final(manager).wf(),
            final(manager)@ == old(manager)@.allocate(),
            match r {
                Ok((call, ticket)) => {
                    &&& old(manager)@.free.len() > 0
                    &&& final(manager)@.is_allocated(ticket.id)
                    &&& call == (Call {
                        jsonrpc: Version::V2,
                        method: request.method,
                        params: request.params,
                        id: Id::Num(old(manager)@.free[0]),
                    })
                    &&& ticket == (CallTicket { id: old(manager)@.free[0], send_back: request.send_back })
                },
                Err(failed) => {
                    &&& old(manager)@.free.len() == 0
                    &&& failed.error matches Error::Custom(text) && text@
                        == Error::MaxSlotsExceeded.message_text()
                    &&& failed.wake == call_failure::<C, S, B>(
                        request.send_back,
                        Error::MaxSlotsExceeded,
                    )
                },
            },
    {
        match manager.next_request_id() {
            Ok(id) => {
                proof {
                    old(manager).lemma_state_wf();
                    assert(old(manager)@.is_free(old(manager)@.free[0]));
                }
                let call = Call::new(id, request.method, request.params);
                Ok((call, CallTicket { id, send_back: request.send_back }))
            },
            Err(error) => {
                let text = error.message();
                let wake = match request.send_back {
                    Some(waiter) => Some(Wake::Call(waiter, Err(error))),
                    None => None,
                };
                Err(Failed { error: Error::Custom(text), wake })
            },
        }
    }

    /// Ends the start of a call once its message was sent, or could not be sent.
    ///
    /// After a successful send the call is pending under its identifier. After a failed
    /// send, described by `cause`, the identifier returns to the free pool, the waiter is
    /// owed a transport error, and the operation ends with the text of the cause.
    pub fn request_sent<C, S, B>(
        &mut self,
        ticket: CallTicket<C>,
        sent: Result<(), String>,
        manager: &mut RequestManager<Option<C>, S, B>,
    ) -> (r: Result<(), Failed<C, S, B>>)
        requires
            old(manager).wf(),
            old(manager)@.is_allocated(ticket.id),
        ensures
            final(self).transport == old(self).transport,
            final(manager).wf(),
            match sent {
                Ok(()) => r is Ok && final(manager)@ == old(manager)@.insert_call(
                    ticket.id,
                    ticket.send_back,
                ),
                Err(cause) => {
                    &&& final(manager)@ == old(manager)@.reclaim(ticket.id)
                    &&& r matches Err(failed)
                    &&& failed.error == Error::Custom(cause)
                    &&& failed.wake == call_failure::<C, S, B>(
                        ticket.send_back,
                        Error::TransportError(cause),
                    )
                },
            },
    {
        match sent {
            Ok(()) => {
                let _ = manager.insert_pending_call(ticket.id, ticket.send_back);
                Ok(())
            },
            Err(cause) => {
                let _ = manager.reclaim_request_id(ticket.id);
                let text = cause.clone();
                let wake = match ticket.send_back {
                    Some(waiter) => Some(Wake::Call(waiter, Err(Error::TransportError(cause)))),
                    None => None,
                };
                Err(Failed { error: Error::Custom(text), wake })
            },
        }
    }

    /// Builds the message of a notification. A notification has no identifier and no
    /// waiter; nothing is recorded for it.
    pub fn send_notification(&mut self, notif: NotificationMessage) -> (notification: Notification)
        ensures
            final(self).transport == old(self).transport,
            notification == (Notification {
                jsonrpc: Version::V2,
                method: notif.method,
                params: notif.params,
            }),
    {
        Notification::new(notif.method, notif.params)
    }

    /// What sending a notification ends with: a failed send, described by `cause`, is a
    /// transport error for whoever sent it.
    pub fn notification_sent(&mut self, sent: Result<(), String>) -> (r: Result<(), Error>)
        ensures
            final(self).transport == old(self).transport,
            match sent {
                Ok(()) => r is Ok,
                Err(cause) => r == Err::<(), Error>(Error::TransportError(cause)),
            },
    {
        match sent {
            Ok(()) => Ok(()),
            Err(cause) => Err(Error::TransportError(cause)),
        }
    }

    /// Starts a subscription: allocates the identifier of its subscribe call and builds
    /// the message of that call.
    ///
    /// When every identifier is in flight the subscription is refused: the subscriber is
    /// owed [`Error::MaxSlotsExceeded`], and the operation ends with the text of that
    /// error.
    pub fn start_subscription<C, S, B>(
        &mut self,
        sub: SubscriptionMessage<S>,
        manager: &mut RequestManager<Option<C>, S, B>,
    ) -> (r: Result<(Call, SubscriptionTicket<S>), Failed<C, S, B>>)
        requires
            old(manager).wf(),
        ensures
            final(self).transport == old(self).transport,
            final(manager).wf(),
            final(manager)@ == old(manager)@.allocate(),
            match r {
                Ok((call, ticket)) => {
                    &&& old(manager)@.free.len() > 0
                    &&& final(manager)@.is_allocated(ticket.id)
                    &&& call == (Call {
                        jsonrpc: Version::V2,
                        method: sub.subscribe_method,
                        params: sub.params,
                        id: Id::Num(old(manager)@.free[0]),
                    })
                    &&& ticket == (SubscriptionTicket {
                        id: old(manager)@.free[0],
                        send_back: sub.send_back,
                        unsubscribe_method: sub.unsubscribe_method,
                    })
                },
                Err(failed) => {
                    &&& old(manager)@.free.len() == 0
                    &&& failed.error matches Error::Custom(text) && text@
                        == Error::MaxSlotsExceeded.message_text()
                    &&& failed.wake == Some(
                        Wake::<C, S, B>::Subscription(sub.send_back, Error::MaxSlotsExceeded),
                    )
                },
            },
    {
        match manager.next_request_id() {
            Ok(id) => {
                proof {
                    old(manager).lemma_state_wf();
                    assert(old(manager)@.is_free(old(manager)@.free[0]));
                }
                let call = Call::new(id, sub.subscribe_method, sub.params);
                Ok(
                    (
                        call,
                        SubscriptionTicket {
                            id,
                            send_back: sub.send_back,
                            unsubscribe_method: sub.unsubscribe_method,
                        },
                    ),
                )
            },
            Err(error) => {
                let text = error.message();
                Err(
                    Failed {
                        error: Error::Custom(text),
                        wake: Some(Wake::Subscription(sub.send_back, error)),
                    },
                )
            },
        }
    }

    /// Ends the start of a subscription once its message was sent, or could not be sent.
    ///
    /// After a successful send the subscription is registered under its identifier with
    /// the name of its unsubscribe method. After a failed send, described by `cause`, the
    /// identifier returns to the free pool, no subscription exists, the subscriber is
    /// owed a transport error, and the operation ends with the text of the cause.
    pub fn subscription_sent<C, S, B>(
        &mut self,
        ticket: SubscriptionTicket<S>,
        sent: Result<(), String>,
        manager: &mut RequestManager<Option<C>, S, B>,
    ) -> (r: Result<(), Failed<C, S, B>>)
        requires
            old(manager).wf(),
            old(manager)@.is_allocated(ticket.id),
        ensures
            final(self).transport == old(self).transport,
            final(manager).wf(),
            match sent {
                Ok(()) => r is Ok && final(manager)@ == old(manager)@.insert_subscription(
                    ticket.id,
                    ticket.send_back,
                    ticket.unsubscribe_method@,
                ),
                Err(cause) => {
                    &&& final(manager)@ == old(manager)@.reclaim(ticket.id)
                    &&& final(manager)@.subscription(ticket.id) is None
                    &&& r matches Err(failed)
                    &&& failed.error == Error::Custom(cause)
                    &&& failed.wake == Some(
                        Wake::<C, S, B>::Subscription(ticket.send_back, Error::TransportError(cause)),
                    )
                },
            },
    {
        match sent {
            Ok(()) => {
                let _ = manager.insert_pending_subscription(
                    ticket.id,
                    ticket.send_back,
                    ticket.unsubscribe_method,
                );
                Ok(())
            },
            Err(cause) => {
                let _ = manager.reclaim_request_id(ticket.id);
                let text = cause.clone();
                Err(
                    Failed {
                        error: Error::Custom(text),
                        wake: Some(Wake::Subscription(ticket.send_back, Error::TransportError(cause))),
                    },
                )
            },
        }
    }

    /// Starts a batch: allocates the identifier of the batch and one for each call, in
    /// request order, and builds the one message that holds all calls.
    ///
    /// Unless the pool has a free identifier for the batch and for each call, the batch is
    /// refused and nothing is allocated: the waiter is owed, and the operation ends with,
    /// [`Error::MaxSlotsExceeded`].
    pub fn start_batch_request<C, S, B>(
        &mut self,
        batch: BatchMessage<B>,
        manager: &mut RequestManager<Option<C>, S, B>,
    ) -> (r: Result<(Request, BatchTicket<B>), Failed<C, S, B>>)
        requires
            old(manager).wf(),
        ensures
            final(self).transport == old(self).transport,
            final(manager).wf(),
            match r {
                Ok((request, ticket)) => {
                    &&& old(manager)@.free.len() > batch.requests@.len()
                    &&& final(manager)@ == old(manager)@.allocate_first(
                        (batch.requests@.len() + 1) as nat,
                    )
                    &&& ticket.outer == old(manager)@.free[0]
                    &&& ticket.members@ == old(manager)@.free.subrange(
                        1,
                        batch.requests@.len() as int + 1,
                    )
                    &&& ticket.send_back == batch.send_back
                    &&& request matches Request::Batch(calls)
                    &&& calls@.len() == batch.requests@.len()
                    &&& forall|k: int|
                        0 <= k < calls@.len() ==> #[trigger] calls@[k] == (Call {
                            jsonrpc: Version::V2,
                            method: batch.requests@[k].0,
                            params: batch.requests@[k].1,
                            id: Id::Num(old(manager)@.free[k + 1]),
                        })
                },
                Err(failed) => {
                    &&& old(manager)@.free.len() <= batch.requests@.len()
                    &&& final(manager)@ == old(manager)@
                    &&& failed.error == Error::MaxSlotsExceeded
                    &&& failed.wake == Some(
                        Wake::<C, S, B>::Batch(batch.send_back, Err(Error::MaxSlotsExceeded)),
                    )
                },
            },
    {
        let BatchMessage { requests, send_back } = batch;
        let ghost initial = requests@;
        let ghost before = manager@;
        let n = requests.len();
        if manager.free_slots() <= n {
            return Err(
                Failed {
                    error: Error::MaxSlotsExceeded,
                    wake: Some(Wake::Batch(send_back, Err(Error::MaxSlotsExceeded))),
                },
            );
        }
        proof {
            old(manager).lemma_state_wf();
            before.lemma_allocate_first(0);
        }
        let outer = match manager.next_request_id() {
            Ok(id) => id,
            Err(_) => {
                // The pool was found large enough above.
                proof {
                    assert(false);
                }
                0
            },
        };
        let mut requests = requests;
        let mut calls: Vec<Call> = Vec::with_capacity(n);
        let mut members: Vec<u64> = Vec::with_capacity(n);
        let mut k: usize = 0;
        proof {
            assert(members@ =~= before.free.subrange(1, 1));
        }
        while k < n
            invariant
                k <= n == initial.len(),
                requests@.len() == n,
                n < before.free.len(),
                before.wf(),
                manager.wf(),
                manager@ == before.allocate_first((k + 1) as nat),
                members@ == before.free.subrange(1, k + 1),
                calls@.len() == k,
                forall|j: int|
                    0 <= j < k ==> #[trigger] calls@[j] == (Call {
                        jsonrpc: Version::V2,
                        method: initial[j].0,
                        params: initial[j].1,
                        id: Id::Num(before.free[j + 1]),
                    }),
                forall|j: int| k <= j < n ==> #[trigger] requests@[j] == initial[j],
            decreases n - k,
        {
            proof {
                before.lemma_allocate_first((k + 1) as nat);
            }
            let id = match manager.next_batch_id() {
                Ok(id) => id,
                Err(_) => {
                    proof {
                        assert(false);
                    }
                    0
                },
            };
            let mut entry = (String::new(), Params::Absent);
            std::mem::swap(&mut requests[k], &mut entry);
            let (method, params) = entry;
            calls.push(Call::new(id, method, params));
            members.push(id);
            proof {
                assert(members@ =~= before.free.subrange(1, k + 2));
            }
            k += 1;
        }
        Ok((Request::Batch(calls), BatchTicket { outer, members, send_back }))
    }

    /// Ends the start of a batch once its message was sent, or could not be sent.
    ///
    /// After a successful send the batch is registered with all its members. If the send
    /// failed, with `cause`, or the batch cannot be registered, the identifiers of the
    /// members and of the batch return to the free pool, in that order, and the waiter is
    /// owed the error that the operation ends with: a transport error, or
    /// [`Error::InvalidRequestId`].
    pub fn batch_sent<C, S, B>(
        &mut self,
        ticket: BatchTicket<B>,
        sent: Result<(), String>,
        manager: &mut RequestManager<Option<C>, S, B>,
    ) -> (r: Result<(), Failed<C, S, B>>)
        requires
            old(manager).wf(),
        ensures
            final(self).transport == old(self).transport,
            final(manager).wf(),
            match sent {
                Ok(()) => if old(manager)@.can_insert_batch(ticket.members@, ticket.outer) {
                    r is Ok && final(manager)@ == old(manager)@.insert_batch(
                        ticket.members@,
                        ticket.send_back,
                        ticket.outer,
                    )
                } else {
                    &&& final(manager)@ == old(manager)@.reclaim_all(ticket.members@).reclaim(
                        ticket.outer,
                    )
                    &&& r matches Err(failed)
                    &&& failed.error == Error::InvalidRequestId
                    &&& failed.wake == Some(
                        Wake::<C, S, B>::Batch(ticket.send_back, Err(Error::InvalidRequestId)),
                    )
                },
                Err(cause) => {
                    &&& final(manager)@ == old(manager)@.reclaim_all(ticket.members@).reclaim(
                        ticket.outer,
                    )
                    &&& r matches Err(failed)
                    &&& failed.error == Error::TransportError(cause)
                    &&& failed.wake == Some(
                        Wake::<C, S, B>::Batch(ticket.send_back, Err(Error::TransportError(cause))),
                    )
                },
            },
    {
        let BatchTicket { outer, members, send_back } = ticket;
        let ghost before = manager@;
        let (error, owed, waiter) = match sent {
            Ok(()) => match manager.insert_pending_batch(&members, send_back, outer) {
                Ok(()) => {
                    return Ok(());
                },
                Err(rejected) => (Error::InvalidRequestId, rejected.error, rejected.slot),
            },
            Err(cause) => {
                let text = cause.clone();
                (Error::TransportError(text), Error::TransportError(cause), send_back)
            },
        };
        let n = members.len();
        let mut k: usize = 0;
        while k < n
            invariant
                k <= n == members@.len(),
                manager.wf(),
                manager@ == before.reclaim_all(members@.take(k as int)),
            decreases n - k,
        {
            let _ = manager.reclaim_request_id(members[k]);
            proof {
                assert(members@.take(k + 1).drop_last() =~= members@.take(k as int));
            }
            k += 1;
        }
        proof {
            assert(members@.take(n as int) =~= members@);
        }
        let _ = manager.reclaim_request_id(outer);
        Err(Failed { error, wake: Some(Wake::Batch(waiter, Err(owed))) })
    }
}

/// JSONRPC WebSocket receiver.
#[derive(Debug)]
pub struct Receiver<T> {
    /// The receiving half of the transport. The caller reads frames from it.
    pub transport: T,
}

impl<T> Receiver<T> {
    /// Create a new JSONRPC WebSocket receiver.
    pub fn new(transport: T) -> (receiver: Self)
        ensures
            receiver.transport == transport,
    {
        Self { transport }
    }

    /// Routes the answer to one call to whoever waits for it.
    ///
    /// A call that is pending under the identifier is completed, and the identifier
    /// returns to the free pool. The outcome of a batch member is kept until the last
    /// member has ended, and then all outcomes go to the waiter of the batch in request
    /// order. Under the identifier of a subscription a result goes to the subscriber as
    /// a notification, and an error ends the subscription. Every other frame is dropped:
    /// an identifier that is no number, that nobody waits for, or that was answered
    /// before.
    pub fn on_output<'a, C, S, B>(
        &mut self,
        output: Output,
        manager: &'a mut RequestManager<Option<C>, S, B>,
    ) -> (dispatch: Dispatch<'a, C, S, B>)
        requires
            old(manager).wf(),
        ensures
            final(self).transport == old(self).transport,
            final(manager).wf(),
            ({
                let before = old(manager)@;
                let (id, outcome) = output_outcome(output);
                if id.number() is None {
                    final(manager)@ == before && dispatch == Dispatch::<C, S, B>::Dropped
                } else if before.call_slot(id.number()->Some_0) is Some {
                    let n = id.number()->Some_0;
                    &&& final(manager)@ == before.complete_call(n).reclaim(n)
                    &&& dispatch == call_delivery::<C, S, B>(before.call_slot(n)->Some_0, outcome)
                } else if before.awaited_member(id.number()->Some_0) {
                    let n = id.number()->Some_0;
                    &&& final(manager)@ == before.complete_member(n, outcome)
                    &&& if before.completes_batch(n, outcome) {
                        &&& dispatch matches Dispatch::Wake(Wake::Batch(slot, Ok(outcomes)))
                        &&& slot == before.batch_slot_of(n)
                        &&& outcomes@ == batch_result(before.recorded(n, outcome))
                    } else {
                        dispatch == Dispatch::<C, S, B>::Buffered
                    }
                } else if before.subscription(id.number()->Some_0) is Some {
                    let n = id.number()->Some_0;
                    match outcome {
                        Ok(payload) => {
                            &&& final(manager)@ == before
                            &&& dispatch matches Dispatch::Notify(slot, value)
                            &&& *slot == before.subscription(n)->Some_0.0
                            &&& value == payload
                        },
                        Err(error) => {
                            &&& final(manager)@ == before.remove_subscription(n).reclaim(n)
                            &&& dispatch == Dispatch::<C, S, B>::Wake(
                                Wake::Subscription(before.subscription(n)->Some_0.0, error),
                            )
                        },
                    }
                } else {
                    final(manager)@ == before && dispatch == Dispatch::<C, S, B>::Dropped
                }
            }),
    {
        let (id, outcome): (Id, Outcome) = match output {
            Output::Success { result, id, .. } => (id, Ok(result)),
            Output::Failure { error, id, .. } => (id, Err(Error::Request(error))),
        };
        let n = match id.as_number() {
            Some(n) => n,
            None => {
                return Dispatch::Dropped;
            },
        };
        match manager.request_status(n) {
            RequestStatus::PendingCall => {
                let resolved = manager.complete_call(n, outcome);
                let _ = manager.reclaim_request_id(n);
                match resolved {
                    Some((Some(waiter), outcome)) => Dispatch::Wake(Wake::Call(waiter, outcome)),
                    _ => Dispatch::Dropped,
                }
            },
            RequestStatus::PendingBatchMember => match manager.complete_batch_member(n, outcome) {
                BatchStep::Completed(slot, outcomes) => Dispatch::Wake(Wake::Batch(slot, Ok(outcomes))),
                BatchStep::Recorded => Dispatch::Buffered,
                BatchStep::Ignored => Dispatch::Dropped,
            },
            RequestStatus::PendingSubscription => match outcome {
                Ok(payload) => match manager.deliver_subscription_notification(n, payload) {
                    Some((slot, value)) => Dispatch::Notify(slot, value),
                    None => Dispatch::Dropped,
                },
                Err(error) => {
                    let removed = manager.remove_subscription(n);
                    let _ = manager.reclaim_request_id(n);
                    match removed {
                        Some((slot, _)) => Dispatch::Wake(Wake::Subscription(slot, error)),
                        None => Dispatch::Dropped,
                    }
                },
            },
            RequestStatus::Invalid => Dispatch::Dropped,
        }
    }

    /// Routes a notification to the subscriber it is meant for.
    ///
    /// Returns the delivery handle of the subscription with the payload. A notification
    /// for an identifier under which no subscription is registered, because it never was
    /// or was removed since, is dropped: `None` is returned and nobody is affected.
    pub fn on_notification<'a, C, S, B>(
        &self,
        subscription: &Id,
        payload: JsonValue,
        manager: &'a RequestManager<Option<C>, S, B>,
    ) -> (delivery: Option<(&'a S, JsonValue)>)
        ensures
            match delivery {
                Some((slot, value)) => {
                    &&& subscription.number() is Some
                    &&& manager@.subscription(subscription.number()->Some_0) is Some
                    &&& *slot == manager@.subscription(subscription.number()->Some_0)->Some_0.0
                    &&& value == payload
                },
                None => subscription.number() is None || manager@.subscription(
                    subscription.number()->Some_0,
                ) is None,
            },
    {
        match subscription.as_number() {
            Some(n) => manager.deliver_subscription_notification(n, payload),
            None => None,
        }
    }

    /// Ends every pending operation after the connection has failed for good: see
    /// [`RequestManager::fail_all_pending`].
    pub fn connection_failed<C, S, B>(
        &mut self,
        reason: Error,
        manager: &mut RequestManager<Option<C>, S, B>,
    ) -> (teardown: Teardown<Option<C>, S, B>)
        requires
            old(manager).wf(),
        ensures
            final(self).transport == old(self).transport,
            final(manager).wf(),
            final(manager)@ == old(manager)@.fail_all(),
            teardown.reason == reason,
            teardown.waiters@ == old(manager)@.waiters(),
    {
        manager.fail_all_pending(reason)
    }
}

} // verus!
