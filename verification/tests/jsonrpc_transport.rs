use jsonrpsee::error::{Error, ErrorObject};
use jsonrpsee::jsonrpc::{Call, Id, Notification, Output, Params, Request, Version};
use jsonrpsee::jsonrpc_transport::{
    BatchMessage, BatchTicket, CallTicket, Dispatch, Failed, NotificationMessage, Receiver, RequestMessage, Sender,
    SubscriptionMessage, SubscriptionTicket, Wake,
};
use jsonrpsee::manager::{RequestManager, RequestStatus};
use jsonrpsee::manager_state::Waiter;
use serde_json::Value;

type Manager = RequestManager<Option<&'static str>, &'static str, &'static str>;

fn json(s: &str) -> Value {
    Value::String(s.to_string())
}

fn success(id: Id, result: Value) -> Output {
    Output::Success { jsonrpc: Version::V2, result, id }
}

fn failure(id: Id, code: i64, message: &str) -> Output {
    Output::Failure { jsonrpc: Version::V2, error: ErrorObject { code, message: message.to_string(), data: None }, id }
}

fn call(id: u64, method: &str, params: Params) -> Call {
    Call { jsonrpc: Version::V2, method: method.to_string(), params, id: Id::Num(id) }
}

#[test]
fn sender_and_receiver_keep_their_transport() {
    let sender = Sender::new("tx");
    let receiver = Receiver::new(17u8);
    assert_eq!(sender.transport, "tx");
    assert_eq!(receiver.transport, 17);
}

#[test]
fn call_is_answered_and_its_identifier_freed() {
    let mut manager = Manager::new(4);
    let mut sender = Sender::new(());
    let mut receiver = Receiver::new(());
    let request = RequestMessage {
        method: "echo".to_string(),
        params: Params::Array(vec![json("hi")]),
        send_back: Some("caller"),
    };
    let (message, ticket) = sender.start_request(request, &mut manager).unwrap();
    assert_eq!(message, call(0, "echo", Params::Array(vec![json("hi")])));
    assert_eq!(ticket, CallTicket { id: 0, send_back: Some("caller") });
    assert_eq!(manager.free_slots(), 3);
    assert!(manager.is_allocated(0));

    assert_eq!(sender.request_sent(ticket, Ok(()), &mut manager), Ok(()));
    assert_eq!(manager.request_status(0), RequestStatus::PendingCall);

    let dispatch = receiver.on_output(success(Id::Num(0), json("hi")), &mut manager);
    assert_eq!(dispatch, Dispatch::Wake(Wake::Call("caller", Ok(json("hi")))));
    assert_eq!(manager.free_slots(), 4);
    assert_eq!(manager.request_status(0), RequestStatus::Invalid);

    // The same response once more finds nobody.
    let dispatch = receiver.on_output(success(Id::Num(0), json("hi")), &mut manager);
    assert_eq!(dispatch, Dispatch::Dropped);
    assert_eq!(manager.free_slots(), 4);
}

#[test]
fn call_can_fail_at_the_peer() {
    let mut manager = Manager::new(1);
    let mut sender = Sender::new(());
    let mut receiver = Receiver::new(());
    let request = RequestMessage { method: "nope".to_string(), params: Params::Absent, send_back: Some("caller") };
    let (_, ticket) = sender.start_request(request, &mut manager).unwrap();
    assert_eq!(sender.request_sent(ticket, Ok(()), &mut manager), Ok(()));
    let dispatch = receiver.on_output(failure(Id::Num(0), -32601, "Method not found"), &mut manager);
    assert_eq!(
        dispatch,
        Dispatch::Wake(Wake::Call(
            "caller",
            Err(Error::Request(ErrorObject { code: -32601, message: "Method not found".to_string(), data: None }))
        ))
    );
    assert_eq!(manager.free_slots(), 1);
}

#[test]
fn call_without_a_waiter_is_completed_silently() {
    let mut manager = Manager::new(1);
    let mut sender = Sender::new(());
    let mut receiver = Receiver::new(());
    let request = RequestMessage::<&'static str> { method: "fire".to_string(), params: Params::Absent, send_back: None };
    let (_, ticket) = sender.start_request(request, &mut manager).unwrap();
    assert_eq!(sender.request_sent(ticket, Ok(()), &mut manager), Ok(()));
    assert_eq!(manager.free_slots(), 0);
    assert_eq!(receiver.on_output(success(Id::Num(0), Value::Null), &mut manager), Dispatch::Dropped);
    assert_eq!(manager.free_slots(), 1);
}

#[test]
fn call_is_refused_when_the_pool_is_exhausted() {
    let mut manager = Manager::new(0);
    let mut sender = Sender::new(());
    let request = RequestMessage { method: "echo".to_string(), params: Params::Absent, send_back: Some("caller") };
    let refused: Failed<&str, &str, &str> = sender.start_request(request, &mut manager).unwrap_err();
    assert_eq!(
        refused,
        Failed {
            error: Error::Custom("Configured max number of request slots exceeded".to_string()),
            wake: Some(Wake::Call("caller", Err(Error::MaxSlotsExceeded))),
        }
    );
    let request = RequestMessage::<&'static str> { method: "echo".to_string(), params: Params::Absent, send_back: None };
    let refused = sender.start_request(request, &mut manager).unwrap_err();
    assert_eq!(refused.wake, None);
}

#[test]
fn failed_send_of_a_call_reclaims_the_identifier() {
    let mut manager = Manager::new(2);
    let mut sender = Sender::new(());
    let request = RequestMessage { method: "echo".to_string(), params: Params::Absent, send_back: Some("caller") };
    let (_, ticket) = sender.start_request(request, &mut manager).unwrap();
    assert_eq!(manager.free_slots(), 1);
    let failed = sender.request_sent(ticket, Err("broken pipe".to_string()), &mut manager).unwrap_err();
    assert_eq!(
        failed,
        Failed {
            error: Error::Custom("broken pipe".to_string()),
            wake: Some(Wake::Call("caller", Err(Error::TransportError("broken pipe".to_string())))),
        }
    );
    assert_eq!(manager.free_slots(), 2);
    assert_eq!(manager.request_status(0), RequestStatus::Invalid);
    assert!(!manager.is_allocated(0));
}

#[test]
fn failed_send_of_a_subscription_leaves_no_subscription() {
    let mut manager = Manager::new(2);
    let mut sender = Sender::new(());
    let receiver = Receiver::new(());
    let sub = SubscriptionMessage {
        subscribe_method: "sub_foo".to_string(),
        params: Params::Absent,
        unsubscribe_method: "unsub_foo".to_string(),
        send_back: "stream",
    };
    let (message, ticket) = sender.start_subscription(sub, &mut manager).unwrap();
    assert_eq!(message, call(0, "sub_foo", Params::Absent));
    assert_eq!(
        ticket,
        SubscriptionTicket { id: 0, send_back: "stream", unsubscribe_method: "unsub_foo".to_string() }
    );
    let failed = sender.subscription_sent(ticket, Err("connection closed".to_string()), &mut manager).unwrap_err();
    assert_eq!(
        failed,
        Failed {
            error: Error::Custom("connection closed".to_string()),
            wake: Some(Wake::Subscription("stream", Error::TransportError("connection closed".to_string()))),
        }
    );
    assert_eq!(manager.free_slots(), 2);
    assert_eq!(manager.request_status(0), RequestStatus::Invalid);
    assert_eq!(receiver.on_notification(&Id::Num(0), Value::Null, &manager), None);
    assert_eq!(manager.remove_subscription(0), None);
}

#[test]
fn subscription_is_refused_when_the_pool_is_exhausted() {
    let mut manager = Manager::new(0);
    let mut sender = Sender::new(());
    let sub = SubscriptionMessage {
        subscribe_method: "sub_foo".to_string(),
        params: Params::Absent,
        unsubscribe_method: "unsub_foo".to_string(),
        send_back: "stream",
    };
    let refused = sender.start_subscription(sub, &mut manager).unwrap_err();
    assert_eq!(
        refused,
        Failed {
            error: Error::Custom("Configured max number of request slots exceeded".to_string()),
            wake: Some(Wake::Subscription("stream", Error::MaxSlotsExceeded)),
        }
    );
}

#[test]
fn subscription_delivers_until_unsubscribed() {
    let mut manager = Manager::new(4);
    let mut sender = Sender::new(());
    let mut receiver = Receiver::new(());
    let sub = SubscriptionMessage {
        subscribe_method: "sub_foo".to_string(),
        params: Params::Array(vec![json("topic")]),
        unsubscribe_method: "unsub_foo".to_string(),
        send_back: "stream",
    };
    let (_, ticket) = sender.start_subscription(sub, &mut manager).unwrap();
    assert_eq!(sender.subscription_sent(ticket, Ok(()), &mut manager), Ok(()));
    assert_eq!(manager.request_status(0), RequestStatus::PendingSubscription);

    assert_eq!(receiver.on_notification(&Id::Num(0), json("one"), &manager), Some((&"stream", json("one"))));
    assert_eq!(receiver.on_notification(&Id::Num(0), json("two"), &manager), Some((&"stream", json("two"))));
    assert_eq!(receiver.on_notification(&Id::Num(1), json("x"), &manager), None);
    assert_eq!(receiver.on_notification(&Id::Str("0".to_string()), json("x"), &manager), None);
    assert_eq!(receiver.on_notification(&Id::Null, json("x"), &manager), None);
    // A response under the identifier of the subscription goes to the subscriber too.
    assert!(matches!(
        receiver.on_output(success(Id::Num(0), json("three")), &mut manager),
        Dispatch::Notify(&"stream", v) if v == json("three")
    ));
    assert_eq!(manager.free_slots(), 3);

    // The unsubscribe call completes: the subscription is removed and its identifier freed.
    assert_eq!(manager.remove_subscription(0), Some(("stream", "unsub_foo".to_string())));
    assert!(manager.reclaim_request_id(0));
    assert_eq!(manager.free_slots(), 4);

    // A notification that was still on its way is dropped, and nobody is affected.
    assert_eq!(receiver.on_notification(&Id::Num(0), json("late"), &manager), None);
    assert_eq!(receiver.on_output(success(Id::Num(0), json("late")), &mut manager), Dispatch::Dropped);
    assert_eq!(manager.free_slots(), 4);
    assert!(manager.fail_all_pending(Error::InvalidRequestId).waiters.is_empty());
}

#[test]
fn error_under_a_subscription_ends_it() {
    let mut manager = Manager::new(1);
    let mut sender = Sender::new(());
    let mut receiver = Receiver::new(());
    let sub = SubscriptionMessage {
        subscribe_method: "sub_foo".to_string(),
        params: Params::Absent,
        unsubscribe_method: "unsub_foo".to_string(),
        send_back: "stream",
    };
    let (_, ticket) = sender.start_subscription(sub, &mut manager).unwrap();
    assert_eq!(sender.subscription_sent(ticket, Ok(()), &mut manager), Ok(()));
    let dispatch = receiver.on_output(failure(Id::Num(0), -32602, "Invalid params"), &mut manager);
    assert_eq!(
        dispatch,
        Dispatch::Wake(Wake::Subscription(
            "stream",
            Error::Request(ErrorObject { code: -32602, message: "Invalid params".to_string(), data: None })
        ))
    );
    assert_eq!(manager.free_slots(), 1);
    assert_eq!(receiver.on_notification(&Id::Num(0), Value::Null, &manager), None);
}

#[test]
fn notification_has_no_identifier_and_no_waiter() {
    let mut manager = Manager::new(1);
    let mut sender = Sender::new(());
    let notif = NotificationMessage { method: "log".to_string(), params: Params::Array(vec![json("line")]) };
    assert_eq!(
        sender.send_notification(notif),
        Notification { jsonrpc: Version::V2, method: "log".to_string(), params: Params::Array(vec![json("line")]) }
    );
    assert_eq!(sender.notification_sent(Ok(())), Ok(()));
    assert_eq!(
        sender.notification_sent(Err("reset".to_string())),
        Err(Error::TransportError("reset".to_string()))
    );
    assert_eq!(manager.free_slots(), 1);
    assert_eq!(manager.next_request_id(), Ok(0));
}

#[test]
fn batch_is_answered_in_request_order() {
    let mut manager = Manager::new(5);
    let mut sender = Sender::new(());
    let mut receiver = Receiver::new(());
    let batch = BatchMessage {
        requests: vec![
            ("first".to_string(), Params::Absent),
            ("second".to_string(), Params::Array(vec![json("x")])),
            ("third".to_string(), Params::Absent),
        ],
        send_back: "batch",
    };
    let (message, ticket) = sender.start_batch_request(batch, &mut manager).unwrap();
    assert_eq!(
        message,
        Request::Batch(vec![
            call(1, "first", Params::Absent),
            call(2, "second", Params::Array(vec![json("x")])),
            call(3, "third", Params::Absent),
        ])
    );
    assert_eq!(ticket, BatchTicket { outer: 0, members: vec![1, 2, 3], send_back: "batch" });
    assert_eq!(manager.free_slots(), 1);
    assert_eq!(sender.batch_sent(ticket, Ok(()), &mut manager), Ok(()));

    assert_eq!(receiver.on_output(success(Id::Num(2), json("b")), &mut manager), Dispatch::Buffered);
    assert_eq!(receiver.on_output(success(Id::Num(2), json("again")), &mut manager), Dispatch::Dropped);
    assert_eq!(receiver.on_output(failure(Id::Num(3), -32603, "Internal error"), &mut manager), Dispatch::Buffered);
    assert_eq!(receiver.on_output(success(Id::Num(0), json("outer")), &mut manager), Dispatch::Dropped);
    assert_eq!(manager.free_slots(), 1);
    assert_eq!(
        receiver.on_output(success(Id::Num(1), json("a")), &mut manager),
        Dispatch::Wake(Wake::Batch(
            "batch",
            Ok(vec![
                Ok(json("a")),
                Ok(json("b")),
                Err(Error::Request(ErrorObject { code: -32603, message: "Internal error".to_string(), data: None })),
            ])
        ))
    );
    assert_eq!(manager.free_slots(), 5);
}

#[test]
fn batch_is_refused_unless_every_call_gets_an_identifier() {
    let mut manager = Manager::new(3);
    let mut sender = Sender::new(());
    let requests = || {
        vec![
            ("a".to_string(), Params::Absent),
            ("b".to_string(), Params::Absent),
            ("c".to_string(), Params::Absent),
        ]
    };
    let refused = sender.start_batch_request(BatchMessage { requests: requests(), send_back: "batch" }, &mut manager);
    assert_eq!(
        refused,
        Err(Failed { error: Error::MaxSlotsExceeded, wake: Some(Wake::Batch("batch", Err(Error::MaxSlotsExceeded))) })
    );
    assert_eq!(manager.free_slots(), 3);
    assert_eq!(manager.next_request_id(), Ok(0));
    assert!(manager.reclaim_request_id(0));

    let mut manager = Manager::new(4);
    let started = sender.start_batch_request(BatchMessage { requests: requests(), send_back: "batch" }, &mut manager);
    assert!(started.is_ok());
    assert_eq!(manager.free_slots(), 0);
}

#[test]
fn failed_send_of_a_batch_reclaims_every_identifier() {
    let mut manager = Manager::new(4);
    let mut sender = Sender::new(());
    let batch = BatchMessage {
        requests: vec![("a".to_string(), Params::Absent), ("b".to_string(), Params::Absent)],
        send_back: "batch",
    };
    let (_, ticket) = sender.start_batch_request(batch, &mut manager).unwrap();
    assert_eq!(manager.free_slots(), 1);
    let failed = sender.batch_sent(ticket, Err("timed out".to_string()), &mut manager).unwrap_err();
    assert_eq!(
        failed,
        Failed {
            error: Error::TransportError("timed out".to_string()),
            wake: Some(Wake::Batch("batch", Err(Error::TransportError("timed out".to_string())))),
        }
    );
    assert_eq!(manager.free_slots(), 4);
    for id in 0..4 {
        assert_eq!(manager.request_status(id), RequestStatus::Invalid);
        assert!(!manager.is_allocated(id));
    }
}

#[test]
fn batch_that_cannot_be_registered_fails_the_caller() {
    let mut manager = Manager::new(4);
    let mut sender = Sender::new(());
    let batch = BatchMessage { requests: Vec::new(), send_back: "empty" };
    let (message, ticket) = sender.start_batch_request(batch, &mut manager).unwrap();
    assert_eq!(message, Request::Batch(Vec::new()));
    assert_eq!(manager.free_slots(), 3);
    let failed = sender.batch_sent(ticket, Ok(()), &mut manager).unwrap_err();
    assert_eq!(
        failed,
        Failed { error: Error::InvalidRequestId, wake: Some(Wake::Batch("empty", Err(Error::InvalidRequestId))) }
    );
    assert_eq!(manager.free_slots(), 4);

    // A ticket whose identifiers were tampered with is refused as a whole.
    let forged = BatchTicket { outer: 9, members: vec![1, 1], send_back: "forged" };
    let failed = sender.batch_sent(forged, Ok(()), &mut manager).unwrap_err();
    assert_eq!(failed.error, Error::InvalidRequestId);
    assert_eq!(manager.free_slots(), 4);
}

#[test]
fn frames_that_nobody_waits_for_are_dropped() {
    let mut manager = Manager::new(2);
    let mut receiver = Receiver::new(());
    assert_eq!(receiver.on_output(success(Id::Num(0), Value::Null), &mut manager), Dispatch::Dropped);
    assert_eq!(receiver.on_output(success(Id::Num(2), Value::Null), &mut manager), Dispatch::Dropped);
    assert_eq!(receiver.on_output(success(Id::Null, Value::Null), &mut manager), Dispatch::Dropped);
    assert_eq!(receiver.on_output(failure(Id::Str("0".to_string()), -1, "x"), &mut manager), Dispatch::Dropped);
    // An identifier that is allocated while its message is sent is no waiter yet.
    assert_eq!(manager.next_request_id(), Ok(0));
    assert_eq!(receiver.on_output(success(Id::Num(0), Value::Null), &mut manager), Dispatch::Dropped);
    assert!(manager.is_allocated(0));
    assert_eq!(manager.free_slots(), 1);
}

#[test]
fn connection_failure_fails_every_waiter_once() {
    let mut manager = Manager::new(6);
    let mut sender = Sender::new(());
    let mut receiver = Receiver::new(());
    let request = RequestMessage { method: "echo".to_string(), params: Params::Absent, send_back: Some("caller") };
    let (_, ticket) = sender.start_request(request, &mut manager).unwrap();
    assert_eq!(sender.request_sent(ticket, Ok(()), &mut manager), Ok(()));
    let sub = SubscriptionMessage {
        subscribe_method: "sub_foo".to_string(),
        params: Params::Absent,
        unsubscribe_method: "unsub_foo".to_string(),
        send_back: "stream",
    };
    let (_, ticket) = sender.start_subscription(sub, &mut manager).unwrap();
    assert_eq!(sender.subscription_sent(ticket, Ok(()), &mut manager), Ok(()));
    let batch = BatchMessage { requests: vec![("a".to_string(), Params::Absent)], send_back: "batch" };
    let (_, ticket) = sender.start_batch_request(batch, &mut manager).unwrap();
    assert_eq!(sender.batch_sent(ticket, Ok(()), &mut manager), Ok(()));
    assert_eq!(manager.free_slots(), 2);

    let teardown = receiver.connection_failed(Error::TransportError("eof".to_string()), &mut manager);
    assert_eq!(teardown.reason, Error::TransportError("eof".to_string()));
    assert_eq!(
        teardown.waiters,
        vec![Waiter::Call(Some("caller")), Waiter::Subscription("stream"), Waiter::Batch("batch")]
    );
    assert_eq!(manager.free_slots(), 6);
    let again = receiver.connection_failed(Error::TransportError("eof".to_string()), &mut manager);
    assert!(again.waiters.is_empty());
    assert_eq!(manager.free_slots(), 6);
    assert_eq!(receiver.on_output(success(Id::Num(0), Value::Null), &mut manager), Dispatch::Dropped);
}
