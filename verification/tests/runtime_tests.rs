//! The plugin runtime's single-slot request tracker.

use glimpse::protocol::{Message, Metadata, Method, MethodResult};
use glimpse::runtime::{Runtime, RuntimeEffect};

#[test]
fn test_single_in_flight_preemption() {
    // two requests without an intervening response: the first is
    // cancelled, never answered; only the second completes
    let mut rt = Runtime::new();
    let e1 = rt.on_request(1, Method::Search("one".to_string()));
    assert_eq!(e1.len(), 1);
    assert!(matches!(e1[0], RuntimeEffect::StartHandler { id: 1, .. }));

    let e2 = rt.on_request(2, Method::Search("two".to_string()));
    assert_eq!(e2.len(), 2);
    assert!(matches!(e2[0], RuntimeEffect::CancelCurrent));
    assert!(matches!(e2[1], RuntimeEffect::StartHandler { id: 2, .. }));

    // the preempted handler finishes anyway: nothing is sent for id 1
    let stale = rt.on_handler_done(1, Ok(MethodResult::NoResult));
    assert!(stale.is_empty());

    // the current handler's result is answered
    let live = rt.on_handler_done(2, Ok(MethodResult::NoResult));
    assert_eq!(live.len(), 1);
    match &live[0] {
        RuntimeEffect::Emit { message } => {
            assert_eq!(
                *message,
                Message::Response {
                    id: 2,
                    error: None,
                    result: Some(MethodResult::NoResult),
                    plugin_id: None
                }
            );
        },
        _ => panic!("expected an emit"),
    }
}

#[test]
fn test_cancel_notification_silences_request() {
    let mut rt = Runtime::new();
    rt.on_request(5, Method::Search("q".to_string()));
    let e = rt.on_cancel();
    assert_eq!(e.len(), 1);
    assert!(matches!(e[0], RuntimeEffect::CancelCurrent));
    let after = rt.on_handler_done(5, Ok(MethodResult::NoResult));
    assert!(after.is_empty(), "a cancelled request is never answered");
}

#[test]
fn test_cancel_without_in_flight() {
    let mut rt = Runtime::new();
    let e = rt.on_cancel();
    assert!(e.is_empty());
}

#[test]
fn test_quit_stops_the_runtime() {
    let mut rt = Runtime::new();
    let e = rt.on_quit();
    assert_eq!(e.len(), 1);
    assert!(matches!(e[0], RuntimeEffect::Exit));
    assert!(rt.stopped);
}

#[test]
fn test_handler_fault_becomes_error_response() {
    let mut rt = Runtime::new();
    rt.on_request(3, Method::Search("q".to_string()));
    let e = rt.on_handler_done(3, Err("the handler came apart".to_string()));
    assert_eq!(e.len(), 1);
    match &e[0] {
        RuntimeEffect::Emit { message } => {
            assert_eq!(
                *message,
                Message::Response {
                    id: 3,
                    error: Some("the handler came apart".to_string()),
                    result: None,
                    plugin_id: None
                }
            );
        },
        _ => panic!("expected an emit"),
    }
}

#[test]
fn test_authenticate_message_shape() {
    let md = Metadata {
        id: "me.example.p".to_string(),
        name: "P".to_string(),
        version: "0.1".to_string(),
        description: "d".to_string(),
        author: "a".to_string(),
    };
    let msg = Runtime::authenticate_message(md.clone());
    assert_eq!(
        msg,
        Message::Response {
            id: 0,
            error: None,
            result: Some(MethodResult::Authenticate(md)),
            plugin_id: None
        }
    );
}
