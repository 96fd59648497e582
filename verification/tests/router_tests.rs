//! The daemon core: fan-out, aggregation with origin tags, stale-response
//! drop, and bounds-safe activation.

use glimpse::protocol::{
    Action, Match, MatchAction, Message, Metadata, Method, MethodResult, Score,
};
use glimpse::router::{Router, RouterEffect};

fn item(title: &str, action: Action) -> Match {
    Match {
        title: title.to_string(),
        description: String::new(),
        icon: None,
        actions: vec![MatchAction {
            title: "go".to_string(),
            action,
            close_on_action: true,
        }],
        score: Score { millis: 500 },
    }
}

fn matches_response(id: usize, items: Vec<Match>) -> Message {
    Message::Response {
        id,
        error: None,
        result: Some(MethodResult::Matches { items }),
        plugin_id: None,
    }
}

fn search_request(id: usize, q: &str) -> Message {
    Message::Request { id, method: Method::Search(q.to_string()), plugin_id: None }
}

#[test]
fn test_end_to_end_search_aggregation() {
    // client sends a search; two plugins respond with one match each; the
    // client observes both and the table holds two correctly tagged rows
    let mut router = Router::new();
    router.register_plugin("plug-a".to_string());
    router.register_plugin("plug-b".to_string());

    let effects = router.handle_client_request(search_request(1, "foo"));
    assert_eq!(effects.len(), 2, "one send per plugin");
    for (e, key) in effects.iter().zip(["plug-a", "plug-b"]) {
        match e {
            RouterEffect::SendToPlugin { key: k, message } => {
                assert_eq!(k, key);
                assert_eq!(
                    *message,
                    Message::Request {
                        id: 1,
                        method: Method::Search("foo".to_string()),
                        plugin_id: None
                    }
                );
            },
            _ => panic!("expected a send"),
        }
    }

    let ea = router.handle_plugin_response(
        &"plug-a".to_string(),
        matches_response(1, vec![item("A", Action::Open { uri: "a:".to_string() })]),
    );
    let eb = router.handle_plugin_response(
        &"plug-b".to_string(),
        matches_response(1, vec![item("B", Action::Open { uri: "b:".to_string() })]),
    );
    assert_eq!(ea.len(), 1);
    assert_eq!(eb.len(), 1);
    match &ea[0] {
        RouterEffect::ForwardToClients { message } => match message {
            Message::Response { id, plugin_id, .. } => {
                assert_eq!(*id, 1);
                assert_eq!(plugin_id.as_deref(), Some("plug-a"));
            },
            _ => panic!("expected a response"),
        },
        _ => panic!("expected a forward"),
    }
    assert_eq!(router.current_matches.len(), 2);
    assert_eq!(router.current_matches[0].plugin_id, "plug-a");
    assert_eq!(router.current_matches[0].item.title, "A");
    assert_eq!(router.current_matches[1].plugin_id, "plug-b");
    assert_eq!(router.current_matches[1].item.title, "B");
}

#[test]
fn test_superseded_response_dropped() {
    // a response for an id below the current one is never forwarded
    let mut router = Router::new();
    router.register_plugin("p".to_string());
    router.handle_client_request(search_request(1, "one"));
    router.handle_client_request(search_request(2, "two"));
    let effects = router.handle_plugin_response(
        &"p".to_string(),
        matches_response(1, vec![item("stale", Action::Open { uri: "x:".to_string() })]),
    );
    assert!(effects.is_empty(), "stale response must be dropped");
    assert!(router.current_matches.is_empty());

    let fresh = router.handle_plugin_response(
        &"p".to_string(),
        matches_response(2, vec![item("fresh", Action::Open { uri: "y:".to_string() })]),
    );
    assert_eq!(fresh.len(), 1);
    assert_eq!(router.current_matches.len(), 1);
}

#[test]
fn test_activation_bounds_safety() {
    // out-of-range match or action indices dispatch nothing and keep state
    let mut router = Router::new();
    router.register_plugin("p".to_string());
    router.handle_client_request(search_request(1, "q"));
    router.handle_plugin_response(
        &"p".to_string(),
        matches_response(1, vec![item("only", Action::Open { uri: "z:".to_string() })]),
    );
    let out_of_range_match = router.handle_client_request(Message::Request {
        id: 5,
        method: Method::Activate(7, 0),
        plugin_id: None,
    });
    assert!(out_of_range_match.is_empty());
    let out_of_range_action = router.handle_client_request(Message::Request {
        id: 6,
        method: Method::Activate(0, 3),
        plugin_id: None,
    });
    assert!(out_of_range_action.is_empty());
    assert_eq!(router.current_matches.len(), 1, "the table is untouched");
}

#[test]
fn test_callback_routes_to_origin() {
    // an activation that resolves a callback goes back to the plugin that
    // produced the match, found through the aggregation tag
    let mut router = Router::new();
    router.register_plugin("first".to_string());
    router.register_plugin("second".to_string());
    router.handle_client_request(search_request(1, "q"));
    router.handle_plugin_response(
        &"first".to_string(),
        matches_response(1, vec![item("f", Action::Open { uri: "f:".to_string() })]),
    );
    router.handle_plugin_response(
        &"second".to_string(),
        matches_response(
            1,
            vec![item(
                "s",
                Action::Callback {
                    key: "refresh".to_string(),
                    params: vec![("a".to_string(), "1".to_string())],
                },
            )],
        ),
    );
    let effects = router.handle_client_request(Message::Request {
        id: 2,
        method: Method::Activate(1, 0),
        plugin_id: None,
    });
    assert_eq!(effects.len(), 1);
    match &effects[0] {
        RouterEffect::SendToPlugin { key, message } => {
            assert_eq!(key, "second");
            assert_eq!(
                *message,
                Message::Notification {
                    method: Method::CallAction(
                        "refresh".to_string(),
                        vec![("a".to_string(), "1".to_string())]
                    )
                }
            );
        },
        _ => panic!("expected a send to the owning plugin"),
    }
}

#[test]
fn test_non_callback_action_dispatches() {
    let mut router = Router::new();
    router.register_plugin("p".to_string());
    router.handle_client_request(search_request(1, "q"));
    router.handle_plugin_response(
        &"p".to_string(),
        matches_response(1, vec![item("go", Action::Clipboard { text: "c".to_string() })]),
    );
    let effects = router.handle_client_request(Message::Request {
        id: 2,
        method: Method::Activate(0, 0),
        plugin_id: None,
    });
    assert_eq!(effects.len(), 1);
    match &effects[0] {
        RouterEffect::Dispatch { action } => {
            assert_eq!(*action, Action::Clipboard { text: "c".to_string() });
        },
        _ => panic!("expected a dispatch"),
    }
}

#[test]
fn test_cancel_clears_and_broadcasts() {
    let mut router = Router::new();
    router.register_plugin("p".to_string());
    router.handle_client_request(search_request(3, "q"));
    router.handle_plugin_response(
        &"p".to_string(),
        matches_response(3, vec![item("x", Action::Open { uri: "u:".to_string() })]),
    );
    let effects = router.handle_client_request(Message::Request {
        id: 4,
        method: Method::Cancel,
        plugin_id: None,
    });
    assert_eq!(router.current_request, 0);
    assert!(router.current_matches.is_empty());
    assert_eq!(effects.len(), 1);
    match &effects[0] {
        RouterEffect::SendToPlugin { message, .. } => {
            assert_eq!(*message, Message::Notification { method: Method::Cancel });
        },
        _ => panic!("expected a broadcast send"),
    }
}

#[test]
fn test_quit_broadcasts_and_shuts_down() {
    let mut router = Router::new();
    router.register_plugin("p".to_string());
    let effects = router.handle_client_request(Message::Request {
        id: 9,
        method: Method::Quit,
        plugin_id: None,
    });
    assert_eq!(effects.len(), 2);
    assert!(matches!(effects[1], RouterEffect::Shutdown));
}

#[test]
fn test_plugin_metadata_update() {
    // the handshake is swallowed and recorded; targeted fan-out then
    // reaches only the authenticated plugin
    let mut router = Router::new();
    router.register_plugin("path-a".to_string());
    router.register_plugin("path-b".to_string());
    router.handle_client_request(search_request(1, "warm-up"));
    let auth = Message::Response {
        id: 1,
        error: None,
        result: Some(MethodResult::Authenticate(Metadata {
            id: "me.example.b".to_string(),
            name: "B".to_string(),
            version: "1".to_string(),
            description: String::new(),
            author: String::new(),
        })),
        plugin_id: None,
    };
    let effects = router.handle_plugin_response(&"path-b".to_string(), auth);
    assert!(effects.is_empty(), "the handshake is not forwarded");

    let targeted = router.handle_client_request(Message::Request {
        id: 2,
        method: Method::Search("only b".to_string()),
        plugin_id: Some("me.example.b".to_string()),
    });
    assert_eq!(targeted.len(), 1);
    match &targeted[0] {
        RouterEffect::SendToPlugin { key, .. } => assert_eq!(key, "path-b"),
        _ => panic!("expected a send"),
    }
}

#[test]
fn test_remove_plugin_drops_registration() {
    let mut router = Router::new();
    router.register_plugin("a".to_string());
    router.register_plugin("b".to_string());
    router.remove_plugin(&"a".to_string());
    assert_eq!(router.plugins.len(), 1);
    assert_eq!(router.plugins[0].key, "b");
}
