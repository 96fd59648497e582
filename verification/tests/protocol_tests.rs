//! The wire form: every message kind has exactly one canonical JSON line,
//! the encoder produces it, and the parser accepts it and nothing else.

use glimpse::codec::{message_from_json, message_to_json};
use glimpse::lines::parse_lines;
use glimpse::protocol::{
    Action, Match, MatchAction, Message, Metadata, Method, MethodResult, Score,
};

fn search_notification(q: &str) -> Message {
    Message::Notification { method: Method::Search(q.to_string()) }
}

#[test]
fn test_search_method_serialization() {
    let json = message_to_json(&search_notification("hello world"));
    assert_eq!(json, r#"{"method":"search","params":"hello world"}"#);
}

#[test]
fn test_search_method_deserialization() {
    let json = r#"{"method":"search","params":"hello world"}"#;
    let msg = message_from_json(json).unwrap();
    assert_eq!(msg, search_notification("hello world"));
}

#[test]
fn test_search_method_empty_query() {
    let msg = search_notification("");
    let json = message_to_json(&msg);
    assert_eq!(message_from_json(&json).unwrap(), msg);
}

#[test]
fn test_search_method_unicode() {
    let msg = search_notification("こんにちは 🚀 ñoño");
    let json = message_to_json(&msg);
    assert_eq!(message_from_json(&json).unwrap(), msg);
}

#[test]
fn test_search_method_long_query() {
    let long_query = "a".repeat(10000);
    let msg = search_notification(&long_query);
    let json = message_to_json(&msg);
    assert_eq!(message_from_json(&json).unwrap(), msg);
}

#[test]
fn test_cancel_method_serialization() {
    let json = message_to_json(&Message::Notification { method: Method::Cancel });
    assert_eq!(json, r#"{"method":"cancel"}"#);
}

#[test]
fn test_cancel_method_deserialization() {
    let msg = message_from_json(r#"{"method":"cancel"}"#).unwrap();
    assert_eq!(msg, Message::Notification { method: Method::Cancel });
}

#[test]
fn test_quit_method_serialization() {
    let json = message_to_json(&Message::Notification { method: Method::Quit });
    assert_eq!(json, r#"{"method":"quit"}"#);
}

#[test]
fn test_quit_method_deserialization() {
    let msg = message_from_json(r#"{"method":"quit"}"#).unwrap();
    assert_eq!(msg, Message::Notification { method: Method::Quit });
}

#[test]
fn test_method_round_trip() {
    let methods = vec![
        Method::Search("test".to_string()),
        Method::Activate(3, 1),
        Method::CallAction(
            "open".to_string(),
            vec![("path".to_string(), "/tmp/x".to_string())],
        ),
        Method::Cancel,
        Method::Quit,
    ];
    for method in methods {
        let msg = Message::Notification { method };
        let json = message_to_json(&msg);
        assert_eq!(message_from_json(&json).unwrap(), msg);
    }
}

#[test]
fn test_message_notification_raw_json() {
    let msg = message_from_json(r#"{"method":"quit"}"#).unwrap();
    assert_eq!(msg, Message::Notification { method: Method::Quit });
    let msg = message_from_json(r#"{"method":"cancel"}"#).unwrap();
    assert_eq!(msg, Message::Notification { method: Method::Cancel });
    let msg = message_from_json(r#"{"method":"search","params":"test"}"#).unwrap();
    assert_eq!(msg, Message::Notification { method: Method::Search("test".to_string()) });
}

#[test]
fn test_request_message_basic() {
    let msg = Message::Request {
        id: 42,
        method: Method::Search("test query".to_string()),
        plugin_id: None,
    };
    let json = message_to_json(&msg);
    assert_eq!(
        json,
        r#"{"id":42,"method":"search","params":"test query","plugin_id":null}"#
    );
    assert_eq!(message_from_json(&json).unwrap(), msg);
}

#[test]
fn test_request_message_with_target() {
    let msg = Message::Request {
        id: 123,
        method: Method::Cancel,
        plugin_id: Some("plugin-name".to_string()),
    };
    let json = message_to_json(&msg);
    assert_eq!(json, r#"{"id":123,"method":"cancel","plugin_id":"plugin-name"}"#);
    assert_eq!(message_from_json(&json).unwrap(), msg);
}

#[test]
fn test_response_message_success() {
    let msg = Message::Response {
        id: 99,
        error: None,
        result: Some(MethodResult::Matches { items: vec![] }),
        plugin_id: Some("test-plugin".to_string()),
    };
    let json = message_to_json(&msg);
    assert_eq!(
        json,
        r#"{"id":99,"error":null,"plugin_id":"test-plugin","result":{"type":"matches","items":[]}}"#
    );
    assert_eq!(message_from_json(&json).unwrap(), msg);
}

#[test]
fn test_response_message_error() {
    let msg = Message::Response {
        id: 404,
        error: Some("Plugin not found".to_string()),
        result: None,
        plugin_id: Some("daemon".to_string()),
    };
    let json = message_to_json(&msg);
    assert_eq!(
        json,
        r#"{"id":404,"error":"Plugin not found","plugin_id":"daemon","result":null}"#
    );
    assert_eq!(message_from_json(&json).unwrap(), msg);
}

#[test]
fn test_message_id_edge_cases() {
    for id in [0usize, 1, usize::MAX, 42] {
        let msg = Message::Request {
            id,
            method: Method::Search("test".to_string()),
            plugin_id: None,
        };
        let json = message_to_json(&msg);
        assert_eq!(message_from_json(&json).unwrap(), msg);
    }
}

fn sample_match(title: &str, score: u32) -> Match {
    Match {
        title: title.to_string(),
        description: "a sample entry".to_string(),
        icon: Some("icon.png".to_string()),
        actions: vec![
            MatchAction {
                title: "copy".to_string(),
                action: Action::Clipboard { text: "text".to_string() },
                close_on_action: true,
            },
            MatchAction {
                title: "run".to_string(),
                action: Action::Exec {
                    command: "echo".to_string(),
                    args: vec!["hi".to_string(), "there".to_string()],
                },
                close_on_action: false,
            },
        ],
        score: Score { millis: score },
    }
}

#[test]
fn test_score_wire_form() {
    let m = Match {
        title: "t".to_string(),
        description: String::new(),
        icon: None,
        actions: vec![],
        score: Score { millis: 850 },
    };
    let msg = Message::Response {
        id: 1,
        error: None,
        result: Some(MethodResult::Matches { items: vec![m] }),
        plugin_id: None,
    };
    let json = message_to_json(&msg);
    assert!(json.contains(r#""score":0.850"#), "json was: {}", json);
    let m2 = message_from_json(&json).unwrap();
    assert_eq!(m2, msg);
}

#[test]
fn test_match_round_trip_all_action_kinds() {
    let actions = vec![
        Action::Exec { command: "ls".to_string(), args: vec!["-la".to_string()] },
        Action::Launch {
            app_id: "org.example.App".to_string(),
            args: vec![],
            new_instance: true,
        },
        Action::Open { uri: "https://example.org".to_string() },
        Action::Clipboard { text: "copied".to_string() },
        Action::Callback {
            key: "again".to_string(),
            params: vec![("k".to_string(), "v".to_string())],
        },
    ];
    let items: Vec<Match> = actions
        .into_iter()
        .map(|a| Match {
            title: "entry".to_string(),
            description: "d".to_string(),
            icon: None,
            actions: vec![MatchAction {
                title: "go".to_string(),
                action: a,
                close_on_action: true,
            }],
            score: Score { millis: 1000 },
        })
        .collect();
    let msg = Message::Response {
        id: 7,
        error: None,
        result: Some(MethodResult::Matches { items }),
        plugin_id: Some("p".to_string()),
    };
    let json = message_to_json(&msg);
    assert_eq!(message_from_json(&json).unwrap(), msg);
}

#[test]
fn test_authenticate_round_trip() {
    let msg = Message::Response {
        id: 0,
        error: None,
        result: Some(MethodResult::Authenticate(Metadata {
            id: "me.example.echo".to_string(),
            name: "Echo".to_string(),
            version: "1.0.0".to_string(),
            description: "repeats the query".to_string(),
            author: "someone".to_string(),
        })),
        plugin_id: None,
    };
    let json = message_to_json(&msg);
    assert_eq!(message_from_json(&json).unwrap(), msg);
}

#[test]
fn test_string_escaping_round_trip() {
    let tricky = "quote \" backslash \\ newline \n tab \t nul \u{0} bell \u{7}";
    let msg = search_notification(tricky);
    let json = message_to_json(&msg);
    assert!(!json.contains('\n'), "an encoded message stays on one line");
    assert_eq!(message_from_json(&json).unwrap(), msg);
}

#[test]
fn test_missing_required_fields() {
    assert_eq!(message_from_json(r#"{"params":"test"}"#), None);
    assert_eq!(message_from_json(r#"{"id":1}"#), None);
    assert_eq!(message_from_json(""), None);
}

#[test]
fn test_invalid_enum_variants() {
    assert_eq!(
        message_from_json(r#"{"method":"InvalidMethod","params":"test"}"#),
        None
    );
    assert_eq!(message_from_json(r#"{"invalid_field_name":123}"#), None);
}

#[test]
fn test_type_mismatches() {
    assert_eq!(
        message_from_json(r#"{"id":"not_a_number","method":"search","params":"x","plugin_id":null}"#),
        None
    );
    assert_eq!(message_from_json("not json at all"), None);
}

#[test]
fn test_trailing_garbage_rejected() {
    let good = message_to_json(&search_notification("x"));
    let mut bad = good.clone();
    bad.push_str("garbage");
    assert_eq!(message_from_json(&bad), None);
    assert!(message_from_json(&good).is_some());
}

#[test]
fn test_line_skip_resilience_stream() {
    // one malformed line interleaved between two valid message lines
    // yields exactly the two messages, in order
    let m1 = search_notification("first");
    let m2 = Message::Request {
        id: 9,
        method: Method::Search("second".to_string()),
        plugin_id: None,
    };
    let stream = format!(
        "{}\nthis is not a message\n{}\n",
        message_to_json(&m1),
        message_to_json(&m2)
    );
    let chars: Vec<char> = stream.chars().collect();
    let msgs = parse_lines(&chars);
    assert_eq!(msgs, vec![m1, m2]);
}

#[test]
fn test_parse_lines_without_trailing_newline() {
    let m = search_notification("tail");
    let stream = message_to_json(&m);
    let chars: Vec<char> = stream.chars().collect();
    assert_eq!(parse_lines(&chars), vec![m]);
}

#[test]
fn test_parse_lines_empty_and_blank() {
    let chars: Vec<char> = "\n\n".chars().collect();
    assert_eq!(parse_lines(&chars), vec![]);
    let none: Vec<char> = Vec::new();
    assert_eq!(parse_lines(&none), vec![]);
}

#[test]
fn test_large_payload_handling() {
    let items: Vec<Match> = (0..500).map(|i| sample_match(&format!("Item {}", i), i)).collect();
    let msg = Message::Response {
        id: 999,
        error: None,
        result: Some(MethodResult::Matches { items }),
        plugin_id: Some("large-plugin".to_string()),
    };
    let json = message_to_json(&msg);
    assert!(json.len() > 50_000);
    assert_eq!(message_from_json(&json).unwrap(), msg);
}
