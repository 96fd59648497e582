//! Plugin discovery and the restart policy.

use glimpse::supervisor::{
    FileInfo, Supervisor, SupervisorAction, collect_candidates, is_plugin_candidate,
    plugin_search_dirs,
};

fn entry(path: &str, is_file: bool, mode: u32) -> FileInfo {
    FileInfo { path: path.to_string(), is_file, mode }
}

#[test]
fn test_plugin_candidate_rules() {
    assert!(is_plugin_candidate(true, 0o755));
    assert!(is_plugin_candidate(true, 0o100));
    assert!(is_plugin_candidate(true, 0o001));
    assert!(!is_plugin_candidate(true, 0o644));
    assert!(!is_plugin_candidate(false, 0o755));
}

#[test]
fn test_collect_candidates_filters_and_keeps_order() {
    let entries = vec![
        entry("/p/one", true, 0o755),
        entry("/p/readme", true, 0o644),
        entry("/p/subdir", false, 0o755),
        entry("/p/two", true, 0o111),
    ];
    let got = collect_candidates(&entries);
    assert_eq!(got, vec!["/p/one".to_string(), "/p/two".to_string()]);
}

#[test]
fn test_plugin_search_dirs_order() {
    let dirs = plugin_search_dirs(
        Some("/override".to_string()),
        Some("/home/u/.local/share".to_string()),
    );
    assert_eq!(
        dirs,
        vec![
            "/override".to_string(),
            "/home/u/.local/share/glimpsed/plugins".to_string(),
            "/usr/lib/glimpsed/plugins".to_string(),
            "/usr/local/lib/glimpsed/plugins".to_string(),
        ]
    );
}

#[test]
fn test_plugin_search_dirs_empty_override() {
    let dirs = plugin_search_dirs(Some(String::new()), None);
    assert_eq!(
        dirs,
        vec![
            "/usr/lib/glimpsed/plugins".to_string(),
            "/usr/local/lib/glimpsed/plugins".to_string(),
        ]
    );
}

#[test]
fn test_restart_on_crash_twice() {
    // a plugin that exits right after spawn is respawned, again and again
    let mut sup = Supervisor::new("/p/flaky".to_string());
    sup.on_spawned();
    let a1 = sup.on_exit();
    assert!(matches!(a1, SupervisorAction::BackoffThenRespawn));
    sup.on_spawned();
    let a2 = sup.on_exit();
    assert!(matches!(a2, SupervisorAction::BackoffThenRespawn));
    assert_eq!(sup.restarts, 2);
    assert_eq!(sup.path, "/p/flaky");
}
