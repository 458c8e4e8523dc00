use reticle::storage::{
    add_tags, all_server_names, all_tags, filter_sessions, remove_tags, text_less, unique_by_id,
    SessionFilter, SessionInfo,
};

fn info(id: &str, server: Option<&str>, transport: &str, tags: &[&str]) -> SessionInfo {
    SessionInfo {
        id: id.to_string(),
        name: format!("session {id}"),
        started_at: 1,
        ended_at: None,
        message_count: 0,
        duration_ms: None,
        transport: transport.to_string(),
        server_name: server.map(|s| s.to_string()),
        tags: tags.iter().map(|t| t.to_string()).collect(),
    }
}

fn ids(v: &[SessionInfo]) -> Vec<&str> {
    v.iter().map(|s| s.id.as_str()).collect()
}

#[test]
fn filter_by_server_transport_and_all_tags() {
    let all = vec![
        info("1", Some("github"), "stdio", &["prod", "slow"]),
        info("2", Some("fs"), "stdio", &["prod"]),
        info("3", None, "http-sse", &[]),
        info("4", Some("github"), "websocket", &["prod"]),
    ];
    assert_eq!(ids(&filter_sessions(&all, &SessionFilter::default())), vec!["1", "2", "3", "4"]);
    let f = SessionFilter { server_name: Some("github".to_string()), tags: vec![], transport: None };
    assert_eq!(ids(&filter_sessions(&all, &f)), vec!["1", "4"]);
    let f = SessionFilter { server_name: None, tags: vec!["prod".to_string()], transport: Some("stdio".to_string()) };
    assert_eq!(ids(&filter_sessions(&all, &f)), vec!["1", "2"]);
    let f = SessionFilter { server_name: None, tags: vec!["prod".to_string(), "slow".to_string()], transport: None };
    assert_eq!(ids(&filter_sessions(&all, &f)), vec!["1"]);
    assert!(f.matches(&all[0]));
    assert!(!f.matches(&all[2]));
}

#[test]
fn tags_added_once_and_removed() {
    let mut tags = vec!["a".to_string()];
    add_tags(&mut tags, vec!["b".to_string(), "a".to_string(), "b".to_string(), "c".to_string()]);
    assert_eq!(tags, vec!["a", "b", "c"]);
    remove_tags(&mut tags, &vec!["b".to_string(), "z".to_string()]);
    assert_eq!(tags, vec!["a", "c"]);
}

#[test]
fn listing_keeps_first_record_of_each_id() {
    let all = vec![
        info("a", None, "stdio", &["x"]),
        info("b", None, "stdio", &[]),
        info("a", None, "http-sse", &[]),
        info("c", None, "stdio", &[]),
        info("b", None, "stdio", &[]),
    ];
    let listed = unique_by_id(&all);
    assert_eq!(ids(&listed), vec!["a", "b", "c"]);
    assert_eq!(listed[0].transport, "stdio");
    assert_eq!(listed[0].tags, vec!["x".to_string()]);
}

#[test]
fn tags_and_server_names_sorted_once_each() {
    let all = vec![
        info("1", Some("github"), "stdio", &["prod", "slow"]),
        info("2", Some("fs"), "stdio", &["beta", "prod"]),
        info("3", None, "stdio", &[]),
        info("4", Some("github"), "stdio", &["Prod"]),
    ];
    assert_eq!(all_tags(&all), vec!["Prod", "beta", "prod", "slow"]);
    assert_eq!(all_server_names(&all), vec!["fs", "github"]);
    assert!(all_tags(&Vec::new()).is_empty());
}

#[test]
fn text_order_matches_string_order() {
    for (a, b) in [("a", "b"), ("ab", "a"), ("", "x"), ("x", ""), ("é", "z"), ("same", "same")] {
        assert_eq!(text_less(a, b), a < b, "{a:?} < {b:?}");
    }
}
