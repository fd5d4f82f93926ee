//! Arguments, app server and paths on disk.

use zeldex::app_server::{conclude, judge, AppServerSession, Reply, Verdict};
use zeldex::codex_cache::{codex_cache_path, CodexCache};
use zeldex::json::{parse_json, print_json, Json};
use zeldex::native::{
    app_server_url, live_snapshot, loaded_thread_ids, map_thread_status, newest_live_thread,
    now_unix_seconds, probes_again, read_live_thread, runtime_dir, runtime_path_for_pid, LivePane,
};
use zeldex::pane_args::{parse_pane, parse_panes, NumberFault, PaneArgError, PanePid};
use zeldex::status::AgentStatusKind;
use zeldex::time::Timestamp;

fn args(list: &[&str]) -> Vec<String> {
    list.iter().map(|arg| arg.to_string()).collect()
}

#[test]
fn parses_repeated_pane_args() {
    let panes = parse_panes(&vec![
        "--pane".to_owned(),
        "7:123".to_owned(),
        "--pane".to_owned(),
        "9:456".to_owned(),
    ])
    .unwrap();
    assert_eq!(
        panes,
        vec![
            PanePid {
                id: "7".to_owned(),
                pid: 123,
            },
            PanePid {
                id: "9".to_owned(),
                pid: 456,
            }
        ]
    );
}

#[test]
fn parses_single_pane_value() {
    let pane = parse_pane("12:345").unwrap();
    assert_eq!(
        pane,
        PanePid {
            id: "12".to_owned(),
            pid: 345,
        }
    );
}

#[test]
fn bad_pane_args_are_told() {
    let message = |list: &[&str]| parse_panes(&args(list)).unwrap_err().message();
    assert_eq!(message(&["--panes", "1:2"]), "unexpected arg: --panes");
    assert_eq!(message(&["--pane", "1:2", "--pane"]), "missing value after --pane");
    assert_eq!(message(&["--pane", "12"]), "invalid pane value: 12");
    for value in ["", "+", "-1", "1 ", "99999999999x", "x99999999999", "4294967296", "+7"] {
        let parsed = parse_pane(&format!("1:{value}"));
        match value.parse::<u32>() {
            Ok(pid) => assert_eq!(parsed.unwrap().pid, pid),
            Err(error) => assert_eq!(parsed.unwrap_err().message(), error.to_string()),
        }
    }
    assert_eq!(
        parse_pane("1:").unwrap_err(),
        PaneArgError::InvalidPid(NumberFault::Empty)
    );
    assert_eq!(parse_pane("a:b:3").unwrap_err().message(), "invalid digit found in string");
    assert_eq!(parse_pane(":4294967295").unwrap().pid, u32::MAX);
    assert_eq!(parse_panes(&vec![]).unwrap(), vec![]);
}

#[test]
fn maps_waiting_flags_to_waiting() {
    let status = Json::Object(vec![
        ("type".to_owned(), Json::Text("active".to_owned())),
        (
            "activeFlags".to_owned(),
            Json::List(vec![Json::Text("waitingOnUserInput".to_owned())]),
        ),
    ]);
    assert_eq!(map_thread_status(Some(&status)), AgentStatusKind::Waiting);
}

#[test]
fn maps_active_without_flags_to_running() {
    let status = Json::Object(vec![
        ("type".to_owned(), Json::Text("active".to_owned())),
        ("activeFlags".to_owned(), Json::List(vec![])),
    ]);
    assert_eq!(map_thread_status(Some(&status)), AgentStatusKind::Running);
}

#[test]
fn maps_idle_to_done() {
    let status = Json::Object(vec![("type".to_owned(), Json::Text("idle".to_owned()))]);
    assert_eq!(map_thread_status(Some(&status)), AgentStatusKind::Done);
}

#[test]
fn other_states_run() {
    let status = |line: &str| map_thread_status(Some(&parse_json(line).unwrap()));
    assert_eq!(map_thread_status(None), AgentStatusKind::Running);
    assert_eq!(status("{}"), AgentStatusKind::Running);
    assert_eq!(status("{\"type\":\"unheard\"}"), AgentStatusKind::Running);
    assert_eq!(status("{\"type\":\"notLoaded\"}"), AgentStatusKind::Done);
    assert_eq!(status("{\"type\":\"systemError\"}"), AgentStatusKind::Done);
    assert_eq!(
        status("{\"type\":\"active\",\"activeFlags\":[1,\"waitingOnApproval\"]}"),
        AgentStatusKind::Waiting
    );
    assert_eq!(
        status("{\"type\":\"idle\",\"activeFlags\":[\"waitingOnApproval\"]}"),
        AgentStatusKind::Done
    );
}

#[test]
fn requests_are_numbered() {
    let mut session = AppServerSession::new();
    let first = session.initialize("0.1.0");
    assert_eq!(
        first.text,
        "{\"id\":1,\"jsonrpc\":\"2.0\",\"method\":\"initialize\",\"params\":{\"capabilities\":{\"experimentalApi\":true,\"optOutNotificationMethods\":[\"thread/started\",\"turn/started\",\"turn/completed\",\"thread/status/changed\"]},\"clientInfo\":{\"name\":\"zeldex\",\"version\":\"0.1.0\"}}}"
    );
    let second = session.list_loaded();
    assert_eq!(
        second.text,
        "{\"id\":2,\"jsonrpc\":\"2.0\",\"method\":\"thread/loaded/list\",\"params\":{\"limit\":16}}"
    );
    let third = session.read_thread("a\"\n");
    assert_eq!(
        third.text,
        "{\"id\":3,\"jsonrpc\":\"2.0\",\"method\":\"thread/read\",\"params\":{\"includeTurns\":false,\"threadId\":\"a\\\"\\n\"}}"
    );
    assert_eq!((third.id, third.method.as_str()), (3, "thread/read"));
}

#[test]
fn replies_are_matched_by_id() {
    let mut session = AppServerSession::new();
    let request = session.list_loaded();
    assert_eq!(request.receive("nonsense"), Reply::Undecodable);
    assert_eq!(request.receive("{\"id\":2,\"result\":1}"), Reply::Unrelated);
    assert_eq!(request.receive("{\"id\":1.0,\"result\":1}"), Reply::Unrelated);
    assert_eq!(request.receive("{\"method\":\"notice\"}"), Reply::Unrelated);
    assert_eq!(request.receive("[]"), Reply::Unrelated);
    assert_eq!(
        request.receive("{\"id\":1,\"error\":{\"code\":-3.5,\"message\":\"no\"},\"result\":1}"),
        Reply::Failed(
            "app-server error for thread/loaded/list: {\"code\":-3.5,\"message\":\"no\"}".to_owned()
        )
    );
    assert_eq!(
        request.receive("{\"id\":1,\"error\":null}"),
        Reply::Failed("app-server error for thread/loaded/list: null".to_owned())
    );
    assert_eq!(
        request.receive("{\"id\":1}"),
        Reply::Failed("missing result for thread/loaded/list".to_owned())
    );
    assert_eq!(
        request.receive("{\"id\":1,\"result\":[true]}"),
        Reply::Answered(Json::List(vec![Json::Bool(true)]))
    );
    let message = Json::Object(vec![("id".to_owned(), Json::from_unsigned(9))]);
    assert_eq!(judge(&message, 9), Verdict::Empty);
    assert_eq!(judge(&message, 8), Verdict::Unrelated);
    assert_eq!(
        conclude(message, 9, "m", "unused"),
        Reply::Failed("missing result for m".to_owned())
    );
    let failed = Json::Object(vec![
        ("id".to_owned(), Json::from_unsigned(9)),
        ("error".to_owned(), Json::Null),
    ]);
    assert_eq!(
        conclude(failed, 9, "m", "why"),
        Reply::Failed("app-server error for m: why".to_owned())
    );
}

#[test]
fn json_is_read_and_written() {
    let line = "{\"b\":[1,-2,2.5,null],\"a\":\"x\",\"b\":true}";
    let json = parse_json(line).unwrap();
    assert_eq!(json.get("b"), Some(&Json::Bool(true)));
    assert_eq!(json.get_str("a"), Some("x"));
    assert_eq!(parse_json("{\"n\":18446744073709551615}").unwrap().get("n").and_then(Json::as_u64), Some(u64::MAX));
    assert_eq!(parse_json("{\"n\":-1}").unwrap().get("n").and_then(Json::as_u64), None);
    assert!(parse_json("{\"a\":}").is_none());
    assert!(parse_json("").is_none());
    let written = Json::Object(vec![
        ("z".to_owned(), Json::List(vec![Json::Null, Json::from_unsigned(7)])),
        ("a".to_owned(), Json::from_text("q\u{1f}\"ä")),
    ]);
    let text = print_json(&written);
    assert_eq!(text, "{\"a\":\"q\\u001f\\\"ä\",\"z\":[null,7]}");
    let back = parse_json(&text).unwrap();
    assert_eq!(back.get("a"), written.get("a"));
    assert_eq!(back.get("z"), written.get("z"));
}

#[test]
fn newest_live_thread_wins() {
    let answer = |body: &str| parse_json(body).unwrap();
    let answers = vec![
        answer("{\"thread\":{\"id\":\"a\",\"updatedAt\":5,\"name\":\"first\",\"status\":{\"type\":\"idle\"}}}"),
        answer("{}"),
        answer("{\"thread\":{\"id\":\"b\",\"updatedAt\":5,\"preview\":\"later\"}}"),
        answer("{\"thread\":{\"id\":\"c\",\"updatedAt\":-1}}"),
    ];
    let best = newest_live_thread(&answers).unwrap();
    assert_eq!(best.thread_id.as_deref(), Some("a"));
    assert_eq!(best.thread_name.as_deref(), Some("first"));
    assert_eq!(best.status, AgentStatusKind::Done);
    let long = answer(&format!("{{\"thread\":{{\"preview\":\"{}\"}}}}", "x".repeat(60)));
    let live = read_live_thread(&long).unwrap();
    assert_eq!(live.thread_name, Some("x".repeat(48)));
    assert_eq!(live.updated_at, 0);
    assert!(newest_live_thread(&vec![]).is_none());
    assert_eq!(
        loaded_thread_ids(&answer("{\"data\":[\"t1\",2,\"t2\"]}")),
        Some(vec!["t1".to_owned(), "t2".to_owned()])
    );
    assert_eq!(loaded_thread_ids(&answer("{\"data\":{}}")), None);
}

#[test]
fn silent_servers_count_as_running() {
    let live = read_live_thread(&parse_json("{\"thread\":{\"id\":\"a\",\"updatedAt\":5}}").unwrap());
    let snapshot = live_snapshot(
        &vec![
            LivePane { pane_id: "7".to_owned(), live: None },
            LivePane { pane_id: "9".to_owned(), live },
        ],
        42,
    );
    assert_eq!(snapshot.updated_at, 42);
    let quiet = snapshot.panes.find("7").unwrap();
    assert_eq!((quiet.status, quiet.updated_at), (AgentStatusKind::Running, 42));
    let told = snapshot.panes.find("9").unwrap();
    assert_eq!((told.thread_id.as_deref(), told.updated_at), (Some("a"), 5));
}

#[test]
fn state_lies_under_the_home_directory() {
    assert_eq!(
        codex_cache_path(Some("/home/me")),
        "/home/me/.local/state/zeldex/codex-cache.json"
    );
    assert_eq!(codex_cache_path(None), "./.local/state/zeldex/codex-cache.json");
    assert_eq!(codex_cache_path(Some("")), ".local/state/zeldex/codex-cache.json");
    assert_eq!(runtime_dir(Some("/h/")), "/h/.local/state/zeldex/pids");
    assert_eq!(
        runtime_path_for_pid(Some("/h"), 4294967295),
        "/h/.local/state/zeldex/pids/4294967295.json"
    );
    assert_ne!(runtime_path_for_pid(None, 1), runtime_path_for_pid(None, 11));
    assert!(probes_again(0) && probes_again(49));
    assert!(!probes_again(50) && !probes_again(u32::MAX));
    assert_eq!(app_server_url(8080), "ws://127.0.0.1:8080");
    let cache = CodexCache::default();
    let copy = cache.clone();
    assert_eq!((cache.threads.len(), copy.bindings.len()), (0, 0));
    assert_eq!(now_unix_seconds(Timestamp { secs: 5, nanos: 999_999_999 }), 5);
    assert_eq!(now_unix_seconds(Timestamp { secs: -1, nanos: 5 }), 0);
}
