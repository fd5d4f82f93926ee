//! Threads, panes and refreshes.

use zeldex::codex::{
    collect_status_snapshot, CachedPaneBinding, PaneTarget, RefreshCache,
};
use zeldex::codex_entry::{
    determine_status, extract_project_dir, extract_thread_name, is_tool_call_entry,
    normalize_thread_name, THREAD_NAME_MAX,
};
use zeldex::codex_file::{parse_refresh_output, parse_section_header, CodexFile, CodexFileKind};
use zeldex::codex_match::{is_older, match_score, select_best_thread, thread_sort_key};
use zeldex::codex_thread::{
    load_thread_index, parse_thread_id, read_index_entry, summarize_thread, ThreadScan, ThreadSummary,
    WAIT_AFTER_TOOL_CALL,
};
use zeldex::json::{parse_json, Json};
use zeldex::path::normalize_path;
use zeldex::sorted_map::SortedMap;
use zeldex::status::AgentStatusKind;
use zeldex::time::Timestamp;

fn at(secs: i64) -> Timestamp {
    Timestamp { secs, nanos: 0 }
}

fn text(value: &str) -> Json {
    Json::Text(value.to_owned())
}

fn object(fields: Vec<(&str, Json)>) -> Json {
    Json::Object(
        fields
            .into_iter()
            .map(|(key, value)| (key.to_owned(), value))
            .collect(),
    )
}

fn no_names() -> SortedMap<String, String> {
    SortedMap::new()
}

fn meta_line(cwd: &str) -> String {
    format!("{{\"type\":\"session_meta\",\"payload\":{{\"cwd\":\"{cwd}\"}}}}")
}

fn transcript(path: &str, cwd: &str, status: AgentStatusKind, modified_at: u64) -> CodexFile {
    let status_line = match status {
        AgentStatusKind::Running => {
            "{\"type\":\"event_msg\",\"payload\":{\"type\":\"task_started\"}}"
        }
        AgentStatusKind::Done => {
            "{\"type\":\"event_msg\",\"payload\":{\"type\":\"task_complete\"}}"
        }
        AgentStatusKind::Waiting => {
            "{\"type\":\"response_item\",\"payload\":{\"type\":\"function_call\"}}"
        }
        AgentStatusKind::Idle => "{}",
    };
    CodexFile {
        kind: CodexFileKind::Transcript,
        modified_at,
        path: path.to_owned(),
        content: format!("{}\n{}\n", meta_line(cwd), status_line),
    }
}

fn thread(path: &str, cwd: &str, status: AgentStatusKind, modified_at: u64) -> ThreadSummary {
    summarize_thread(
        &transcript(path, cwd, status, modified_at),
        &no_names(),
        at(0),
    )
    .unwrap()
}

fn pane(id: &str, cwd: &str) -> PaneTarget {
    PaneTarget {
        pane_id: id.to_owned(),
        cwd: cwd.to_owned(),
    }
}

fn bind(cache: &mut RefreshCache, id: &str, cwd: &str, path: &str) {
    cache.bindings.insert(
        id.to_owned(),
        CachedPaneBinding {
            pane_id: id.to_owned(),
            cwd: cwd.to_owned(),
            transcript_path: path.to_owned(),
        },
    );
}

#[test]
fn parses_refresh_sections() {
    let files = parse_refresh_output(
        b"\x1eindex\t0\t/tmp/index.jsonl\n{\"id\":\"a\",\"thread_name\":\"Fix auth\"}\n\x1etranscript\t12\t/tmp/thread.jsonl\n{\"type\":\"session_meta\",\"payload\":{\"cwd\":\"/tmp/project\"}}\n",
    )
    .unwrap();
    assert_eq!(files.len(), 2);
    assert_eq!(files[0].kind, CodexFileKind::Index);
    assert_eq!(files[1].modified_at, 12);
}

#[test]
fn sections_keep_their_lines() {
    let files = parse_refresh_output(
        b"stray\n\x1etranscript\t7\t/tmp/./a/../b.jsonl\r\none\r\n\r\ntwo",
    )
    .unwrap();
    assert_eq!(
        files,
        vec![CodexFile {
            kind: CodexFileKind::Transcript,
            modified_at: 7,
            path: "/tmp/b.jsonl".to_owned(),
            content: "one\n\ntwo\n".to_owned(),
        }]
    );
    assert_eq!(parse_refresh_output(b"").unwrap(), vec![]);
}

#[test]
fn refresh_outputs_can_be_joined() {
    let parts: [&[u8]; 4] = [
        b"\x1eindex\t1\t/i\na\n",
        "\u{1e}transcript\t2\t/t\nä\r\n".as_bytes(),
        b"\x1etranscript\t3\t/u\n",
        b"",
    ];
    for first in parts {
        for second in parts {
            let mut files = parse_refresh_output(first).unwrap();
            files.extend(parse_refresh_output(second).unwrap());
            let joined: Vec<u8> = first.iter().chain(second).copied().collect();
            assert_eq!(parse_refresh_output(&joined).unwrap(), files);
        }
    }
}

#[test]
fn invalid_bytes_are_replaced() {
    let files = parse_refresh_output(b"\x1eindex\t1\t/i\na\xffb\n").unwrap();
    assert_eq!(files[0].content, "a\u{fffd}b\n");
}

#[test]
fn bad_headers_are_told() {
    let error = |header: &str| parse_section_header(header).unwrap_err();
    assert_eq!(error("log\t1\t/x"), "unknown codex file kind: log");
    assert_eq!(error(""), "unknown codex file kind: ");
    assert_eq!(error("index"), "missing modified_at");
    assert_eq!(error("index\t"), "invalid modified_at");
    assert_eq!(error("index\t-1\t/x"), "invalid modified_at");
    assert_eq!(error("index\t18446744073709551616\t/x"), "invalid modified_at");
    assert_eq!(error("index\t1"), "missing codex file path");
    assert_eq!(error("index\t1\t"), "missing codex file path");
    let file = parse_section_header("transcript\t+18446744073709551615\t/a\tb").unwrap();
    assert_eq!(file.modified_at, u64::MAX);
    assert_eq!(file.path, "/a\tb");
    let first = parse_refresh_output(b"\x1eindex\tx\t/a\n\x1elog\t1\t/b\n");
    assert_eq!(first.unwrap_err(), "invalid modified_at");
}

#[test]
fn maps_codex_final_answer_to_done() {
    let entry = object(vec![
        ("type", text("event_msg")),
        (
            "payload",
            object(vec![
                ("type", text("agent_message")),
                ("phase", text("final_answer")),
            ]),
        ),
    ]);
    assert_eq!(determine_status(&entry), Some(AgentStatusKind::Done));
}

#[test]
fn entries_tell_states() {
    let status = |line: &str| determine_status(&parse_json(line).unwrap());
    let event = |kind: &str| {
        status(&format!(
            "{{\"type\":\"event_msg\",\"payload\":{{\"type\":\"{kind}\"}}}}"
        ))
    };
    assert_eq!(event("task_complete"), Some(AgentStatusKind::Done));
    assert_eq!(event("turn_aborted"), Some(AgentStatusKind::Done));
    assert_eq!(event("task_started"), Some(AgentStatusKind::Running));
    assert_eq!(event("user_message"), Some(AgentStatusKind::Running));
    assert_eq!(event("agent_message"), Some(AgentStatusKind::Running));
    assert_eq!(event("token_count"), None);
    let item = |rest: &str| {
        status(&format!(
            "{{\"type\":\"response_item\",\"payload\":{{{rest}}}}}"
        ))
    };
    for kind in [
        "function_call",
        "function_call_output",
        "reasoning",
        "custom_tool_call",
        "custom_tool_call_output",
        "web_search_call",
    ] {
        assert_eq!(
            item(&format!("\"type\":\"{kind}\"")),
            Some(AgentStatusKind::Running)
        );
    }
    assert_eq!(item("\"type\":\"message\",\"role\":\"developer\""), None);
    assert_eq!(
        item("\"type\":\"message\",\"role\":\"assistant\",\"phase\":\"final_answer\""),
        Some(AgentStatusKind::Done)
    );
    assert_eq!(
        item("\"type\":\"message\",\"role\":\"user\""),
        Some(AgentStatusKind::Running)
    );
    assert_eq!(item("\"type\":\"message\""), None);
    assert_eq!(item("\"type\":7"), None);
    assert_eq!(status("{\"type\":\"event_msg\"}"), None);
    assert_eq!(
        status("{\"type\":\"message\",\"role\":\"assistant\"}"),
        Some(AgentStatusKind::Running)
    );
    assert_eq!(status("{\"type\":\"message\",\"role\":\"system\"}"), None);
    assert_eq!(status("{\"type\":\"reasoning\"}"), Some(AgentStatusKind::Running));
    assert_eq!(status("{\"type\":\"turn_context\"}"), None);
    assert_eq!(status("[1]"), None);
}

#[test]
fn skips_system_prompt_thread_names() {
    let entry = object(vec![
        ("type", text("response_item")),
        (
            "payload",
            object(vec![
                ("type", text("message")),
                ("role", text("user")),
                (
                    "content",
                    Json::List(vec![object(vec![
                        ("type", text("input_text")),
                        ("text", text("# AGENTS.md\nignored")),
                    ])]),
                ),
            ]),
        ),
    ]);
    assert_eq!(extract_thread_name(&entry), None);
}

#[test]
fn thread_names_come_from_the_user() {
    let name = |line: &str| extract_thread_name(&parse_json(line).unwrap());
    assert_eq!(
        name("{\"type\":\"event_msg\",\"payload\":{\"type\":\"user_message\",\"message\":\"\\n  Fix it \\nnow\"}}"),
        Some("Fix it".to_owned())
    );
    assert_eq!(
        name("{\"type\":\"event_msg\",\"payload\":{\"type\":\"user_message\"},\"role\":\"user\"}"),
        None
    );
    assert_eq!(
        name("{\"type\":\"response_item\",\"payload\":{\"type\":\"message\",\"role\":\"user\",\"content\":[{\"type\":\"image\",\"text\":\"no\"},{\"type\":\"input_text\",\"text\":\"  \"},{\"type\":\"input_text\",\"text\":\"yes\"}]}}"),
        Some("yes".to_owned())
    );
    assert_eq!(
        name("{\"type\":\"message\",\"role\":\"user\",\"content\":[{\"type\":\"input_text\",\"text\":\"hello\"}]}"),
        Some("hello".to_owned())
    );
    assert_eq!(
        name("{\"type\":\"message\",\"role\":\"assistant\",\"content\":[{\"type\":\"input_text\",\"text\":\"hello\"}]}"),
        None
    );
    assert_eq!(normalize_thread_name("<permissions now>"), None);
    assert_eq!(normalize_thread_name("{\"a\":1}"), None);
    assert_eq!(normalize_thread_name(" \n\t\n"), None);
    let long = "ä".repeat(100);
    assert_eq!(normalize_thread_name(&long), Some("ä".repeat(THREAD_NAME_MAX)));
}

#[test]
fn directories_come_from_meta_and_context() {
    let dir = |line: &str| extract_project_dir(&parse_json(line).unwrap());
    assert_eq!(dir(&meta_line("/tmp/p")), Some("/tmp/p".to_owned()));
    assert_eq!(
        dir("{\"type\":\"turn_context\",\"payload\":{\"cwd\":\"/q\"}}"),
        Some("/q".to_owned())
    );
    assert_eq!(dir("{\"type\":\"event_msg\",\"payload\":{\"cwd\":\"/q\"}}"), None);
    assert_eq!(dir("{\"type\":\"turn_context\",\"payload\":{\"cwd\":1}}"), None);
}

#[test]
fn prefers_exact_cwd_match() {
    let threads = vec![
        thread(
            "/tmp/project/transcript.jsonl",
            "/tmp/project",
            AgentStatusKind::Running,
            1,
        ),
        thread("/tmp/transcript.jsonl", "/tmp", AgentStatusKind::Done, 99),
    ];
    let best = select_best_thread(&threads, "/tmp/project").unwrap();
    assert_eq!(best.thread_id, "transcript");
    assert_eq!(best.project_dir, "/tmp/project");
}

#[test]
fn scores_follow_the_directories() {
    assert_eq!(match_score("/tmp/project", "/tmp/project/"), Some(10_003));
    assert_eq!(match_score("/tmp/project/src", "/tmp/project"), Some(3));
    assert_eq!(match_score("/tmp", "/tmp/project"), Some(2));
    assert_eq!(match_score("/tmp/project", "/tmp/projector"), None);
    assert_eq!(match_score("", "a/b"), Some(0));
}

#[test]
fn ties_go_to_the_last_thread() {
    let threads = vec![
        thread("/a-1.jsonl", "/p", AgentStatusKind::Done, 5),
        thread("/b-2.jsonl", "/p", AgentStatusKind::Done, 5),
        thread("/c-3.jsonl", "/p/q", AgentStatusKind::Done, 9),
        thread("/d-4.jsonl", "/other", AgentStatusKind::Done, 9),
    ];
    let best = select_best_thread(&threads, "/p/./x/..").unwrap();
    assert_eq!(best.transcript_path, "/b-2.jsonl");
    let nested = select_best_thread(&threads, "/p/q/r").unwrap();
    assert_eq!(nested.transcript_path, "/c-3.jsonl");
    assert!(select_best_thread(&threads, "/nowhere").is_none());
    assert_eq!(thread_sort_key(&threads[0]), (5, 1));
    assert!(is_older(&threads[0], &threads[2]));
    let busy = thread("/e-5.jsonl", "/p", AgentStatusKind::Running, 5);
    assert!(!is_older(&threads[0], &busy));
    assert!(!is_older(&busy, &threads[0]));
    assert!(!is_older(&threads[0], &threads[1]));
}

#[test]
fn waiting_after_tool_call_pause() {
    let file = CodexFile {
        kind: CodexFileKind::Transcript,
        modified_at: 10,
        path: "/tmp/sessions/2026/04/01/rollout-2026-04-01T10-00-00-019d3333-aaaa-bbbb-cccc-000000000001.jsonl".to_owned(),
        content: format!(
            "{}\n{}\n",
            "{ \"type\": \"session_meta\", \"payload\": { \"cwd\": \"/tmp/project\" } }",
            "{ \"type\": \"response_item\", \"payload\": { \"type\": \"function_call\" } }"
        ),
    };
    let now = at(10 + WAIT_AFTER_TOOL_CALL as i64 + 1);
    let summary = summarize_thread(&file, &no_names(), now).unwrap();
    assert_eq!(summary.status, AgentStatusKind::Waiting);
}

#[test]
fn waiting_needs_three_quiet_seconds() {
    let file = transcript("/t.jsonl", "/p", AgentStatusKind::Waiting, 10);
    let status = |now: Timestamp| summarize_thread(&file, &no_names(), now).unwrap().status;
    assert_eq!(
        status(Timestamp {
            secs: 12,
            nanos: 999_999_999
        }),
        AgentStatusKind::Running
    );
    assert_eq!(status(at(13)), AgentStatusKind::Waiting);
    assert_eq!(status(at(-5)), AgentStatusKind::Running);
}

#[test]
fn threads_without_directory_or_state_are_left_out() {
    let mut file = transcript("/t.jsonl", "/p", AgentStatusKind::Idle, 10);
    assert!(summarize_thread(&file, &no_names(), at(10)).is_none());
    file.content = "not json\n{\"type\":\"reasoning\"}\n".to_owned();
    assert!(summarize_thread(&file, &no_names(), at(10)).is_none());
    file.content = format!("{}\n{}\n{{\"type\":\"reasoning\"}}", meta_line("/p/./q"), meta_line("/z"));
    let summary = summarize_thread(&file, &no_names(), at(10)).unwrap();
    assert_eq!(summary.project_dir, "/p/q");
    assert_eq!(summary.thread_name, None);
}

#[test]
fn scans_take_the_last_state() {
    let mut scan = ThreadScan::new(None);
    scan.absorb(&parse_json("{\"type\":\"function_call\"}").unwrap());
    assert!(scan.after_tool_call);
    scan.absorb(&parse_json("{\"type\":\"turn_context\"}").unwrap());
    assert!(scan.after_tool_call);
    scan.absorb(&parse_json("{\"type\":\"function_call_output\"}").unwrap());
    assert!(!scan.after_tool_call);
    assert_eq!(scan.status, AgentStatusKind::Running);
}

#[test]
fn thread_ids_are_the_last_five_parts() {
    assert_eq!(
        parse_thread_id("/s/rollout-2026-04-01T10-00-00-aaaa-bbbb-cccc-dddd-eeee.jsonl"),
        "aaaa-bbbb-cccc-dddd-eeee"
    );
    assert_eq!(parse_thread_id("/s/a-b-c.jsonl"), "a-b-c");
    assert_eq!(parse_thread_id("/s/-b-c-d-e-f.x"), "b-c-d-e-f");
    assert_eq!(parse_thread_id("/"), "");
    assert_eq!(parse_thread_id("x/.."), "");
    assert_eq!(parse_thread_id(".hidden"), ".hidden");
}

#[test]
fn thread_index_names_win() {
    let mut cache = RefreshCache::default();
    let files = vec![
        CodexFile {
            kind: CodexFileKind::Index,
            modified_at: 0,
            path: "/tmp/index.jsonl".to_owned(),
            content: "{\"id\":\"aaaa-bbbb-cccc-dddd-eeee\",\"thread_name\":\"Fix auth\"}\n".into(),
        },
        CodexFile {
            kind: CodexFileKind::Transcript,
            modified_at: 12,
            path: "/tmp/sessions/2026/04/01/rollout-2026-04-01T10-00-00-aaaa-bbbb-cccc-dddd-eeee.jsonl".to_owned(),
            content: format!(
                "{}\n{}\n",
                "{ \"type\": \"session_meta\", \"payload\": { \"cwd\": \"/tmp/project\" } }",
                "{ \"type\": \"event_msg\", \"payload\": { \"type\": \"task_started\" } }"
            ),
        },
    ];

    let snapshot =
        collect_status_snapshot(&[pane("7", "/tmp/project")], &files, &mut cache, at(12));

    assert_eq!(
        snapshot
            .panes
            .find("7")
            .and_then(|entry| entry.thread_name.as_deref()),
        Some("Fix auth")
    );
    assert_eq!(snapshot.updated_at, 12);
}

#[test]
fn later_index_lines_win() {
    let files = vec![CodexFile {
        kind: CodexFileKind::Index,
        modified_at: 0,
        path: "/i".to_owned(),
        content: "{\"id\":\"a\",\"thread_name\":\"old\"}\n{\"id\":\"b\"}\nbroken\n{\"id\":\"a\",\"thread_name\":\"new\"}\n".to_owned(),
    }];
    let names = load_thread_index(&files);
    assert_eq!(names.len(), 1);
    assert_eq!(names.find("a").map(|name| name.as_str()), Some("new"));
    let mut more = names;
    read_index_entry(
        &mut more,
        &object(vec![("id", text("c")), ("thread_name", text("third"))]),
    );
    read_index_entry(&mut more, &object(vec![("id", text("d"))]));
    assert_eq!(more.len(), 2);
    assert_eq!(more.find("c").map(|name| name.as_str()), Some("third"));
}

#[test]
fn newer_match_replaces_old_binding() {
    let mut cache = RefreshCache::default();
    bind(&mut cache, "7", "/tmp/project", "/tmp/old.jsonl");
    let files = vec![
        transcript("/tmp/old.jsonl", "/tmp/project", AgentStatusKind::Done, 5),
        transcript(
            "/tmp/new.jsonl",
            "/tmp/project",
            AgentStatusKind::Running,
            9,
        ),
    ];

    let snapshot =
        collect_status_snapshot(&[pane("7", "/tmp/project")], &files, &mut cache, at(9));

    assert_eq!(snapshot.panes.find("7").map(|entry| entry.updated_at), Some(9));
    assert_eq!(
        cache
            .bindings
            .find("7")
            .map(|binding| binding.transcript_path.as_str()),
        Some("/tmp/new.jsonl")
    );
}

#[test]
fn bindings_stay_sticky() {
    let mut cache = RefreshCache::default();
    bind(&mut cache, "7", "/tmp/project", "/tmp/deep.jsonl");
    let files = vec![
        transcript("/tmp/deep.jsonl", "/tmp/project/deep", AgentStatusKind::Done, 9),
        transcript("/tmp/exact.jsonl", "/tmp/project", AgentStatusKind::Done, 9),
    ];
    let panes = [pane("7", "/tmp/project")];
    let snapshot = collect_status_snapshot(&panes, &files, &mut cache, at(9));
    assert_eq!(
        snapshot.panes.find("7").and_then(|entry| entry.thread_id.as_deref()),
        Some("deep")
    );
    let again = collect_status_snapshot(&panes, &files, &mut cache, at(9));
    assert_eq!(
        again.panes.find("7").and_then(|entry| entry.thread_id.as_deref()),
        Some("deep")
    );
    let mut fresh = RefreshCache::default();
    let free = collect_status_snapshot(&panes, &files, &mut fresh, at(9));
    assert_eq!(
        free.panes.find("7").and_then(|entry| entry.thread_id.as_deref()),
        Some("exact")
    );
}

#[test]
fn a_match_of_the_same_second_is_not_newer() {
    let mut cache = RefreshCache::default();
    bind(&mut cache, "7", "/tmp/project", "/tmp/a.jsonl");
    let files = vec![
        transcript("/tmp/a.jsonl", "/tmp/project", AgentStatusKind::Done, 5),
        transcript("/tmp/b.jsonl", "/tmp/project", AgentStatusKind::Running, 5),
    ];
    let panes = [pane("7", "/tmp/project")];
    let path = |cache: &RefreshCache| -> String {
        cache.bindings.find("7").unwrap().transcript_path.clone()
    };
    for _ in 0..2 {
        let snapshot = collect_status_snapshot(&panes, &files, &mut cache, at(5));
        assert_eq!(path(&cache), "/tmp/a.jsonl");
        assert_eq!(snapshot.panes.find("7").unwrap().status, AgentStatusKind::Done);
    }
    let mut fresh = RefreshCache::default();
    let snapshot = collect_status_snapshot(&panes, &files, &mut fresh, at(5));
    assert_eq!(path(&fresh), "/tmp/b.jsonl");
    assert_eq!(snapshot.panes.find("7").unwrap().status, AgentStatusKind::Running);
    let newer = vec![
        transcript("/tmp/a.jsonl", "/tmp/project", AgentStatusKind::Running, 5),
        transcript("/tmp/b.jsonl", "/tmp/project", AgentStatusKind::Done, 6),
    ];
    collect_status_snapshot(&panes, &newer, &mut cache, at(6));
    assert_eq!(path(&cache), "/tmp/b.jsonl");
}

#[test]
fn clones_hold_the_same() {
    let mut cache = RefreshCache::default();
    bind(&mut cache, "7", "/tmp/project", "/tmp/a.jsonl");
    bind(&mut cache, "2", "/", "/tmp/b.jsonl");
    let copy = cache.clone();
    bind(&mut cache, "7", "/elsewhere", "/tmp/c.jsonl");
    assert_eq!(copy.bindings.len(), 2);
    assert_eq!(copy.bindings.key_at(0), "2");
    assert_eq!(copy.bindings.find("7").unwrap().cwd, "/tmp/project");
    let files = vec![transcript("/tmp/a.jsonl", "/tmp/project", AgentStatusKind::Running, 3)];
    let snapshot = collect_status_snapshot(&[pane("7", "/tmp/project")], &files, &mut cache, at(3));
    let again = snapshot.clone();
    assert_eq!(again.updated_at, 3);
    assert_eq!(again.panes.find("7").unwrap().thread_id, Some("a".to_owned()));
}

#[test]
fn stale_bindings_are_dropped() {
    let mut cache = RefreshCache::default();
    bind(&mut cache, "gone", "/tmp/project", "/tmp/a.jsonl");
    bind(&mut cache, "moved", "/elsewhere", "/tmp/a.jsonl");
    bind(&mut cache, "lost", "/lonely", "/tmp/missing.jsonl");
    let files = vec![transcript("/tmp/a.jsonl", "/tmp/project", AgentStatusKind::Running, 3)];
    let panes = [pane("moved", "/tmp/project"), pane("lost", "/lonely")];
    let snapshot = collect_status_snapshot(&panes, &files, &mut cache, at(3));
    assert_eq!(snapshot.panes.len(), 1);
    assert_eq!(cache.bindings.len(), 1);
    assert_eq!(
        cache.bindings.find("moved").map(|binding| binding.cwd.as_str()),
        Some("/tmp/project")
    );
}

#[test]
fn custom_tool_calls_count_as_tool_entries() {
    let entry = object(vec![
        ("type", text("response_item")),
        ("payload", object(vec![("type", text("custom_tool_call"))])),
    ]);
    assert!(is_tool_call_entry(&entry));
}

#[test]
fn outputs_are_no_tool_calls() {
    let is = |line: &str| is_tool_call_entry(&parse_json(line).unwrap());
    assert!(is("{\"type\":\"function_call\"}"));
    assert!(is("{\"type\":\"response_item\",\"payload\":{\"type\":\"web_search_call\"}}"));
    assert!(!is("{\"type\":\"response_item\",\"payload\":{\"type\":\"function_call_output\"}}"));
    assert!(!is("{\"type\":\"event_msg\",\"payload\":{\"type\":\"function_call\"}}"));
}

#[test]
fn normalize_path_stays_lexical() {
    assert_eq!(normalize_path("/tmp/project/../other"), "/tmp/other");
}
