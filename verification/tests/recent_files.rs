//! Recent Codex files.

use zeldex::codex_file::{CodexFile, CodexFileKind};
use zeldex::codex_fs::{
    extract_cwd, index_path, is_recent, load_recent_codex_files, read_transcript_summary,
    sessions_dir, summarize_lines, EntryKind, FoundIndex, FoundTranscript, TranscriptWalk, RECENT_TRANSCRIPT_AGE,
};
use zeldex::codex_order::{keep_newest, sort_files, AgeOrder};
use zeldex::line_tail::{join_lines, tail_lines, LineTail};
use zeldex::time::Timestamp;

const NOW: Timestamp = Timestamp {
    secs: 1_776_000_000,
    nanos: 500,
};

fn lines(text: &str) -> Vec<String> {
    text.lines().map(|line| line.to_owned()).collect()
}

fn found(path: &str, modified: Timestamp, content: &str) -> FoundTranscript {
    let mut rest = lines(content);
    let first_line = if rest.is_empty() {
        String::new()
    } else {
        rest.remove(0) + "\n"
    };
    FoundTranscript {
        path: path.to_owned(),
        modified,
        first_line,
        rest,
    }
}

fn file(path: &str, modified_at: u64) -> CodexFile {
    CodexFile {
        kind: CodexFileKind::Transcript,
        modified_at,
        path: path.to_owned(),
        content: String::new(),
    }
}

fn paths(files: &[CodexFile]) -> Vec<&str> {
    files.iter().map(|file| file.path.as_str()).collect()
}

#[test]
fn loads_bounded_index_and_transcript_content() {
    let root = "/tmp/bounded";
    let index = FoundIndex {
        modified: NOW,
        lines: (0..500)
            .map(|i| format!("{{\"id\":\"{i}\",\"thread_name\":\"n{i}\"}}"))
            .collect::<Vec<_>>(),
    };
    let transcript = found(
        "/tmp/bounded/sessions/2026/04/15/rollout-2026-04-15T00-00-00-aaaa-bbbb-cccc-dddd-eeee.jsonl",
        NOW,
        &[
            "{\"type\":\"session_meta\",\"payload\":{\"cwd\":\"/tmp/project\"}}".to_owned(),
            "{\"type\":\"event_msg\",\"payload\":{\"type\":\"task_started\"}}".to_owned(),
            "{\"type\":\"event_msg\",\"payload\":{\"type\":\"task_complete\"}}".to_owned(),
        ]
        .join("\n"),
    );

    let files = load_recent_codex_files(root, Some(index), vec![transcript], NOW);

    assert_eq!(files.len(), 2);
    assert_eq!(files[0].kind, CodexFileKind::Index);
    assert_eq!(files[0].content.lines().count(), 400);
    assert_eq!(files[1].kind, CodexFileKind::Transcript);
    assert_eq!(
        files[1].content.lines().next(),
        Some("{\"payload\":{\"cwd\":\"/tmp/project\"},\"type\":\"session_meta\"}")
    );
    assert_eq!(files[1].content.lines().count(), 3);
    assert_eq!(files[0].path, "/tmp/bounded/session_index.jsonl");
    assert_eq!(files[0].modified_at, 1_776_000_000);
}

#[test]
fn skips_old_transcripts() {
    let transcript = found(
        "/tmp/old/sessions/rollout-2026-04-01T00-00-00-aaaa-bbbb-cccc-dddd-eeee.jsonl",
        NOW,
        "{\"type\":\"session_meta\",\"payload\":{\"cwd\":\"/tmp/project\"}}\n",
    );

    let files = load_recent_codex_files(
        "/tmp/old",
        None,
        vec![transcript],
        Timestamp {
            secs: NOW.secs + 10 * 24 * 60 * 60,
            nanos: NOW.nanos,
        },
    );

    assert!(files.is_empty());
}

#[test]
fn three_days_are_recent() {
    let edge = Timestamp {
        secs: NOW.secs - RECENT_TRANSCRIPT_AGE as i64,
        nanos: NOW.nanos,
    };
    let before = Timestamp {
        secs: edge.secs,
        nanos: edge.nanos - 1,
    };
    assert!(is_recent(edge, NOW));
    assert!(!is_recent(before, NOW));
    let start = Timestamp {
        secs: i64::MIN,
        nanos: 0,
    };
    assert!(is_recent(Timestamp { secs: 0, nanos: 0 }, start));
    assert!(!is_recent(Timestamp { secs: -1, nanos: 0 }, start));
}

#[test]
fn walks_directories_and_passes_over_links() {
    let mut walk = TranscriptWalk::new(&sessions_dir("/host"));
    assert_eq!(walk.next_dir().as_deref(), Some("/host/sessions"));
    assert!(!walk.visit("/host/sessions/a", EntryKind::Directory));
    assert!(!walk.visit("/host/sessions/b", EntryKind::Directory));
    assert!(!walk.visit("/host/sessions/link.jsonl", EntryKind::Symlink));
    assert!(!walk.visit("/host/sessions/pipe.jsonl", EntryKind::Other));
    assert!(walk.visit("/host/sessions/x.jsonl", EntryKind::File));
    assert!(!walk.visit("/host/sessions/x.json", EntryKind::File));
    assert!(!walk.visit("/host/sessions/.jsonl", EntryKind::File));
    assert_eq!(walk.next_dir().as_deref(), Some("/host/sessions/b"));
    assert_eq!(walk.next_dir().as_deref(), Some("/host/sessions/a"));
    assert_eq!(walk.next_dir(), None);
    assert_eq!(index_path("/host"), "/host/session_index.jsonl");
}

#[test]
fn summaries_keep_the_directory_and_the_tail() {
    let rest: Vec<String> = (0..250).map(|i| format!("line {i}")).collect();
    let summary = read_transcript_summary(
        "{\"type\":\"turn_context\",\"payload\":{\"cwd\":\"/p\"}} \r\n",
        rest,
    );
    let kept = lines(&summary);
    assert_eq!(kept.len(), 201);
    assert_eq!(kept[0], "{\"payload\":{\"cwd\":\"/p\"},\"type\":\"session_meta\"}");
    assert_eq!(kept[1], "line 50");
    assert_eq!(kept[200], "line 249");
    assert_eq!(read_transcript_summary("", vec![]), "");
    assert_eq!(summarize_lines(Some("x"), vec!["y".to_owned()]), "x\ny\n");
    assert_eq!(summarize_lines(None, vec![]), "");
    let odd = read_transcript_summary("", vec!["a\r".to_owned(), "\r".to_owned(), "b".to_owned()]);
    assert_eq!(lines(&odd), vec!["a", "", "b"]);
    let full = read_transcript_summary(
        "{\"type\":\"session_meta\",\"payload\":{\"cwd\":\"/p\\nq\"}}",
        (0..1000).map(|i| format!("{i}\r")).collect(),
    );
    assert_eq!(lines(&full).len(), 201);
    assert_eq!(
        read_transcript_summary("no json", vec![String::new(), "a".to_owned(), String::new()]),
        "a\n"
    );
    assert_eq!(extract_cwd("{\"type\":\"session_meta\",\"payload\":{\"cwd\":\"\"}}"), Some(String::new()));
    assert_eq!(extract_cwd("{\"type\":\"event_msg\",\"payload\":{\"cwd\":\"/p\"}}"), None);
}

#[test]
fn tails_are_bounded() {
    let list = |items: &[&str]| -> Vec<String> { items.iter().map(|item| item.to_string()).collect() };
    assert_eq!(tail_lines(list(&["a", "", "b", "c"]), 2, true), list(&["b", "c"]));
    assert_eq!(tail_lines(list(&["a", "", "b"]), 2, false), list(&["", "b"]));
    assert_eq!(tail_lines(list(&["a", "b"]), 0, false), list(&["a", "b"]));
    assert_eq!(join_lines(&list(&["a", "", "b"])), "a\n\nb\n");
    assert_eq!(join_lines(&vec![]), "");
    let kept = list(&["a", "", "b\rc"]);
    assert_eq!(zeldex::text::lines_of(&join_lines(&kept)), kept);
    let mut tail = LineTail::new(3, true);
    for i in 0..10 {
        tail.push(format!("{i}"));
        tail.push(String::new());
    }
    let once = tail.into_lines();
    assert_eq!(once, list(&["7", "8", "9"]));
    assert_eq!(tail_lines(once.clone(), 3, true), once);
}

#[test]
fn the_newest_twelve_are_kept() {
    let many: Vec<CodexFile> = (0..20).map(|i| file(&format!("/t{i}"), (i * 7) % 20)).collect();
    let kept = keep_newest(many);
    assert_eq!(kept.len(), 12);
    let times: Vec<u64> = kept.iter().map(|file| file.modified_at).collect();
    assert_eq!(times, (8..20).collect::<Vec<u64>>());
    let few = vec![file("/b", 1), file("/a/z", 1), file("/a-b", 1), file("/c", 0)];
    assert_eq!(
        paths(&sort_files(AgeOrder::NewestFirst, few.clone())),
        vec!["/a/z", "/a-b", "/b", "/c"]
    );
    assert_eq!(
        paths(&sort_files(AgeOrder::OldestFirst, few.clone())),
        vec!["/c", "/a/z", "/a-b", "/b"]
    );
    let mut expected = few.clone();
    expected.sort_by(|left, right| {
        left.modified_at
            .cmp(&right.modified_at)
            .then_with(|| std::path::Path::new(&left.path).cmp(std::path::Path::new(&right.path)))
    });
    assert_eq!(sort_files(AgeOrder::OldestFirst, few), expected);
}
