//! Recent Codex files under the directory of Codex: which entries of the
//! directory tree count, and what is taken from each file.

use vstd::prelude::*;

use crate::codex_entry::{
    entry_project_dir, entry_status, entry_thread_name, extract_project_dir,
};
use crate::codex_file::{file_views, CodexFile, CodexFileKind, CodexFileView};
use crate::codex_order::{
    goes_before, keep_newest, law_newest_are_kept, newest_files, AgeOrder, MAX_TRANSCRIPTS,
};
use crate::codex_thread::{
    fresh_scan, law_last_told_state_counts, scanned, scanned_lines, tells_state, ScanView,
};
use crate::json::{
    json_of_text, json_text, no_fields, object_of, parse_json, print_json, put_field, reads_back,
    Json, JsonView,
};
use crate::line_tail::{
    join_lines, joined_lines, kept_lines, law_tail_reads_back, tail_lines, tail_of, without_returns,
};
use crate::path::{
    extension_of_name, file_extension, file_name_of, join_path, join_paths, law_extension,
    law_file_name, normalized,
};
use crate::text::{
    are_unbroken, is_line, is_one_line, is_text, last_position, law_last_position, lemma_first_line,
    lemma_last_position_is, lines, maybe_str, maybe_text, texts, trim_end, trimmed_end,
};
use crate::time::{
    checked_earlier, earlier_by, epoch, is_before, moment_before, unix_seconds, whole_seconds,
    Timestamp,
};

verus! {

/// How many lines of the index are looked at.
pub const MAX_INDEX_LINES: usize = 400;

/// How many lines of a transcript are looked at.
pub const MAX_TRANSCRIPT_TAIL_LINES: usize = 200;

/// How many seconds ago a transcript may have changed last: three days.
pub const RECENT_TRANSCRIPT_AGE: u64 = 259_200;

// ---------------------------------------------------------------------------
// Walking the directories
// ---------------------------------------------------------------------------
/// What an entry of a directory is, links not followed.
#[derive(Clone, Copy, Debug, PartialEq, Eq, Structural)]
pub enum EntryKind {
    Symlink,
    Directory,
    File,
    Other,
}

/// Whether a path ends at a name with the extension of transcripts.
pub open spec fn is_transcript_path(path: Seq<char>) -> bool {
    file_name_of(path) matches Some(name) && extension_of_name(name) == Some("jsonl"@)
}

/// The directories that are still to be read; the last is next.
#[derive(Debug)]
pub struct TranscriptWalk {
    pending: Vec<String>,
}

impl View for TranscriptWalk {
    type V = Seq<Seq<char>>;

    closed spec fn view(&self) -> Seq<Seq<char>> {
        texts(self.pending@)
    }
}

impl TranscriptWalk {
    /// The walk that begins at a directory.
    pub fn new(sessions_dir: &str) -> (walk: TranscriptWalk)
        ensures
            walk@ == seq![sessions_dir@],
    {
        let mut pending: Vec<String> = Vec::new();
        pending.push(sessions_dir.to_owned());
        proof {
            assert(texts(pending@) =~= seq![sessions_dir@]);
        }
        TranscriptWalk { pending }
    }

    /// The directory to read next.
    pub fn next_dir(&mut self) -> (dir: Option<String>)
        ensures
            old(self)@.len() == 0 ==> dir is None && final(self)@ == old(self)@,
            old(self)@.len() > 0 ==> maybe_text(dir) == Some(old(self)@.last()) && final(self)@
                == old(self)@.drop_last(),
    {
        let ghost before = texts(self.pending@);
        let dir = self.pending.pop();
        proof {
            if before.len() > 0 {
                assert(texts(self.pending@) =~= before.drop_last());
            }
        }
        dir
    }

    /// Takes in an entry of a directory, and tells whether it is a transcript. A
    /// directory is put aside to be read later; a link is passed over.
    pub fn visit(&mut self, path: &str, kind: EntryKind) -> (is_transcript: bool)
        ensures
            is_transcript == (kind is File && is_transcript_path(path@)),
            final(self)@ == (if kind is Directory {
                old(self)@.push(path@)
            } else {
                old(self)@
            }),
    {
        match kind {
            EntryKind::Symlink => false,
            EntryKind::Directory => {
                let ghost before = texts(self.pending@);
                self.pending.push(path.to_owned());
                proof {
                    assert(texts(self.pending@) =~= before.push(path@));
                }
                false
            },
            EntryKind::File => has_transcript_name(path),
            EntryKind::Other => false,
        }
    }
}

fn has_transcript_name(path: &str) -> (has: bool)
    ensures
        has == is_transcript_path(path@),
{
    match file_extension(path) {
        Some(extension) => is_text(Some(extension.as_str()), "jsonl"),
        None => false,
    }
}

/// The oldest change that makes a transcript recent.
pub open spec fn cutoff_of(now: Timestamp) -> Timestamp {
    match earlier_by(now, RECENT_TRANSCRIPT_AGE) {
        Some(cutoff) => cutoff,
        None => epoch(),
    }
}

/// Whether a transcript that changed last at a moment is recent.
pub fn is_recent(modified: Timestamp, now: Timestamp) -> (recent: bool)
    ensures
        recent == !moment_before(modified, cutoff_of(now)),
{
    let cutoff = match checked_earlier(now, RECENT_TRANSCRIPT_AGE) {
        Some(cutoff) => cutoff,
        None => Timestamp { secs: 0, nanos: 0 },
    };
    !is_before(modified, cutoff)
}

// ---------------------------------------------------------------------------
// Contents
// ---------------------------------------------------------------------------
/// The directory that a line of a transcript tells.
pub open spec fn line_cwd(line: Seq<char>) -> Option<Seq<char>> {
    match json_of_text(line) {
        Some(entry) => entry_project_dir(entry),
        None => None,
    }
}

/// The entry that tells the directory of a thread and nothing else.
pub open spec fn session_meta(cwd: Seq<char>) -> JsonView {
    JsonView::Object(
        map![
            "payload"@ => JsonView::Object(map!["cwd"@ => JsonView::Text(cwd)]),
            "type"@ => JsonView::Text("session_meta"@),
        ],
    )
}

/// A line, where there is one, and the last of some further lines.
pub open spec fn summary_of(line: Option<Seq<char>>, rest: Seq<Seq<char>>) -> Seq<char> {
    let head = match line {
        Some(line) => line.push('\n'),
        None => Seq::empty(),
    };
    head + joined_lines(tail_of(rest, MAX_TRANSCRIPT_TAIL_LINES as nat, true))
}

/// What is taken from a transcript: the directory out of its first line, and its
/// last lines.
pub open spec fn transcript_summary(first_line: Seq<char>, rest: Seq<Seq<char>>) -> Seq<char> {
    summary_of(
        match line_cwd(trim_end(first_line)) {
            Some(cwd) => Some(json_text(session_meta(cwd))),
            None => None,
        },
        rest,
    )
}

/// The lines of what is taken from a transcript: one that tells the directory, where
/// the first line of the transcript does, and its last lines.
pub open spec fn summary_lines(first_line: Seq<char>, rest: Seq<Seq<char>>) -> Seq<Seq<char>> {
    let head = match line_cwd(trim_end(first_line)) {
        Some(cwd) => seq![json_text(session_meta(cwd))],
        None => Seq::empty(),
    };
    head + without_returns(tail_of(rest, MAX_TRANSCRIPT_TAIL_LINES as nat, true))
}

/// The directory that a line of a transcript tells.
pub fn extract_cwd(line: &str) -> (cwd: Option<String>)
    ensures
        maybe_text(cwd) == line_cwd(line@),
{
    match parse_json(line) {
        Some(entry) => extract_project_dir(&entry),
        None => None,
    }
}

fn session_meta_line(cwd: &str) -> (line: String)
    ensures
        line@ == json_text(session_meta(cwd@)),
        is_one_line(line@),
        json_of_text(line@) == Some(session_meta(cwd@)),
{
    let mut payload = no_fields();
    put_field(&mut payload, "cwd", Json::from_text(cwd));
    let mut fields = no_fields();
    put_field(&mut fields, "payload", object_of(payload));
    proof {
        reveal_strlit("payload");
        reveal_strlit("type");
        assert("payload"@.len() != "type"@.len());
    }
    put_field(&mut fields, "type", Json::from_text("session_meta"));
    let meta = object_of(fields);
    proof {
        let inner = JsonView::Object(map!["cwd"@ => JsonView::Text(cwd@)]);
        assert(meta@ == session_meta(cwd@));
        assert(reads_back(JsonView::Text(cwd@), 125));
        assert(reads_back(inner, 126));
        assert(reads_back(JsonView::Text("session_meta"@), 126));
        assert(reads_back(meta@, 127));
    }
    print_json(&meta)
}

/// A line, where there is one, and the last of some further lines.
pub fn summarize_lines(line: Option<&str>, rest: Vec<String>) -> (summary: String)
    ensures
        summary@ == summary_of(maybe_str(line), texts(rest@)),
{
    let mut summary = String::new();
    match line {
        Some(line) => {
            summary.append(line);
            summary.push('\n');
            proof {
                assert(summary@ =~= line@.push('\n'));
            }
        },
        None => {
            proof {
                assert(summary@ =~= Seq::<char>::empty());
            }
        },
    }
    let tail = tail_lines(rest, MAX_TRANSCRIPT_TAIL_LINES, true);
    let text = join_lines(&tail);
    summary.append(text.as_str());
    summary
}

/// What is taken from a transcript. Its first line is given as it was read, the
/// further lines without their ends. What was taken reads back line by line, and
/// where the first line tells a directory, it tells that directory.
pub fn read_transcript_summary(first_line: &str, rest: Vec<String>) -> (summary: String)
    ensures
        summary@ == transcript_summary(first_line@, texts(rest@)),
        line_cwd(trim_end(first_line@)) matches Some(cwd) ==> forall|name: Option<Seq<char>>|
            (#[trigger] scanned_lines(fresh_scan(name), lines(summary@))).project_dir == Some(
                normalized(cwd),
            ),
        are_unbroken(texts(rest@)) ==> {
            &&& lines(summary@) == summary_lines(first_line@, texts(rest@))
            &&& lines(summary@).len() <= MAX_TRANSCRIPT_TAIL_LINES + 1
        },
{
    let ghost read = texts(rest@);
    proof {
        if are_unbroken(read) {
            law_tail_reads_back(read, MAX_TRANSCRIPT_TAIL_LINES as nat, true);
        }
    }
    let start = trimmed_end(first_line);
    match extract_cwd(start.as_str()) {
        Some(cwd) => {
            let line = session_meta_line(cwd.as_str());
            let ghost tail = joined_lines(tail_of(read, MAX_TRANSCRIPT_TAIL_LINES as nat, true));
            let summary = summarize_lines(Some(line.as_str()), rest);
            proof {
                assert(is_line(line@));
                lemma_first_line(line@, tail);
                assert forall|name: Option<Seq<char>>| (#[trigger] scanned_lines(
                    fresh_scan(name),
                    lines(summary@),
                )).project_dir == Some(normalized(cwd@)) by {
                    lemma_meta_tells_directory(fresh_scan(name), line@, lines(tail), cwd@);
                }
            }
            summary
        },
        None => {
            let summary = summarize_lines(None, rest);
            proof {
                let tail = tail_of(read, MAX_TRANSCRIPT_TAIL_LINES as nat, true);
                assert(summary@ =~= joined_lines(tail));
                assert(summary_lines(first_line@, read) =~= without_returns(tail));
            }
            summary
        },
    }
}

proof fn lemma_meta_tells_directory(
    scan: ScanView,
    line: Seq<char>,
    rest: Seq<Seq<char>>,
    cwd: Seq<char>,
)
    requires
        json_of_text(line) == Some(session_meta(cwd)),
        scan.project_dir is None,
    ensures
        scanned_lines(scan, seq![line] + rest).project_dir == Some(normalized(cwd)),
    decreases rest.len(),
{
    let all = seq![line] + rest;
    if rest.len() == 0 {
        assert(all.drop_last() =~= Seq::<Seq<char>>::empty());
        assert(all.last() == line);
        let entry = session_meta(cwd);
        reveal_strlit("payload");
        reveal_strlit("type");
        assert("payload"@.len() != "type"@.len());
        assert(entry.field("type"@) == Some(JsonView::Text("session_meta"@)));
        assert(entry.text_field("type"@) == Some("session_meta"@));
        let payload = JsonView::Object(map!["cwd"@ => JsonView::Text(cwd)]);
        assert(entry.field("payload"@) == Some(payload));
        assert(payload.field("cwd"@) == Some(JsonView::Text(cwd)));
        assert(entry_project_dir(entry) == Some(cwd));
        assert(scanned_lines(scan, all) == scanned(scan, entry));
    } else {
        assert(all.drop_last() =~= seq![line] + rest.drop_last());
        lemma_meta_tells_directory(scan, line, rest.drop_last(), cwd);
    }
}

// ---------------------------------------------------------------------------
// All files
// ---------------------------------------------------------------------------
/// What a `FoundIndex` says.
pub struct FoundIndexView {
    pub modified: Timestamp,
    pub lines: Seq<Seq<char>>,
}

/// The index file as it was read: its lines, or its last ones at least as many as
/// are looked at.
#[derive(Debug)]
pub struct FoundIndex {
    pub modified: Timestamp,
    pub lines: Vec<String>,
}

impl View for FoundIndex {
    type V = FoundIndexView;

    open spec fn view(&self) -> FoundIndexView {
        FoundIndexView { modified: self.modified, lines: texts(self.lines@) }
    }
}

/// What a `FoundTranscript` says.
pub struct FoundTranscriptView {
    pub path: Seq<char>,
    pub modified: Timestamp,
    pub first_line: Seq<char>,
    pub rest: Seq<Seq<char>>,
}

/// A transcript as it was read: its first line, and the lines behind it, or the
/// last of these at least as many as are looked at.
#[derive(Debug)]
pub struct FoundTranscript {
    pub path: String,
    pub modified: Timestamp,
    pub first_line: String,
    pub rest: Vec<String>,
}

impl View for FoundTranscript {
    type V = FoundTranscriptView;

    open spec fn view(&self) -> FoundTranscriptView {
        FoundTranscriptView {
            path: self.path@,
            modified: self.modified,
            first_line: self.first_line@,
            rest: texts(self.rest@),
        }
    }
}

/// What some transcripts say.
pub open spec fn found_views(found: Seq<FoundTranscript>) -> Seq<FoundTranscriptView> {
    Seq::new(found.len(), |i: int| found[i]@)
}

/// The path of the index under the directory of Codex.
pub open spec fn index_path_of(host_root: Seq<char>) -> Seq<char> {
    join_paths(host_root, "session_index.jsonl"@)
}

/// The file that the index becomes.
pub open spec fn index_file(host_root: Seq<char>, index: FoundIndexView) -> CodexFileView {
    CodexFileView {
        kind: CodexFileKind::Index,
        modified_at: whole_seconds(index.modified),
        path: index_path_of(host_root),
        content: joined_lines(tail_of(index.lines, MAX_INDEX_LINES as nat, false)),
    }
}

/// The file that a transcript becomes.
pub open spec fn transcript_file(found: FoundTranscriptView) -> CodexFileView {
    CodexFileView {
        kind: CodexFileKind::Transcript,
        modified_at: whole_seconds(found.modified),
        path: found.path,
        content: transcript_summary(found.first_line, found.rest),
    }
}

/// Whether a file that was found is a recent transcript.
pub open spec fn is_wanted(found: FoundTranscriptView, now: Timestamp) -> bool {
    is_transcript_path(found.path) && !moment_before(found.modified, cutoff_of(now))
}

/// The files that the recent transcripts among those found become.
pub open spec fn recent_transcripts(found: Seq<FoundTranscriptView>, now: Timestamp) -> Seq<
    CodexFileView,
>
    decreases found.len(),
{
    if found.len() == 0 {
        Seq::empty()
    } else if is_wanted(found.last(), now) {
        recent_transcripts(found.drop_last(), now).push(transcript_file(found.last()))
    } else {
        recent_transcripts(found.drop_last(), now)
    }
}

/// The index, where there is one, and the newest transcripts, the oldest first.
pub open spec fn recent_files(
    host_root: Seq<char>,
    index: Option<FoundIndexView>,
    found: Seq<FoundTranscriptView>,
    now: Timestamp,
) -> Seq<CodexFileView> {
    let head = match index {
        Some(index) => seq![index_file(host_root, index)],
        None => Seq::empty(),
    };
    head + newest_files(recent_transcripts(found, now))
}

/// How many lines a file of a kind holds at most.
pub open spec fn line_limit(kind: CodexFileKind) -> nat {
    match kind {
        CodexFileKind::Index => MAX_INDEX_LINES as nat,
        CodexFileKind::Transcript => (MAX_TRANSCRIPT_TAIL_LINES + 1) as nat,
    }
}

/// Whether no file of some holds more lines than one of its kind may.
pub open spec fn keep_limits(files: Seq<CodexFileView>) -> bool {
    forall|i: int|
        0 <= i < files.len() ==> lines((#[trigger] files[i]).content).len() <= line_limit(
            files[i].kind,
        )
}

/// Whether some transcripts were read line by line.
pub open spec fn were_read_in_lines(found: Seq<FoundTranscriptView>) -> bool {
    forall|i: int| 0 <= i < found.len() ==> are_unbroken((#[trigger] found[i]).rest)
}

/// What an index says, where there is one.
pub open spec fn maybe_index(index: Option<FoundIndex>) -> Option<FoundIndexView> {
    match index {
        Some(index) => Some(index@),
        None => None,
    }
}

/// Whether the index, where there is one, and the transcripts were read line by
/// line.
pub open spec fn all_read_in_lines(
    index: Option<FoundIndexView>,
    found: Seq<FoundTranscriptView>,
) -> bool {
    &&& index matches Some(index) ==> are_unbroken(index.lines)
    &&& were_read_in_lines(found)
}

/// The path of the index under the directory of Codex.
pub fn index_path(host_root: &str) -> (path: String)
    ensures
        path@ == index_path_of(host_root@),
{
    join_path(host_root, "session_index.jsonl")
}

/// The directory of transcripts under the directory of Codex.
pub fn sessions_dir(host_root: &str) -> (path: String)
    ensures
        path@ == join_paths(host_root@, "sessions"@),
{
    join_path(host_root, "sessions")
}

fn file_of_index(host_root: &str, index: FoundIndex) -> (file: CodexFile)
    ensures
        file@ == index_file(host_root@, index@),
{
    let tail = tail_lines(index.lines, MAX_INDEX_LINES, false);
    CodexFile {
        kind: CodexFileKind::Index,
        modified_at: unix_seconds(index.modified),
        path: index_path(host_root),
        content: join_lines(&tail),
    }
}

/// The files that the recent transcripts among those found become.
pub fn collect_recent_transcripts(found: Vec<FoundTranscript>, now: Timestamp) -> (files: Vec<
    CodexFile,
>)
    ensures
        file_views(files@) == recent_transcripts(found_views(found@), now),
        were_read_in_lines(found_views(found@)) ==> keep_limits(file_views(files@)),
{
    let ghost all = found_views(found@);
    let mut files: Vec<CodexFile> = Vec::new();
    proof {
        assert(file_views(files@) =~= recent_transcripts(all.take(0), now));
    }
    for transcript in it: found
        invariant
            all == found_views(it.seq()),
            file_views(files@) == recent_transcripts(all.take(it.index()), now),
            were_read_in_lines(all) ==> keep_limits(file_views(files@)),
    {
        let ghost before = file_views(files@);
        proof {
            assert(all.take(it.index() + 1).drop_last() =~= all.take(it.index()));
            assert(all.take(it.index() + 1).last() == transcript@);
            assert(all[it.index()] == transcript@);
        }
        if has_transcript_name(transcript.path.as_str()) && is_recent(transcript.modified, now) {
            let content = read_transcript_summary(transcript.first_line.as_str(), transcript.rest);
            let file = CodexFile {
                kind: CodexFileKind::Transcript,
                modified_at: unix_seconds(transcript.modified),
                path: transcript.path,
                content,
            };
            files.push(file);
            proof {
                assert(file_views(files@) =~= before.push(file@));
                if were_read_in_lines(all) {
                    lemma_one_more_keeps_limits(before, file@);
                }
            }
        }
    }
    proof {
        assert(all.take(all.len() as int) =~= all);
    }
    files
}

proof fn lemma_one_more_keeps_limits(files: Seq<CodexFileView>, file: CodexFileView)
    requires
        keep_limits(files),
        lines(file.content).len() <= line_limit(file.kind),
    ensures
        keep_limits(files.push(file)),
{
    let more = files.push(file);
    assert forall|i: int| 0 <= i < more.len() implies lines((#[trigger] more[i]).content).len()
        <= line_limit(more[i].kind) by {
        if i < files.len() {
            assert(more[i] == files[i]);
        }
    }
}

proof fn lemma_newest_keep_limits(files: Seq<CodexFileView>)
    requires
        keep_limits(files),
    ensures
        keep_limits(newest_files(files)),
{
    broadcast use vstd::seq_lib::group_to_multiset_ensures;

    let newest = newest_files(files);
    let dropped = law_newest_are_kept(files);
    assert forall|i: int| 0 <= i < newest.len() implies lines((#[trigger] newest[i]).content).len()
        <= line_limit(newest[i].kind) by {
        assert(newest.contains(newest[i]));
        assert(newest.to_multiset().count(newest[i]) > 0);
        assert(files.to_multiset().count(newest[i]) > 0);
        assert(files.contains(newest[i]));
        let j = choose|j: int| 0 <= j < files.len() && files[j] == newest[i];
        assert(lines(files[j].content).len() <= line_limit(files[j].kind));
    }
}

/// The index and the newest transcripts, out of what was read under the directory
/// of Codex. What was read line by line keeps within the limits of its kind.
pub fn load_recent_codex_files(
    host_root: &str,
    index: Option<FoundIndex>,
    found: Vec<FoundTranscript>,
    now: Timestamp,
) -> (files: Vec<CodexFile>)
    ensures
        file_views(files@) == recent_files(
            host_root@,
            maybe_index(index),
            found_views(found@),
            now,
        ),
        all_read_in_lines(maybe_index(index), found_views(found@)) ==> keep_limits(
            file_views(files@),
        ),
{
    let ghost in_lines = all_read_in_lines(maybe_index(index), found_views(found@));
    let mut files: Vec<CodexFile> = Vec::new();
    match index {
        Some(index) => {
            proof {
                if are_unbroken(index@.lines) {
                    law_tail_reads_back(index@.lines, MAX_INDEX_LINES as nat, false);
                }
            }
            files.push(file_of_index(host_root, index));
        },
        None => {},
    }
    let ghost head = file_views(files@);
    let recent = collect_recent_transcripts(found, now);
    proof {
        if in_lines {
            lemma_newest_keep_limits(file_views(recent@));
        }
    }
    let mut newest = keep_newest(recent);
    let ghost tail = file_views(newest@);
    files.append(&mut newest);
    proof {
        assert(file_views(files@) =~= head + tail);
        if in_lines {
            assert forall|i: int| 0 <= i < (head + tail).len() implies lines(
                (#[trigger] (head + tail)[i]).content,
            ).len() <= line_limit((head + tail)[i].kind) by {
                if i < head.len() {
                    assert((head + tail)[i] == head[i]);
                } else {
                    assert((head + tail)[i] == tail[i - head.len()]);
                }
            }
        }
    }
    files
}

// ---------------------------------------------------------------------------
// Laws
// ---------------------------------------------------------------------------
/// There is at most one index, which comes first, and never more transcripts than
/// are looked at.
pub proof fn law_files_are_bounded(
    host_root: Seq<char>,
    index: Option<FoundIndexView>,
    found: Seq<FoundTranscriptView>,
    now: Timestamp,
)
    ensures
        recent_files(host_root, index, found, now).len() <= MAX_TRANSCRIPTS + if index is Some {
            1int
        } else {
            0
        },
        index is Some ==> recent_files(host_root, index, found, now)[0].kind is Index,
{
    let _ = law_newest_are_kept(recent_transcripts(found, now));
}

/// A transcript that changed last before the window of recent changes is left
/// out.
pub proof fn law_old_transcripts_are_skipped(
    found: Seq<FoundTranscriptView>,
    now: Timestamp,
)
    requires
        forall|i: int|
            0 <= i < found.len() ==> moment_before(
                (#[trigger] found[i]).modified,
                cutoff_of(now),
            ),
    ensures
        recent_transcripts(found, now).len() == 0,
    decreases found.len(),
{
    if found.len() > 0 {
        assert(moment_before(found[found.len() - 1].modified, cutoff_of(now)));
        assert forall|i: int| 0 <= i < found.drop_last().len() implies moment_before(
            (#[trigger] found.drop_last()[i]).modified,
            cutoff_of(now),
        ) by {
            assert(found.drop_last()[i] == found[i]);
        }
        law_old_transcripts_are_skipped(found.drop_last(), now);
    }
}

/// Every transcript that is looked at was found as a recent one, and what is taken
/// from it is all that is known of it.
pub proof fn law_recent_transcripts_were_found(
    found: Seq<FoundTranscriptView>,
    now: Timestamp,
    i: int,
) -> (j: int)
    requires
        0 <= i < recent_transcripts(found, now).len(),
    ensures
        0 <= j < found.len(),
        is_wanted(found[j], now),
        recent_transcripts(found, now)[i] == transcript_file(found[j]),
    decreases found.len(),
{
    let front = found.drop_last();
    if i < recent_transcripts(front, now).len() {
        let j = law_recent_transcripts_were_found(front, now, i);
        assert(front[j] == found[j]);
        j
    } else {
        found.len() - 1
    }
}

/// The recent transcripts are exactly the files that were found with the extension of
/// transcripts and that did not change before the cutoff, in the order in which they
/// were found.
pub proof fn law_recent_transcripts_are_all_wanted_files(
    found: Seq<FoundTranscriptView>,
    now: Timestamp,
)
    ensures
        recent_transcripts(found, now) == found.filter(
            |file: FoundTranscriptView|
                is_transcript_path(file.path) && !moment_before(file.modified, cutoff_of(now)),
        ).map_values(|file: FoundTranscriptView| transcript_file(file)),
    decreases found.len(),
{
    let wanted = |file: FoundTranscriptView|
        is_transcript_path(file.path) && !moment_before(file.modified, cutoff_of(now));
    let made = |file: FoundTranscriptView| transcript_file(file);
    reveal(Seq::filter);
    if found.len() > 0 {
        law_recent_transcripts_are_all_wanted_files(found.drop_last(), now);
        let front = found.drop_last().filter(wanted);
        if wanted(found.last()) {
            assert(front.push(found.last()).map_values(made) =~= front.map_values(made).push(
                made(found.last()),
            ));
        }
    } else {
        assert(found.filter(wanted).map_values(made) =~= recent_transcripts(found, now));
    }
}

/// Every file that was found with the extension of transcripts and that did not change
/// before the cutoff is among the recent transcripts.
pub proof fn law_wanted_files_are_recent_transcripts(
    found: Seq<FoundTranscriptView>,
    now: Timestamp,
    j: int,
) -> (i: int)
    requires
        0 <= j < found.len(),
        is_transcript_path(found[j].path),
        !moment_before(found[j].modified, cutoff_of(now)),
    ensures
        0 <= i < recent_transcripts(found, now).len(),
        recent_transcripts(found, now)[i] == transcript_file(found[j]),
    decreases found.len(),
{
    let front = found.drop_last();
    if j < front.len() {
        assert(front[j] == found[j]);
        law_wanted_files_are_recent_transcripts(front, now, j)
    } else {
        recent_transcripts(found, now).len() - 1
    }
}

/// Where no more transcripts are recent than are looked at, each of them is loaded.
pub proof fn law_few_transcripts_are_all_loaded(
    host_root: Seq<char>,
    index: Option<FoundIndexView>,
    found: Seq<FoundTranscriptView>,
    now: Timestamp,
    j: int,
) -> (i: int)
    requires
        found.filter(
            |file: FoundTranscriptView|
                is_transcript_path(file.path) && !moment_before(file.modified, cutoff_of(now)),
        ).len() <= 12,
        0 <= j < found.len(),
        is_transcript_path(found[j].path),
        !moment_before(found[j].modified, cutoff_of(now)),
    ensures
        0 <= i < recent_files(host_root, index, found, now).len(),
        recent_files(host_root, index, found, now)[i] == transcript_file(found[j]),
{
    broadcast use vstd::seq_lib::group_to_multiset_ensures;

    let recent = recent_transcripts(found, now);
    let newest = newest_files(recent);
    law_recent_transcripts_are_all_wanted_files(found, now);
    let k = law_wanted_files_are_recent_transcripts(found, now, j);
    let dropped = law_newest_are_kept(recent);
    assert(newest.to_multiset().len() + dropped.to_multiset().len()
        == recent.to_multiset().len());
    assert(dropped.len() == 0);
    assert(dropped.to_multiset().count(recent[k]) == 0) by {
        if dropped.to_multiset().count(recent[k]) > 0 {
            assert(dropped.contains(recent[k]));
        }
    }
    assert(recent.contains(recent[k]));
    assert(recent.to_multiset().count(recent[k]) > 0);
    assert(newest.to_multiset().count(recent[k]) > 0);
    assert(newest.contains(recent[k]));
    let n = choose|n: int| 0 <= n < newest.len() && newest[n] == recent[k];
    let files = recent_files(host_root, index, found, now);
    let head: int = files.len() - newest.len();
    assert(files[head + n] == newest[n]);
    head + n
}

/// What is loaded is the index, where there is one, and behind it the newest of the
/// recent transcripts: a transcript that is left out changed in no later second than
/// any that is loaded.
pub proof fn law_loaded_files(
    host_root: Seq<char>,
    index: Option<FoundIndexView>,
    found: Seq<FoundTranscriptView>,
    now: Timestamp,
)
    ensures
        ({
            let files = recent_files(host_root, index, found, now);
            let recent = recent_transcripts(found, now);
            let head: int = if index is Some {
                1
            } else {
                0
            };
            &&& files.len() == head + if recent.len() <= 12 {
                recent.len() as int
            } else {
                12
            }
            &&& index matches Some(index) ==> {
                &&& files[0].kind is Index
                &&& files[0].path == index_path_of(host_root)
                &&& files[0].modified_at == whole_seconds(index.modified)
                &&& files[0].content == joined_lines(tail_of(index.lines, 400, false))
            }
            &&& forall|i: int, j: int|
                head <= i < j < files.len() ==> (#[trigger] files[i]).modified_at <= (
                #[trigger] files[j]).modified_at
            &&& forall|i: int|
                head <= i < files.len() ==> recent.contains(#[trigger] files[i])
            &&& forall|i: int, k: int|
                head <= i < files.len() && 0 <= k < recent.len() && !files.contains(
                    #[trigger] recent[k],
                ) ==> recent[k].modified_at <= (#[trigger] files[i]).modified_at
        }),
{
    broadcast use vstd::seq_lib::group_to_multiset_ensures;

    let files = recent_files(host_root, index, found, now);
    let recent = recent_transcripts(found, now);
    let newest = newest_files(recent);
    let head: int = files.len() - newest.len();
    let dropped = law_newest_are_kept(recent);
    assert forall|i: int| head <= i < files.len() implies #[trigger] files[i] == newest[i - head] by {}
    assert forall|i: int, j: int| head <= i < j < files.len() implies (
    #[trigger] files[i]).modified_at <= (#[trigger] files[j]).modified_at by {
        assert(!goes_before(AgeOrder::OldestFirst, newest[j - head], newest[i - head]));
    }
    assert forall|i: int| head <= i < files.len() implies recent.contains(#[trigger] files[i]) by {
        assert(newest.contains(newest[i - head]));
        assert(newest.to_multiset().count(files[i]) > 0);
        assert(recent.to_multiset().count(files[i]) > 0);
    }
    assert forall|i: int, k: int|
        head <= i < files.len() && 0 <= k < recent.len() && !files.contains(
            #[trigger] recent[k],
        ) implies recent[k].modified_at <= (#[trigger] files[i]).modified_at by {
        assert(recent.contains(recent[k]));
        assert(recent.to_multiset().count(recent[k]) > 0);
        if newest.to_multiset().count(recent[k]) > 0 {
            assert(newest.contains(recent[k]));
            let n = choose|n: int| 0 <= n < newest.len() && newest[n] == recent[k];
            assert(files[head + n] == recent[k]);
        }
        assert(dropped.to_multiset().count(recent[k]) > 0);
        assert(dropped.contains(recent[k]));
        let d = choose|d: int| 0 <= d < dropped.len() && dropped[d] == recent[k];
        assert(!goes_before(AgeOrder::NewestFirst, dropped[d], newest[i - head]));
    }
}

/// A transcript becomes a file of the same path, of the second in which it changed
/// last, and with what is taken from its lines.
pub proof fn law_transcript_becomes_a_file(found: FoundTranscriptView)
    ensures
        transcript_file(found).kind is Transcript,
        transcript_file(found).path == found.path,
        transcript_file(found).modified_at == whole_seconds(found.modified),
        transcript_file(found).content == transcript_summary(found.first_line, found.rest),
{
}

/// A transcript is recent where it changed at most three days ago, to the nanosecond,
/// or whenever it was where the clock cannot tell that moment.
pub proof fn law_recent_means_three_days(modified: Timestamp, now: Timestamp)
    ensures
        now.secs - 3 * 24 * 60 * 60 >= i64::MIN ==> (!moment_before(modified, cutoff_of(now)) <==> {
            ||| modified.secs + 3 * 24 * 60 * 60 > now.secs
            ||| modified.secs + 3 * 24 * 60 * 60 == now.secs && modified.nanos >= now.nanos
        }),
        now.secs - 3 * 24 * 60 * 60 < i64::MIN ==> (!moment_before(modified, cutoff_of(now))
            <==> modified.secs >= 0),
{
}

/// A path leads to a transcript exactly where the name at its end has the extension
/// `jsonl`.
pub proof fn law_transcript_paths(dir: Seq<char>, stem: Seq<char>, extension: Seq<char>)
    requires
        dir.len() > 0,
        stem.len() > 0,
        forall|i: int| 0 <= i < stem.len() ==> stem[i] != '/',
        forall|i: int| 0 <= i < extension.len() ==> extension[i] != '/' && extension[i] != '.',
        extension.len() > 0,
    ensures
        is_transcript_path(dir + seq!['/'] + stem + seq!['.'] + extension) <==> extension
            == seq!['j', 's', 'o', 'n', 'l'],
{
    let name = stem + seq!['.'] + extension;
    let path = dir + seq!['/'] + stem + seq!['.'] + extension;
    assert(path =~= dir + seq!['/'] + name);
    assert(name[stem.len() as int] == '.');
    assert(name.last() == extension.last());
    assert forall|i: int| 0 <= i < name.len() implies name[i] != '/' by {
        if i < stem.len() {
            assert(name[i] == stem[i]);
        } else if i > stem.len() {
            assert(name[i] == extension[i - stem.len() - 1]);
        }
    }
    law_file_name(dir, name);
    law_extension(stem, extension);
    reveal_strlit("jsonl");
    assert("jsonl"@ =~= seq!['j', 's', 'o', 'n', 'l']);
}

/// What is taken from a transcript is the directory, where its first line tells one,
/// as an entry that tells nothing else, and behind it the last two hundred lines that
/// are not empty.
pub proof fn law_summary_of_a_transcript(first_line: Seq<char>, rest: Seq<Seq<char>>)
    ensures
        transcript_summary(first_line, rest) == (match line_cwd(trim_end(first_line)) {
            Some(cwd) => json_text(session_meta(cwd)) + seq!['\n'],
            None => Seq::empty(),
        }) + joined_lines(tail_of(rest, 200, true)),
{
    match line_cwd(trim_end(first_line)) {
        Some(cwd) => {
            let line = json_text(session_meta(cwd));
            assert(line.push('\n') =~= line + seq!['\n']);
        },
        None => {},
    }
}

/// The entry that is put before the last lines of a transcript tells the directory,
/// and neither a state nor a name.
pub proof fn law_session_meta_tells_the_directory(cwd: Seq<char>)
    ensures
        entry_project_dir(session_meta(cwd)) == Some(cwd),
        entry_status(session_meta(cwd)) is None,
        entry_thread_name(session_meta(cwd)) is None,
{
    let entry = session_meta(cwd);
    reveal_strlit("payload");
    reveal_strlit("type");
    reveal_strlit("session_meta");
    reveal_strlit("event_msg");
    reveal_strlit("response_item");
    reveal_strlit("message");
    reveal_strlit("function_call");
    reveal_strlit("function_call_output");
    reveal_strlit("reasoning");
    assert("payload"@.len() != "type"@.len());
    assert(entry.field("type"@) == Some(JsonView::Text("session_meta"@)));
    let payload = JsonView::Object(map!["cwd"@ => JsonView::Text(cwd)]);
    assert(entry.field("payload"@) == Some(payload));
    assert(payload.field("cwd"@) == Some(JsonView::Text(cwd)));
    assert("session_meta"@.len() == 12);
    assert("event_msg"@.len() == 9 && "response_item"@.len() == 13 && "message"@.len() == 7);
    assert("function_call"@.len() == 13 && "function_call_output"@.len() == 20
        && "reasoning"@.len() == 9);
}

/// A line tells the directory that the entry in it tells; a line without an entry tells
/// none.
pub proof fn law_directory_in_a_line(line: Seq<char>)
    ensures
        json_of_text(line) is None ==> line_cwd(line) is None,
        json_of_text(line) matches Some(entry) ==> line_cwd(line) == entry_project_dir(entry),
{
}

/// The index lies right under the directory of Codex.
pub proof fn law_place_of_the_index(host_root: Seq<char>)
    requires
        host_root.len() > 0,
        host_root.last() != '/',
    ensures
        index_path_of(host_root) == host_root + "/session_index.jsonl"@,
{
    reveal_strlit("session_index.jsonl");
    reveal_strlit("/session_index.jsonl");
    assert(host_root.push('/') + "session_index.jsonl"@ =~= host_root + "/session_index.jsonl"@);
}

/// No file holds more lines than it may: an index four hundred, a transcript two hundred
/// and the one that tells its directory.
pub proof fn law_line_limits(files: Seq<CodexFileView>, i: int)
    requires
        keep_limits(files),
        0 <= i < files.len(),
    ensures
        files[i].kind is Index ==> lines(files[i].content).len() <= 400,
        files[i].kind is Transcript ==> lines(files[i].content).len() <= 201,
{
}

/// Cutting a transcript to its last lines keeps the state of its thread, as long as one
/// of those lines tells a state: whatever stands before them, the same line decides.
pub proof fn law_summary_keeps_the_state(
    first_line: Seq<char>,
    rest: Seq<Seq<char>>,
    before: ScanView,
    i: int,
    entry: JsonView,
)
    requires
        0 <= i < rest.len(),
        rest[i].len() > 0,
        json_of_text(rest[i]) == Some(entry),
        entry_status(entry) is Some,
        forall|j: int| i < j < rest.len() ==> !tells_state(#[trigger] rest[j]),
        rest.len() - i <= 200,
    ensures
        ({
            let tail = tail_of(rest, 200, true);
            let whole = scanned_lines(before, seq![first_line] + rest);
            let cut = scanned_lines(before, tail);
            &&& cut.status == whole.status
            &&& cut.after_tool_call == whole.after_tool_call
            &&& Some(cut.status) == entry_status(entry)
        }),
{
    let whole = seq![first_line] + rest;
    assert(whole[i + 1] == rest[i]);
    assert forall|j: int| i + 1 < j < whole.len() implies !tells_state(#[trigger] whole[j]) by {
        assert(whole[j] == rest[j - 1]);
    }
    law_last_told_state_counts(before, whole, i + 1, entry);
    let kept = kept_lines(rest, true);
    let k = lemma_kept_place(rest, i);
    let tail = tail_of(rest, 200, true);
    let from: int = kept.len() - tail.len();
    assert(tail =~= kept.skip(from));
    assert(tail[k - from] == rest[i]);
    assert forall|j: int| k - from < j < tail.len() implies !tells_state(#[trigger] tail[j]) by {
        let n = lemma_kept_behind(rest, i, j + from);
        assert(!tells_state(rest[n]));
    }
    law_last_told_state_counts(before, tail, k - from, entry);
}

/// A filled line is kept, with no more lines behind it than stood there.
proof fn lemma_kept_place(lines: Seq<Seq<char>>, i: int) -> (k: int)
    requires
        0 <= i < lines.len(),
        lines[i].len() > 0,
    ensures
        k == kept_lines(lines.take(i), true).len(),
        0 <= k < kept_lines(lines, true).len(),
        kept_lines(lines, true)[k] == lines[i],
        kept_lines(lines, true).len() - k <= lines.len() - i,
    decreases lines.len(),
{
    let front = lines.drop_last();
    if i < front.len() {
        assert(front[i] == lines[i]);
        assert(front.take(i) =~= lines.take(i));
        lemma_kept_place(front, i)
    } else {
        assert(lines.take(i) =~= front);
        kept_lines(front, true).len() as int
    }
}

/// What is kept behind a filled line stood behind it.
proof fn lemma_kept_behind(lines: Seq<Seq<char>>, i: int, k: int) -> (n: int)
    requires
        0 <= i < lines.len(),
        lines[i].len() > 0,
        kept_lines(lines.take(i), true).len() < k < kept_lines(lines, true).len(),
    ensures
        i < n < lines.len(),
        kept_lines(lines, true)[k] == lines[n],
    decreases lines.len(),
{
    let front = lines.drop_last();
    if i == front.len() {
        assert(lines.take(i) =~= front);
        0
    } else {
        assert(front[i] == lines[i]);
        assert(front.take(i) =~= lines.take(i));
        if k < kept_lines(front, true).len() {
            let n = lemma_kept_behind(front, i, k);
            assert(front[n] == lines[n]);
            n
        } else {
            lines.len() - 1
        }
    }
}

/// A path leads to a transcript exactly where the name at its end is `.jsonl` with
/// something before it.
pub proof fn law_transcript_names(path: Seq<char>)
    ensures
        is_transcript_path(path) <==> (file_name_of(path) matches Some(name) && name.len() > 6
            && name.skip(name.len() - 6) == ".jsonl"@),
{
    reveal_strlit(".jsonl");
    reveal_strlit("jsonl");
    match file_name_of(path) {
        Some(name) => {
            law_last_position(name, '.');
            let at = last_position(name, '.');
            if name.len() > 6 && name.skip(name.len() - 6) == ".jsonl"@ {
                let end = name.skip(name.len() - 6);
                assert(end[0] == name[name.len() - 6]);
                assert forall|i: int| name.len() - 6 < i < name.len() implies name[i] != '.' by {
                    assert(end[i - (name.len() - 6)] == name[i]);
                }
                lemma_last_position_is(name, '.', name.len() - 6);
                assert(name.skip(at + 1) =~= "jsonl"@) by {
                    assert forall|i: int| 0 <= i < 5 implies name.skip(at + 1)[i]
                        == "jsonl"@[i] by {
                        assert(end[i + 1] == ".jsonl"@[i + 1]);
                    }
                }
            }
            if is_transcript_path(path) {
                let extension = name.skip(at + 1);
                assert(extension == "jsonl"@);
                assert(at == name.len() - 6);
                assert(name.skip(at) =~= ".jsonl"@) by {
                    assert forall|i: int| 0 <= i < 6 implies name.skip(at)[i] == ".jsonl"@[i] by {
                        if i > 0 {
                            assert(extension[i - 1] == "jsonl"@[i - 1]);
                        }
                    }
                }
            }
        },
        None => {},
    }
}

} // verus!
