//! Threads of Codex: what a transcript says of its thread.

use vstd::prelude::*;

use crate::codex_entry::{
    determine_status, entry_project_dir, entry_status, entry_thread_name, extract_project_dir,
    extract_thread_name, is_tool_call, is_tool_call_entry, law_entry_is_running_or_done,
};
use crate::codex_file::{file_views, CodexFile, CodexFileKind, CodexFileView};
use crate::json::{json_of_text, parse_json, Json, JsonView};
use crate::path::{
    file_name_of, file_stem, law_normalize_is_idempotent, normalize_path, normalized, stem_of_name,
};
use crate::sorted_map::SortedMap;
use crate::status::AgentStatusKind;
use crate::text::{
    chars_of, last_position, law_last_position, lemma_last_position_is, lines, lines_of, maybe_text,
    text_between, texts,
};
use crate::time::{has_passed, passed, Timestamp};

verus! {

/// How many seconds after a call of a tool a silent agent counts as waiting.
pub const WAIT_AFTER_TOOL_CALL: u64 = 3;

/// How many parts of a file name make up the id of a thread.
pub const THREAD_ID_PARTS: usize = 5;

/// What a `ThreadSummary` says.
pub struct ThreadView {
    pub transcript_path: Seq<char>,
    pub thread_id: Seq<char>,
    pub thread_name: Option<Seq<char>>,
    pub project_dir: Seq<char>,
    pub status: AgentStatusKind,
    pub updated_at: u64,
}

/// What a transcript says of its thread.
#[derive(Clone, Debug, PartialEq, Eq)]
pub struct ThreadSummary {
    pub transcript_path: String,
    pub thread_id: String,
    pub thread_name: Option<String>,
    pub project_dir: String,
    pub status: AgentStatusKind,
    pub updated_at: u64,
}

impl View for ThreadSummary {
    type V = ThreadView;

    open spec fn view(&self) -> ThreadView {
        ThreadView {
            transcript_path: self.transcript_path@,
            thread_id: self.thread_id@,
            thread_name: maybe_text(self.thread_name),
            project_dir: self.project_dir@,
            status: self.status,
            updated_at: self.updated_at,
        }
    }
}

/// What some summaries say.
pub open spec fn thread_views(threads: Seq<ThreadSummary>) -> Seq<ThreadView> {
    Seq::new(threads.len(), |i: int| threads[i]@)
}

// ---------------------------------------------------------------------------
// Ids and names
// ---------------------------------------------------------------------------
/// Where the last `count` parts of a text begin that `mark` parts.
pub open spec fn last_parts_from(s: Seq<char>, mark: char, count: nat) -> int
    decreases count,
{
    let at = last_position(s, mark);
    if at < 0 {
        0
    } else if count <= 1 {
        at + 1
    } else {
        last_parts_from(s.take(at), mark, (count - 1) as nat)
    }
}

/// The stem of the name that a path ends at; empty where there is no name.
pub open spec fn stem_of_path(path: Seq<char>) -> Seq<char> {
    match file_name_of(path) {
        Some(name) => stem_of_name(name),
        None => Seq::empty(),
    }
}

/// The id of the thread whose transcript lies at a path: the last parts of the
/// stem of its name, as dashes part them.
pub open spec fn thread_id_of(path: Seq<char>) -> Seq<char> {
    let stem = stem_of_path(path);
    stem.skip(last_parts_from(stem, '-', THREAD_ID_PARTS as nat))
}

fn start_of_last_parts(chars: &Vec<char>, mark: char, count: usize) -> (from: usize)
    requires
        count > 0,
    ensures
        from == last_parts_from(chars@, mark, count as nat),
        from <= chars@.len(),
{
    let mut end: usize = chars.len();
    let mut left: usize = count;
    let ghost all = chars@;
    proof {
        assert(all.take(end as int) =~= all);
    }
    let mut i: usize = end;
    while i > 0
        invariant
            all == chars@,
            0 <= i <= end <= all.len(),
            0 < left <= count,
            last_parts_from(all, mark, count as nat) == last_parts_from(
                all.take(end as int),
                mark,
                left as nat,
            ),
            last_position(all.take(i as int), mark) == last_position(all.take(end as int), mark),
        decreases i,
    {
        proof {
            assert(all.take(i as int).drop_last() =~= all.take(i - 1));
            assert(all.take(i as int).last() == all[i - 1]);
        }
        i -= 1;
        if chars[i] == mark {
            if left == 1 {
                return i + 1;
            }
            proof {
                assert(all.take(end as int).take(i as int) =~= all.take(i as int));
            }
            left -= 1;
            end = i;
        }
    }
    0
}

/// The id of the thread whose transcript lies at a path.
pub fn parse_thread_id(path: &str) -> (id: String)
    ensures
        id@ == thread_id_of(path@),
{
    let stem = match file_stem(path) {
        Some(stem) => stem,
        None => String::new(),
    };
    proof {
        assert(stem@ =~= stem_of_path(path@));
    }
    let chars = chars_of(stem.as_str());
    let from = start_of_last_parts(&chars, '-', THREAD_ID_PARTS);
    let id = text_between(&chars, from, chars.len());
    proof {
        assert(id@ =~= stem@.skip(from as int));
    }
    id
}

/// The names after an entry of an index: the entry may name a thread.
pub open spec fn with_index_entry(names: Map<Seq<char>, Seq<char>>, entry: JsonView) -> Map<
    Seq<char>,
    Seq<char>,
> {
    match (entry.text_field("id"@), entry.text_field("thread_name"@)) {
        (Some(id), Some(name)) => names.insert(id, name),
        _ => names,
    }
}

/// The names after a line of an index; a line that holds no entry is passed over.
pub open spec fn with_index_line(names: Map<Seq<char>, Seq<char>>, line: Seq<char>) -> Map<
    Seq<char>,
    Seq<char>,
> {
    match json_of_text(line) {
        Some(entry) => with_index_entry(names, entry),
        None => names,
    }
}

/// The names after some lines of an index; what a later line says counts.
pub open spec fn with_index_lines(
    names: Map<Seq<char>, Seq<char>>,
    lines: Seq<Seq<char>>,
) -> Map<Seq<char>, Seq<char>>
    decreases lines.len(),
{
    if lines.len() == 0 {
        names
    } else {
        with_index_line(with_index_lines(names, lines.drop_last()), lines.last())
    }
}

/// The names of threads that the index files among some files give.
pub open spec fn index_names(files: Seq<CodexFileView>) -> Map<Seq<char>, Seq<char>>
    decreases files.len(),
{
    if files.len() == 0 {
        Map::empty()
    } else {
        let names = index_names(files.drop_last());
        if files.last().kind is Index {
            with_index_lines(names, lines(files.last().content))
        } else {
            names
        }
    }
}

/// Takes in one more entry of an index.
pub fn read_index_entry(names: &mut SortedMap<String, String>, entry: &Json)
    ensures
        final(names)@ == with_index_entry(old(names)@, entry@),
{
    match entry.get_str("id") {
        Some(id) => match entry.get_str("thread_name") {
            Some(name) => names.insert(id.to_owned(), name.to_owned()),
            None => {},
        },
        None => {},
    }
}

fn read_index(names: &mut SortedMap<String, String>, content: &str)
    ensures
        final(names)@ == with_index_lines(old(names)@, lines(content@)),
{
    let found = lines_of(content);
    let ghost all = texts(found@);
    let ghost before = names@;
    let mut i: usize = 0;
    while i < found.len()
        invariant
            i <= found@.len(),
            all == texts(found@),
            names@ == with_index_lines(before, all.take(i as int)),
        decreases found@.len() - i,
    {
        proof {
            assert(all.take(i + 1).drop_last() =~= all.take(i as int));
            assert(all.take(i + 1).last() == found@[i as int]@);
        }
        match parse_json(found[i].as_str()) {
            Some(entry) => read_index_entry(names, &entry),
            None => {},
        }
        i += 1;
    }
    proof {
        assert(all.take(i as int) =~= all);
    }
}

/// The names of threads that the index files among some files give.
pub fn load_thread_index(files: &[CodexFile]) -> (names: SortedMap<String, String>)
    ensures
        names@ == index_names(file_views(files@)),
{
    let ghost all = file_views(files@);
    let mut names: SortedMap<String, String> = SortedMap::new();
    let mut i: usize = 0;
    while i < files.len()
        invariant
            i <= files@.len(),
            all == file_views(files@),
            names@ == index_names(all.take(i as int)),
        decreases files@.len() - i,
    {
        proof {
            assert(all.take(i + 1).drop_last() =~= all.take(i as int));
            assert(all.take(i + 1).last() == files@[i as int]@);
        }
        match files[i].kind {
            CodexFileKind::Index => read_index(&mut names, files[i].content.as_str()),
            CodexFileKind::Transcript => {},
        }
        i += 1;
    }
    proof {
        assert(all.take(i as int) =~= all);
    }
    names
}

// ---------------------------------------------------------------------------
// Reading a transcript
// ---------------------------------------------------------------------------
/// What a `ThreadScan` says.
pub struct ScanView {
    pub status: AgentStatusKind,
    pub project_dir: Option<Seq<char>>,
    pub thread_name: Option<Seq<char>>,
    pub after_tool_call: bool,
}

/// What the entries of a transcript have said so far.
#[derive(Clone, Debug, PartialEq, Eq)]
pub struct ThreadScan {
    pub status: AgentStatusKind,
    pub project_dir: Option<String>,
    pub thread_name: Option<String>,
    pub after_tool_call: bool,
}

impl View for ThreadScan {
    type V = ScanView;

    open spec fn view(&self) -> ScanView {
        ScanView {
            status: self.status,
            project_dir: maybe_text(self.project_dir),
            thread_name: maybe_text(self.thread_name),
            after_tool_call: self.after_tool_call,
        }
    }
}

/// The scan before the first entry.
pub open spec fn fresh_scan(thread_name: Option<Seq<char>>) -> ScanView {
    ScanView {
        status: AgentStatusKind::Idle,
        project_dir: None,
        thread_name,
        after_tool_call: false,
    }
}

/// The scan after an entry: the first directory and the first name count, and the
/// last state.
pub open spec fn scanned(scan: ScanView, entry: JsonView) -> ScanView {
    ScanView {
        status: match entry_status(entry) {
            Some(status) => status,
            None => scan.status,
        },
        project_dir: if scan.project_dir is Some {
            scan.project_dir
        } else {
            match entry_project_dir(entry) {
                Some(dir) => Some(normalized(dir)),
                None => None,
            }
        },
        thread_name: if scan.thread_name is Some {
            scan.thread_name
        } else {
            entry_thread_name(entry)
        },
        after_tool_call: if entry_status(entry) is Some {
            is_tool_call(entry)
        } else {
            scan.after_tool_call
        },
    }
}

/// The scan after some lines; a line that holds no entry is passed over.
pub open spec fn scanned_lines(scan: ScanView, lines: Seq<Seq<char>>) -> ScanView
    decreases lines.len(),
{
    if lines.len() == 0 {
        scan
    } else {
        let front = scanned_lines(scan, lines.drop_last());
        match json_of_text(lines.last()) {
            Some(entry) => scanned(front, entry),
            None => front,
        }
    }
}

/// The state that a scan ends in: an agent that called a tool and then fell
/// silent waits.
pub open spec fn settled_status(scan: ScanView, modified_at: u64, now: Timestamp) -> AgentStatusKind {
    if scan.status is Running && scan.after_tool_call && passed(
        modified_at,
        now,
        WAIT_AFTER_TOOL_CALL,
    ) {
        AgentStatusKind::Waiting
    } else {
        scan.status
    }
}

/// The name that an index gives to a thread.
pub open spec fn name_in(names: Map<Seq<char>, Seq<char>>, id: Seq<char>) -> Option<Seq<char>> {
    if names.dom().contains(id) {
        Some(names[id])
    } else {
        None
    }
}

/// The scan after all lines of a transcript.
pub open spec fn transcript_scan(
    file: CodexFileView,
    names: Map<Seq<char>, Seq<char>>,
) -> ScanView {
    scanned_lines(fresh_scan(name_in(names, thread_id_of(file.path))), lines(file.content))
}

/// What a transcript says of its thread; nothing where it tells no directory or
/// no state.
pub open spec fn thread_in(
    file: CodexFileView,
    names: Map<Seq<char>, Seq<char>>,
    now: Timestamp,
) -> Option<ThreadView> {
    let scan = transcript_scan(file, names);
    match scan.project_dir {
        Some(project_dir) => if scan.status is Idle {
            None
        } else {
            Some(
                ThreadView {
                    transcript_path: file.path,
                    thread_id: thread_id_of(file.path),
                    thread_name: scan.thread_name,
                    project_dir,
                    status: settled_status(scan, file.modified_at, now),
                    updated_at: file.modified_at,
                },
            )
        },
        None => None,
    }
}

/// The threads that the transcripts among some files tell of.
pub open spec fn threads_in(
    files: Seq<CodexFileView>,
    names: Map<Seq<char>, Seq<char>>,
    now: Timestamp,
) -> Seq<ThreadView>
    decreases files.len(),
{
    if files.len() == 0 {
        Seq::empty()
    } else {
        let front = threads_in(files.drop_last(), names, now);
        match thread_in(files.last(), names, now) {
            Some(thread) => if files.last().kind is Transcript {
                front.push(thread)
            } else {
                front
            },
            None => front,
        }
    }
}

impl ThreadScan {
    /// The scan before the first entry.
    pub fn new(thread_name: Option<String>) -> (scan: ThreadScan)
        ensures
            scan@ == fresh_scan(maybe_text(thread_name)),
    {
        ThreadScan {
            status: AgentStatusKind::Idle,
            project_dir: None,
            thread_name,
            after_tool_call: false,
        }
    }

    /// Takes in one more entry.
    pub fn absorb(&mut self, entry: &Json)
        ensures
            final(self)@ == scanned(old(self)@, entry@),
    {
        if self.project_dir.is_none() {
            match extract_project_dir(entry) {
                Some(dir) => {
                    self.project_dir = Some(normalize_path(dir.as_str()));
                },
                None => {},
            }
        }
        if self.thread_name.is_none() {
            self.thread_name = extract_thread_name(entry);
        }
        match determine_status(entry) {
            Some(status) => {
                self.status = status;
                self.after_tool_call = is_tool_call_entry(entry);
            },
            None => {},
        }
    }
}

fn scan_lines(start: ThreadScan, content: &str) -> (scan: ThreadScan)
    ensures
        scan@ == scanned_lines(start@, lines(content@)),
{
    let mut scan = start;
    let found = lines_of(content);
    let ghost all = texts(found@);
    let mut i: usize = 0;
    while i < found.len()
        invariant
            i <= found@.len(),
            all == texts(found@),
            scan@ == scanned_lines(start@, all.take(i as int)),
        decreases found@.len() - i,
    {
        proof {
            assert(all.take(i + 1).drop_last() =~= all.take(i as int));
            assert(all.take(i + 1).last() == found@[i as int]@);
        }
        match parse_json(found[i].as_str()) {
            Some(entry) => scan.absorb(&entry),
            None => {},
        }
        i += 1;
    }
    proof {
        assert(all.take(i as int) =~= all);
    }
    scan
}

/// What a transcript says of its thread.
pub fn summarize_thread(
    file: &CodexFile,
    thread_names: &SortedMap<String, String>,
    now: Timestamp,
) -> (summary: Option<ThreadSummary>)
    ensures
        match summary {
            Some(thread) => thread_in(file@, thread_names@, now) == Some(thread@),
            None => thread_in(file@, thread_names@, now) is None,
        },
{
    let thread_id = parse_thread_id(file.path.as_str());
    let known_name = match thread_names.get(&thread_id) {
        Some(name) => Some(name.clone()),
        None => None,
    };
    let scan = scan_lines(ThreadScan::new(known_name), file.content.as_str());
    match scan.project_dir {
        Some(project_dir) => {
            if scan.status == AgentStatusKind::Idle {
                return None;
            }
            let status = if scan.status == AgentStatusKind::Running && scan.after_tool_call
                && has_passed(file.modified_at, now, WAIT_AFTER_TOOL_CALL) {
                AgentStatusKind::Waiting
            } else {
                scan.status
            };
            Some(
                ThreadSummary {
                    transcript_path: file.path.clone(),
                    thread_id,
                    thread_name: scan.thread_name,
                    project_dir,
                    status,
                    updated_at: file.modified_at,
                },
            )
        },
        None => None,
    }
}

/// The threads that the transcripts among some files tell of.
pub fn summarize_threads(
    files: &[CodexFile],
    thread_names: &SortedMap<String, String>,
    now: Timestamp,
) -> (threads: Vec<ThreadSummary>)
    ensures
        thread_views(threads@) == threads_in(file_views(files@), thread_names@, now),
{
    let ghost all = file_views(files@);
    let mut threads: Vec<ThreadSummary> = Vec::new();
    let mut i: usize = 0;
    proof {
        assert(thread_views(threads@) =~= Seq::<ThreadView>::empty());
    }
    while i < files.len()
        invariant
            i <= files@.len(),
            all == file_views(files@),
            thread_views(threads@) == threads_in(all.take(i as int), thread_names@, now),
        decreases files@.len() - i,
    {
        let ghost before = thread_views(threads@);
        proof {
            assert(all.take(i + 1).drop_last() =~= all.take(i as int));
            assert(all.take(i + 1).last() == files@[i as int]@);
        }
        match files[i].kind {
            CodexFileKind::Index => {},
            CodexFileKind::Transcript => match summarize_thread(&files[i], thread_names, now) {
                Some(thread) => {
                    threads.push(thread);
                    proof {
                        assert(thread_views(threads@) =~= before.push(thread@));
                    }
                },
                None => {},
            },
        }
        i += 1;
    }
    proof {
        assert(all.take(i as int) =~= all);
    }
    threads
}

// ---------------------------------------------------------------------------
// Laws
// ---------------------------------------------------------------------------
/// An agent counts as waiting exactly where it ran, called a tool last, and has
/// been silent for as long as the wait asks.
pub proof fn law_waiting_means_silent_after_tool_call(
    file: CodexFileView,
    names: Map<Seq<char>, Seq<char>>,
    now: Timestamp,
)
    ensures
        thread_in(file, names, now) matches Some(thread) ==> {
            let scan = transcript_scan(file, names);
            thread.status is Waiting <==> {
                &&& scan.status is Running
                &&& scan.after_tool_call
                &&& passed(file.modified_at, now, WAIT_AFTER_TOOL_CALL)
            }
        },
{
    let start = fresh_scan(name_in(names, thread_id_of(file.path)));
    lemma_scan_never_waits(start, lines(file.content));
}

proof fn lemma_scan_never_waits(scan: ScanView, lines: Seq<Seq<char>>)
    requires
        !(scan.status is Waiting),
    ensures
        !(scanned_lines(scan, lines).status is Waiting),
    decreases lines.len(),
{
    if lines.len() > 0 {
        lemma_scan_never_waits(scan, lines.drop_last());
        match json_of_text(lines.last()) {
            Some(entry) => law_entry_is_running_or_done(entry),
            None => {},
        }
    }
}

/// A name that the index gives to a thread wins over every name in its
/// transcript.
pub proof fn law_index_name_wins(
    file: CodexFileView,
    names: Map<Seq<char>, Seq<char>>,
    now: Timestamp,
)
    requires
        names.dom().contains(thread_id_of(file.path)),
    ensures
        thread_in(file, names, now) matches Some(thread) ==> thread.thread_name == Some(
            names[thread_id_of(file.path)],
        ),
{
    let start = fresh_scan(name_in(names, thread_id_of(file.path)));
    lemma_name_stays(start, lines(file.content));
}

proof fn lemma_name_stays(scan: ScanView, lines: Seq<Seq<char>>)
    requires
        scan.thread_name is Some,
    ensures
        scanned_lines(scan, lines).thread_name == scan.thread_name,
    decreases lines.len(),
{
    if lines.len() > 0 {
        lemma_name_stays(scan, lines.drop_last());
    }
}

/// The directory of a thread is the first that its transcript tells, in its
/// normal form: what follows changes nothing.
pub proof fn law_first_directory_wins(scan: ScanView, lines: Seq<Seq<char>>, more: Seq<Seq<char>>)
    requires
        scanned_lines(scan, lines).project_dir is Some,
    ensures
        scanned_lines(scan, lines + more).project_dir == scanned_lines(scan, lines).project_dir,
    decreases more.len(),
{
    if more.len() == 0 {
        assert(lines + more =~= lines);
    } else {
        assert((lines + more).drop_last() =~= lines + more.drop_last());
        law_first_directory_wins(scan, lines, more.drop_last());
    }
}

/// No thread is idle.
pub proof fn law_thread_is_never_idle(
    file: CodexFileView,
    names: Map<Seq<char>, Seq<char>>,
    now: Timestamp,
)
    ensures
        thread_in(file, names, now) matches Some(thread) ==> !(thread.status is Idle),
{
}

/// The directory of a thread is in its normal form.
pub proof fn law_project_dir_is_normal(
    file: CodexFileView,
    names: Map<Seq<char>, Seq<char>>,
    now: Timestamp,
)
    ensures
        thread_in(file, names, now) matches Some(thread) ==> normalized(thread.project_dir)
            == thread.project_dir,
{
    let start = fresh_scan(name_in(names, thread_id_of(file.path)));
    lemma_dir_is_normal(start, lines(file.content));
}

proof fn lemma_dir_is_normal(scan: ScanView, lines: Seq<Seq<char>>)
    requires
        scan.project_dir matches Some(dir) ==> normalized(dir) == dir,
    ensures
        scanned_lines(scan, lines).project_dir matches Some(dir) ==> normalized(dir) == dir,
    decreases lines.len(),
{
    if lines.len() > 0 {
        lemma_dir_is_normal(scan, lines.drop_last());
        match json_of_text(lines.last()) {
            Some(entry) => match entry_project_dir(entry) {
                Some(dir) => law_normalize_is_idempotent(dir),
                None => {},
            },
            None => {},
        }
    }
}

/// Every thread comes from a transcript among the files.
pub proof fn law_threads_come_from_transcripts(
    files: Seq<CodexFileView>,
    names: Map<Seq<char>, Seq<char>>,
    now: Timestamp,
    i: int,
) -> (j: int)
    requires
        0 <= i < threads_in(files, names, now).len(),
    ensures
        0 <= j < files.len(),
        files[j].kind is Transcript,
        thread_in(files[j], names, now) == Some(threads_in(files, names, now)[i]),
    decreases files.len(),
{
    let front = threads_in(files.drop_last(), names, now);
    if i < front.len() {
        let j = law_threads_come_from_transcripts(files.drop_last(), names, now, i);
        assert(files.drop_last()[j] == files[j]);
        j
    } else {
        files.len() - 1
    }
}

/// Whether a line of a transcript tells a state.
pub open spec fn tells_state(line: Seq<char>) -> bool {
    json_of_text(line) matches Some(entry) && entry_status(entry) is Some
}

/// An entry that tells a state decides the state, whatever was told before; any other
/// entry leaves it as it is. So it is with whether a call of a tool came last.
pub proof fn law_entry_decides_the_state(scan: ScanView, entry: JsonView)
    ensures
        entry_status(entry) matches Some(status) ==> {
            &&& scanned(scan, entry).status == status
            &&& scanned(scan, entry).after_tool_call == is_tool_call(entry)
        },
        entry_status(entry) is None ==> {
            &&& scanned(scan, entry).status == scan.status
            &&& scanned(scan, entry).after_tool_call == scan.after_tool_call
        },
{
}

/// An entry names the directory and the thread only where nothing did before it.
pub proof fn law_first_entry_names(scan: ScanView, entry: JsonView)
    ensures
        scan.project_dir is Some ==> scanned(scan, entry).project_dir == scan.project_dir,
        scan.thread_name is Some ==> scanned(scan, entry).thread_name == scan.thread_name,
        scan.project_dir is None ==> match entry_project_dir(entry) {
            Some(dir) => scanned(scan, entry).project_dir == Some(normalized(dir)),
            None => scanned(scan, entry).project_dir is None,
        },
        scan.thread_name is None ==> scanned(scan, entry).thread_name == entry_thread_name(entry),
{
}

/// The state after all lines is the one that the last line tells that tells one,
/// independent of what any earlier line told and of where the scan began.
pub proof fn law_last_told_state_counts(
    scan: ScanView,
    lines: Seq<Seq<char>>,
    i: int,
    entry: JsonView,
)
    requires
        0 <= i < lines.len(),
        json_of_text(lines[i]) == Some(entry),
        entry_status(entry) is Some,
        forall|j: int| i < j < lines.len() ==> !tells_state(#[trigger] lines[j]),
    ensures
        Some(scanned_lines(scan, lines).status) == entry_status(entry),
        scanned_lines(scan, lines).after_tool_call == is_tool_call(entry),
    decreases lines.len(),
{
    let front = lines.drop_last();
    if i < front.len() {
        assert(front[i] == lines[i]);
        assert forall|j: int| i < j < front.len() implies !tells_state(#[trigger] front[j]) by {
            assert(front[j] == lines[j]);
        }
        law_last_told_state_counts(scan, front, i, entry);
        assert(!tells_state(lines[lines.len() - 1]));
    }
}

/// Lines that tell no state leave the scan in the state in which it began.
pub proof fn law_untold_state_stays(scan: ScanView, lines: Seq<Seq<char>>)
    requires
        forall|j: int| 0 <= j < lines.len() ==> !tells_state(#[trigger] lines[j]),
    ensures
        scanned_lines(scan, lines).status == scan.status,
        scanned_lines(scan, lines).after_tool_call == scan.after_tool_call,
    decreases lines.len(),
{
    if lines.len() > 0 {
        let front = lines.drop_last();
        assert forall|j: int| 0 <= j < front.len() implies !tells_state(#[trigger] front[j]) by {
            assert(front[j] == lines[j]);
        }
        law_untold_state_stays(scan, front);
        assert(!tells_state(lines[lines.len() - 1]));
    }
}

/// The directory that a scan finds is the one that the first line tells that tells
/// one, in its normal form.
pub proof fn law_first_told_directory_counts(
    scan: ScanView,
    lines: Seq<Seq<char>>,
    i: int,
    entry: JsonView,
    dir: Seq<char>,
)
    requires
        scan.project_dir is None,
        0 <= i < lines.len(),
        json_of_text(lines[i]) == Some(entry),
        entry_project_dir(entry) == Some(dir),
        forall|j: int|
            0 <= j < i ==> (json_of_text(#[trigger] lines[j]) matches Some(other)
                ==> entry_project_dir(other) is None),
    ensures
        scanned_lines(scan, lines).project_dir == Some(normalized(dir)),
    decreases lines.len(),
{
    let front = lines.drop_last();
    assert forall|j: int| 0 <= j < front.len() implies #[trigger] front[j] == lines[j] by {}
    if i < front.len() {
        law_first_told_directory_counts(scan, front, i, entry, dir);
    } else {
        law_untold_directory_stays(scan, front);
    }
}

/// Lines that tell no directory leave the directory as it was.
pub proof fn law_untold_directory_stays(scan: ScanView, lines: Seq<Seq<char>>)
    requires
        forall|j: int|
            0 <= j < lines.len() ==> (json_of_text(#[trigger] lines[j]) matches Some(other)
                ==> entry_project_dir(other) is None),
    ensures
        scanned_lines(scan, lines).project_dir == scan.project_dir,
    decreases lines.len(),
{
    if lines.len() > 0 {
        let front = lines.drop_last();
        assert forall|j: int| 0 <= j < front.len() implies #[trigger] front[j] == lines[j] by {}
        law_untold_directory_stays(scan, front);
        assert(lines[lines.len() - 1] == lines.last());
    }
}

/// The name that a scan finds is the one that the first line gives that gives one.
pub proof fn law_first_given_name_counts(
    scan: ScanView,
    lines: Seq<Seq<char>>,
    i: int,
    entry: JsonView,
    name: Seq<char>,
)
    requires
        scan.thread_name is None,
        0 <= i < lines.len(),
        json_of_text(lines[i]) == Some(entry),
        entry_thread_name(entry) == Some(name),
        forall|j: int|
            0 <= j < i ==> (json_of_text(#[trigger] lines[j]) matches Some(other)
                ==> entry_thread_name(other) is None),
    ensures
        scanned_lines(scan, lines).thread_name == Some(name),
    decreases lines.len(),
{
    let front = lines.drop_last();
    assert forall|j: int| 0 <= j < front.len() implies #[trigger] front[j] == lines[j] by {}
    if i < front.len() {
        law_first_given_name_counts(scan, front, i, entry, name);
    } else {
        law_ungiven_name_stays(scan, front);
    }
}

/// Lines that give no name leave the name as it was.
pub proof fn law_ungiven_name_stays(scan: ScanView, lines: Seq<Seq<char>>)
    requires
        forall|j: int|
            0 <= j < lines.len() ==> (json_of_text(#[trigger] lines[j]) matches Some(other)
                ==> entry_thread_name(other) is None),
    ensures
        scanned_lines(scan, lines).thread_name == scan.thread_name,
    decreases lines.len(),
{
    if lines.len() > 0 {
        let front = lines.drop_last();
        assert forall|j: int| 0 <= j < front.len() implies #[trigger] front[j] == lines[j] by {}
        law_ungiven_name_stays(scan, front);
        assert(lines[lines.len() - 1] == lines.last());
    }
}

/// A thread lies where its transcript lies, has the id that the name of the
/// transcript carries, and changed last when the transcript did.
pub proof fn law_thread_tells_its_transcript(
    file: CodexFileView,
    names: Map<Seq<char>, Seq<char>>,
    now: Timestamp,
)
    ensures
        thread_in(file, names, now) matches Some(thread) ==> {
            &&& thread.transcript_path == file.path
            &&& thread.thread_id == thread_id_of(file.path)
            &&& thread.updated_at == file.modified_at
        },
{
}

/// A transcript tells of no thread where no line of it tells a state, or none tells a
/// directory.
pub proof fn law_thread_needs_directory_and_state(
    file: CodexFileView,
    names: Map<Seq<char>, Seq<char>>,
    now: Timestamp,
)
    ensures
        (forall|j: int|
            0 <= j < lines(file.content).len() ==> !tells_state(
                #[trigger] lines(file.content)[j],
            )) ==> thread_in(file, names, now) is None,
        (forall|j: int|
            0 <= j < lines(file.content).len() ==> (json_of_text(
                #[trigger] lines(file.content)[j],
            ) matches Some(other) ==> entry_project_dir(other) is None)) ==> thread_in(
            file,
            names,
            now,
        ) is None,
{
    let start = fresh_scan(name_in(names, thread_id_of(file.path)));
    let all = lines(file.content);
    if forall|j: int| 0 <= j < all.len() ==> !tells_state(#[trigger] all[j]) {
        law_untold_state_stays(start, all);
    }
    if forall|j: int|
        0 <= j < all.len() ==> (json_of_text(#[trigger] all[j]) matches Some(other)
            ==> entry_project_dir(other) is None) {
        law_untold_directory_stays(start, all);
    }
}

/// A transcript whose line `d` is the first to tell a directory and whose line `s` is
/// the last to tell a state tells of a thread in that directory. The thread is done
/// where that state is; where it runs, it waits if line `s` is a call of a tool and
/// three seconds have passed since the transcript changed, and runs otherwise.
pub proof fn law_thread_state_is_told_last(
    file: CodexFileView,
    names: Map<Seq<char>, Seq<char>>,
    now: Timestamp,
    d: int,
    meta: JsonView,
    dir: Seq<char>,
    s: int,
    entry: JsonView,
)
    requires
        0 <= d < lines(file.content).len(),
        json_of_text(lines(file.content)[d]) == Some(meta),
        entry_project_dir(meta) == Some(dir),
        forall|j: int|
            0 <= j < d ==> (json_of_text(#[trigger] lines(file.content)[j]) matches Some(other)
                ==> entry_project_dir(other) is None),
        0 <= s < lines(file.content).len(),
        json_of_text(lines(file.content)[s]) == Some(entry),
        entry_status(entry) is Some,
        forall|j: int|
            s < j < lines(file.content).len() ==> !tells_state(
                #[trigger] lines(file.content)[j],
            ),
    ensures
        thread_in(file, names, now) matches Some(thread) && {
            &&& thread.project_dir == normalized(dir)
            &&& thread.status == (if entry_status(entry) == Some(AgentStatusKind::Done) {
                AgentStatusKind::Done
            } else if is_tool_call(entry) && now.secs - file.modified_at >= 3 {
                AgentStatusKind::Waiting
            } else {
                AgentStatusKind::Running
            })
        },
{
    let start = fresh_scan(name_in(names, thread_id_of(file.path)));
    let all = lines(file.content);
    law_first_told_directory_counts(start, all, d, meta, dir);
    law_last_told_state_counts(start, all, s, entry);
    law_entry_is_running_or_done(entry);
}

/// A thread that the index does not name has the name that the first line gives that
/// gives one, and none where no line does.
pub proof fn law_thread_is_named_by_its_transcript(
    file: CodexFileView,
    names: Map<Seq<char>, Seq<char>>,
    now: Timestamp,
)
    requires
        !names.dom().contains(thread_id_of(file.path)),
    ensures
        thread_in(file, names, now) matches Some(thread) ==> match thread.thread_name {
            Some(name) => exists|i: int|
                0 <= i < lines(file.content).len() && gives_name(
                    #[trigger] lines(file.content)[i],
                    name,
                ) && forall|j: int|
                    0 <= j < i ==> (json_of_text(#[trigger] lines(file.content)[j]) matches Some(
                        other,
                    ) ==> entry_thread_name(other) is None),
            None => forall|j: int|
                0 <= j < lines(file.content).len() ==> (json_of_text(
                    #[trigger] lines(file.content)[j],
                ) matches Some(other) ==> entry_thread_name(other) is None),
        },
{
    lemma_name_found(fresh_scan(None), lines(file.content));
}

/// Whether a line of a transcript gives its thread a name.
pub open spec fn gives_name(line: Seq<char>, name: Seq<char>) -> bool {
    json_of_text(line) matches Some(entry) && entry_thread_name(entry) == Some(name)
}

proof fn lemma_name_found(scan: ScanView, lines: Seq<Seq<char>>)
    requires
        scan.thread_name is None,
    ensures
        match scanned_lines(scan, lines).thread_name {
            Some(name) => exists|i: int|
                0 <= i < lines.len() && gives_name(#[trigger] lines[i], name) && forall|j: int|
                    0 <= j < i ==> (json_of_text(#[trigger] lines[j]) matches Some(other)
                        ==> entry_thread_name(other) is None),
            None => forall|j: int|
                0 <= j < lines.len() ==> (json_of_text(#[trigger] lines[j]) matches Some(other)
                    ==> entry_thread_name(other) is None),
        },
    decreases lines.len(),
{
    if lines.len() > 0 {
        let front = lines.drop_last();
        let last = lines.len() - 1;
        lemma_name_found(scan, front);
        assert forall|j: int| 0 <= j < last implies #[trigger] lines[j] == front[j] by {}
        assert(lines[last] == lines.last());
        match scanned_lines(scan, front).thread_name {
            Some(name) => {
                let i = choose|i: int|
                    0 <= i < front.len() && gives_name(#[trigger] front[i], name) && forall|j: int|
                        0 <= j < i ==> (json_of_text(#[trigger] front[j]) matches Some(other)
                            ==> entry_thread_name(other) is None);
                assert(gives_name(lines[i], name));
                assert forall|j: int| 0 <= j < i implies (json_of_text(
                    #[trigger] lines[j],
                ) matches Some(other) ==> entry_thread_name(other) is None) by {
                    assert(front[j] == lines[j]);
                }
            },
            None => {
                assert forall|j: int| 0 <= j < last implies (json_of_text(
                    #[trigger] lines[j],
                ) matches Some(other) ==> entry_thread_name(other) is None) by {
                    assert(front[j] == lines[j]);
                }
                if scanned_lines(scan, lines).thread_name is Some {
                    assert(gives_name(lines[last], scanned_lines(scan, lines).thread_name->0));
                }
            },
        }
    }
}

/// Every transcript among the files that tells of a thread has its thread among the
/// threads, in the order of the files, and no other file has.
pub proof fn law_threads_are_those_of_the_transcripts(
    files: Seq<CodexFileView>,
    names: Map<Seq<char>, Seq<char>>,
    now: Timestamp,
)
    ensures
        threads_in(files, names, now) == files.filter(
            |file: CodexFileView| file.kind is Transcript && thread_in(file, names, now) is Some,
        ).map_values(|file: CodexFileView| thread_in(file, names, now)->0),
    decreases files.len(),
{
    let wanted = |file: CodexFileView|
        file.kind is Transcript && thread_in(file, names, now) is Some;
    let made = |file: CodexFileView| thread_in(file, names, now)->0;
    reveal(Seq::filter);
    if files.len() > 0 {
        law_threads_are_those_of_the_transcripts(files.drop_last(), names, now);
        let front = files.drop_last().filter(wanted);
        if wanted(files.last()) {
            assert(front.push(files.last()).map_values(made) =~= front.map_values(made).push(
                made(files.last()),
            ));
        }
    } else {
        assert(files.filter(wanted).map_values(made) =~= threads_in(files, names, now));
    }
}

/// Whether a line of an index gives a thread a name.
pub open spec fn names_thread(line: Seq<char>, id: Seq<char>, name: Seq<char>) -> bool {
    json_of_text(line) matches Some(entry) && entry.text_field("id"@) == Some(id)
        && entry.text_field("thread_name"@) == Some(name)
}

/// Of the lines of an index that name a thread the last counts, whatever was known
/// before.
pub proof fn law_last_index_line_counts(
    names: Map<Seq<char>, Seq<char>>,
    lines: Seq<Seq<char>>,
    i: int,
    id: Seq<char>,
    name: Seq<char>,
)
    requires
        0 <= i < lines.len(),
        names_thread(lines[i], id, name),
        forall|j: int, other: Seq<char>|
            i < j < lines.len() ==> !#[trigger] names_thread(lines[j], id, other),
    ensures
        with_index_lines(names, lines).dom().contains(id),
        with_index_lines(names, lines)[id] == name,
    decreases lines.len(),
{
    let front = lines.drop_last();
    if i < front.len() {
        assert(front[i] == lines[i]);
        assert forall|j: int, other: Seq<char>| i < j < front.len() implies !#[trigger] names_thread(
            front[j],
            id,
            other,
        ) by {
            assert(!names_thread(lines[j], id, other));
        }
        law_last_index_line_counts(names, front, i, id, name);
        match json_of_text(lines.last()) {
            Some(entry) => {
                if entry.text_field("thread_name"@) is Some {
                    assert(!names_thread(
                        lines[lines.len() - 1],
                        id,
                        entry.text_field("thread_name"@)->0,
                    ));
                }
            },
            None => {},
        }
    }
}

/// What no line of an index names stays as it was.
pub proof fn law_index_names_nothing_else(
    names: Map<Seq<char>, Seq<char>>,
    lines: Seq<Seq<char>>,
    id: Seq<char>,
)
    requires
        forall|j: int, other: Seq<char>|
            0 <= j < lines.len() ==> !#[trigger] names_thread(lines[j], id, other),
    ensures
        with_index_lines(names, lines).dom().contains(id) == names.dom().contains(id),
        names.dom().contains(id) ==> with_index_lines(names, lines)[id] == names[id],
    decreases lines.len(),
{
    if lines.len() > 0 {
        let front = lines.drop_last();
        assert forall|j: int, other: Seq<char>| 0 <= j < front.len() implies !#[trigger] names_thread(
            front[j],
            id,
            other,
        ) by {
            assert(!names_thread(lines[j], id, other));
        }
        law_index_names_nothing_else(names, front, id);
        match json_of_text(lines.last()) {
            Some(entry) => {
                if entry.text_field("thread_name"@) is Some {
                    assert(!names_thread(
                        lines[lines.len() - 1],
                        id,
                        entry.text_field("thread_name"@)->0,
                    ));
                }
            },
            None => {},
        }
    }
}

/// Without files there are no names. A transcript gives none, and of two indexes the
/// later counts where both name a thread.
pub proof fn law_only_indexes_name_threads(files: Seq<CodexFileView>, file: CodexFileView)
    ensures
        index_names(Seq::empty()) == Map::<Seq<char>, Seq<char>>::empty(),
        file.kind is Transcript ==> index_names(files.push(file)) == index_names(files),
        file.kind is Index ==> forall|i: int, id: Seq<char>, name: Seq<char>|
            0 <= i < lines(file.content).len() && #[trigger] names_thread(
                lines(file.content)[i],
                id,
                name,
            ) && (forall|j: int, other: Seq<char>|
                i < j < lines(file.content).len() ==> !#[trigger] names_thread(
                    lines(file.content)[j],
                    id,
                    other,
                )) ==> index_names(files.push(file)).dom().contains(id) && index_names(
                files.push(file),
            )[id] == name,
        file.kind is Index ==> forall|id: Seq<char>|
            (forall|j: int, other: Seq<char>|
                0 <= j < lines(file.content).len() ==> !#[trigger] names_thread(
                    lines(file.content)[j],
                    id,
                    other,
                )) ==> {
                &&& (#[trigger] index_names(files.push(file)).dom().contains(id)) == index_names(
                    files,
                ).dom().contains(id)
                &&& index_names(files).dom().contains(id) ==> index_names(files.push(file))[id]
                    == index_names(files)[id]
            },
{
    assert(files.push(file).drop_last() =~= files);
    let all = lines(file.content);
    let before = index_names(files);
    if file.kind is Index {
        assert forall|i: int, id: Seq<char>, name: Seq<char>|
            0 <= i < all.len() && #[trigger] names_thread(all[i], id, name) && (forall|
                j: int,
                other: Seq<char>,
            |
                i < j < all.len() ==> !#[trigger] names_thread(
                    all[j],
                    id,
                    other,
                )) implies index_names(files.push(file)).dom().contains(id) && index_names(
            files.push(file),
        )[id] == name by {
            law_last_index_line_counts(before, all, i, id, name);
        }
        assert forall|id: Seq<char>|
            (forall|j: int, other: Seq<char>|
                0 <= j < all.len() ==> !#[trigger] names_thread(all[j], id, other)) implies {
            &&& (#[trigger] index_names(files.push(file)).dom().contains(id))
                == before.dom().contains(id)
            &&& before.dom().contains(id) ==> index_names(files.push(file))[id] == before[id]
        } by {
            law_index_names_nothing_else(before, all, id);
        }
    }
}

/// How often a mark stands in a text.
pub open spec fn marks_in(s: Seq<char>, mark: char) -> nat
    decreases s.len(),
{
    if s.len() == 0 {
        0
    } else {
        marks_in(s.drop_last(), mark) + if s.last() == mark {
            1nat
        } else {
            0
        }
    }
}

proof fn lemma_marks_before_last(s: Seq<char>, mark: char)
    ensures
        last_position(s, mark) < 0 ==> marks_in(s, mark) == 0,
        last_position(s, mark) >= 0 ==> marks_in(s, mark) == marks_in(
            s.take(last_position(s, mark)),
            mark,
        ) + 1,
    decreases s.len(),
{
    if s.len() > 0 {
        law_last_position(s, mark);
        let at = last_position(s, mark);
        lemma_marks_before_last(s.drop_last(), mark);
        if s.last() == mark {
            assert(s.take(at) =~= s.drop_last());
        } else if at >= 0 {
            assert(s.drop_last().take(at) =~= s.take(at));
        }
    }
}

proof fn lemma_last_parts(s: Seq<char>, mark: char, count: nat)
    requires
        count > 0,
    ensures
        0 <= last_parts_from(s, mark, count) <= s.len(),
        last_parts_from(s, mark, count) == 0 ==> marks_in(s, mark) < count,
        last_parts_from(s, mark, count) > 0 ==> {
            let from = last_parts_from(s, mark, count);
            s[from - 1] == mark && marks_in(s.skip(from), mark) == count - 1
        },
    decreases count,
{
    law_last_position(s, mark);
    lemma_marks_before_last(s, mark);
    let at = last_position(s, mark);
    let from = last_parts_from(s, mark, count);
    if at >= 0 {
        let tail = s.skip(from);
        if count == 1 {
            law_last_position(tail, mark);
            if last_position(tail, mark) >= 0 {
                assert(tail[last_position(tail, mark)] == s[last_position(tail, mark) + from]);
            }
            lemma_marks_before_last(tail, mark);
        } else {
            let front = s.take(at);
            lemma_last_parts(front, mark, (count - 1) as nat);
            if from > 0 {
                assert(front[from - 1] == s[from - 1]);
                assert(tail[at - from] == mark);
                assert forall|i: int| at - from < i < tail.len() implies tail[i] != mark by {
                    assert(s[i + from] != mark);
                }
                lemma_last_position_is(tail, mark, at - from);
                lemma_marks_before_last(tail, mark);
                assert(tail.take(at - from) =~= front.skip(from));
            }
        }
    }
}

/// The id of a thread is the end of the stem of its file name, from behind the fifth
/// dash from the right on; the whole stem where it has fewer than five dashes.
pub proof fn law_thread_id_is_the_end_of_the_stem(path: Seq<char>) -> (from: int)
    ensures
        0 <= from <= stem_of_path(path).len(),
        thread_id_of(path) == stem_of_path(path).skip(from),
        from == 0 <==> marks_in(stem_of_path(path), '-') < 5,
        from > 0 ==> stem_of_path(path)[from - 1] == '-' && marks_in(thread_id_of(path), '-') == 4,
{
    let stem = stem_of_path(path);
    lemma_last_parts(stem, '-', THREAD_ID_PARTS as nat);
    let from = last_parts_from(stem, '-', THREAD_ID_PARTS as nat);
    if from > 0 {
        lemma_marks_of_end(stem, '-', from);
    }
    from
}

proof fn lemma_marks_of_end(s: Seq<char>, mark: char, from: int)
    requires
        0 < from <= s.len(),
        s[from - 1] == mark,
    ensures
        marks_in(s, mark) > marks_in(s.skip(from), mark),
    decreases s.len(),
{
    if from == s.len() {
        assert(s.skip(from) =~= Seq::<char>::empty());
    } else {
        lemma_marks_of_end(s.drop_last(), mark, from);
        assert(s.skip(from).drop_last() =~= s.drop_last().skip(from));
    }
}

/// A scan begins without a state, a directory or a call of a tool, and with the name
/// that is known.
pub proof fn law_scan_begins_with_the_known_name(thread_name: Option<Seq<char>>)
    ensures
        fresh_scan(thread_name).status is Idle,
        fresh_scan(thread_name).project_dir is None,
        fresh_scan(thread_name).thread_name == thread_name,
        !fresh_scan(thread_name).after_tool_call,
{
}

} // verus!
