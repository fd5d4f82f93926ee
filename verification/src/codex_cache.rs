//! What is kept on disk between runs, and where.

use vstd::prelude::*;

use crate::path::{join_path, join_paths};
use crate::sorted_map::SortedMap;
use crate::status::AgentStatusKind;
use crate::text::{copy_text, maybe_str, maybe_text};

verus! {

/// What a `CachedThreadRecord` says.
pub struct ThreadRecordView {
    pub transcript_path: Seq<char>,
    pub file_size: u64,
    pub modified_at: u64,
    pub thread_id: Seq<char>,
    pub thread_name: Option<Seq<char>>,
    pub project_dir: Seq<char>,
    pub status: AgentStatusKind,
    pub updated_at: u64,
}

/// A thread as its transcript told it when it was read last.
#[derive(Debug)]
pub struct CachedThreadRecord {
    pub transcript_path: String,
    pub file_size: u64,
    pub modified_at: u64,
    pub thread_id: String,
    pub thread_name: Option<String>,
    pub project_dir: String,
    pub status: AgentStatusKind,
    pub updated_at: u64,
}

impl View for CachedThreadRecord {
    type V = ThreadRecordView;

    open spec fn view(&self) -> ThreadRecordView {
        ThreadRecordView {
            transcript_path: self.transcript_path@,
            file_size: self.file_size,
            modified_at: self.modified_at,
            thread_id: self.thread_id@,
            thread_name: maybe_text(self.thread_name),
            project_dir: self.project_dir@,
            status: self.status,
            updated_at: self.updated_at,
        }
    }
}

impl Clone for CachedThreadRecord {
    fn clone(&self) -> (copy: CachedThreadRecord)
        ensures
            copy@ == self@,
    {
        CachedThreadRecord {
            transcript_path: self.transcript_path.clone(),
            file_size: self.file_size,
            modified_at: self.modified_at,
            thread_id: self.thread_id.clone(),
            thread_name: copy_text(&self.thread_name),
            project_dir: self.project_dir.clone(),
            status: self.status,
            updated_at: self.updated_at,
        }
    }
}

/// What a `CachedPaneBinding` says.
pub struct PaneRecordView {
    pub pane_id: Seq<char>,
    pub pid: u32,
    pub cwd: Seq<char>,
    pub transcript_path: Seq<char>,
    pub last_seen_at: u64,
}

/// A pane with the process and the transcript that it showed last.
#[derive(Debug)]
pub struct CachedPaneBinding {
    pub pane_id: String,
    pub pid: u32,
    pub cwd: String,
    pub transcript_path: String,
    pub last_seen_at: u64,
}

impl View for CachedPaneBinding {
    type V = PaneRecordView;

    open spec fn view(&self) -> PaneRecordView {
        PaneRecordView {
            pane_id: self.pane_id@,
            pid: self.pid,
            cwd: self.cwd@,
            transcript_path: self.transcript_path@,
            last_seen_at: self.last_seen_at,
        }
    }
}

impl Clone for CachedPaneBinding {
    fn clone(&self) -> (copy: CachedPaneBinding)
        ensures
            copy@ == self@,
    {
        CachedPaneBinding {
            pane_id: self.pane_id.clone(),
            pid: self.pid,
            cwd: self.cwd.clone(),
            transcript_path: self.transcript_path.clone(),
            last_seen_at: self.last_seen_at,
        }
    }
}

/// All threads and panes that are kept on disk.
#[derive(Debug)]
pub struct CodexCache {
    pub threads: SortedMap<String, CachedThreadRecord>,
    pub bindings: SortedMap<String, CachedPaneBinding>,
}

impl Clone for CodexCache {
    fn clone(&self) -> (copy: CodexCache)
        ensures
            copy.threads@ == self.threads@,
            copy.bindings@ == self.bindings@,
    {
        CodexCache { threads: self.threads.clone(), bindings: self.bindings.clone() }
    }
}

impl Default for CodexCache {
    fn default() -> (cache: CodexCache)
        ensures
            cache.threads@ == Map::<Seq<char>, ThreadRecordView>::empty(),
            cache.bindings@ == Map::<Seq<char>, PaneRecordView>::empty(),
    {
        CodexCache { threads: SortedMap::new(), bindings: SortedMap::new() }
    }
}

/// The home directory; the current one where there is none.
pub open spec fn home_of(home: Option<Seq<char>>) -> Seq<char> {
    match home {
        Some(dir) => dir,
        None => "."@,
    }
}

/// The directory for what is kept on disk.
pub open spec fn state_dir_of(home: Option<Seq<char>>) -> Seq<char> {
    join_paths(home_of(home), ".local/state/zeldex"@)
}

/// The home directory; the current one where there is none.
pub fn home_dir(home: Option<&str>) -> (dir: String)
    ensures
        dir@ == home_of(maybe_str(home)),
{
    match home {
        Some(dir) => dir.to_owned(),
        None => ".".to_owned(),
    }
}

/// The directory for what is kept on disk.
pub fn state_dir(home: Option<&str>) -> (dir: String)
    ensures
        dir@ == state_dir_of(maybe_str(home)),
{
    let dir = home_dir(home);
    join_path(dir.as_str(), ".local/state/zeldex")
}

/// The file for threads and panes.
pub fn codex_cache_path(home: Option<&str>) -> (path: String)
    ensures
        path@ == join_paths(state_dir_of(maybe_str(home)), "codex-cache.json"@),
{
    let dir = state_dir(home);
    join_path(dir.as_str(), "codex-cache.json")
}

// ---------------------------------------------------------------------------
// Laws
// ---------------------------------------------------------------------------
/// What is kept on disk lies under the home directory, and under the current one where
/// there is none.
pub proof fn law_state_lies_under_home(home: Seq<char>)
    requires
        home.len() > 0,
        home.last() != '/',
    ensures
        state_dir_of(Some(home)) == home + "/.local/state/zeldex"@,
        state_dir_of(None) == "./.local/state/zeldex"@,
        home_of(Some(home)) == home,
{
    reveal_strlit(".local/state/zeldex");
    reveal_strlit("/.local/state/zeldex");
    reveal_strlit("./.local/state/zeldex");
    reveal_strlit(".");
    assert(home.push('/') + ".local/state/zeldex"@ =~= home + "/.local/state/zeldex"@);
    assert("."@.push('/') + ".local/state/zeldex"@ =~= "./.local/state/zeldex"@);
}

} // verus!
