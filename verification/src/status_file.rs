//! The states of all panes at one moment.

use vstd::prelude::*;

use crate::sorted_map::SortedMap;
use crate::status::AgentStatusKind;
use crate::text::{copy_text, maybe_text};

verus! {

/// What a `PaneStatusEntry` says.
pub struct PaneStatusView {
    pub pane_id: Seq<char>,
    pub status: AgentStatusKind,
    pub updated_at: u64,
    pub thread_id: Option<Seq<char>>,
    pub thread_name: Option<Seq<char>>,
}

/// The state of the agent in one pane.
#[derive(Debug)]
pub struct PaneStatusEntry {
    pub pane_id: String,
    pub status: AgentStatusKind,
    pub updated_at: u64,
    pub thread_id: Option<String>,
    pub thread_name: Option<String>,
}

impl View for PaneStatusEntry {
    type V = PaneStatusView;

    open spec fn view(&self) -> PaneStatusView {
        PaneStatusView {
            pane_id: self.pane_id@,
            status: self.status,
            updated_at: self.updated_at,
            thread_id: maybe_text(self.thread_id),
            thread_name: maybe_text(self.thread_name),
        }
    }
}

impl Clone for PaneStatusEntry {
    fn clone(&self) -> (copy: PaneStatusEntry)
        ensures
            copy@ == self@,
    {
        PaneStatusEntry {
            pane_id: self.pane_id.clone(),
            status: self.status,
            updated_at: self.updated_at,
            thread_id: copy_text(&self.thread_id),
            thread_name: copy_text(&self.thread_name),
        }
    }
}

/// What a `StatusSnapshot` says.
pub struct SnapshotView {
    pub panes: Map<Seq<char>, PaneStatusView>,
    pub updated_at: u64,
}

/// The states of the agents in all panes, by pane.
#[derive(Debug)]
pub struct StatusSnapshot {
    pub panes: SortedMap<String, PaneStatusEntry>,
    pub updated_at: u64,
}

impl View for StatusSnapshot {
    type V = SnapshotView;

    open spec fn view(&self) -> SnapshotView {
        SnapshotView { panes: self.panes@, updated_at: self.updated_at }
    }
}

impl Clone for StatusSnapshot {
    fn clone(&self) -> (copy: StatusSnapshot)
        ensures
            copy@ == self@,
    {
        StatusSnapshot { panes: self.panes.clone(), updated_at: self.updated_at }
    }
}

impl Default for StatusSnapshot {
    fn default() -> (snapshot: StatusSnapshot)
        ensures
            snapshot@.panes == Map::<Seq<char>, PaneStatusView>::empty(),
            snapshot@.updated_at == 0,
    {
        StatusSnapshot { panes: SortedMap::new(), updated_at: 0 }
    }
}

} // verus!
