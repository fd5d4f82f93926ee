//! The sidebar itself: what it keeps of the session, how it answers what happens
//! there, and what it shows.

use std::collections::BTreeSet;

use vstd::prelude::*;

use crate::codex::{
    bindings_after, collect_status_snapshot, snapshot_of, target_views, BindingView, PaneTarget,
    PaneTargetView, RefreshCache,
};
use crate::codex_file::{file_views, CodexFile, CodexFileView};
use crate::panes::{
    agent_count_for_tab, agents_in, collect_statuses, find_naming_terminal, find_tracked_panes,
    list_terminals, naming_terminal, pane_cwd_views, status_for_tab, statuses_of, tab_name,
    tab_status, tab_title, tab_views, targets_among, terminals_in, tracked_in,
    tracked_pane_set_changed, visible_pane_targets, Pane, PaneCwd, PaneCwdView, Tab, TabView,
    TrackedPane,
};
use crate::render::{
    law_rows_lead_to_their_tabs, notice_screen, render_notice, render_sidebar, shown_count, sidebar_screen, tab_line_views,
    ScreenView, SidebarMode, SidebarModeView, TabLine, TabLineView,
};
use crate::sorted_map::{lemma_pairs_has, pairs_map, SortedMap};
use crate::status::{asks_attention, AgentStatusKind};
use crate::status_file::{PaneStatusView, SnapshotView, StatusSnapshot};
use crate::text::{maybe_str, maybe_text, same_text, texts};
use crate::time::Timestamp;

verus! {

/// Whether the user let the plugin read the session.
#[derive(Clone, Copy, Debug, PartialEq, Eq, Structural)]
pub enum PermissionState {
    Pending,
    Granted,
    Denied,
}

impl Default for PermissionState {
    fn default() -> (state: PermissionState)
        ensures
            state is Pending,
    {
        PermissionState::Pending
    }
}

/// What a `Sidebar` says.
pub struct SidebarView {
    pub tabs: Seq<TabView>,
    pub panes_by_tab: Seq<(usize, Seq<Pane>)>,
    pub tracked_panes: Map<u32, TrackedPane>,
    pub unread_tabs: Set<usize>,
    pub clickable_rows: Seq<Option<usize>>,
    pub mode: SidebarModeView,
    pub snapshot: SnapshotView,
    pub bindings: Map<Seq<char>, BindingView>,
    pub permission_state: PermissionState,
    pub codex_home: Option<Seq<char>>,
    pub status_error: Option<Seq<char>>,
}

/// The state of the sidebar.
#[derive(Debug)]
pub struct Sidebar {
    pub tabs: Vec<Tab>,
    pub panes_by_tab: SortedMap<usize, Vec<Pane>>,
    pub tracked_panes: SortedMap<u32, TrackedPane>,
    pub unread_tabs: BTreeSet<usize>,
    pub clickable_rows: Vec<Option<usize>>,
    pub mode: SidebarMode,
    pub snapshot: StatusSnapshot,
    pub refresh_cache: RefreshCache,
    pub permission_state: PermissionState,
    pub codex_home: Option<String>,
    pub status_error: Option<String>,
}

impl View for Sidebar {
    type V = SidebarView;

    open spec fn view(&self) -> SidebarView {
        SidebarView {
            tabs: tab_views(self.tabs@),
            panes_by_tab: self.panes_by_tab.pairs(),
            tracked_panes: self.tracked_panes@,
            unread_tabs: self.unread_tabs@,
            clickable_rows: self.clickable_rows@,
            mode: self.mode@,
            snapshot: self.snapshot@,
            bindings: self.refresh_cache@,
            permission_state: self.permission_state,
            codex_home: maybe_text(self.codex_home),
            status_error: maybe_text(self.status_error),
        }
    }
}

/// What is wrong where no directory of Codex was configured.
pub open spec fn missing_home_error() -> Seq<char> {
    "missing codex_home config"@
}

/// The position of the first active tab.
pub open spec fn active_position(tabs: Seq<TabView>) -> Option<usize>
    decreases tabs.len(),
{
    if tabs.len() == 0 {
        None
    } else if tabs[0].active {
        Some(tabs[0].position)
    } else {
        active_position(tabs.drop_first())
    }
}

/// Unread tabs without the active one.
pub open spec fn without_active(unread_tabs: Set<usize>, tabs: Seq<TabView>) -> Set<usize> {
    match active_position(tabs) {
        Some(position) => unread_tabs.remove(position),
        None => unread_tabs,
    }
}

/// Whether the tabs at some positions can be numbered from one on.
pub open spec fn positions_fit(tabs: Seq<TabView>) -> bool {
    forall|i: int| 0 <= i < tabs.len() ==> (#[trigger] tabs[i]).position < usize::MAX
}

impl SidebarView {
    /// What always holds: tabs can be numbered from one on, and the active tab is
    /// never unread.
    pub open spec fn is_sound(self) -> bool {
        &&& positions_fit(self.tabs)
        &&& forall|i: int|
            0 <= i < self.clickable_rows.len() ==> (
            #[trigger] self.clickable_rows[i] matches Some(position) ==> position < usize::MAX)
        &&& active_position(self.tabs) matches Some(position) ==> !self.unread_tabs.contains(
            position,
        )
    }

    /// Whether a notice takes the place of the tabs.
    pub open spec fn shows_notice(self) -> bool {
        !(self.permission_state is Granted) || self.status_error is Some
    }
}

// ---------------------------------------------------------------------------
// The start
// ---------------------------------------------------------------------------
impl Sidebar {
    /// The sidebar before anything is known of the session. The directory of Codex
    /// comes from the configuration; it must not be empty.
    pub fn load(mode: SidebarMode, codex_home: Option<&str>) -> (sidebar: Sidebar)
        ensures
            sidebar@.is_sound(),
            sidebar@ == ({
                let home = match maybe_str(codex_home) {
                    Some(dir) => if dir.len() > 0 {
                        Some(dir)
                    } else {
                        None
                    },
                    None => None,
                };
                SidebarView {
                    tabs: Seq::empty(),
                    panes_by_tab: Seq::empty(),
                    tracked_panes: Map::empty(),
                    unread_tabs: Set::empty(),
                    clickable_rows: Seq::empty(),
                    mode: mode@,
                    snapshot: SnapshotView { panes: Map::empty(), updated_at: 0 },
                    bindings: Map::empty(),
                    permission_state: PermissionState::Pending,
                    codex_home: home,
                    status_error: if home is Some {
                        None
                    } else {
                        Some(missing_home_error())
                    },
                }
            }),
    {
        let home = match codex_home {
            Some(dir) => if dir.is_empty() {
                None
            } else {
                Some(dir.to_owned())
            },
            None => None,
        };
        let status_error = if home.is_some() {
            None
        } else {
            Some("missing codex_home config".to_owned())
        };
        let sidebar = Sidebar {
            tabs: Vec::new(),
            panes_by_tab: SortedMap::new(),
            tracked_panes: SortedMap::new(),
            unread_tabs: BTreeSet::new(),
            clickable_rows: Vec::new(),
            mode,
            snapshot: StatusSnapshot::default(),
            refresh_cache: RefreshCache::default(),
            permission_state: PermissionState::Pending,
            codex_home: home,
            status_error,
        };
        proof {
            assert(tab_views(sidebar.tabs@) =~= Seq::<TabView>::empty());
        }
        sidebar
    }

    /// The position of the active tab.
    pub fn active_tab_position(&self) -> (position: Option<usize>)
        ensures
            position == active_position(self@.tabs),
    {
        let ghost all = tab_views(self.tabs@);
        let mut i: usize = 0;
        proof {
            assert(all.skip(0) =~= all);
        }
        while i < self.tabs.len()
            invariant
                i <= self.tabs@.len(),
                all == tab_views(self.tabs@),
                active_position(all) == active_position(all.skip(i as int)),
            decreases self.tabs@.len() - i,
        {
            proof {
                assert(all.skip(i as int).drop_first() =~= all.skip(i + 1));
                assert(all.skip(i as int)[0] == self.tabs@[i as int]@);
            }
            if self.tabs[i].active {
                return Some(self.tabs[i].position);
            }
            i += 1;
        }
        None
    }

    /// Marks the active tab as read.
    pub fn clear_active_unread(&mut self)
        ensures
            final(self)@ == (SidebarView {
                unread_tabs: without_active(old(self)@.unread_tabs, old(self)@.tabs),
                ..old(self)@
            }),
    {
        match self.active_tab_position() {
            Some(position) => {
                let _ = self.unread_tabs.remove(&position);
            },
            None => {},
        }
    }

    /// Whether a notice takes the place of the tabs.
    pub fn should_render_notice(&self) -> (notice: bool)
        ensures
            notice == self@.shows_notice(),
    {
        self.permission_state != PermissionState::Granted || self.status_error.is_some()
    }
}

// ---------------------------------------------------------------------------
// Snapshots
// ---------------------------------------------------------------------------
/// The state that a pane was in; idle where it ran no agent.
pub open spec fn status_before(tracked_panes: Map<u32, TrackedPane>, id: u32) -> AgentStatusKind {
    if tracked_panes.dom().contains(id) {
        tracked_panes[id].status
    } else {
        AgentStatusKind::Idle
    }
}

/// Whether an agent has got into another state.
pub open spec fn flips(before: Map<u32, TrackedPane>, after: Map<u32, TrackedPane>, id: u32) -> bool {
    after.dom().contains(id) && status_before(before, id) != after[id].status
}

/// Whether a change of an agent makes a tab unread: the agent asks for attention,
/// and the tab is not the active one.
pub open spec fn marks(
    before: Map<u32, TrackedPane>,
    after: Map<u32, TrackedPane>,
    active: Option<usize>,
    id: u32,
    tab_position: usize,
) -> bool {
    &&& flips(before, after, id)
    &&& after[id].tab_position == tab_position
    &&& asks_attention(after[id].status)
    &&& active != Some(tab_position)
}

/// The tabs that the changes of agents make unread.
pub open spec fn newly_unread(
    before: Map<u32, TrackedPane>,
    after: Map<u32, TrackedPane>,
    active: Option<usize>,
) -> Set<usize> {
    Set::new(
        |tab_position: usize|
            exists|id: u32| #[trigger] marks(before, after, active, id, tab_position),
    )
}

/// The sidebar with the panes that run an agent by the newest snapshot.
pub open spec fn reconciled(view: SidebarView) -> SidebarView {
    SidebarView {
        tracked_panes: tracked_in(view.panes_by_tab, view.snapshot.panes),
        unread_tabs: without_active(view.unread_tabs, view.tabs),
        ..view
    }
}

/// The sidebar after a snapshot.
pub open spec fn applied(view: SidebarView, snapshot: SnapshotView) -> SidebarView {
    let after = tracked_in(view.panes_by_tab, snapshot.panes);
    let fresh = newly_unread(view.tracked_panes, after, active_position(view.tabs));
    SidebarView {
        snapshot,
        tracked_panes: after,
        unread_tabs: without_active(view.unread_tabs.union(fresh), view.tabs),
        ..view
    }
}

/// Whether a snapshot changes anything that is shown of agents.
pub open spec fn changes(view: SidebarView, snapshot: SnapshotView) -> bool {
    let after = tracked_in(view.panes_by_tab, snapshot.panes);
    ||| view.tracked_panes.dom() != after.dom()
    ||| exists|id: u32| #[trigger] flips(view.tracked_panes, after, id)
}

impl Sidebar {
    /// Finds the panes that run an agent by the newest snapshot.
    pub fn reconcile_tracked_panes(&mut self)
        ensures
            final(self)@ == reconciled(old(self)@),
            old(self)@.is_sound() ==> final(self)@.is_sound(),
    {
        self.tracked_panes = find_tracked_panes(&self.panes_by_tab, &self.snapshot.panes);
        self.clear_active_unread();
    }

    /// Takes in a snapshot, and tells whether it changes anything. A tab that is
    /// not active becomes unread where an agent in it begins to ask for attention.
    pub fn apply_snapshot(&mut self, snapshot: StatusSnapshot) -> (changed: bool)
        ensures
            final(self)@ == applied(old(self)@, snapshot@),
            changed == changes(old(self)@, snapshot@),
            old(self)@.is_sound() ==> final(self)@.is_sound(),
    {
        let ghost before = self@;
        let previous = collect_statuses(&self.tracked_panes);
        self.snapshot = snapshot;
        self.reconcile_tracked_panes();
        let active = self.active_tab_position();
        let mut changed = tracked_pane_set_changed(&previous, &self.tracked_panes);
        let ghost middle = self@;
        let ghost after = self.tracked_panes@;
        let ghost pairs = self.tracked_panes.pairs();
        let ghost others = before.tracked_panes.dom() != after.dom();
        let count = self.tracked_panes.len();
        let mut i: usize = 0;
        proof {
            assert(previous@.dom() =~= before.tracked_panes.dom());
        }
        while i < count
            invariant
                i <= count == pairs.len(),
                pairs == self.tracked_panes.pairs(),
                after == self.tracked_panes@,
                previous@ == statuses_of(before.tracked_panes),
                active == active_position(before.tabs),
                self@ == (SidebarView { unread_tabs: self.unread_tabs@, ..middle }),
                changed == (others || exists|j: int|
                    0 <= j < i && flips(before.tracked_panes, after, (#[trigger] pairs[j]).0)),
                forall|tab: usize| #[trigger]
                    self.unread_tabs@.contains(tab) <==> middle.unread_tabs.contains(tab) || exists|
                        j: int,
                    |
                        0 <= j < i && marks(
                            before.tracked_panes,
                            after,
                            active,
                            (#[trigger] pairs[j]).0,
                            tab,
                        ),
            decreases count - i,
        {
            let ghost unread = self.unread_tabs@;
            let ghost was_changed = changed;
            let id = *self.tracked_panes.key_at(i);
            let pane = *self.tracked_panes.value_at(i);
            let status = match previous.get(&id) {
                Some(status) => *status,
                None => AgentStatusKind::Idle,
            };
            proof {
                assert(status == status_before(before.tracked_panes, id));
                assert(pairs[i as int].0 == id);
            }
            if status != pane.status {
                let is_active = match active {
                    Some(position) => position == pane.tab_position,
                    None => false,
                };
                if !is_active && pane.status.is_attention() {
                    let _ = self.unread_tabs.insert(pane.tab_position);
                }
                changed = true;
            }
            proof {
                assert(flips(before.tracked_panes, after, id) == (status != pane.status));
                assert forall|tab: usize| #[trigger]
                    self.unread_tabs@.contains(tab) <==> middle.unread_tabs.contains(tab) || exists|
                        j: int,
                    |
                        0 <= j < i + 1 && marks(
                            before.tracked_panes,
                            after,
                            active,
                            (#[trigger] pairs[j]).0,
                            tab,
                        ) by {
                    if unread.contains(tab) && !middle.unread_tabs.contains(tab) {
                        let j = choose|j: int|
                            0 <= j < i && marks(
                                before.tracked_panes,
                                after,
                                active,
                                (#[trigger] pairs[j]).0,
                                tab,
                            );
                        assert(marks(before.tracked_panes, after, active, pairs[j].0, tab));
                    }
                    if marks(before.tracked_panes, after, active, id, tab) {
                        assert(marks(
                            before.tracked_panes,
                            after,
                            active,
                            pairs[i as int].0,
                            tab,
                        ));
                    }
                }
                if was_changed && !others {
                    let j = choose|j: int|
                        0 <= j < i && flips(before.tracked_panes, after, (#[trigger] pairs[j]).0);
                    assert(flips(before.tracked_panes, after, pairs[j].0));
                }
            }
            i += 1;
        }
        let ghost marked = self.unread_tabs@;
        self.clear_active_unread();
        proof {
            let fresh = newly_unread(before.tracked_panes, after, active);
            assert forall|tab: usize| #[trigger] marked.contains(tab)
                <==> middle.unread_tabs.contains(tab) || fresh.contains(tab) by {
                if fresh.contains(tab) {
                    let id = choose|id: u32| #[trigger]
                        marks(before.tracked_panes, after, active, id, tab);
                    lemma_pairs_has(pairs, id);
                    let j = choose|j: int| 0 <= j < pairs.len() && (#[trigger] pairs[j]).0 == id;
                    assert(marks(before.tracked_panes, after, active, pairs[j].0, tab));
                }
            }
            assert(self@.unread_tabs =~= applied(before, snapshot@).unread_tabs);
            if exists|id: u32| #[trigger] flips(before.tracked_panes, after, id) {
                let id = choose|id: u32| #[trigger] flips(before.tracked_panes, after, id);
                lemma_pairs_has(pairs, id);
                let j = choose|j: int| 0 <= j < pairs.len() && (#[trigger] pairs[j]).0 == id;
                assert(flips(before.tracked_panes, after, pairs[j].0));
            }
        }
        changed
    }
}

// ---------------------------------------------------------------------------
// Refreshes
// ---------------------------------------------------------------------------
/// What a refresh has to do.
#[derive(Clone, Debug)]
pub enum RefreshPlan {
    /// Nothing; the sidebar has nothing new to show.
    Skip,
    /// Read the Codex files, and look up these panes.
    Read(Vec<PaneTarget>),
}

/// What a `RefreshPlan` says.
pub enum RefreshPlanView {
    Skip,
    Read(Seq<PaneTargetView>),
}

impl View for RefreshPlan {
    type V = RefreshPlanView;

    open spec fn view(&self) -> RefreshPlanView {
        match *self {
            RefreshPlan::Skip => RefreshPlanView::Skip,
            RefreshPlan::Read(targets) => RefreshPlanView::Read(target_views(targets@)),
        }
    }
}

/// The sidebar without anything that it knew of agents.
pub open spec fn forgotten(view: SidebarView) -> SidebarView {
    SidebarView {
        snapshot: SnapshotView { panes: Map::empty(), updated_at: 0 },
        bindings: Map::empty(),
        tracked_panes: Map::empty(),
        ..view
    }
}

/// What a refresh has to do, and the sidebar before it: without leave nothing, and
/// without panes to look up nothing but to forget.
pub open spec fn planned(view: SidebarView, cwds: Seq<PaneCwdView>) -> (
    SidebarView,
    RefreshPlanView,
) {
    if !(view.permission_state is Granted) {
        (view, RefreshPlanView::Skip)
    } else if targets_among(cwds).len() == 0 {
        (forgotten(view), RefreshPlanView::Skip)
    } else {
        (view, RefreshPlanView::Read(targets_among(cwds)))
    }
}

/// The sidebar after the Codex files were read, and whether it has changed.
pub open spec fn refreshed(
    view: SidebarView,
    targets: Seq<PaneTargetView>,
    files: Seq<CodexFileView>,
    now: Timestamp,
) -> (SidebarView, bool) {
    let snapshot = snapshot_of(targets, files, view.bindings, now);
    let ready = SidebarView {
        status_error: None,
        bindings: bindings_after(targets, files, view.bindings, now),
        ..view
    };
    (applied(ready, snapshot), changes(ready, snapshot))
}

/// The sidebar after reading the Codex files failed, and whether it has changed.
pub open spec fn refresh_failed(view: SidebarView, error: Seq<char>) -> (SidebarView, bool) {
    (SidebarView { status_error: Some(error), ..view }, view.status_error != Some(error))
}

impl Sidebar {
    /// The terminals whose directories a refresh asks for; none without leave.
    pub fn terminals_to_ask(&self) -> (ids: Vec<u32>)
        ensures
            ids@ == (if self@.permission_state is Granted {
                terminals_in(self@.panes_by_tab)
            } else {
                Seq::empty()
            }),
    {
        if self.permission_state == PermissionState::Granted {
            list_terminals(&self.panes_by_tab)
        } else {
            Vec::new()
        }
    }

    /// What a refresh has to do, given the directories of the terminals.
    pub fn plan_refresh(&mut self, cwds: &Vec<PaneCwd>) -> (plan: RefreshPlan)
        ensures
            (final(self)@, plan@) == planned(old(self)@, pane_cwd_views(cwds@)),
            old(self)@.is_sound() ==> final(self)@.is_sound(),
    {
        if self.permission_state != PermissionState::Granted {
            return RefreshPlan::Skip;
        }
        let targets = visible_pane_targets(cwds);
        if targets.len() == 0 {
            proof {
                assert(target_views(targets@).len() == 0);
            }
            self.snapshot = StatusSnapshot::default();
            self.refresh_cache = RefreshCache::default();
            self.tracked_panes = SortedMap::new();
            return RefreshPlan::Skip;
        }
        proof {
            assert(target_views(targets@).len() > 0);
        }
        RefreshPlan::Read(targets)
    }

    /// Takes in what reading the Codex files gave, and tells whether anything has
    /// changed.
    pub fn refresh_from_host(
        &mut self,
        targets: &Vec<PaneTarget>,
        files: Result<Vec<CodexFile>, String>,
        now: Timestamp,
    ) -> (changed: bool)
        ensures
            (final(self)@, changed) == (match files {
                Ok(files) => refreshed(
                    old(self)@,
                    target_views(targets@),
                    file_views(files@),
                    now,
                ),
                Err(error) => refresh_failed(old(self)@, error@),
            }),
            old(self)@.is_sound() ==> final(self)@.is_sound(),
    {
        match files {
            Ok(files) => {
                self.status_error = None;
                let snapshot = collect_status_snapshot(
                    targets.as_slice(),
                    files.as_slice(),
                    &mut self.refresh_cache,
                    now,
                );
                self.apply_snapshot(snapshot)
            },
            Err(error) => {
                let known = match &self.status_error {
                    Some(old_error) => same_text(old_error.as_str(), error.as_str()),
                    None => false,
                };
                self.status_error = Some(error);
                !known
            },
        }
    }
}

// ---------------------------------------------------------------------------
// Events
// ---------------------------------------------------------------------------
/// What the mouse did.
#[derive(Clone, Copy, Debug, PartialEq, Eq, Structural)]
pub enum MouseEvent {
    LeftClick(isize),
    ScrollUp,
    ScrollDown,
    Other,
}

/// What happened in the session.
#[derive(Debug)]
pub enum SidebarEvent {
    Mode(SidebarMode),
    Permission(bool),
    HostFolderFailed(Option<String>),
    Tabs(Vec<Tab>),
    Panes(SortedMap<usize, Vec<Pane>>),
    Mouse(MouseEvent),
    Timer,
    Other,
}

/// What a `SidebarEvent` says.
pub enum SidebarEventView {
    Mode(SidebarModeView),
    Permission(bool),
    HostFolderFailed(Option<Seq<char>>),
    Tabs(Seq<TabView>),
    Panes(Seq<(usize, Seq<Pane>)>),
    Mouse(MouseEvent),
    Timer,
    Other,
}

impl View for SidebarEvent {
    type V = SidebarEventView;

    open spec fn view(&self) -> SidebarEventView {
        match *self {
            SidebarEvent::Mode(mode) => SidebarEventView::Mode(mode@),
            SidebarEvent::Permission(granted) => SidebarEventView::Permission(granted),
            SidebarEvent::HostFolderFailed(error) => SidebarEventView::HostFolderFailed(
                maybe_text(error),
            ),
            SidebarEvent::Tabs(tabs) => SidebarEventView::Tabs(tab_views(tabs@)),
            SidebarEvent::Panes(panes) => SidebarEventView::Panes(panes.pairs()),
            SidebarEvent::Mouse(mouse) => SidebarEventView::Mouse(mouse),
            SidebarEvent::Timer => SidebarEventView::Timer,
            SidebarEvent::Other => SidebarEventView::Other,
        }
    }
}

/// What is to be done in the session.
#[derive(Clone, Debug, PartialEq, Eq)]
pub enum Command {
    SetSelectable(bool),
    ChangeHostFolder(String),
    SwitchTab(u32),
    SetTimeout,
}

/// What a `Command` says.
pub enum CommandView {
    SetSelectable(bool),
    ChangeHostFolder(Seq<char>),
    SwitchTab(u32),
    SetTimeout,
}

impl View for Command {
    type V = CommandView;

    open spec fn view(&self) -> CommandView {
        match *self {
            Command::SetSelectable(selectable) => CommandView::SetSelectable(selectable),
            Command::ChangeHostFolder(folder) => CommandView::ChangeHostFolder(folder@),
            Command::SwitchTab(number) => CommandView::SwitchTab(number),
            Command::SetTimeout => CommandView::SetTimeout,
        }
    }
}

/// What some commands say.
pub open spec fn command_views(commands: Seq<Command>) -> Seq<CommandView> {
    Seq::new(commands.len(), |i: int| commands[i]@)
}

/// Why a refresh is due.
#[derive(Clone, Copy, Debug, PartialEq, Eq, Structural)]
pub enum RefreshCause {
    /// It is time, or leave was given.
    Poll,
    /// There are other panes.
    Panes,
}

/// How an event is dealt with, once the commands are carried out.
#[derive(Clone, Copy, Debug, PartialEq, Eq, Structural)]
pub enum Outcome {
    /// It is dealt with; whether the sidebar is to be drawn again.
    Done(bool),
    /// A refresh is due.
    Refresh(RefreshCause),
}

/// What a `Reaction` says.
pub struct ReactionView {
    pub commands: Seq<CommandView>,
    pub outcome: Outcome,
}

/// The answer to an event.
#[derive(Clone, Debug, PartialEq, Eq)]
pub struct Reaction {
    pub commands: Vec<Command>,
    pub outcome: Outcome,
}

impl View for Reaction {
    type V = ReactionView;

    open spec fn view(&self) -> ReactionView {
        ReactionView { commands: command_views(self.commands@), outcome: self.outcome }
    }
}

/// The tab that a row of the screen leads to.
pub open spec fn clicked(clickable_rows: Seq<Option<usize>>, row: isize) -> Option<usize> {
    if 0 <= row < clickable_rows.len() {
        clickable_rows[row as int]
    } else {
        None
    }
}

/// The number of the tab that the mouse asks for, counted from one. Scrolling asks
/// for a neighbour of the active tab, and stops at the first and the last number.
pub open spec fn mouse_target(view: SidebarView, mouse: MouseEvent) -> Option<u32> {
    match mouse {
        MouseEvent::LeftClick(row) => match clicked(view.clickable_rows, row) {
            Some(position) => Some((position + 1) as u32),
            None => None,
        },
        MouseEvent::ScrollUp => match active_position(view.tabs) {
            Some(active) => Some(
                if active + 2 < view.tabs.len() {
                    (active + 2) as u32
                } else {
                    view.tabs.len() as u32
                },
            ),
            None => None,
        },
        MouseEvent::ScrollDown => match active_position(view.tabs) {
            Some(active) => Some(
                if active > 1 {
                    active as u32
                } else {
                    1
                },
            ),
            None => None,
        },
        MouseEvent::Other => None,
    }
}

/// The answer to an event, and the sidebar after it.
pub open spec fn reaction_to(view: SidebarView, event: SidebarEventView) -> (
    SidebarView,
    ReactionView,
) {
    match event {
        SidebarEventView::Mode(mode) => (
            SidebarView { mode, ..view },
            ReactionView { commands: Seq::empty(), outcome: Outcome::Done(true) },
        ),
        SidebarEventView::Permission(granted) => if granted {
            let allowed = SidebarView { permission_state: PermissionState::Granted, ..view };
            match view.codex_home {
                Some(home) => (
                    SidebarView { status_error: None, ..allowed },
                    ReactionView {
                        commands: seq![
                            CommandView::SetSelectable(false),
                            CommandView::ChangeHostFolder(home),
                        ],
                        outcome: Outcome::Refresh(RefreshCause::Poll),
                    },
                ),
                None => (
                    allowed,
                    ReactionView {
                        commands: seq![CommandView::SetSelectable(false)],
                        outcome: Outcome::Refresh(RefreshCause::Poll),
                    },
                ),
            }
        } else {
            (
                SidebarView { permission_state: PermissionState::Denied, ..view },
                ReactionView {
                    commands: seq![CommandView::SetSelectable(true), CommandView::SetTimeout],
                    outcome: Outcome::Done(true),
                },
            )
        },
        SidebarEventView::HostFolderFailed(error) => (
            SidebarView {
                status_error: Some(
                    match error {
                        Some(text) => text,
                        None => "failed to point /host at codex home"@,
                    },
                ),
                ..view
            },
            ReactionView { commands: Seq::empty(), outcome: Outcome::Done(true) },
        ),
        SidebarEventView::Tabs(tabs) => (
            SidebarView { tabs, unread_tabs: without_active(view.unread_tabs, tabs), ..view },
            ReactionView { commands: Seq::empty(), outcome: Outcome::Done(true) },
        ),
        SidebarEventView::Panes(panes_by_tab) => (
            SidebarView { panes_by_tab, ..view },
            ReactionView {
                commands: Seq::empty(),
                outcome: Outcome::Refresh(RefreshCause::Panes),
            },
        ),
        SidebarEventView::Mouse(mouse) => (
            view,
            ReactionView {
                commands: match mouse_target(view, mouse) {
                    Some(number) => seq![CommandView::SwitchTab(number)],
                    None => Seq::empty(),
                },
                outcome: Outcome::Done(false),
            },
        ),
        SidebarEventView::Timer => (
            view,
            ReactionView {
                commands: Seq::empty(),
                outcome: Outcome::Refresh(RefreshCause::Poll),
            },
        ),
        SidebarEventView::Other => (
            view,
            ReactionView { commands: Seq::empty(), outcome: Outcome::Done(false) },
        ),
    }
}

/// The sidebar after a refresh, and how the event that asked for it is dealt with.
pub open spec fn after_refresh(view: SidebarView, cause: RefreshCause, changed: bool) -> (
    SidebarView,
    ReactionView,
) {
    match cause {
        RefreshCause::Poll => (
            view,
            ReactionView {
                commands: seq![CommandView::SetTimeout],
                outcome: Outcome::Done(changed || view.shows_notice()),
            },
        ),
        RefreshCause::Panes => (
            reconciled(view),
            ReactionView { commands: Seq::empty(), outcome: Outcome::Done(changed) },
        ),
    }
}

impl Sidebar {
    /// The number of the tab that the mouse asks for.
    pub fn handle_mouse(&self, mouse: MouseEvent) -> (number: Option<u32>)
        requires
            self@.is_sound(),
        ensures
            number == mouse_target(self@, mouse),
    {
        match mouse {
            MouseEvent::LeftClick(row) => {
                if row < 0 || row as usize >= self.clickable_rows.len() {
                    return None;
                }
                let ghost rows = self@.clickable_rows;
                proof {
                    assert(rows[row as int] == self.clickable_rows@[row as int]);
                }
                match self.clickable_rows[row as usize] {
                    Some(position) => Some((position + 1) as u32),
                    None => None,
                }
            },
            MouseEvent::ScrollUp => match self.active_tab_position() {
                Some(active) => {
                    let count = self.tabs.len();
                    let next: usize = if count > 2 && active < count - 2 {
                        active + 2
                    } else {
                        count
                    };
                    Some(next as u32)
                },
                None => None,
            },
            MouseEvent::ScrollDown => match self.active_tab_position() {
                Some(active) => Some(
                    if active > 1 {
                        active as u32
                    } else {
                        1
                    },
                ),
                None => None,
            },
            MouseEvent::Other => None,
        }
    }

    /// Points the session at the directory of Codex, where there is one.
    pub fn configure_codex_host(&mut self) -> (folder: Option<String>)
        ensures
            maybe_text(folder) == old(self)@.codex_home,
            final(self)@ == (if old(self)@.codex_home is Some {
                SidebarView { status_error: None, ..old(self)@ }
            } else {
                old(self)@
            }),
    {
        let folder = match &self.codex_home {
            Some(home) => home.clone(),
            None => {
                return None;
            },
        };
        self.status_error = None;
        Some(folder)
    }

    fn permission_result(&mut self, granted: bool) -> (reaction: Reaction)
        ensures
            (final(self)@, reaction@) == reaction_to(
                old(self)@,
                SidebarEventView::Permission(granted),
            ),
    {
        let mut commands: Vec<Command> = Vec::new();
        if granted {
            self.permission_state = PermissionState::Granted;
            commands.push(Command::SetSelectable(false));
            match self.configure_codex_host() {
                Some(folder) => commands.push(Command::ChangeHostFolder(folder)),
                None => {},
            }
            let reaction = Reaction { commands, outcome: Outcome::Refresh(RefreshCause::Poll) };
            proof {
                assert(reaction@.commands =~= reaction_to(
                    old(self)@,
                    SidebarEventView::Permission(granted),
                ).1.commands);
            }
            reaction
        } else {
            self.permission_state = PermissionState::Denied;
            commands.push(Command::SetSelectable(true));
            commands.push(Command::SetTimeout);
            let reaction = Reaction { commands, outcome: Outcome::Done(true) };
            proof {
                assert(reaction@.commands =~= seq![
                    CommandView::SetSelectable(true),
                    CommandView::SetTimeout,
                ]);
            }
            reaction
        }
    }

    /// Answers an event.
    pub fn update(&mut self, event: SidebarEvent) -> (reaction: Reaction)
        requires
            old(self)@.is_sound(),
            event@ matches SidebarEventView::Tabs(tabs) ==> positions_fit(tabs),
        ensures
            (final(self)@, reaction@) == reaction_to(old(self)@, event@),
            final(self)@.is_sound(),
    {
        let mut commands: Vec<Command> = Vec::new();
        proof {
            assert(command_views(commands@) =~= Seq::<CommandView>::empty());
        }
        match event {
            SidebarEvent::Mode(mode) => {
                self.mode = mode;
                Reaction { commands, outcome: Outcome::Done(true) }
            },
            SidebarEvent::Permission(granted) => self.permission_result(granted),
            SidebarEvent::HostFolderFailed(error) => {
                self.status_error = Some(
                    match error {
                        Some(text) => text,
                        None => "failed to point /host at codex home".to_owned(),
                    },
                );
                Reaction { commands, outcome: Outcome::Done(true) }
            },
            SidebarEvent::Tabs(tabs) => {
                self.tabs = tabs;
                self.clear_active_unread();
                Reaction { commands, outcome: Outcome::Done(true) }
            },
            SidebarEvent::Panes(panes) => {
                self.panes_by_tab = panes;
                Reaction { commands, outcome: Outcome::Refresh(RefreshCause::Panes) }
            },
            SidebarEvent::Mouse(mouse) => {
                match self.handle_mouse(mouse) {
                    Some(number) => {
                        commands.push(Command::SwitchTab(number));
                        proof {
                            assert(command_views(commands@) =~= seq![
                                CommandView::SwitchTab(number),
                            ]);
                        }
                    },
                    None => {},
                }
                Reaction { commands, outcome: Outcome::Done(false) }
            },
            SidebarEvent::Timer => {
                Reaction { commands, outcome: Outcome::Refresh(RefreshCause::Poll) }
            },
            SidebarEvent::Other => Reaction { commands, outcome: Outcome::Done(false) },
        }
    }

    /// Ends the event that asked for a refresh.
    pub fn finish_refresh(&mut self, cause: RefreshCause, changed: bool) -> (reaction: Reaction)
        ensures
            (final(self)@, reaction@) == after_refresh(old(self)@, cause, changed),
            old(self)@.is_sound() ==> final(self)@.is_sound(),
    {
        let mut commands: Vec<Command> = Vec::new();
        match cause {
            RefreshCause::Poll => {
                commands.push(Command::SetTimeout);
                proof {
                    assert(command_views(commands@) =~= seq![CommandView::SetTimeout]);
                }
                let notice = self.should_render_notice();
                Reaction { commands, outcome: Outcome::Done(changed || notice) }
            },
            RefreshCause::Panes => {
                self.reconcile_tracked_panes();
                proof {
                    assert(command_views(commands@) =~= Seq::<CommandView>::empty());
                }
                Reaction { commands, outcome: Outcome::Done(changed) }
            },
        }
    }
}

// ---------------------------------------------------------------------------
// The screen
// ---------------------------------------------------------------------------
/// What a notice says.
pub open spec fn notice_texts(view: SidebarView) -> Seq<Seq<char>> {
    match view.status_error {
        Some(error) => seq!["codex read failed"@, error],
        None => match view.permission_state {
            PermissionState::Pending => seq![
                "waiting for plugin permissions"@,
                "needs app-state + full disk access"@,
            ],
            PermissionState::Denied => seq![
                "plugin permissions denied"@,
                "grant access, then reopen zellij"@,
            ],
            PermissionState::Granted => seq!["waiting for tab data"@],
        },
    }
}

/// The terminal whose directory names a tab.
pub open spec fn naming_pane(view: SidebarView, tab: TabView) -> Option<u32> {
    let panes = pairs_map(view.panes_by_tab);
    if panes.dom().contains(tab.position) {
        naming_terminal(panes[tab.position])
    } else {
        None
    }
}

/// The directory found for a tab.
pub open spec fn cwd_at(cwds: Seq<Option<String>>, i: int) -> Option<Seq<char>> {
    if 0 <= i < cwds.len() {
        maybe_text(cwds[i])
    } else {
        None
    }
}

/// A tab as its row shows it.
pub open spec fn line_of(view: SidebarView, tab: TabView, cwd: Option<Seq<char>>) -> TabLineView {
    TabLineView {
        position: tab.position,
        name: tab_title(tab, cwd),
        active: tab.active,
        unread: view.unread_tabs.contains(tab.position),
        tracked_agents: agents_in(view.tracked_panes, tab.position).len() as usize,
        status: tab_status(view.tracked_panes, tab.position),
    }
}

/// The tabs as their rows show them.
pub open spec fn lines_of_tabs(view: SidebarView, cwds: Seq<Option<String>>) -> Seq<TabLineView> {
    Seq::new(view.tabs.len(), |i: int| line_of(view, view.tabs[i], cwd_at(cwds, i)))
}

/// What the sidebar shows: a notice where there is one to give or nothing else to
/// show, and the tabs otherwise.
pub open spec fn screen_of(
    view: SidebarView,
    rows: usize,
    cols: usize,
    cwds: Seq<Option<String>>,
) -> ScreenView {
    if view.shows_notice() || view.tabs.len() == 0 {
        notice_screen(rows, cols, view.mode, notice_texts(view))
    } else {
        sidebar_screen(rows, cols, view.mode, lines_of_tabs(view, cwds))
    }
}

impl Sidebar {
    /// What a notice says.
    pub fn notice_lines(&self) -> (lines: Vec<String>)
        ensures
            texts(lines@) == notice_texts(self@),
    {
        let mut lines: Vec<String> = Vec::new();
        match &self.status_error {
            Some(error) => {
                lines.push("codex read failed".to_owned());
                lines.push(error.clone());
            },
            None => match self.permission_state {
                PermissionState::Pending => {
                    lines.push("waiting for plugin permissions".to_owned());
                    lines.push("needs app-state + full disk access".to_owned());
                },
                PermissionState::Denied => {
                    lines.push("plugin permissions denied".to_owned());
                    lines.push("grant access, then reopen zellij".to_owned());
                },
                PermissionState::Granted => {
                    lines.push("waiting for tab data".to_owned());
                },
            },
        }
        proof {
            assert(texts(lines@) =~= notice_texts(self@));
        }
        lines
    }

    /// For each tab the terminal whose directory names it.
    pub fn naming_panes(&self) -> (ids: Vec<Option<u32>>)
        ensures
            ids@ == Seq::new(self@.tabs.len(), |i: int| naming_pane(self@, self@.tabs[i])),
    {
        let mut ids: Vec<Option<u32>> = Vec::new();
        let mut i: usize = 0;
        while i < self.tabs.len()
            invariant
                i <= self.tabs@.len(),
                ids@ == Seq::new(i as nat, |k: int| naming_pane(self@, self@.tabs[k])),
            decreases self.tabs@.len() - i,
        {
            let position = self.tabs[i].position;
            let id = match self.panes_by_tab.get(&position) {
                Some(panes) => find_naming_terminal(panes),
                None => None,
            };
            ids.push(id);
            i += 1;
            proof {
                assert(ids@ =~= Seq::new(i as nat, |k: int| naming_pane(self@, self@.tabs[k])));
            }
        }
        ids
    }

    /// The tabs as their rows show them, given the directories that name them.
    pub fn tab_lines(&self, cwds: &Vec<Option<String>>) -> (lines: Vec<TabLine>)
        requires
            self@.is_sound(),
        ensures
            tab_line_views(lines@) == lines_of_tabs(self@, cwds@),
    {
        let mut lines: Vec<TabLine> = Vec::new();
        let mut i: usize = 0;
        proof {
            assert(tab_line_views(lines@) =~= lines_of_tabs(self@, cwds@).take(0));
        }
        while i < self.tabs.len()
            invariant
                i <= self.tabs@.len(),
                self@.is_sound(),
                tab_line_views(lines@) == lines_of_tabs(self@, cwds@).take(i as int),
            decreases self.tabs@.len() - i,
        {
            let ghost before = tab_line_views(lines@);
            let tab = &self.tabs[i];
            proof {
                assert(self@.tabs[i as int] == tab@);
            }
            let cwd = if i < cwds.len() {
                match &cwds[i] {
                    Some(dir) => Some(dir.as_str()),
                    None => None,
                }
            } else {
                None
            };
            let line = TabLine {
                position: tab.position,
                name: tab_name(tab, cwd),
                active: tab.active,
                unread: self.unread_tabs.contains(&tab.position),
                tracked_agents: agent_count_for_tab(&self.tracked_panes, tab.position),
                status: status_for_tab(&self.tracked_panes, tab.position),
            };
            lines.push(line);
            proof {
                assert(line@ == line_of(self@, tab@, cwd_at(cwds@, i as int)));
                assert(tab_line_views(lines@) =~= before.push(line@));
                assert(tab_line_views(lines@) =~= lines_of_tabs(self@, cwds@).take(i + 1));
            }
            i += 1;
        }
        proof {
            assert(lines_of_tabs(self@, cwds@).take(i as int) =~= lines_of_tabs(self@, cwds@));
        }
        lines
    }

    /// Draws the sidebar, given the directories that name the tabs, and keeps in
    /// mind which tab a row leads to. A screen without rows or columns stays as it
    /// is.
    pub fn render(&mut self, rows: usize, cols: usize, cwds: &Vec<Option<String>>) -> (lines: Vec<
        String,
    >)
        requires
            old(self)@.is_sound(),
        ensures
            rows == 0 || cols == 0 ==> lines@.len() == 0 && final(self)@ == old(self)@,
            rows > 0 && cols > 0 ==> {
                let screen = screen_of(old(self)@, rows, cols, cwds@);
                &&& texts(lines@) == screen.lines
                &&& final(self)@ == (SidebarView {
                    clickable_rows: screen.clickable_rows,
                    ..old(self)@
                })
            },
            final(self)@.is_sound(),
    {
        if rows == 0 || cols == 0 {
            return Vec::new();
        }
        let notice = self.should_render_notice() || self.tabs.len() == 0;
        let screen = if notice {
            let texts_shown = self.notice_lines();
            render_notice(rows, cols, &self.mode, texts_shown.as_slice())
        } else {
            let tab_lines = self.tab_lines(cwds);
            proof {
                assert forall|i: int| 0 <= i < tab_lines@.len() implies (
                #[trigger] tab_lines@[i]).position < usize::MAX by {
                    assert(tab_line_views(tab_lines@)[i] == tab_lines@[i]@);
                    assert(self@.tabs[i].position < usize::MAX);
                }
            }
            render_sidebar(rows, cols, &self.mode, tab_lines.as_slice())
        };
        proof {
            let view = self@;
            assert(screen@ == screen_of(view, rows, cols, cwds@));
            assert forall|i: int| 0 <= i < screen@.clickable_rows.len() implies (
            #[trigger] screen@.clickable_rows[i] matches Some(position) ==> position < usize::MAX) by {
                if !notice {
                    let shown = shown_count(view.tabs.len(), rows);
                    if 1 <= i <= shown {
                        assert(view.tabs[i - 1].position < usize::MAX);
                    }
                }
            }
        }
        self.clickable_rows = screen.clickable_rows;
        screen.lines
    }
}

// ---------------------------------------------------------------------------
// Laws
// ---------------------------------------------------------------------------
/// The active tab is never unread, and tabs can always be numbered, whatever a
/// snapshot says.
pub proof fn law_snapshots_keep_the_sidebar_sound(view: SidebarView, snapshot: SnapshotView)
    requires
        view.is_sound(),
    ensures
        applied(view, snapshot).is_sound(),
        reconciled(view).is_sound(),
{
}

/// So it stays through a whole refresh, from the plan to the end.
pub proof fn law_refreshes_keep_the_sidebar_sound(
    view: SidebarView,
    cwds: Seq<PaneCwdView>,
    targets: Seq<PaneTargetView>,
    files: Seq<CodexFileView>,
    error: Seq<char>,
    now: Timestamp,
    cause: RefreshCause,
    changed: bool,
)
    requires
        view.is_sound(),
    ensures
        planned(view, cwds).0.is_sound(),
        refreshed(view, targets, files, now).0.is_sound(),
        refresh_failed(view, error).0.is_sound(),
        after_refresh(view, cause, changed).0.is_sound(),
{
}

/// A tab that is not active becomes unread as soon as an agent in it begins to
/// wait or is done.
pub proof fn law_attention_marks_inactive_tabs(view: SidebarView, snapshot: SnapshotView, id: u32)
    requires
        flips(view.tracked_panes, tracked_in(view.panes_by_tab, snapshot.panes), id),
        asks_attention(tracked_in(view.panes_by_tab, snapshot.panes)[id].status),
        active_position(view.tabs) != Some(
            tracked_in(view.panes_by_tab, snapshot.panes)[id].tab_position,
        ),
    ensures
        applied(view, snapshot).unread_tabs.contains(
            tracked_in(view.panes_by_tab, snapshot.panes)[id].tab_position,
        ),
        changes(view, snapshot),
{
    let after = tracked_in(view.panes_by_tab, snapshot.panes);
    assert(marks(
        view.tracked_panes,
        after,
        active_position(view.tabs),
        id,
        after[id].tab_position,
    ));
}

/// An unread tab stays unread until it is the active one.
pub proof fn law_unread_stays_until_looked_at(
    view: SidebarView,
    snapshot: SnapshotView,
    tab_position: usize,
)
    requires
        view.unread_tabs.contains(tab_position),
        active_position(view.tabs) != Some(tab_position),
    ensures
        applied(view, snapshot).unread_tabs.contains(tab_position),
        reconciled(view).unread_tabs.contains(tab_position),
{
}

/// A tab becomes unread only by an agent in it that begins to ask for attention.
pub proof fn law_unread_has_a_cause(
    view: SidebarView,
    snapshot: SnapshotView,
    tab_position: usize,
) -> (id: u32)
    requires
        !view.unread_tabs.contains(tab_position),
        applied(view, snapshot).unread_tabs.contains(tab_position),
    ensures
        marks(
            view.tracked_panes,
            tracked_in(view.panes_by_tab, snapshot.panes),
            active_position(view.tabs),
            id,
            tab_position,
        ),
{
    let after = tracked_in(view.panes_by_tab, snapshot.panes);
    choose|id: u32| #[trigger]
        marks(view.tracked_panes, after, active_position(view.tabs), id, tab_position)
}

/// A snapshot that changes nothing leaves every agent in its state.
pub proof fn law_no_change_keeps_states(view: SidebarView, snapshot: SnapshotView)
    requires
        !changes(view, snapshot),
    ensures
        statuses_of(applied(view, snapshot).tracked_panes) == statuses_of(view.tracked_panes),
        applied(view, snapshot).unread_tabs == without_active(view.unread_tabs, view.tabs),
{
    let after = tracked_in(view.panes_by_tab, snapshot.panes);
    assert forall|id: u32| after.dom().contains(id) implies #[trigger] after[id].status
        == view.tracked_panes[id].status by {
        assert(!flips(view.tracked_panes, after, id));
    }
    assert(statuses_of(after) =~= statuses_of(view.tracked_panes));
    assert forall|tab: usize| !(#[trigger] newly_unread(
        view.tracked_panes,
        after,
        active_position(view.tabs),
    ).contains(tab)) by {
        if exists|id: u32| #[trigger]
            marks(view.tracked_panes, after, active_position(view.tabs), id, tab) {
            let id = choose|id: u32| #[trigger]
                marks(view.tracked_panes, after, active_position(view.tabs), id, tab);
            assert(flips(view.tracked_panes, after, id));
        }
    }
    assert(applied(view, snapshot).unread_tabs =~= without_active(view.unread_tabs, view.tabs));
}

/// A click on a row that was drawn for a tab asks for that tab.
pub proof fn law_click_asks_for_the_tab(
    view: SidebarView,
    rows: usize,
    cols: usize,
    cwds: Seq<Option<String>>,
    row: isize,
)
    requires
        !view.shows_notice(),
        1 <= row < rows,
        row <= view.tabs.len(),
    ensures
        mouse_target(
            SidebarView {
                clickable_rows: screen_of(view, rows, cols, cwds).clickable_rows,
                ..view
            },
            MouseEvent::LeftClick(row),
        ) == Some((view.tabs[row - 1].position + 1) as u32),
{
    law_rows_lead_to_their_tabs(rows, cols, view.mode, lines_of_tabs(view, cwds), row as int);
}

/// While a notice is shown, no click leads anywhere.
pub proof fn law_notice_takes_no_clicks(
    view: SidebarView,
    rows: usize,
    cols: usize,
    cwds: Seq<Option<String>>,
    row: isize,
)
    requires
        view.shows_notice(),
    ensures
        mouse_target(
            SidebarView {
                clickable_rows: screen_of(view, rows, cols, cwds).clickable_rows,
                ..view
            },
            MouseEvent::LeftClick(row),
        ) is None,
{
}

proof fn lemma_first_active(tabs: Seq<TabView>)
    ensures
        match active_position(tabs) {
            Some(position) => exists|i: int|
                0 <= i < tabs.len() && (#[trigger] tabs[i]).active && tabs[i].position == position
                    && forall|j: int| 0 <= j < i ==> !(#[trigger] tabs[j]).active,
            None => forall|i: int| 0 <= i < tabs.len() ==> !(#[trigger] tabs[i]).active,
        },
    decreases tabs.len(),
{
    if tabs.len() > 0 {
        let rest = tabs.drop_first();
        lemma_first_active(rest);
        if tabs[0].active {
            assert(tabs[0].position == active_position(tabs)->0);
        } else {
            assert forall|i: int| 1 <= i < tabs.len() implies #[trigger] tabs[i] == rest[i - 1] by {}
            if active_position(tabs) is Some {
                let position = active_position(tabs)->0;
                let i = choose|i: int|
                    0 <= i < rest.len() && (#[trigger] rest[i]).active && rest[i].position
                        == position && forall|j: int| 0 <= j < i ==> !(#[trigger] rest[j]).active;
                assert(tabs[i + 1] == rest[i]);
                assert forall|j: int| 0 <= j < i + 1 implies !(#[trigger] tabs[j]).active by {
                    if j > 0 {
                        assert(!rest[j - 1].active);
                    }
                }
            }
        }
    }
}

/// The active tab is the first that is marked so; there is none only where no tab is
/// marked.
pub proof fn law_active_tab_is_the_first_marked(tabs: Seq<TabView>, i: int)
    requires
        0 <= i < tabs.len(),
        tabs[i].active,
        forall|j: int| 0 <= j < i ==> !(#[trigger] tabs[j]).active,
    ensures
        active_position(tabs) == Some(tabs[i].position),
{
    lemma_first_active(tabs);
    let k = choose|k: int|
        0 <= k < tabs.len() && (#[trigger] tabs[k]).active && Some(tabs[k].position)
            == active_position(tabs) && forall|j: int| 0 <= j < k ==> !(#[trigger] tabs[j]).active;
    if k < i {
        assert(!tabs[k].active);
    } else if i < k {
        assert(!tabs[i].active);
    }
}

/// Scrolling asks for a neighbour of the active tab: scrolling down for the tab one
/// position before it, scrolling up for the tab one position behind it. Numbers count
/// from one, and the scroll stops at the first and the last.
pub proof fn law_scroll_asks_for_a_neighbour(view: SidebarView, i: int)
    requires
        0 <= i < view.tabs.len(),
        view.tabs[i].active,
        forall|j: int| 0 <= j < i ==> !(#[trigger] view.tabs[j]).active,
    ensures
        ({
            let position = view.tabs[i].position as int;
            let count = view.tabs.len() as int;
            let before = if position < 1 {
                1
            } else {
                position
            };
            let behind = if position + 2 > count {
                count
            } else {
                position + 2
            };
            &&& mouse_target(view, MouseEvent::ScrollDown) == Some(before as u32)
            &&& mouse_target(view, MouseEvent::ScrollUp) == Some(behind as u32)
        }),
{
    law_active_tab_is_the_first_marked(view.tabs, i);
}

/// Where the tabs stand at the positions from zero on, a scroll moves by one tab, and
/// by none only at the end that it moves towards.
pub proof fn law_scroll_moves_by_one_tab(view: SidebarView, i: int)
    requires
        0 <= i < view.tabs.len() <= u32::MAX,
        view.tabs[i].active,
        forall|j: int| 0 <= j < i ==> !(#[trigger] view.tabs[j]).active,
        forall|j: int| 0 <= j < view.tabs.len() ==> (#[trigger] view.tabs[j]).position == j,
    ensures
        mouse_target(view, MouseEvent::ScrollDown) matches Some(number) && view.tabs[number
            - 1].position == if i == 0 {
            0
        } else {
            i - 1
        },
        mouse_target(view, MouseEvent::ScrollUp) matches Some(number) && view.tabs[number
            - 1].position == if i == view.tabs.len() - 1 {
            i
        } else {
            i + 1
        },
{
    law_scroll_asks_for_a_neighbour(view, i);
}

/// Without an active tab, scrolling asks for nothing; nor does anything that is
/// neither a scroll nor a click.
pub proof fn law_no_active_tab_no_scroll(view: SidebarView)
    ensures
        mouse_target(view, MouseEvent::Other) is None,
        (forall|i: int| 0 <= i < view.tabs.len() ==> !(#[trigger] view.tabs[i]).active) ==> {
            &&& mouse_target(view, MouseEvent::ScrollDown) is None
            &&& mouse_target(view, MouseEvent::ScrollUp) is None
        },
{
    lemma_first_active(view.tabs);
}

/// A click asks for the tab behind the row that was hit, counted from one, and for
/// nothing where the row leads nowhere or is not on the screen.
pub proof fn law_click_asks_for_the_row(view: SidebarView, row: isize)
    ensures
        mouse_target(view, MouseEvent::LeftClick(row)) is Some <==> 0 <= row
            < view.clickable_rows.len() && view.clickable_rows[row as int] is Some,
        0 <= row < view.clickable_rows.len() ==> (view.clickable_rows[row as int] matches Some(
            position,
        ) ==> mouse_target(view, MouseEvent::LeftClick(row)) == Some((position + 1) as u32)),
{
}

/// After a snapshot a tab is unread exactly where it is not the active one and either
/// was unread before or holds an agent that waits or is done and was not in that state
/// before.
pub proof fn law_unread_tabs_after_a_snapshot(
    view: SidebarView,
    snapshot: SnapshotView,
    tab_position: usize,
)
    ensures
        applied(view, snapshot).unread_tabs.contains(tab_position) <==> {
            let before = view.tracked_panes;
            let after = tracked_in(view.panes_by_tab, snapshot.panes);
            &&& active_position(view.tabs) != Some(tab_position)
            &&& view.unread_tabs.contains(tab_position) || exists|id: u32|
                #[trigger] after.dom().contains(id) && after[id].tab_position == tab_position && (
                after[id].status is Waiting || after[id].status is Done) && (
                before.dom().contains(id) ==> before[id].status != after[id].status)
        },
{
    let before = view.tracked_panes;
    let after = tracked_in(view.panes_by_tab, snapshot.panes);
    let active = active_position(view.tabs);
    if exists|id: u32|
        #[trigger] after.dom().contains(id) && after[id].tab_position == tab_position && (
        after[id].status is Waiting || after[id].status is Done) && (before.dom().contains(id)
            ==> before[id].status != after[id].status) {
        let id = choose|id: u32|
            #[trigger] after.dom().contains(id) && after[id].tab_position == tab_position && (
            after[id].status is Waiting || after[id].status is Done) && (before.dom().contains(id)
                ==> before[id].status != after[id].status);
        if active != Some(tab_position) {
            assert(marks(before, after, active, id, tab_position));
        }
    }
    if exists|id: u32| #[trigger] marks(before, after, active, id, tab_position) {
        let id = choose|id: u32| #[trigger] marks(before, after, active, id, tab_position);
        assert(after.dom().contains(id));
    }
}

/// A snapshot changes something exactly where a pane begins or ceases to run an agent,
/// or an agent gets into another state.
pub proof fn law_what_a_snapshot_changes(view: SidebarView, snapshot: SnapshotView)
    ensures
        changes(view, snapshot) <==> ({
            let before = view.tracked_panes;
            let after = tracked_in(view.panes_by_tab, snapshot.panes);
            exists|id: u32|
                {
                    ||| before.dom().contains(id) != (#[trigger] after.dom().contains(id))
                    ||| before.dom().contains(id) && after.dom().contains(id) && before[id].status
                        != after[id].status
                }
        }),
{
    let before = view.tracked_panes;
    let after = tracked_in(view.panes_by_tab, snapshot.panes);
    if exists|id: u32|
        {
            ||| before.dom().contains(id) != (#[trigger] after.dom().contains(id))
            ||| before.dom().contains(id) && after.dom().contains(id) && before[id].status
                != after[id].status
        } {
        let id = choose|id: u32|
            {
                ||| before.dom().contains(id) != (#[trigger] after.dom().contains(id))
                ||| before.dom().contains(id) && after.dom().contains(id) && before[id].status
                    != after[id].status
            };
        if before.dom().contains(id) == after.dom().contains(id) {
            assert(flips(before, after, id));
        }
    } else {
        assert forall|id: u32| before.dom().contains(id) == #[trigger] after.dom().contains(id) by {}
        assert(before.dom() =~= after.dom());
        if exists|id: u32| #[trigger] flips(before, after, id) {
            let id = choose|id: u32| #[trigger] flips(before, after, id);
            assert(after.dom().contains(id));
        }
    }
}

/// A snapshot is kept and decides which panes run an agent; of the rest of the sidebar
/// only the unread tabs change.
pub proof fn law_snapshot_is_taken_in(view: SidebarView, snapshot: SnapshotView)
    ensures
        applied(view, snapshot) == (SidebarView {
            snapshot,
            tracked_panes: tracked_in(view.panes_by_tab, snapshot.panes),
            unread_tabs: applied(view, snapshot).unread_tabs,
            ..view
        }),
        reconciled(view) == (SidebarView {
            tracked_panes: tracked_in(view.panes_by_tab, view.snapshot.panes),
            unread_tabs: reconciled(view).unread_tabs,
            ..view
        }),
        forall|tab: usize| #[trigger]
            reconciled(view).unread_tabs.contains(tab) <==> view.unread_tabs.contains(tab)
                && active_position(view.tabs) != Some(tab),
{
}

/// A refresh that read the files shows what the files say of the panes, keeps in mind
/// which thread each pane shows, and takes back an earlier error.
pub proof fn law_refresh_shows_the_files(
    view: SidebarView,
    targets: Seq<PaneTargetView>,
    files: Seq<CodexFileView>,
    now: Timestamp,
)
    ensures
        ({
            let (after, changed) = refreshed(view, targets, files, now);
            let snapshot = snapshot_of(targets, files, view.bindings, now);
            &&& after == (SidebarView {
                snapshot,
                bindings: bindings_after(targets, files, view.bindings, now),
                status_error: None,
                tracked_panes: tracked_in(view.panes_by_tab, snapshot.panes),
                unread_tabs: applied(view, snapshot).unread_tabs,
                ..view
            })
            &&& changed == changes(view, snapshot)
        }),
{
}

/// A refresh that could not read the files tells the error and leaves all else as it
/// was; it changes something exactly where the error is another than before.
pub proof fn law_failed_refresh_tells_the_error(view: SidebarView, error: Seq<char>)
    ensures
        refresh_failed(view, error).0 == (SidebarView { status_error: Some(error), ..view }),
        refresh_failed(view, error).1 <==> !(view.status_error is Some && view.status_error->0
            == error),
{
}

/// Without leave a refresh does nothing. With leave it looks up the panes whose
/// directories are known; where there are none, it forgets all agents instead.
pub proof fn law_refresh_plan(view: SidebarView, cwds: Seq<PaneCwdView>)
    ensures
        !(view.permission_state is Granted) ==> planned(view, cwds) == (
            view,
            RefreshPlanView::Skip,
        ),
        view.permission_state is Granted && targets_among(cwds).len() > 0 ==> planned(view, cwds)
            == (view, RefreshPlanView::Read(targets_among(cwds))),
        view.permission_state is Granted && targets_among(cwds).len() == 0 ==> {
            let (after, plan) = planned(view, cwds);
            &&& plan is Skip
            &&& after.tracked_panes == Map::<u32, TrackedPane>::empty()
            &&& after.bindings == Map::<Seq<char>, BindingView>::empty()
            &&& after.snapshot.panes == Map::<Seq<char>, PaneStatusView>::empty()
            &&& after == (SidebarView {
                tracked_panes: after.tracked_panes,
                bindings: after.bindings,
                snapshot: after.snapshot,
                ..view
            })
        },
{
}

/// A refresh that a timer or a leave asked for sets the timer again, and draws the
/// sidebar where something has changed or a notice is shown. One that other panes asked
/// for sets no timer, finds the agents among the panes, and draws where something has
/// changed.
pub proof fn law_end_of_a_refresh(view: SidebarView, changed: bool)
    ensures
        after_refresh(view, RefreshCause::Poll, changed).0 == view,
        after_refresh(view, RefreshCause::Poll, changed).1.commands == seq![
            CommandView::SetTimeout,
        ],
        after_refresh(view, RefreshCause::Poll, changed).1.outcome == Outcome::Done(
            changed || !(view.permission_state is Granted) || view.status_error is Some,
        ),
        after_refresh(view, RefreshCause::Panes, changed).0.tracked_panes == tracked_in(
            view.panes_by_tab,
            view.snapshot.panes,
        ),
        after_refresh(view, RefreshCause::Panes, changed).1.commands.len() == 0,
        after_refresh(view, RefreshCause::Panes, changed).1.outcome == Outcome::Done(changed),
{
}

/// Leave is kept, makes the pane one that cannot be selected, points the session at the
/// directory of Codex, where there is one, and asks for a refresh. A refusal is kept,
/// makes the pane one that can be selected, and sets the timer.
pub proof fn law_answers_to_permission(view: SidebarView)
    ensures
        ({
            let (after, reaction) = reaction_to(view, SidebarEventView::Permission(true));
            &&& after == (SidebarView {
                permission_state: PermissionState::Granted,
                status_error: if view.codex_home is Some {
                    None
                } else {
                    view.status_error
                },
                ..view
            })
            &&& reaction.outcome == Outcome::Refresh(RefreshCause::Poll)
            &&& reaction.commands == match view.codex_home {
                Some(home) => seq![
                    CommandView::SetSelectable(false),
                    CommandView::ChangeHostFolder(home),
                ],
                None => seq![CommandView::SetSelectable(false)],
            }
        }),
        ({
            let (after, reaction) = reaction_to(view, SidebarEventView::Permission(false));
            &&& after == (SidebarView { permission_state: PermissionState::Denied, ..view })
            &&& reaction.outcome == Outcome::Done(true)
            &&& reaction.commands == seq![
                CommandView::SetSelectable(true),
                CommandView::SetTimeout,
            ]
        }),
{
}

/// New tabs are kept, and the active one among them is read. New panes are kept, and ask
/// for a refresh. New colours are kept. A directory that cannot be reached is told.
pub proof fn law_answers_to_news(
    view: SidebarView,
    tabs: Seq<TabView>,
    panes: Seq<(usize, Seq<Pane>)>,
    mode: SidebarModeView,
    error: Seq<char>,
    tab_position: usize,
)
    ensures
        ({
            let (after, reaction) = reaction_to(view, SidebarEventView::Tabs(tabs));
            &&& after == (SidebarView { tabs, unread_tabs: after.unread_tabs, ..view })
            &&& after.unread_tabs.contains(tab_position) <==> view.unread_tabs.contains(
                tab_position,
            ) && active_position(tabs) != Some(tab_position)
            &&& reaction.commands.len() == 0 && reaction.outcome == Outcome::Done(true)
        }),
        ({
            let (after, reaction) = reaction_to(view, SidebarEventView::Panes(panes));
            &&& after == (SidebarView { panes_by_tab: panes, ..view })
            &&& reaction.commands.len() == 0 && reaction.outcome == Outcome::Refresh(
                RefreshCause::Panes,
            )
        }),
        ({
            let (after, reaction) = reaction_to(view, SidebarEventView::Mode(mode));
            &&& after == (SidebarView { mode, ..view })
            &&& reaction.commands.len() == 0 && reaction.outcome == Outcome::Done(true)
        }),
        ({
            let (after, reaction) = reaction_to(
                view,
                SidebarEventView::HostFolderFailed(Some(error)),
            );
            &&& after == (SidebarView { status_error: Some(error), ..view })
            &&& reaction.commands.len() == 0 && reaction.outcome == Outcome::Done(true)
        }),
        ({
            let (after, reaction) = reaction_to(view, SidebarEventView::HostFolderFailed(None));
            &&& after == (SidebarView {
                status_error: Some("failed to point /host at codex home"@),
                ..view
            })
            &&& reaction.commands.len() == 0 && reaction.outcome == Outcome::Done(true)
        }),
{
}

/// The mouse changes nothing in the sidebar and asks for at most one tab; the timer asks
/// for a refresh; all else is passed over.
pub proof fn law_answers_to_mouse_and_timer(view: SidebarView, mouse: MouseEvent)
    ensures
        ({
            let (after, reaction) = reaction_to(view, SidebarEventView::Mouse(mouse));
            &&& after == view
            &&& reaction.outcome == Outcome::Done(false)
            &&& mouse_target(view, mouse) is None ==> reaction.commands.len() == 0
            &&& mouse_target(view, mouse) matches Some(number) ==> reaction.commands == seq![
                CommandView::SwitchTab(number),
            ]
        }),
        ({
            let (after, reaction) = reaction_to(view, SidebarEventView::Timer);
            &&& after == view
            &&& reaction.commands.len() == 0
            &&& reaction.outcome == Outcome::Refresh(RefreshCause::Poll)
        }),
        ({
            let (after, reaction) = reaction_to(view, SidebarEventView::Other);
            &&& after == view
            &&& reaction.commands.len() == 0
            &&& reaction.outcome == Outcome::Done(false)
        }),
{
}

/// A notice is shown without leave, after an error, and where there are no tabs; else
/// the tabs are.
pub proof fn law_what_is_shown(
    view: SidebarView,
    rows: usize,
    cols: usize,
    cwds: Seq<Option<String>>,
)
    ensures
        screen_of(view, rows, cols, cwds) == if view.permission_state is Granted
            && view.status_error is None && view.tabs.len() > 0 {
            sidebar_screen(rows, cols, view.mode, lines_of_tabs(view, cwds))
        } else {
            notice_screen(rows, cols, view.mode, notice_texts(view))
        },
        lines_of_tabs(view, cwds).len() == view.tabs.len(),
{
}

/// A notice tells an error before all else, and otherwise how it stands with the leave.
pub proof fn law_what_a_notice_says(view: SidebarView)
    ensures
        view.status_error matches Some(error) ==> notice_texts(view) == seq![
            "codex read failed"@,
            error,
        ],
        view.status_error is None && view.permission_state is Pending ==> notice_texts(view)
            == seq!["waiting for plugin permissions"@, "needs app-state + full disk access"@],
        view.status_error is None && view.permission_state is Denied ==> notice_texts(view)
            == seq!["plugin permissions denied"@, "grant access, then reopen zellij"@],
        view.status_error is None && view.permission_state is Granted ==> notice_texts(view)
            == seq!["waiting for tab data"@],
{
}

/// The row of a tab tells the position of the tab, its name, whether it is active and
/// unread, and of the agents in it how many there are and the most urgent state.
pub proof fn law_row_tells_its_tab(view: SidebarView, cwds: Seq<Option<String>>, i: int)
    requires
        0 <= i < view.tabs.len(),
    ensures
        ({
            let line = lines_of_tabs(view, cwds)[i];
            let tab = view.tabs[i];
            &&& line.position == tab.position
            &&& line.active == tab.active
            &&& line.unread == view.unread_tabs.contains(tab.position)
            &&& line.status == tab_status(view.tracked_panes, tab.position)
            &&& line.tracked_agents == agents_in(
                view.tracked_panes,
                tab.position,
            ).len() as usize
            &&& line.name == tab_title(
                tab,
                if i < cwds.len() && cwds[i] is Some {
                    Some(cwds[i]->0@)
                } else {
                    None
                },
            )
        }),
{
}

/// A tab is named by a terminal among its own panes.
pub proof fn law_tab_is_named_by_its_own_panes(view: SidebarView, tab: TabView)
    ensures
        ({
            let panes = pairs_map(view.panes_by_tab);
            &&& panes.dom().contains(tab.position) ==> naming_pane(view, tab) == naming_terminal(
                panes[tab.position],
            )
            &&& !panes.dom().contains(tab.position) ==> naming_pane(view, tab) is None
        }),
{
}

/// In a sound sidebar the active tab is read, and every tab and every row that leads to
/// one can be numbered from one on.
pub proof fn law_what_soundness_means(view: SidebarView, i: int)
    requires
        view.is_sound(),
    ensures
        0 <= i < view.tabs.len() ==> view.tabs[i].position < usize::MAX,
        0 <= i < view.tabs.len() && view.tabs[i].active && (forall|j: int|
            0 <= j < i ==> !(#[trigger] view.tabs[j]).active) ==> !view.unread_tabs.contains(
            view.tabs[i].position,
        ),
        0 <= i < view.clickable_rows.len() ==> (view.clickable_rows[i] matches Some(position)
            ==> position < usize::MAX),
{
    if 0 <= i < view.tabs.len() && view.tabs[i].active && (forall|j: int|
        0 <= j < i ==> !(#[trigger] view.tabs[j]).active) {
        law_active_tab_is_the_first_marked(view.tabs, i);
    }
}

} // verus!
