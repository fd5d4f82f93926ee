//! Tabs and panes: which panes run an agent, in which state, and how a tab is
//! named.

use vstd::prelude::*;

use crate::codex::{ids_differ, target_views, PaneTarget, PaneTargetView};
use crate::path::{
    components, is_good_name, law_normalize_is_idempotent, law_steps_of_a_path, normalize_path,
    normalized, steps, Step, StepView,
};
use crate::sorted_map::{lemma_pairs_has, SortedMap};
use crate::status::{priority_of, AgentStatusKind};
use crate::status_file::{PaneStatusEntry, PaneStatusView};
use crate::text::{
    concat2, decimal, decimal_text, law_decimal_is_injective, maybe_str, maybe_text,
};

verus! {

/// What a `Tab` says.
pub struct TabView {
    pub position: usize,
    pub name: Seq<char>,
    pub active: bool,
}

/// A tab of the session.
#[derive(Clone, Debug)]
pub struct Tab {
    pub position: usize,
    pub name: String,
    pub active: bool,
}

impl View for Tab {
    type V = TabView;

    open spec fn view(&self) -> TabView {
        TabView { position: self.position, name: self.name@, active: self.active }
    }
}

/// What some tabs say.
pub open spec fn tab_views(tabs: Seq<Tab>) -> Seq<TabView> {
    Seq::new(tabs.len(), |i: int| tabs[i]@)
}

/// A pane of a tab: a terminal, or a plugin.
#[derive(Clone, Copy, Debug, PartialEq, Eq, Structural)]
pub struct Pane {
    pub id: u32,
    pub is_plugin: bool,
    pub is_focused: bool,
}

/// A terminal that runs an agent: its tab, and the state of the agent.
#[derive(Clone, Copy, Debug, PartialEq, Eq, Structural)]
pub struct TrackedPane {
    pub tab_position: usize,
    pub status: AgentStatusKind,
}

impl View for TrackedPane {
    type V = TrackedPane;

    open spec fn view(&self) -> TrackedPane {
        *self
    }
}

// ---------------------------------------------------------------------------
// Which panes run an agent
// ---------------------------------------------------------------------------
/// The panes with an agent after some more panes of a tab: a terminal runs an
/// agent where its state is known.
pub open spec fn with_panes(
    tracked_panes: Map<u32, TrackedPane>,
    tab_position: usize,
    panes: Seq<Pane>,
    states: Map<Seq<char>, PaneStatusView>,
) -> Map<u32, TrackedPane>
    decreases panes.len(),
{
    if panes.len() == 0 {
        tracked_panes
    } else {
        let front = with_panes(tracked_panes, tab_position, panes.drop_last(), states);
        let pane = panes.last();
        let key = decimal(pane.id as nat);
        if !pane.is_plugin && states.dom().contains(key) {
            front.insert(pane.id, TrackedPane { tab_position, status: states[key].status })
        } else {
            front
        }
    }
}

/// The panes with an agent among the panes of some tabs.
pub open spec fn tracked_in(
    tabs: Seq<(usize, Seq<Pane>)>,
    states: Map<Seq<char>, PaneStatusView>,
) -> Map<u32, TrackedPane>
    decreases tabs.len(),
{
    if tabs.len() == 0 {
        Map::empty()
    } else {
        with_panes(tracked_in(tabs.drop_last(), states), tabs.last().0, tabs.last().1, states)
    }
}

fn track_panes(
    tracked_panes: &mut SortedMap<u32, TrackedPane>,
    tab_position: usize,
    panes: &Vec<Pane>,
    states: &SortedMap<String, PaneStatusEntry>,
)
    ensures
        final(tracked_panes)@ == with_panes(old(tracked_panes)@, tab_position, panes@, states@),
{
    let ghost before = tracked_panes@;
    let mut i: usize = 0;
    while i < panes.len()
        invariant
            i <= panes@.len(),
            tracked_panes@ == with_panes(before, tab_position, panes@.take(i as int), states@),
        decreases panes@.len() - i,
    {
        proof {
            assert(panes@.take(i + 1).drop_last() =~= panes@.take(i as int));
        }
        let pane = panes[i];
        if !pane.is_plugin {
            let key = decimal_text(pane.id as u64);
            match states.get(&key) {
                Some(entry) => tracked_panes.insert(
                    pane.id,
                    TrackedPane { tab_position, status: entry.status },
                ),
                None => {},
            }
        }
        i += 1;
    }
    proof {
        assert(panes@.take(i as int) =~= panes@);
    }
}

/// The panes with an agent among the panes of all tabs.
pub fn find_tracked_panes(
    panes_by_tab: &SortedMap<usize, Vec<Pane>>,
    states: &SortedMap<String, PaneStatusEntry>,
) -> (tracked_panes: SortedMap<u32, TrackedPane>)
    ensures
        tracked_panes@ == tracked_in(panes_by_tab.pairs(), states@),
{
    let ghost all = panes_by_tab.pairs();
    let mut tracked_panes: SortedMap<u32, TrackedPane> = SortedMap::new();
    let count = panes_by_tab.len();
    let mut i: usize = 0;
    while i < count
        invariant
            i <= count == all.len(),
            all == panes_by_tab.pairs(),
            tracked_panes@ == tracked_in(all.take(i as int), states@),
        decreases count - i,
    {
        proof {
            assert(all.take(i + 1).drop_last() =~= all.take(i as int));
        }
        let tab_position = *panes_by_tab.key_at(i);
        let panes = panes_by_tab.value_at(i);
        track_panes(&mut tracked_panes, tab_position, panes, states);
        i += 1;
    }
    proof {
        assert(all.take(i as int) =~= all);
    }
    tracked_panes
}

/// The states of some panes.
pub open spec fn statuses_of(tracked_panes: Map<u32, TrackedPane>) -> Map<u32, AgentStatusKind> {
    tracked_panes.map_values(|pane: TrackedPane| pane.status)
}

/// The states of some panes.
pub fn collect_statuses(tracked_panes: &SortedMap<u32, TrackedPane>) -> (statuses: SortedMap<
    u32,
    AgentStatusKind,
>)
    ensures
        statuses@ == statuses_of(tracked_panes@),
{
    let ghost pairs = tracked_panes.pairs();
    let mut statuses: SortedMap<u32, AgentStatusKind> = SortedMap::new();
    let count = tracked_panes.len();
    let mut i: usize = 0;
    while i < count
        invariant
            i <= count == pairs.len(),
            pairs == tracked_panes.pairs(),
            forall|id: u32|
                #![trigger statuses@.dom().contains(id)]
                statuses@.dom().contains(id) <==> exists|j: int|
                    0 <= j < i && (#[trigger] pairs[j]).0 == id,
            forall|id: u32|
                #![trigger statuses@[id]]
                statuses@.dom().contains(id) ==> tracked_panes@.dom().contains(id) && statuses@[id]
                    == tracked_panes@[id].status,
        decreases count - i,
    {
        let ghost before = statuses@;
        let id = *tracked_panes.key_at(i);
        let pane = *tracked_panes.value_at(i);
        statuses.insert(id, pane.status);
        proof {
            assert forall|other: u32|
                #![trigger statuses@.dom().contains(other)]
                statuses@.dom().contains(other) <==> exists|j: int|
                    0 <= j < i + 1 && (#[trigger] pairs[j]).0 == other by {
                if other == id {
                    assert(pairs[i as int].0 == other);
                }
                if before.dom().contains(other) {
                    let j = choose|j: int| 0 <= j < i && (#[trigger] pairs[j]).0 == other;
                    assert(pairs[j].0 == other);
                }
            }
        }
        i += 1;
    }
    proof {
        assert forall|id: u32| #[trigger] tracked_panes@.dom().contains(id)
            == statuses@.dom().contains(id) by {
            lemma_pairs_has(pairs, id);
        }
        assert(statuses@ =~= statuses_of(tracked_panes@));
    }
    statuses
}

fn has_all_keys<V: View, W: View>(left: &SortedMap<u32, V>, right: &SortedMap<u32, W>) -> (all: bool)
    ensures
        all == left@.dom().subset_of(right@.dom()),
{
    let ghost pairs = left.pairs();
    let count = left.len();
    let mut i: usize = 0;
    while i < count
        invariant
            i <= count == pairs.len(),
            pairs == left.pairs(),
            forall|j: int| 0 <= j < i ==> right@.dom().contains((#[trigger] pairs[j]).0),
        decreases count - i,
    {
        let key = left.key_at(i);
        if !right.contains_key(key) {
            return false;
        }
        i += 1;
    }
    proof {
        assert forall|key: u32| #[trigger] left@.dom().contains(key) implies right@.dom().contains(
            key,
        ) by {
            lemma_pairs_has(pairs, key);
        }
    }
    true
}

/// Whether other panes run an agent than before.
pub fn tracked_pane_set_changed(
    previous: &SortedMap<u32, AgentStatusKind>,
    current: &SortedMap<u32, TrackedPane>,
) -> (changed: bool)
    ensures
        changed == (previous@.dom() != current@.dom()),
{
    let same = has_all_keys(previous, current) && has_all_keys(current, previous);
    proof {
        if same {
            assert(previous@.dom() =~= current@.dom());
        }
    }
    !same
}

// ---------------------------------------------------------------------------
// The agents of a tab
// ---------------------------------------------------------------------------
/// Whether an agent in a tab is in a state.
pub open spec fn tab_has(
    tracked_panes: Map<u32, TrackedPane>,
    tab_position: usize,
    status: AgentStatusKind,
) -> bool {
    exists|id: u32| #[trigger]
        tracked_panes.dom().contains(id) && tracked_panes[id] == (TrackedPane {
            tab_position,
            status,
        })
}

/// The most urgent state of the agents in a tab; idle where there is none.
pub open spec fn tab_status(tracked_panes: Map<u32, TrackedPane>, tab_position: usize) -> AgentStatusKind {
    if tab_has(tracked_panes, tab_position, AgentStatusKind::Waiting) {
        AgentStatusKind::Waiting
    } else if tab_has(tracked_panes, tab_position, AgentStatusKind::Running) {
        AgentStatusKind::Running
    } else if tab_has(tracked_panes, tab_position, AgentStatusKind::Done) {
        AgentStatusKind::Done
    } else {
        AgentStatusKind::Idle
    }
}

/// The panes of a tab that run an agent.
pub open spec fn agents_in(tracked_panes: Map<u32, TrackedPane>, tab_position: usize) -> Set<u32> {
    tracked_panes.dom().filter(|id: u32| tracked_panes[id].tab_position == tab_position)
}

fn has_agent(
    tracked_panes: &SortedMap<u32, TrackedPane>,
    tab_position: usize,
    status: AgentStatusKind,
) -> (has: bool)
    ensures
        has == tab_has(tracked_panes@, tab_position, status),
{
    let ghost pairs = tracked_panes.pairs();
    let count = tracked_panes.len();
    let mut i: usize = 0;
    while i < count
        invariant
            i <= count == pairs.len(),
            pairs == tracked_panes.pairs(),
            forall|j: int|
                0 <= j < i ==> tracked_panes@[(#[trigger] pairs[j]).0] != (TrackedPane {
                    tab_position,
                    status,
                }),
        decreases count - i,
    {
        let id = *tracked_panes.key_at(i);
        let pane = *tracked_panes.value_at(i);
        if pane.tab_position == tab_position && pane.status == status {
            proof {
                assert(tracked_panes@.dom().contains(id));
            }
            return true;
        }
        i += 1;
    }
    proof {
        assert forall|id: u32| #[trigger] tracked_panes@.dom().contains(id) implies tracked_panes@[id]
            != (TrackedPane { tab_position, status }) by {
            lemma_pairs_has(pairs, id);
        }
    }
    false
}

/// The most urgent state of the agents in a tab.
pub fn status_for_tab(tracked_panes: &SortedMap<u32, TrackedPane>, tab_position: usize) -> (status:
    AgentStatusKind)
    ensures
        status == tab_status(tracked_panes@, tab_position),
{
    if has_agent(tracked_panes, tab_position, AgentStatusKind::Waiting) {
        AgentStatusKind::Waiting
    } else if has_agent(tracked_panes, tab_position, AgentStatusKind::Running) {
        AgentStatusKind::Running
    } else if has_agent(tracked_panes, tab_position, AgentStatusKind::Done) {
        AgentStatusKind::Done
    } else {
        AgentStatusKind::Idle
    }
}

/// How many panes of a tab run an agent.
pub fn agent_count_for_tab(tracked_panes: &SortedMap<u32, TrackedPane>, tab_position: usize) -> (
    count: usize)
    ensures
        count == agents_in(tracked_panes@, tab_position).len(),
{
    let ghost pairs = tracked_panes.pairs();
    let ghost mut agents: Set<u32> = Set::empty();
    let len = tracked_panes.len();
    let mut count: usize = 0;
    let mut i: usize = 0;
    while i < len
        invariant
            count <= i <= len == pairs.len(),
            pairs == tracked_panes.pairs(),
            crate::sorted_map::in_order::<u32, TrackedPane>(pairs),
            agents.finite(),
            agents.len() == count,
            forall|id: u32|
                #![trigger agents.contains(id)]
                agents.contains(id) <==> exists|j: int|
                    0 <= j < i && (#[trigger] pairs[j]).0 == id && tracked_panes@[id].tab_position
                        == tab_position,
        decreases len - i,
    {
        let ghost before = agents;
        let ghost key = pairs[i as int].0;
        let id = *tracked_panes.key_at(i);
        let pane = *tracked_panes.value_at(i);
        if pane.tab_position == tab_position {
            proof {
                if before.contains(key) {
                    let j = choose|j: int|
                        0 <= j < i && (#[trigger] pairs[j]).0 == key
                            && tracked_panes@[key].tab_position == tab_position;
                    assert(pairs[j].0 < pairs[i as int].0);
                }
                agents = agents.insert(key);
            }
            count += 1;
        }
        proof {
            assert forall|other: u32|
                #![trigger agents.contains(other)]
                agents.contains(other) <==> exists|j: int|
                    0 <= j < i + 1 && (#[trigger] pairs[j]).0 == other
                        && tracked_panes@[other].tab_position == tab_position by {
                if before.contains(other) {
                    let j = choose|j: int|
                        0 <= j < i && (#[trigger] pairs[j]).0 == other
                            && tracked_panes@[other].tab_position == tab_position;
                    assert(pairs[j].0 == other);
                }
                if other == key && pane.tab_position == tab_position {
                    assert(pairs[i as int].0 == other);
                }
            }
        }
        i += 1;
    }
    proof {
        assert forall|id: u32| agents.contains(id) <==> #[trigger] agents_in(
            tracked_panes@,
            tab_position,
        ).contains(id) by {
            lemma_pairs_has(pairs, id);
        }
        assert(agents =~= agents_in(tracked_panes@, tab_position));
    }
    count
}

// ---------------------------------------------------------------------------
// Names and directories
// ---------------------------------------------------------------------------
/// The last name on a path; nothing at the root.
pub open spec fn folder_of(path: Seq<char>) -> Option<Seq<char>> {
    if steps(path).len() == 0 {
        None
    } else {
        match steps(path).last() {
            StepView::Root => None,
            StepView::Current => Some("."@),
            StepView::Parent => Some(".."@),
            StepView::Normal(name) => Some(name),
        }
    }
}

/// The last name on a path; nothing at the root.
pub fn folder_name(path: &str) -> (name: Option<String>)
    ensures
        maybe_text(name) == folder_of(path@),
{
    let found = components(path);
    let count = found.len();
    if count == 0 {
        return None;
    }
    proof {
        assert(steps(path@).last() == found@[count - 1]@);
    }
    match &found[count - 1] {
        Step::Root => None,
        Step::Current => Some(".".to_owned()),
        Step::Parent => Some("..".to_owned()),
        Step::Normal(name) => Some(name.clone()),
    }
}

/// The first terminal among some panes.
pub open spec fn first_terminal(panes: Seq<Pane>, focused_only: bool) -> Option<u32>
    decreases panes.len(),
{
    if panes.len() == 0 {
        None
    } else if !panes[0].is_plugin && (panes[0].is_focused || !focused_only) {
        Some(panes[0].id)
    } else {
        first_terminal(panes.drop_first(), focused_only)
    }
}

/// The terminal whose directory names a tab: the first one in focus, else the
/// first one.
pub open spec fn naming_terminal(panes: Seq<Pane>) -> Option<u32> {
    match first_terminal(panes, true) {
        Some(id) => Some(id),
        None => first_terminal(panes, false),
    }
}

fn find_terminal(panes: &Vec<Pane>, focused_only: bool) -> (id: Option<u32>)
    ensures
        id == first_terminal(panes@, focused_only),
{
    let mut i: usize = 0;
    proof {
        assert(panes@.skip(0) =~= panes@);
    }
    while i < panes.len()
        invariant
            i <= panes@.len(),
            first_terminal(panes@, focused_only) == first_terminal(
                panes@.skip(i as int),
                focused_only,
            ),
        decreases panes@.len() - i,
    {
        proof {
            assert(panes@.skip(i as int).drop_first() =~= panes@.skip(i + 1));
        }
        let pane = panes[i];
        if !pane.is_plugin && (pane.is_focused || !focused_only) {
            return Some(pane.id);
        }
        i += 1;
    }
    None
}

/// The terminal whose directory names a tab.
pub fn find_naming_terminal(panes: &Vec<Pane>) -> (id: Option<u32>)
    ensures
        id == naming_terminal(panes@),
{
    match find_terminal(panes, true) {
        Some(id) => Some(id),
        None => find_terminal(panes, false),
    }
}

/// The name of a tab: the folder of the terminal that names it, else the name that
/// it was given, else its number.
pub open spec fn tab_title(tab: TabView, cwd: Option<Seq<char>>) -> Seq<char> {
    let folder = match cwd {
        Some(dir) => folder_of(normalized(dir)),
        None => None,
    };
    match folder {
        Some(name) => name,
        None => if tab.name.len() == 0 {
            "tab-"@ + decimal((tab.position + 1) as nat)
        } else {
            tab.name
        },
    }
}

/// The name of a tab, given the directory of the terminal that names it.
pub fn tab_name(tab: &Tab, cwd: Option<&str>) -> (name: String)
    requires
        tab.position < usize::MAX,
    ensures
        name@ == tab_title(tab@, maybe_str(cwd)),
{
    let folder = match cwd {
        Some(dir) => {
            let normal = normalize_path(dir);
            folder_name(normal.as_str())
        },
        None => None,
    };
    match folder {
        Some(name) => name,
        None => {
            if tab.name.as_str().is_empty() {
                let number = decimal_text((tab.position + 1) as u64);
                concat2("tab-", number.as_str())
            } else {
                tab.name.clone()
            }
        },
    }
}

// ---------------------------------------------------------------------------
// Panes to look up
// ---------------------------------------------------------------------------
/// The terminals among the panes of some tabs, tab by tab.
pub open spec fn terminals_in(tabs: Seq<(usize, Seq<Pane>)>) -> Seq<u32>
    decreases tabs.len(),
{
    if tabs.len() == 0 {
        Seq::empty()
    } else {
        terminals_in(tabs.drop_last()) + terminals_of(tabs.last().1)
    }
}

/// The terminals among some panes.
pub open spec fn terminals_of(panes: Seq<Pane>) -> Seq<u32>
    decreases panes.len(),
{
    if panes.len() == 0 {
        Seq::empty()
    } else if panes.last().is_plugin {
        terminals_of(panes.drop_last())
    } else {
        terminals_of(panes.drop_last()).push(panes.last().id)
    }
}

fn append_terminals(ids: &mut Vec<u32>, panes: &Vec<Pane>)
    ensures
        final(ids)@ == old(ids)@ + terminals_of(panes@),
{
    let ghost before = ids@;
    let mut i: usize = 0;
    proof {
        assert(before + terminals_of(panes@.take(0)) =~= before);
    }
    while i < panes.len()
        invariant
            i <= panes@.len(),
            ids@ == before + terminals_of(panes@.take(i as int)),
        decreases panes@.len() - i,
    {
        proof {
            assert(panes@.take(i + 1).drop_last() =~= panes@.take(i as int));
        }
        let pane = panes[i];
        if !pane.is_plugin {
            ids.push(pane.id);
            proof {
                assert(ids@ =~= before + terminals_of(panes@.take(i + 1)));
            }
        }
        i += 1;
    }
    proof {
        assert(panes@.take(i as int) =~= panes@);
    }
}

/// The terminals among the panes of all tabs, tab by tab.
pub fn list_terminals(panes_by_tab: &SortedMap<usize, Vec<Pane>>) -> (ids: Vec<u32>)
    ensures
        ids@ == terminals_in(panes_by_tab.pairs()),
{
    let ghost all = panes_by_tab.pairs();
    let mut ids: Vec<u32> = Vec::new();
    let count = panes_by_tab.len();
    let mut i: usize = 0;
    proof {
        assert(ids@ =~= terminals_in(all.take(0)));
    }
    while i < count
        invariant
            i <= count == all.len(),
            all == panes_by_tab.pairs(),
            ids@ == terminals_in(all.take(i as int)),
        decreases count - i,
    {
        proof {
            assert(all.take(i + 1).drop_last() =~= all.take(i as int));
        }
        append_terminals(&mut ids, panes_by_tab.value_at(i));
        i += 1;
    }
    proof {
        assert(all.take(i as int) =~= all);
    }
    ids
}

/// What a `PaneCwd` says.
pub struct PaneCwdView {
    pub id: u32,
    pub cwd: Option<Seq<char>>,
}

/// A terminal and its directory, where that could be found out.
#[derive(Clone, Debug)]
pub struct PaneCwd {
    pub id: u32,
    pub cwd: Option<String>,
}

impl View for PaneCwd {
    type V = PaneCwdView;

    open spec fn view(&self) -> PaneCwdView {
        PaneCwdView { id: self.id, cwd: maybe_text(self.cwd) }
    }
}

/// What some terminals say.
pub open spec fn pane_cwd_views(cwds: Seq<PaneCwd>) -> Seq<PaneCwdView> {
    Seq::new(cwds.len(), |i: int| cwds[i]@)
}

/// The terminals whose directories are known, as panes to look up.
pub open spec fn targets_among(cwds: Seq<PaneCwdView>) -> Seq<PaneTargetView>
    decreases cwds.len(),
{
    if cwds.len() == 0 {
        Seq::empty()
    } else {
        let front = targets_among(cwds.drop_last());
        match cwds.last().cwd {
            Some(dir) => front.push(
                PaneTargetView { pane_id: decimal(cwds.last().id as nat), cwd: normalized(dir) },
            ),
            None => front,
        }
    }
}

/// The terminals whose directories are known, as panes to look up.
pub fn visible_pane_targets(cwds: &Vec<PaneCwd>) -> (targets: Vec<PaneTarget>)
    ensures
        target_views(targets@) == targets_among(pane_cwd_views(cwds@)),
{
    let ghost all = pane_cwd_views(cwds@);
    let mut targets: Vec<PaneTarget> = Vec::new();
    let mut i: usize = 0;
    proof {
        assert(target_views(targets@) =~= targets_among(all.take(0)));
    }
    while i < cwds.len()
        invariant
            i <= cwds@.len(),
            all == pane_cwd_views(cwds@),
            target_views(targets@) == targets_among(all.take(i as int)),
        decreases cwds@.len() - i,
    {
        let ghost before = target_views(targets@);
        proof {
            assert(all.take(i + 1).drop_last() =~= all.take(i as int));
            assert(all.take(i + 1).last() == cwds@[i as int]@);
        }
        match &cwds[i].cwd {
            Some(dir) => {
                let target = PaneTarget {
                    pane_id: decimal_text(cwds[i].id as u64),
                    cwd: normalize_path(dir.as_str()),
                };
                targets.push(target);
                proof {
                    assert(target_views(targets@) =~= before.push(target@));
                }
            },
            None => {},
        }
        i += 1;
    }
    proof {
        assert(all.take(i as int) =~= all);
    }
    targets
}

// ---------------------------------------------------------------------------
// Laws
// ---------------------------------------------------------------------------
proof fn lemma_with_panes(
    tracked_panes: Map<u32, TrackedPane>,
    tab_position: usize,
    panes: Seq<Pane>,
    states: Map<Seq<char>, PaneStatusView>,
    id: u32,
)
    ensures
        ({
            let after = with_panes(tracked_panes, tab_position, panes, states);
            after.dom().contains(id) ==> {
                ||| tracked_panes.dom().contains(id) && after[id] == tracked_panes[id]
                ||| {
                    &&& states.dom().contains(decimal(id as nat))
                    &&& after[id] == (TrackedPane {
                        tab_position,
                        status: states[decimal(id as nat)].status,
                    })
                    &&& exists|i: int|
                        0 <= i < panes.len() && (#[trigger] panes[i]).id == id
                            && !panes[i].is_plugin
                }
            }
        }),
    decreases panes.len(),
{
    if panes.len() > 0 {
        let front = panes.drop_last();
        lemma_with_panes(tracked_panes, tab_position, front, states, id);
        let pane = panes.last();
        assert(panes[panes.len() - 1] == pane);
        if exists|i: int| 0 <= i < front.len() && (#[trigger] front[i]).id == id
            && !front[i].is_plugin {
            let i = choose|i: int|
                0 <= i < front.len() && (#[trigger] front[i]).id == id && !front[i].is_plugin;
            assert(panes[i] == front[i]);
        }
    }
}

/// A pane runs an agent only where it is a terminal in its tab and its state is
/// known; the state is the one that is known.
pub proof fn law_tracked_panes_are_terminals(
    tabs: Seq<(usize, Seq<Pane>)>,
    states: Map<Seq<char>, PaneStatusView>,
    id: u32,
)
    requires
        tracked_in(tabs, states).dom().contains(id),
    ensures
        states.dom().contains(decimal(id as nat)),
        tracked_in(tabs, states)[id].status == states[decimal(id as nat)].status,
        exists|t: int, i: int|
            0 <= t < tabs.len() && 0 <= i < tabs[t].1.len() && tabs[t].0 == tracked_in(
                tabs,
                states,
            )[id].tab_position && (#[trigger] tabs[t].1[i]).id == id && !tabs[t].1[i].is_plugin,
    decreases tabs.len(),
{
    let front = tabs.drop_last();
    let last = tabs.len() - 1;
    let before = tracked_in(front, states);
    let after = tracked_in(tabs, states);
    lemma_with_panes(before, tabs.last().0, tabs.last().1, states, id);
    if before.dom().contains(id) && after[id] == before[id] {
        law_tracked_panes_are_terminals(front, states, id);
        let (t, i) = choose|t: int, i: int|
            0 <= t < front.len() && 0 <= i < front[t].1.len() && front[t].0 == before[id].tab_position
                && (#[trigger] front[t].1[i]).id == id && !front[t].1[i].is_plugin;
        assert(tabs[t] == front[t]);
        assert(tabs[t].1[i].id == id);
    } else {
        let panes = tabs[last].1;
        let i = choose|i: int|
            0 <= i < panes.len() && (#[trigger] panes[i]).id == id && !panes[i].is_plugin;
        assert(tabs[last].1[i].id == id);
    }
}

/// No agent in a tab is in a more urgent state than the one that the tab shows,
/// and an agent is in that state unless the tab shows none.
pub proof fn law_tab_shows_the_most_urgent_state(
    tracked_panes: Map<u32, TrackedPane>,
    tab_position: usize,
    id: u32,
)
    requires
        tracked_panes.dom().contains(id),
        tracked_panes[id].tab_position == tab_position,
    ensures
        priority_of(tracked_panes[id].status) <= priority_of(
            tab_status(tracked_panes, tab_position),
        ),
        tab_has(tracked_panes, tab_position, tab_status(tracked_panes, tab_position)),
{
    assert(tab_has(tracked_panes, tab_position, tracked_panes[id].status));
}

/// Where each terminal is asked about once, no two panes to look up have one id.
pub proof fn law_targets_differ(cwds: Seq<PaneCwdView>)
    requires
        forall|i: int, j: int|
            0 <= i < j < cwds.len() ==> (#[trigger] cwds[i]).id != (#[trigger] cwds[j]).id,
    ensures
        ids_differ(targets_among(cwds)),
    decreases cwds.len(),
{
    if cwds.len() > 0 {
        let front = cwds.drop_last();
        assert forall|i: int, j: int| 0 <= i < j < front.len() implies (#[trigger] front[i]).id != (
        #[trigger] front[j]).id by {
            assert(cwds[i].id != cwds[j].id);
        }
        law_targets_differ(front);
        let before = targets_among(front);
        let after = targets_among(cwds);
        assert forall|i: int, j: int| 0 <= i < j < after.len() implies (
        #[trigger] after[i]).pane_id != (#[trigger] after[j]).pane_id by {
            assert(after[i] == before[i]);
            if j < before.len() {
                assert(after[j] == before[j]);
            } else {
                let k = lemma_target_origin(front, i);
                assert(front[k] == cwds[k]);
                assert(cwds[k].id != cwds[cwds.len() - 1].id);
                if after[i].pane_id == after[j].pane_id {
                    law_decimal_is_injective(
                        cwds[k].id as nat,
                        cwds[cwds.len() - 1].id as nat,
                    );
                }
            }
        }
    }
}

proof fn lemma_target_origin(cwds: Seq<PaneCwdView>, i: int) -> (k: int)
    requires
        0 <= i < targets_among(cwds).len(),
    ensures
        0 <= k < cwds.len(),
        cwds[k].cwd is Some,
        targets_among(cwds)[i].pane_id == decimal(cwds[k].id as nat),
        targets_among(cwds)[i].cwd == normalized(cwds[k].cwd->0),
    decreases cwds.len(),
{
    let front = cwds.drop_last();
    if i < targets_among(front).len() {
        let k = lemma_target_origin(front, i);
        assert(front[k] == cwds[k]);
        k
    } else {
        cwds.len() - 1
    }
}

/// The directory of a pane to look up is in its normal form.
pub proof fn law_targets_are_normal(cwds: Seq<PaneCwdView>, i: int)
    requires
        0 <= i < targets_among(cwds).len(),
    ensures
        normalized(targets_among(cwds)[i].cwd) == targets_among(cwds)[i].cwd,
{
    let k = lemma_target_origin(cwds, i);
    law_normalize_is_idempotent(cwds[k].cwd->0);
}

proof fn lemma_panes_keep(
    tracked_panes: Map<u32, TrackedPane>,
    tab_position: usize,
    panes: Seq<Pane>,
    states: Map<Seq<char>, PaneStatusView>,
    id: u32,
)
    ensures
        ({
            let after = with_panes(tracked_panes, tab_position, panes, states);
            let here = exists|i: int|
                0 <= i < panes.len() && (#[trigger] panes[i]).id == id && !panes[i].is_plugin;
            if here && states.dom().contains(decimal(id as nat)) {
                &&& after.dom().contains(id)
                &&& after[id].tab_position == tab_position
                &&& after[id].status == states[decimal(id as nat)].status
            } else {
                &&& after.dom().contains(id) == tracked_panes.dom().contains(id)
                &&& tracked_panes.dom().contains(id) ==> after[id] == tracked_panes[id]
            }
        }),
    decreases panes.len(),
{
    if panes.len() > 0 {
        let front = panes.drop_last();
        let last = panes.len() - 1;
        lemma_panes_keep(tracked_panes, tab_position, front, states, id);
        assert forall|i: int| 0 <= i < last implies #[trigger] panes[i] == front[i] by {}
        assert(panes[last] == panes.last());
        if exists|i: int|
            0 <= i < panes.len() && (#[trigger] panes[i]).id == id && !panes[i].is_plugin {
            let i = choose|i: int|
                0 <= i < panes.len() && (#[trigger] panes[i]).id == id && !panes[i].is_plugin;
            if i < last {
                assert(front[i].id == id && !front[i].is_plugin);
            } else {
                assert(panes.last().id == id);
            }
        } else {
            assert(!(panes[last].id == id && !panes[last].is_plugin));
        }
        if exists|i: int|
            0 <= i < front.len() && (#[trigger] front[i]).id == id && !front[i].is_plugin {
            let i = choose|i: int|
                0 <= i < front.len() && (#[trigger] front[i]).id == id && !front[i].is_plugin;
            assert(panes[i].id == id && !panes[i].is_plugin);
        }
    }
}

/// Every terminal whose state is known runs an agent in that state, in its tab; where a
/// terminal stands in several tabs, in the last.
pub proof fn law_known_terminals_are_tracked(
    tabs: Seq<(usize, Seq<Pane>)>,
    states: Map<Seq<char>, PaneStatusView>,
    t: int,
    i: int,
)
    requires
        0 <= t < tabs.len(),
        0 <= i < tabs[t].1.len(),
        !tabs[t].1[i].is_plugin,
        states.dom().contains(decimal(tabs[t].1[i].id as nat)),
        forall|u: int, j: int|
            t < u < tabs.len() && 0 <= j < tabs[u].1.len() ==> (#[trigger] tabs[u].1[j]).id
                != tabs[t].1[i].id || tabs[u].1[j].is_plugin,
    ensures
        ({
            let id = tabs[t].1[i].id;
            let found = tracked_in(tabs, states);
            &&& found.dom().contains(id)
            &&& found[id].tab_position == tabs[t].0
            &&& found[id].status == states[decimal(id as nat)].status
        }),
    decreases tabs.len(),
{
    let front = tabs.drop_last();
    let last = tabs.len() - 1;
    let id = tabs[t].1[i].id;
    lemma_panes_keep(tracked_in(front, states), tabs[last].0, tabs[last].1, states, id);
    if t < last {
        assert(front[t] == tabs[t]);
        assert forall|u: int, j: int|
            t < u < front.len() && 0 <= j < front[u].1.len() implies (#[trigger] front[u].1[j]).id
            != front[t].1[i].id || front[u].1[j].is_plugin by {
            assert(front[u] == tabs[u]);
            assert(tabs[u].1[j].id != id || tabs[u].1[j].is_plugin);
        }
        law_known_terminals_are_tracked(front, states, t, i);
        let panes = tabs[last].1;
        assert forall|j: int| 0 <= j < panes.len() implies !((#[trigger] panes[j]).id == id
            && !panes[j].is_plugin) by {
            assert(tabs[last].1[j].id != id || tabs[last].1[j].is_plugin);
        }
    } else {
        let panes = tabs[last].1;
        assert(panes[i].id == id && !panes[i].is_plugin);
    }
}

/// A tab shows that an agent waits where one in it does; else that one runs, where one
/// does; else that one is done, where one is; else that there is nothing to show.
pub proof fn law_state_of_a_tab(
    tracked_panes: Map<u32, TrackedPane>,
    tab_position: usize,
    id: u32,
)
    ensures
        tracked_panes.dom().contains(id) && tracked_panes[id].tab_position == tab_position ==> {
            let shown = tab_status(tracked_panes, tab_position);
            &&& tracked_panes[id].status is Waiting ==> shown is Waiting
            &&& tracked_panes[id].status is Running ==> shown is Waiting || shown is Running
            &&& tracked_panes[id].status is Done ==> !(shown is Idle)
        },
        !(tab_status(tracked_panes, tab_position) is Idle) ==> exists|other: u32|
            #[trigger] tracked_panes.dom().contains(other) && tracked_panes[other].tab_position
                == tab_position && tracked_panes[other].status == tab_status(
                tracked_panes,
                tab_position,
            ),
{
    if tracked_panes.dom().contains(id) && tracked_panes[id].tab_position == tab_position {
        assert(tab_has(tracked_panes, tab_position, tracked_panes[id].status));
    }
    let shown = tab_status(tracked_panes, tab_position);
    if !(shown is Idle) {
        let other = choose|other: u32| #[trigger]
            tracked_panes.dom().contains(other) && tracked_panes[other] == (TrackedPane {
                tab_position,
                status: shown,
            });
        assert(tracked_panes.dom().contains(other));
    }
}

/// The agents in a tab are the tracked panes of that tab.
pub proof fn law_agents_of_a_tab(
    tracked_panes: Map<u32, TrackedPane>,
    tab_position: usize,
    id: u32,
)
    ensures
        agents_in(tracked_panes, tab_position).contains(id) <==> tracked_panes.dom().contains(id)
            && tracked_panes[id].tab_position == tab_position,
{
}

/// A path is shown by the last name on it; the root has none.
pub proof fn law_folder_of_a_path(base: Seq<char>, name: Seq<char>)
    requires
        base.len() > 0,
        is_good_name(name),
    ensures
        folder_of(base + seq!['/'] + name) == Some(name),
        folder_of(name) == Some(name),
        folder_of(seq!['/'] + name) == Some(name),
        folder_of(seq!['/']) is None,
        folder_of(Seq::empty()) is None,
        folder_of(seq!['.']) == Some("."@),
        folder_of(base + seq!['/', '.', '.']) == Some(".."@),
{
    law_steps_of_a_path(base, name);
}

/// The terminal that names a tab is the first one in focus; without one in focus, the
/// first one. A plugin names no tab.
pub proof fn law_naming_terminal(panes: Seq<Pane>, i: int)
    ensures
        0 <= i < panes.len() && !panes[i].is_plugin && panes[i].is_focused && (forall|j: int|
            0 <= j < i ==> (#[trigger] panes[j]).is_plugin || !panes[j].is_focused)
            ==> naming_terminal(panes) == Some(panes[i].id),
        0 <= i < panes.len() && !panes[i].is_plugin && (forall|j: int|
            0 <= j < i ==> (#[trigger] panes[j]).is_plugin) && (forall|j: int|
            0 <= j < panes.len() ==> (#[trigger] panes[j]).is_plugin || !panes[j].is_focused)
            ==> naming_terminal(panes) == Some(panes[i].id),
        (forall|j: int| 0 <= j < panes.len() ==> (#[trigger] panes[j]).is_plugin)
            ==> naming_terminal(panes) is None,
{
    lemma_first_terminal(panes, true, i);
    lemma_first_terminal(panes, false, i);
}

proof fn lemma_first_terminal(panes: Seq<Pane>, focused_only: bool, i: int)
    ensures
        0 <= i < panes.len() && !panes[i].is_plugin && (panes[i].is_focused || !focused_only) && (
        forall|j: int|
            0 <= j < i ==> (#[trigger] panes[j]).is_plugin || focused_only && !panes[j].is_focused)
            ==> first_terminal(panes, focused_only) == Some(panes[i].id),
        (forall|j: int|
            0 <= j < panes.len() ==> (#[trigger] panes[j]).is_plugin || focused_only
                && !panes[j].is_focused) ==> first_terminal(panes, focused_only) is None,
    decreases panes.len(),
{
    if panes.len() > 0 {
        let rest = panes.drop_first();
        lemma_first_terminal(rest, focused_only, i - 1);
        assert forall|j: int| 1 <= j < panes.len() implies #[trigger] panes[j] == rest[j - 1] by {}
        assert forall|j: int| 0 <= j < rest.len() implies #[trigger] rest[j] == panes[j + 1] by {}
    }
}

/// A tab is named by the folder of its terminal, where that is known and has a name;
/// else by the name that it was given; else by its number, counted from one.
pub proof fn law_title_of_a_tab(tab: TabView, dir: Seq<char>)
    ensures
        folder_of(normalized(dir)) matches Some(name) ==> tab_title(tab, Some(dir)) == name,
        tab.name.len() > 0 ==> tab_title(tab, None) == tab.name,
        tab.name.len() > 0 && folder_of(normalized(dir)) is None ==> tab_title(tab, Some(dir))
            == tab.name,
        tab.name.len() == 0 ==> tab_title(tab, None) == "tab-"@ + decimal(
            (tab.position + 1) as nat,
        ),
        tab.name.len() == 0 && folder_of(normalized(dir)) is None ==> tab_title(tab, Some(dir))
            == "tab-"@ + decimal((tab.position + 1) as nat),
{
}

/// The terminals to ask about are the panes that are no plugins, in their order, tab by
/// tab.
pub proof fn law_terminals_are_the_panes_without_plugins(
    tabs: Seq<(usize, Seq<Pane>)>,
    tab: (usize, Seq<Pane>),
)
    ensures
        terminals_in(Seq::empty()).len() == 0,
        terminals_in(tabs.push(tab)) == terminals_in(tabs) + tab.1.filter(
            |pane: Pane| !pane.is_plugin,
        ).map_values(|pane: Pane| pane.id),
{
    assert(tabs.push(tab).drop_last() =~= tabs);
    lemma_terminals_of(tab.1);
}

proof fn lemma_terminals_of(panes: Seq<Pane>)
    ensures
        terminals_of(panes) == panes.filter(|pane: Pane| !pane.is_plugin).map_values(
            |pane: Pane| pane.id,
        ),
    decreases panes.len(),
{
    let wanted = |pane: Pane| !pane.is_plugin;
    let made = |pane: Pane| pane.id;
    reveal(Seq::filter);
    if panes.len() > 0 {
        lemma_terminals_of(panes.drop_last());
        let front = panes.drop_last().filter(wanted);
        if wanted(panes.last()) {
            assert(front.push(panes.last()).map_values(made) =~= front.map_values(made).push(
                made(panes.last()),
            ));
        }
    } else {
        assert(panes.filter(wanted).map_values(made) =~= terminals_of(panes));
    }
}

/// The panes to look up are the terminals whose directory is known, in their order, by
/// the notation of their id and with their directory in its normal form.
pub proof fn law_targets_are_the_known_directories(cwds: Seq<PaneCwdView>)
    ensures
        targets_among(cwds) == cwds.filter(|pane: PaneCwdView| pane.cwd is Some).map_values(
            |pane: PaneCwdView|
                PaneTargetView { pane_id: decimal(pane.id as nat), cwd: normalized(pane.cwd->0) },
        ),
    decreases cwds.len(),
{
    let wanted = |pane: PaneCwdView| pane.cwd is Some;
    let made = |pane: PaneCwdView|
        PaneTargetView { pane_id: decimal(pane.id as nat), cwd: normalized(pane.cwd->0) };
    reveal(Seq::filter);
    if cwds.len() > 0 {
        law_targets_are_the_known_directories(cwds.drop_last());
        let front = cwds.drop_last().filter(wanted);
        if wanted(cwds.last()) {
            assert(front.push(cwds.last()).map_values(made) =~= front.map_values(made).push(
                made(cwds.last()),
            ));
        }
    } else {
        assert(cwds.filter(wanted).map_values(made) =~= targets_among(cwds));
    }
}

/// The states of panes are theirs, and of no others.
pub proof fn law_states_of_panes(tracked_panes: Map<u32, TrackedPane>, id: u32)
    ensures
        statuses_of(tracked_panes).dom().contains(id) == tracked_panes.dom().contains(id),
        tracked_panes.dom().contains(id) ==> statuses_of(tracked_panes)[id]
            == tracked_panes[id].status,
{
}

} // verus!
