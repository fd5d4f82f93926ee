//! Agents that run behind an app server: their records on disk, and what the
//! server tells of their threads.

use vstd::prelude::*;

use crate::codex_cache::{home_dir, home_of};
use crate::json::{list_model, Json, JsonView};
use crate::path::{join_path, join_paths};
use crate::sorted_map::SortedMap;
use crate::status::AgentStatusKind;
use crate::status_file::{PaneStatusEntry, PaneStatusView, SnapshotView, StatusSnapshot};
use crate::text::{
    at_most, concat2, copy_text, decimal, decimal_text, first_chars, is_text,
    law_decimal_is_injective, maybe_str, maybe_text, texts,
};
use crate::time::{unix_seconds, whole_seconds, Timestamp};

verus! {

/// The longest preview that stands for the name of a thread, in characters.
pub const PREVIEW_MAX: usize = 48;

/// How often an app server that does not listen yet is tried.
pub const LISTENER_PROBES: u32 = 50;

/// A running agent: its process, the address of its app server, and the process
/// of the server.
#[derive(Clone, Debug)]
pub struct RuntimeRecord {
    pub pid: u32,
    pub ws_url: String,
    pub cwd: String,
    pub started_at: u64,
    pub app_server_pid: u32,
}

/// What a `LiveThreadStatus` says.
pub struct LiveThreadView {
    pub thread_id: Option<Seq<char>>,
    pub thread_name: Option<Seq<char>>,
    pub status: AgentStatusKind,
    pub updated_at: u64,
}

/// The state of a thread as the app server tells it.
#[derive(Clone, Debug)]
pub struct LiveThreadStatus {
    pub thread_id: Option<String>,
    pub thread_name: Option<String>,
    pub status: AgentStatusKind,
    pub updated_at: u64,
}

impl View for LiveThreadStatus {
    type V = LiveThreadView;

    open spec fn view(&self) -> LiveThreadView {
        LiveThreadView {
            thread_id: maybe_text(self.thread_id),
            thread_name: maybe_text(self.thread_name),
            status: self.status,
            updated_at: self.updated_at,
        }
    }
}

// ---------------------------------------------------------------------------
// Files and addresses
// ---------------------------------------------------------------------------
/// The directory of the records of running agents.
pub open spec fn runtime_dir_of(home: Option<Seq<char>>) -> Seq<char> {
    join_paths(home_of(home), ".local/state/zeldex/pids"@)
}

/// The directory of the records of running agents.
pub fn runtime_dir(home: Option<&str>) -> (dir: String)
    ensures
        dir@ == runtime_dir_of(maybe_str(home)),
{
    let dir = home_dir(home);
    join_path(dir.as_str(), ".local/state/zeldex/pids")
}

/// The file with the record of an agent.
pub fn runtime_path_for_pid(home: Option<&str>, pid: u32) -> (path: String)
    ensures
        path@ == join_paths(runtime_dir_of(maybe_str(home)), decimal(pid as nat) + ".json"@),
{
    let dir = runtime_dir(home);
    let number = decimal_text(pid as u64);
    let name = concat2(number.as_str(), ".json");
    join_path(dir.as_str(), name.as_str())
}

/// The address at which an app server listens on this machine.
pub fn app_server_url(port: u16) -> (url: String)
    ensures
        url@ == "ws://127.0.0.1:"@ + decimal(port as nat),
{
    let number = decimal_text(port as u64);
    concat2("ws://127.0.0.1:", number.as_str())
}

/// Whether an app server is tried once more after some tries that failed.
pub fn probes_again(failed: u32) -> (again: bool)
    ensures
        again == (failed < LISTENER_PROBES),
{
    failed < LISTENER_PROBES
}

/// Whole seconds since the start of 1970 at a moment; none before it.
pub fn now_unix_seconds(now: Timestamp) -> (secs: u64)
    ensures
        secs == whole_seconds(now),
{
    unix_seconds(now)
}

// ---------------------------------------------------------------------------
// States
// ---------------------------------------------------------------------------
/// Whether a flag says that an active agent waits for its user.
pub open spec fn is_waiting_flag(flag: JsonView) -> bool {
    flag.text() == Some("waitingOnUserInput"@) || flag.text() == Some("waitingOnApproval"@)
}

/// Whether an active agent waits for its user.
pub open spec fn has_waiting_flag(status: JsonView) -> bool {
    match status.field("activeFlags"@) {
        Some(flags) => match flags.items() {
            Some(items) => exists|i: int|
                0 <= i < items.len() && is_waiting_flag(#[trigger] items[i]),
            None => false,
        },
        None => false,
    }
}

/// The state that a status of the app server stands for.
pub open spec fn live_status(status: Option<JsonView>) -> AgentStatusKind {
    match status {
        Some(status) => {
            let kind = status.text_field("type"@);
            if kind == Some("active"@) {
                if has_waiting_flag(status) {
                    AgentStatusKind::Waiting
                } else {
                    AgentStatusKind::Running
                }
            } else if kind == Some("idle"@) || kind == Some("notLoaded"@) || kind == Some(
                "systemError"@,
            ) {
                AgentStatusKind::Done
            } else {
                AgentStatusKind::Running
            }
        },
        None => AgentStatusKind::Running,
    }
}

fn any_waiting_flag(flags: &Vec<Json>) -> (any: bool)
    ensures
        any == (exists|i: int|
            0 <= i < list_model(flags@).len() && is_waiting_flag(#[trigger] list_model(flags@)[i])),
{
    let mut i: usize = 0;
    while i < flags.len()
        invariant
            i <= flags@.len(),
            forall|j: int| 0 <= j < i ==> !is_waiting_flag(#[trigger] list_model(flags@)[j]),
        decreases flags@.len() - i,
    {
        let flag = flags[i].as_str();
        proof {
            assert(list_model(flags@)[i as int] == flags@[i as int]@);
        }
        if is_text(flag, "waitingOnUserInput") || is_text(flag, "waitingOnApproval") {
            return true;
        }
        i += 1;
    }
    false
}

fn waits_for_user(status: &Json) -> (waits: bool)
    ensures
        waits == has_waiting_flag(status@),
{
    match status.get("activeFlags") {
        Some(flags) => match flags.as_list() {
            Some(items) => any_waiting_flag(items),
            None => false,
        },
        None => false,
    }
}

/// The state that a status of the app server stands for.
pub fn map_thread_status(status: Option<&Json>) -> (kind: AgentStatusKind)
    ensures
        kind == live_status(
            match status {
                Some(status) => Some(status@),
                None => None,
            },
        ),
{
    match status {
        Some(status) => {
            let kind = status.get_str("type");
            if is_text(kind, "active") {
                if waits_for_user(status) {
                    AgentStatusKind::Waiting
                } else {
                    AgentStatusKind::Running
                }
            } else if is_text(kind, "idle") || is_text(kind, "notLoaded") || is_text(
                kind,
                "systemError",
            ) {
                AgentStatusKind::Done
            } else {
                AgentStatusKind::Running
            }
        },
        None => AgentStatusKind::Running,
    }
}

// ---------------------------------------------------------------------------
// Threads
// ---------------------------------------------------------------------------
/// The texts among some values.
pub open spec fn texts_among(items: Seq<JsonView>) -> Seq<Seq<char>>
    decreases items.len(),
{
    if items.len() == 0 {
        Seq::empty()
    } else {
        match items.last().text() {
            Some(text) => texts_among(items.drop_last()).push(text),
            None => texts_among(items.drop_last()),
        }
    }
}

/// The ids in a list of loaded threads; nothing where there is no list.
pub open spec fn loaded_ids(loaded: JsonView) -> Option<Seq<Seq<char>>> {
    match loaded.field("data"@) {
        Some(data) => match data.items() {
            Some(items) => Some(texts_among(items)),
            None => None,
        },
        None => None,
    }
}

/// The name of a thread; its preview, cut to the longest, where it has none.
pub open spec fn live_name(thread: JsonView) -> Option<Seq<char>> {
    match thread.text_field("name"@) {
        Some(name) => Some(name),
        None => match thread.text_field("preview"@) {
            Some(preview) => Some(at_most(preview, PREVIEW_MAX as nat)),
            None => None,
        },
    }
}

/// When a thread changed last; zero where it does not tell.
pub open spec fn live_time(thread: JsonView) -> u64 {
    match thread.field("updatedAt"@) {
        Some(time) => match time.unsigned() {
            Some(secs) => secs,
            None => 0,
        },
        None => 0,
    }
}

/// The state of the thread that an answer of the server holds.
pub open spec fn live_thread(answer: JsonView) -> Option<LiveThreadView> {
    match answer.field("thread"@) {
        Some(thread) => Some(
            LiveThreadView {
                thread_id: thread.text_field("id"@),
                thread_name: live_name(thread),
                status: live_status(thread.field("status"@)),
                updated_at: live_time(thread),
            },
        ),
        None => None,
    }
}

/// The thread that changed last among those that some answers hold; of several,
/// the first.
pub open spec fn newest_live(answers: Seq<JsonView>) -> Option<LiveThreadView>
    decreases answers.len(),
{
    if answers.len() == 0 {
        None
    } else {
        let best = newest_live(answers.drop_last());
        match (best, live_thread(answers.last())) {
            (_, None) => best,
            (None, Some(thread)) => Some(thread),
            (Some(current), Some(thread)) => if current.updated_at < thread.updated_at {
                Some(thread)
            } else {
                best
            },
        }
    }
}

/// The ids in a list of loaded threads; nothing where there is no list.
pub fn loaded_thread_ids(loaded: &Json) -> (ids: Option<Vec<String>>)
    ensures
        match ids {
            Some(ids) => loaded_ids(loaded@) == Some(texts(ids@)),
            None => loaded_ids(loaded@) is None,
        },
{
    match loaded.get("data") {
        Some(data) => match data.as_list() {
            Some(items) => Some(collect_texts(items)),
            None => None,
        },
        None => None,
    }
}

fn collect_texts(items: &Vec<Json>) -> (found: Vec<String>)
    ensures
        texts(found@) == texts_among(list_model(items@)),
{
    let ghost all = list_model(items@);
    let mut found: Vec<String> = Vec::new();
    let mut i: usize = 0;
    proof {
        assert(texts(found@) =~= Seq::<Seq<char>>::empty());
    }
    while i < items.len()
        invariant
            i <= items@.len(),
            all == list_model(items@),
            texts(found@) == texts_among(all.take(i as int)),
        decreases items@.len() - i,
    {
        let ghost before = texts(found@);
        proof {
            assert(all.take(i + 1).drop_last() =~= all.take(i as int));
            assert(all.take(i + 1).last() == items@[i as int]@);
        }
        match items[i].as_str() {
            Some(text) => {
                found.push(text.to_owned());
                proof {
                    assert(texts(found@) =~= before.push(text@));
                }
            },
            None => {},
        }
        i += 1;
    }
    proof {
        assert(all.take(i as int) =~= all);
    }
    found
}

fn owned(text: Option<&str>) -> (copy: Option<String>)
    ensures
        maybe_text(copy) == maybe_str(text),
{
    match text {
        Some(text) => Some(text.to_owned()),
        None => None,
    }
}

fn name_of_thread(thread: &Json) -> (name: Option<String>)
    ensures
        maybe_text(name) == live_name(thread@),
{
    match thread.get_str("name") {
        Some(name) => Some(name.to_owned()),
        None => match thread.get_str("preview") {
            Some(preview) => Some(first_chars(preview, PREVIEW_MAX)),
            None => None,
        },
    }
}

fn time_of_thread(thread: &Json) -> (secs: u64)
    ensures
        secs == live_time(thread@),
{
    match thread.get("updatedAt") {
        Some(time) => match time.as_u64() {
            Some(secs) => secs,
            None => 0,
        },
        None => 0,
    }
}

/// The state of the thread that an answer of the server holds.
pub fn read_live_thread(answer: &Json) -> (live: Option<LiveThreadStatus>)
    ensures
        match live {
            Some(live) => live_thread(answer@) == Some(live@),
            None => live_thread(answer@) is None,
        },
{
    match answer.get("thread") {
        Some(thread) => Some(
            LiveThreadStatus {
                thread_id: owned(thread.get_str("id")),
                thread_name: name_of_thread(thread),
                status: map_thread_status(thread.get("status")),
                updated_at: time_of_thread(thread),
            },
        ),
        None => None,
    }
}

/// The thread that changed last among those that some answers hold.
pub fn newest_live_thread(answers: &Vec<Json>) -> (best: Option<LiveThreadStatus>)
    ensures
        match best {
            Some(live) => newest_live(list_model(answers@)) == Some(live@),
            None => newest_live(list_model(answers@)) is None,
        },
{
    let ghost all = list_model(answers@);
    let mut best: Option<LiveThreadStatus> = None;
    let mut i: usize = 0;
    while i < answers.len()
        invariant
            i <= answers@.len(),
            all == list_model(answers@),
            match best {
                Some(live) => newest_live(all.take(i as int)) == Some(live@),
                None => newest_live(all.take(i as int)) is None,
            },
        decreases answers@.len() - i,
    {
        proof {
            assert(all.take(i + 1).drop_last() =~= all.take(i as int));
            assert(all.take(i + 1).last() == answers@[i as int]@);
        }
        match read_live_thread(&answers[i]) {
            Some(thread) => {
                let newer = match &best {
                    Some(current) => current.updated_at < thread.updated_at,
                    None => true,
                };
                if newer {
                    best = Some(thread);
                }
            },
            None => {},
        }
        i += 1;
    }
    proof {
        assert(all.take(i as int) =~= all);
    }
    best
}

// ---------------------------------------------------------------------------
// Snapshots
// ---------------------------------------------------------------------------
/// What a `LivePane` says.
pub struct LivePaneView {
    pub pane_id: Seq<char>,
    pub live: Option<LiveThreadView>,
}

/// A pane whose app server answered, and the newest thread that it told of.
#[derive(Clone, Debug)]
pub struct LivePane {
    pub pane_id: String,
    pub live: Option<LiveThreadStatus>,
}

impl View for LivePane {
    type V = LivePaneView;

    open spec fn view(&self) -> LivePaneView {
        LivePaneView {
            pane_id: self.pane_id@,
            live: match self.live {
                Some(live) => Some(live@),
                None => None,
            },
        }
    }
}

/// What some panes say.
pub open spec fn live_pane_views(panes: Seq<LivePane>) -> Seq<LivePaneView> {
    Seq::new(panes.len(), |i: int| panes[i]@)
}

/// The state of a pane whose app server answered: it runs where the server told
/// of no thread.
pub open spec fn live_entry(pane: LivePaneView, updated_at: u64) -> PaneStatusView {
    match pane.live {
        Some(live) => PaneStatusView {
            pane_id: pane.pane_id,
            status: live.status,
            updated_at: live.updated_at,
            thread_id: live.thread_id,
            thread_name: live.thread_name,
        },
        None => PaneStatusView {
            pane_id: pane.pane_id,
            status: AgentStatusKind::Running,
            updated_at,
            thread_id: None,
            thread_name: None,
        },
    }
}

/// The states of some panes; of panes with one id, of the last.
pub open spec fn live_entries(panes: Seq<LivePaneView>, updated_at: u64) -> Map<
    Seq<char>,
    PaneStatusView,
>
    decreases panes.len(),
{
    if panes.len() == 0 {
        Map::empty()
    } else {
        live_entries(panes.drop_last(), updated_at).insert(
            panes.last().pane_id,
            live_entry(panes.last(), updated_at),
        )
    }
}

fn entry_of(pane: &LivePane, updated_at: u64) -> (entry: PaneStatusEntry)
    ensures
        entry@ == live_entry(pane@, updated_at),
{
    match &pane.live {
        Some(live) => PaneStatusEntry {
            pane_id: pane.pane_id.clone(),
            status: live.status,
            updated_at: live.updated_at,
            thread_id: copy_text(&live.thread_id),
            thread_name: copy_text(&live.thread_name),
        },
        None => PaneStatusEntry {
            pane_id: pane.pane_id.clone(),
            status: AgentStatusKind::Running,
            updated_at,
            thread_id: None,
            thread_name: None,
        },
    }
}

/// The states of the panes whose app servers answered.
pub fn live_snapshot(panes: &Vec<LivePane>, updated_at: u64) -> (snapshot: StatusSnapshot)
    ensures
        snapshot@ == (SnapshotView {
            panes: live_entries(live_pane_views(panes@), updated_at),
            updated_at,
        }),
{
    let ghost all = live_pane_views(panes@);
    let mut entries: SortedMap<String, PaneStatusEntry> = SortedMap::new();
    let mut i: usize = 0;
    while i < panes.len()
        invariant
            i <= panes@.len(),
            all == live_pane_views(panes@),
            entries@ == live_entries(all.take(i as int), updated_at),
        decreases panes@.len() - i,
    {
        proof {
            assert(all.take(i + 1).drop_last() =~= all.take(i as int));
            assert(all.take(i + 1).last() == panes@[i as int]@);
        }
        let entry = entry_of(&panes[i], updated_at);
        entries.insert(panes[i].pane_id.clone(), entry);
        i += 1;
    }
    proof {
        assert(all.take(i as int) =~= all);
    }
    StatusSnapshot { panes: entries, updated_at }
}

// ---------------------------------------------------------------------------
// Laws
// ---------------------------------------------------------------------------
/// No answer holds a thread that changed later than the newest one, and there is
/// a newest one wherever an answer holds a thread.
pub proof fn law_newest_live_changed_last(answers: Seq<JsonView>, i: int)
    requires
        0 <= i < answers.len(),
        live_thread(answers[i]) is Some,
    ensures
        newest_live(answers) is Some,
        live_thread(answers[i])->0.updated_at <= newest_live(answers)->0.updated_at,
    decreases answers.len(),
{
    if i < answers.len() - 1 {
        law_newest_live_changed_last(answers.drop_last(), i);
        assert(answers.drop_last()[i] == answers[i]);
    }
}

/// The records of two agents lie in different files.
pub proof fn law_runtime_names_differ(a: u32, b: u32)
    requires
        decimal(a as nat) + ".json"@ == decimal(b as nat) + ".json"@,
    ensures
        a == b,
{
    let left = decimal(a as nat);
    let right = decimal(b as nat);
    let end = ".json"@;
    assert((left + end).len() == (right + end).len());
    assert((left + end).take(left.len() as int) =~= left);
    assert((right + end).take(right.len() as int) =~= right);
    law_decimal_is_injective(a as nat, b as nat);
}

/// An agent behind an app server never counts as idle.
pub proof fn law_live_status_is_never_idle(status: Option<JsonView>)
    ensures
        !(live_status(status) is Idle),
{
}

/// The newest live thread is, with all that is told of it, the thread that one of
/// the answers holds: no answer holds a thread that changed later, and every earlier
/// answer with a thread holds one that changed before it. There is none only where no
/// answer holds a thread.
pub proof fn law_newest_live_is_one_of_the_threads(answers: Seq<JsonView>) -> (i: int)
    ensures
        match newest_live(answers) {
            Some(newest) => {
                &&& 0 <= i < answers.len()
                &&& live_thread(answers[i]) == Some(newest)
                &&& forall|j: int|
                    #![trigger answers[j]]
                    0 <= j < answers.len() ==> match live_thread(answers[j]) {
                        Some(other) => other.updated_at <= newest.updated_at && (j < i
                            ==> other.updated_at < newest.updated_at),
                        None => true,
                    }
            },
            None => forall|j: int|
                #![trigger answers[j]]
                0 <= j < answers.len() ==> live_thread(answers[j]) is None,
        },
    decreases answers.len(),
{
    if answers.len() == 0 {
        0
    } else {
        let front = answers.drop_last();
        let last = answers.len() - 1;
        let i = law_newest_live_is_one_of_the_threads(front);
        assert forall|j: int| 0 <= j < last implies #[trigger] answers[j] == front[j] by {}
        assert(answers[last] == answers.last());
        if newest_live(answers) == newest_live(front) && newest_live(front) is Some {
            i
        } else {
            last
        }
    }
}

/// An agent waits where its server says that it is active and gives, in a list of flags,
/// one that it waits for input or for leave. It is done where it is idle, not loaded or
/// in error. Otherwise it runs, whatever the server says, or where it says nothing.
pub proof fn law_states_of_the_server(status: JsonView, flags: Seq<JsonView>)
    ensures
        ({
            let kind = status.text_field("type"@);
            &&& status.field("activeFlags"@) == Some(JsonView::List(flags)) ==> (live_status(
                Some(status),
            ) is Waiting <==> kind == Some("active"@) && exists|i: int|
                0 <= i < flags.len() && is_waiting_flag(#[trigger] flags[i]))
            &&& live_status(Some(status)) is Waiting ==> status.field("activeFlags"@) is Some
                && status.field("activeFlags"@)->0 is List
            &&& live_status(Some(status)) is Done <==> kind == Some("idle"@) || kind == Some(
                "notLoaded"@,
            ) || kind == Some("systemError"@)
            &&& !(live_status(Some(status)) is Idle)
        }),
        live_status(None) is Running,
{
    reveal_strlit("active");
    reveal_strlit("idle");
    reveal_strlit("notLoaded");
    reveal_strlit("systemError");
    assert("active"@[0] != "idle"@[0] && "active"@[0] != "notLoaded"@[0] && "active"@[0]
        != "systemError"@[0]);
    if status.field("activeFlags"@) == Some(JsonView::List(flags)) {
        let items = status.field("activeFlags"@)->0.items()->0;
        assert(items == flags);
        if exists|i: int| 0 <= i < flags.len() && is_waiting_flag(#[trigger] flags[i]) {
            let i = choose|i: int| 0 <= i < flags.len() && is_waiting_flag(#[trigger] flags[i]);
            assert(is_waiting_flag(items[i]));
            assert(has_waiting_flag(status));
        }
        if has_waiting_flag(status) {
            let i = choose|i: int| 0 <= i < items.len() && is_waiting_flag(#[trigger] items[i]);
            assert(is_waiting_flag(flags[i]));
        }
    }
}

/// The flags for waiting are those for input and for leave.
pub proof fn law_waiting_flags(flag: JsonView)
    ensures
        is_waiting_flag(flag) <==> flag == JsonView::Text("waitingOnUserInput"@) || flag
            == JsonView::Text("waitingOnApproval"@),
{
}

/// What is told of a live thread stands in the object under `thread` of an answer: its
/// id, its name or else the first forty-eight characters of its preview, its state, and
/// the second of its last change, which is zero where it is missing. An answer without
/// that object tells of no thread.
pub proof fn law_live_thread_is_in_the_answer(answer: JsonView)
    ensures
        answer.field("thread"@) is None ==> live_thread(answer) is None,
        answer.field("thread"@) matches Some(thread) ==> (live_thread(answer) matches Some(live)
            && {
            &&& live.thread_id == thread.text_field("id"@)
            &&& thread.text_field("name"@) is Some ==> live.thread_name == thread.text_field(
                "name"@,
            )
            &&& thread.text_field("name"@) is None ==> match thread.text_field("preview"@) {
                Some(preview) => live.thread_name == Some(
                    if preview.len() <= 48 {
                        preview
                    } else {
                        preview.take(48)
                    },
                ),
                None => live.thread_name is None,
            }
            &&& live.status == live_status(thread.field("status"@))
            &&& thread.field("updatedAt"@) is None ==> live.updated_at == 0
            &&& thread.field("updatedAt"@) matches Some(time) ==> live.updated_at
                == match time.unsigned() {
                Some(secs) => secs,
                None => 0,
            }
        }),
{
}

/// The ids of loaded threads are the texts in the list under `data`, in their order;
/// without that list there are none to tell.
pub proof fn law_loaded_ids_are_the_texts(loaded: JsonView)
    ensures
        loaded_ids(loaded) is Some <==> loaded.field("data"@) is Some && loaded.field("data"@)->0
            is List,
        loaded_ids(loaded) matches Some(ids) ==> ids == loaded.field(
            "data"@,
        )->0->List_0.filter(|item: JsonView| item is Text).map_values(
            |item: JsonView| item->Text_0,
        ),
{
    if loaded_ids(loaded) is Some {
        lemma_texts_among(loaded.field("data"@)->0->List_0);
    }
}

proof fn lemma_texts_among(items: Seq<JsonView>)
    ensures
        texts_among(items) == items.filter(|item: JsonView| item is Text).map_values(
            |item: JsonView| item->Text_0,
        ),
    decreases items.len(),
{
    let wanted = |item: JsonView| item is Text;
    let made = |item: JsonView| item->Text_0;
    reveal(Seq::filter);
    if items.len() > 0 {
        lemma_texts_among(items.drop_last());
        let front = items.drop_last().filter(wanted);
        if wanted(items.last()) {
            assert(front.push(items.last()).map_values(made) =~= front.map_values(made).push(
                made(items.last()),
            ));
        }
    } else {
        assert(items.filter(wanted).map_values(made) =~= texts_among(items));
    }
}

/// A live snapshot tells of exactly the panes that were asked about; of those with one
/// id, of the last. A pane whose server told of a thread shows that thread, and any
/// other pane runs, as of the moment of the snapshot, without a thread.
pub proof fn law_live_snapshot_tells_each_pane(
    panes: Seq<LivePaneView>,
    updated_at: u64,
    i: int,
)
    requires
        0 <= i < panes.len(),
        forall|j: int|
            i < j < panes.len() ==> (#[trigger] panes[j]).pane_id != panes[i].pane_id,
    ensures
        ({
            let entries = live_entries(panes, updated_at);
            let id = panes[i].pane_id;
            &&& entries.dom().contains(id)
            &&& entries[id].pane_id == id
            &&& panes[i].live matches Some(live) ==> {
                &&& entries[id].status == live.status
                &&& entries[id].updated_at == live.updated_at
                &&& entries[id].thread_id == live.thread_id
                &&& entries[id].thread_name == live.thread_name
            }
            &&& panes[i].live is None ==> {
                &&& entries[id].status is Running
                &&& entries[id].updated_at == updated_at
                &&& entries[id].thread_id is None
                &&& entries[id].thread_name is None
            }
        }),
    decreases panes.len(),
{
    let front = panes.drop_last();
    if i < front.len() {
        assert(front[i] == panes[i]);
        assert forall|j: int| i < j < front.len() implies (#[trigger] front[j]).pane_id
            != front[i].pane_id by {
            assert(front[j] == panes[j]);
        }
        law_live_snapshot_tells_each_pane(front, updated_at, i);
        assert(panes[panes.len() - 1].pane_id != panes[i].pane_id);
    }
}

/// A live snapshot tells of no other pane.
pub proof fn law_live_snapshot_tells_no_other_pane(
    panes: Seq<LivePaneView>,
    updated_at: u64,
    id: Seq<char>,
)
    requires
        forall|i: int| 0 <= i < panes.len() ==> (#[trigger] panes[i]).pane_id != id,
    ensures
        !live_entries(panes, updated_at).dom().contains(id),
    decreases panes.len(),
{
    if panes.len() > 0 {
        let front = panes.drop_last();
        assert forall|i: int| 0 <= i < front.len() implies (#[trigger] front[i]).pane_id != id by {
            assert(front[i] == panes[i]);
        }
        assert(panes[panes.len() - 1].pane_id != id);
        law_live_snapshot_tells_no_other_pane(front, updated_at, id);
    }
}

/// The records of running agents lie under the home directory, and under the current
/// one where there is none.
pub proof fn law_records_lie_under_home(home: Seq<char>)
    requires
        home.len() > 0,
        home.last() != '/',
    ensures
        runtime_dir_of(Some(home)) == home + "/.local/state/zeldex/pids"@,
        runtime_dir_of(None) == "./.local/state/zeldex/pids"@,
{
    reveal_strlit(".local/state/zeldex/pids");
    reveal_strlit("/.local/state/zeldex/pids");
    reveal_strlit("./.local/state/zeldex/pids");
    reveal_strlit(".");
    assert(home.push('/') + ".local/state/zeldex/pids"@ =~= home + "/.local/state/zeldex/pids"@);
    assert("."@.push('/') + ".local/state/zeldex/pids"@ =~= "./.local/state/zeldex/pids"@);
}

/// A server that does not listen is tried again until it has been tried fifty times.
pub proof fn law_fifty_probes(failed: u32)
    ensures
        failed < LISTENER_PROBES <==> failed < 50,
{
}

} // verus!
