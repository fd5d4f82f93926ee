//! The states of Codex panes: which thread a pane shows, and what a refresh keeps
//! in mind for the next one.

use vstd::prelude::*;

use crate::codex_file::{file_views, CodexFile, CodexFileView};
use crate::codex_match::{
    best_position, best_thread, is_older, law_best_thread_ranks_highest, older_than,
    select_best_thread,
};
use crate::codex_thread::{
    index_names, law_index_name_wins, law_thread_tells_its_transcript,
    law_threads_come_from_transcripts, load_thread_index, summarize_threads, thread_id_of, thread_in,
    thread_views, threads_in, ThreadSummary, ThreadView,
};
use crate::path::{is_same_path, normalize_path, normalized, same_path, steps};
use crate::sorted_map::{is_listed, lemma_pairs_has, SortedMap};
use crate::status_file::{PaneStatusEntry, PaneStatusView, SnapshotView, StatusSnapshot};
use crate::text::{copy_text, same_text};
use crate::time::{unix_seconds, whole_seconds, Timestamp};

verus! {

/// What a `PaneTarget` says.
pub struct PaneTargetView {
    pub pane_id: Seq<char>,
    pub cwd: Seq<char>,
}

/// A pane and the directory that it works in.
#[derive(Clone, Debug, PartialEq, Eq)]
pub struct PaneTarget {
    pub pane_id: String,
    pub cwd: String,
}

impl View for PaneTarget {
    type V = PaneTargetView;

    open spec fn view(&self) -> PaneTargetView {
        PaneTargetView { pane_id: self.pane_id@, cwd: self.cwd@ }
    }
}

/// What some targets say.
pub open spec fn target_views(panes: Seq<PaneTarget>) -> Seq<PaneTargetView> {
    Seq::new(panes.len(), |i: int| panes[i]@)
}

/// What a `CachedPaneBinding` says.
pub struct BindingView {
    pub pane_id: Seq<char>,
    pub cwd: Seq<char>,
    pub transcript_path: Seq<char>,
}

/// The transcript that a pane showed last, and the directory it worked in then.
#[derive(Debug, PartialEq, Eq)]
pub struct CachedPaneBinding {
    pub pane_id: String,
    pub cwd: String,
    pub transcript_path: String,
}

impl View for CachedPaneBinding {
    type V = BindingView;

    open spec fn view(&self) -> BindingView {
        BindingView {
            pane_id: self.pane_id@,
            cwd: self.cwd@,
            transcript_path: self.transcript_path@,
        }
    }
}

impl Clone for CachedPaneBinding {
    fn clone(&self) -> (copy: CachedPaneBinding)
        ensures
            copy@ == self@,
    {
        CachedPaneBinding {
            pane_id: self.pane_id.clone(),
            cwd: self.cwd.clone(),
            transcript_path: self.transcript_path.clone(),
        }
    }
}

/// What a refresh keeps in mind for the next one: a binding for each pane, by
/// the id of the pane.
#[derive(Debug)]
pub struct RefreshCache {
    pub bindings: SortedMap<String, CachedPaneBinding>,
}

impl View for RefreshCache {
    type V = Map<Seq<char>, BindingView>;

    open spec fn view(&self) -> Map<Seq<char>, BindingView> {
        self.bindings@
    }
}

impl Clone for RefreshCache {
    fn clone(&self) -> (copy: RefreshCache)
        ensures
            copy@ == self@,
    {
        RefreshCache { bindings: self.bindings.clone() }
    }
}

impl Default for RefreshCache {
    fn default() -> (cache: RefreshCache)
        ensures
            cache@ == Map::<Seq<char>, BindingView>::empty(),
    {
        RefreshCache { bindings: SortedMap::new() }
    }
}

// ---------------------------------------------------------------------------
// Models
// ---------------------------------------------------------------------------
/// The thread whose transcript lies at a path; of several, the last.
pub open spec fn thread_at(threads: Seq<ThreadView>, path: Seq<char>) -> Option<ThreadView>
    decreases threads.len(),
{
    if threads.len() == 0 {
        None
    } else if same_path(threads.last().transcript_path, path) {
        Some(threads.last())
    } else {
        thread_at(threads.drop_last(), path)
    }
}

/// The thread that a pane is bound to, as long as the pane works in the directory
/// it had then and the transcript is known.
pub open spec fn bound_thread(
    pane: PaneTargetView,
    threads: Seq<ThreadView>,
    bindings: Map<Seq<char>, BindingView>,
) -> Option<ThreadView> {
    if bindings.dom().contains(pane.pane_id) && same_path(
        normalized(bindings[pane.pane_id].cwd),
        pane.cwd,
    ) {
        thread_at(threads, normalized(bindings[pane.pane_id].transcript_path))
    } else {
        None
    }
}

/// The thread that a pane shows: the one it is bound to, unless the best one is
/// newer.
pub open spec fn resolved_thread(
    pane: PaneTargetView,
    threads: Seq<ThreadView>,
    bindings: Map<Seq<char>, BindingView>,
) -> Option<ThreadView> {
    let best = best_thread(threads, pane.cwd);
    match bound_thread(pane, threads, bindings) {
        Some(bound) => match best {
            Some(newest) => if older_than(bound, newest) {
                best
            } else {
                Some(bound)
            },
            None => Some(bound),
        },
        None => best,
    }
}

/// The state of a pane that shows a thread.
pub open spec fn shown_status(pane_id: Seq<char>, thread: ThreadView) -> PaneStatusView {
    PaneStatusView {
        pane_id,
        status: thread.status,
        updated_at: thread.updated_at,
        thread_id: Some(thread.thread_id),
        thread_name: thread.thread_name,
    }
}

/// The binding of a pane to a thread.
pub open spec fn binding_to(pane: PaneTargetView, thread: ThreadView) -> BindingView {
    BindingView {
        pane_id: pane.pane_id,
        cwd: pane.cwd,
        transcript_path: thread.transcript_path,
    }
}

/// States and bindings of panes.
pub struct AssignmentView {
    pub states: Map<Seq<char>, PaneStatusView>,
    pub bindings: Map<Seq<char>, BindingView>,
}

/// States and bindings after one more pane has got its thread.
pub open spec fn with_pane(
    assignment: AssignmentView,
    pane: PaneTargetView,
    threads: Seq<ThreadView>,
) -> AssignmentView {
    match resolved_thread(pane, threads, assignment.bindings) {
        Some(thread) => AssignmentView {
            states: assignment.states.insert(pane.pane_id, shown_status(pane.pane_id, thread)),
            bindings: assignment.bindings.insert(pane.pane_id, binding_to(pane, thread)),
        },
        None => AssignmentView {
            states: assignment.states,
            bindings: assignment.bindings.remove(pane.pane_id),
        },
    }
}

/// States and bindings after some panes have got their threads, one after the
/// other.
pub open spec fn assigned(
    panes: Seq<PaneTargetView>,
    threads: Seq<ThreadView>,
    bindings: Map<Seq<char>, BindingView>,
) -> AssignmentView
    decreases panes.len(),
{
    if panes.len() == 0 {
        AssignmentView { states: Map::empty(), bindings }
    } else {
        with_pane(assigned(panes.drop_last(), threads, bindings), panes.last(), threads)
    }
}

/// The directory of a pane among some panes; of several with that id, of the last.
pub open spec fn cwd_of(panes: Seq<PaneTargetView>, pane_id: Seq<char>) -> Option<Seq<char>>
    decreases panes.len(),
{
    if panes.len() == 0 {
        None
    } else if panes.last().pane_id == pane_id {
        Some(panes.last().cwd)
    } else {
        cwd_of(panes.drop_last(), pane_id)
    }
}

/// Whether a binding still holds: its pane is there, in the directory that the
/// binding tells, and the transcript is known.
pub open spec fn is_live(
    binding: BindingView,
    cwd: Option<Seq<char>>,
    threads: Seq<ThreadView>,
) -> bool {
    &&& cwd matches Some(dir) && same_path(normalized(binding.cwd), dir)
    &&& thread_at(threads, normalized(binding.transcript_path)) is Some
}

/// The bindings that still hold.
pub open spec fn pruned(
    bindings: Map<Seq<char>, BindingView>,
    panes: Seq<PaneTargetView>,
    threads: Seq<ThreadView>,
) -> Map<Seq<char>, BindingView> {
    bindings.filter_keys(|id: Seq<char>| is_live(bindings[id], cwd_of(panes, id), threads))
}

/// The threads that some files tell of, with the names that their index gives.
pub open spec fn known_threads(files: Seq<CodexFileView>, now: Timestamp) -> Seq<ThreadView> {
    threads_in(files, index_names(files), now)
}

/// The states of all panes.
pub open spec fn snapshot_of(
    panes: Seq<PaneTargetView>,
    files: Seq<CodexFileView>,
    bindings: Map<Seq<char>, BindingView>,
    now: Timestamp,
) -> SnapshotView {
    SnapshotView {
        panes: assigned(panes, known_threads(files, now), bindings).states,
        updated_at: whole_seconds(now),
    }
}

/// What a refresh keeps in mind.
pub open spec fn bindings_after(
    panes: Seq<PaneTargetView>,
    files: Seq<CodexFileView>,
    bindings: Map<Seq<char>, BindingView>,
    now: Timestamp,
) -> Map<Seq<char>, BindingView> {
    let threads = known_threads(files, now);
    pruned(assigned(panes, threads, bindings).bindings, panes, threads)
}

// ---------------------------------------------------------------------------
// Operations
// ---------------------------------------------------------------------------
fn find_thread<'a>(threads: &'a Vec<ThreadSummary>, path: &str) -> (found: Option<
    &'a ThreadSummary,
>)
    ensures
        match found {
            Some(thread) => thread_at(thread_views(threads@), path@) == Some(thread@),
            None => thread_at(thread_views(threads@), path@) is None,
        },
{
    let ghost all = thread_views(threads@);
    let mut left: usize = threads.len();
    proof {
        assert(all.take(left as int) =~= all);
    }
    while left > 0
        invariant
            left <= threads@.len(),
            all == thread_views(threads@),
            thread_at(all, path@) == thread_at(all.take(left as int), path@),
        decreases left,
    {
        proof {
            assert(all.take(left as int).drop_last() =~= all.take(left - 1));
            assert(all.take(left as int).last() == threads@[left - 1]@);
        }
        left -= 1;
        let thread = &threads[left];
        if is_same_path(thread.transcript_path.as_str(), path) {
            return Some(thread);
        }
    }
    None
}

/// The thread that a pane shows.
pub fn resolve_pane_thread<'a>(
    pane: &PaneTarget,
    threads: &'a Vec<ThreadSummary>,
    cache: &RefreshCache,
) -> (resolved: Option<&'a ThreadSummary>)
    ensures
        match resolved {
            Some(thread) => resolved_thread(pane@, thread_views(threads@), cache@) == Some(thread@),
            None => resolved_thread(pane@, thread_views(threads@), cache@) is None,
        },
{
    let bound = match cache.bindings.get(&pane.pane_id) {
        Some(binding) => {
            let cwd = normalize_path(binding.cwd.as_str());
            if is_same_path(cwd.as_str(), pane.cwd.as_str()) {
                let path = normalize_path(binding.transcript_path.as_str());
                find_thread(threads, path.as_str())
            } else {
                None
            }
        },
        None => None,
    };
    let best = select_best_thread(threads.as_slice(), pane.cwd.as_str());
    match bound {
        Some(kept) => match best {
            Some(newest) => if is_older(kept, newest) {
                best
            } else {
                bound
            },
            None => bound,
        },
        None => best,
    }
}

fn find_cwd<'a>(panes: &'a [PaneTarget], pane_id: &str) -> (cwd: Option<&'a str>)
    ensures
        match cwd {
            Some(dir) => cwd_of(target_views(panes@), pane_id@) == Some(dir@),
            None => cwd_of(target_views(panes@), pane_id@) is None,
        },
{
    let ghost all = target_views(panes@);
    let mut left: usize = panes.len();
    proof {
        assert(all.take(left as int) =~= all);
    }
    while left > 0
        invariant
            left <= panes@.len(),
            all == target_views(panes@),
            cwd_of(all, pane_id@) == cwd_of(all.take(left as int), pane_id@),
        decreases left,
    {
        proof {
            assert(all.take(left as int).drop_last() =~= all.take(left - 1));
            assert(all.take(left as int).last() == panes@[left - 1]@);
        }
        left -= 1;
        let pane = &panes[left];
        if same_text(pane.pane_id.as_str(), pane_id) {
            return Some(pane.cwd.as_str());
        }
    }
    None
}

fn holds_still(binding: &CachedPaneBinding, cwd: Option<&str>, threads: &Vec<ThreadSummary>) -> (
    holds: bool)
    ensures
        holds == is_live(
            binding@,
            match cwd {
                Some(dir) => Some(dir@),
                None => None,
            },
            thread_views(threads@),
        ),
{
    match cwd {
        Some(dir) => {
            let bound = normalize_path(binding.cwd.as_str());
            let path = normalize_path(binding.transcript_path.as_str());
            is_same_path(bound.as_str(), dir) && find_thread(threads, path.as_str()).is_some()
        },
        None => false,
    }
}

/// Drops the bindings that no longer hold.
pub fn prune_bindings(
    cache: &mut RefreshCache,
    panes: &[PaneTarget],
    threads: &Vec<ThreadSummary>,
)
    ensures
        final(cache)@ == pruned(old(cache)@, target_views(panes@), thread_views(threads@)),
{
    let ghost bindings = cache@;
    let ghost pairs = cache.bindings.pairs();
    let ghost targets = target_views(panes@);
    let ghost known = thread_views(threads@);
    let ghost live = |id: Seq<char>| is_live(bindings[id], cwd_of(targets, id), known);
    let count = cache.bindings.len();
    let mut dead: Vec<String> = Vec::new();
    let mut i: usize = 0;
    while i < count
        invariant
            i <= count == pairs.len(),
            pairs == cache.bindings.pairs(),
            bindings == cache@,
            targets == target_views(panes@),
            known == thread_views(threads@),
            live == (|id: Seq<char>| is_live(bindings[id], cwd_of(targets, id), known)),
            forall|d: int| 0 <= d < dead@.len() ==> !live((#[trigger] dead@[d])@),
            forall|j: int|
                0 <= j < i ==> live((#[trigger] pairs[j]).0) || is_listed(dead@, pairs[j].0),
        decreases count - i,
    {
        let pane_id = cache.bindings.key_at(i);
        let binding = cache.bindings.value_at(i);
        let holds = holds_still(binding, find_cwd(panes, pane_id.as_str()), threads);
        proof {
            assert(holds == live(pairs[i as int].0));
        }
        if !holds {
            let ghost listed = dead@;
            dead.push(pane_id.clone());
            proof {
                assert(dead@[listed.len() as int]@ == pairs[i as int].0);
                assert forall|j: int| 0 <= j < i + 1 implies live((#[trigger] pairs[j]).0)
                    || is_listed(dead@, pairs[j].0) by {
                    if j < i && !live(pairs[j].0) {
                        let d = choose|d: int|
                            0 <= d < listed.len() && (#[trigger] listed[d])@ == pairs[j].0;
                        assert(dead@[d]@ == pairs[j].0);
                    }
                }
            }
        }
        i += 1;
    }
    cache.bindings.remove_all(&dead);
    proof {
        assert forall|id: Seq<char>| bindings.dom().contains(id) implies #[trigger] live(id)
            == !is_listed(dead@, id) by {
            lemma_pairs_has(pairs, id);
            let j = choose|j: int| 0 <= j < pairs.len() && (#[trigger] pairs[j]).0 == id;
            assert(live(pairs[j].0) || is_listed(dead@, pairs[j].0));
        }
        assert(cache@ =~= pruned(bindings, targets, known));
    }
}

fn assign_pane(
    states: &mut SortedMap<String, PaneStatusEntry>,
    cache: &mut RefreshCache,
    pane: &PaneTarget,
    threads: &Vec<ThreadSummary>,
)
    ensures
        (AssignmentView { states: final(states)@, bindings: final(cache)@ }) == with_pane(
            AssignmentView { states: old(states)@, bindings: old(cache)@ },
            pane@,
            thread_views(threads@),
        ),
{
    match resolve_pane_thread(pane, threads, cache) {
        Some(thread) => {
            let entry = PaneStatusEntry {
                pane_id: pane.pane_id.clone(),
                status: thread.status,
                updated_at: thread.updated_at,
                thread_id: Some(thread.thread_id.clone()),
                thread_name: copy_text(&thread.thread_name),
            };
            let binding = CachedPaneBinding {
                pane_id: pane.pane_id.clone(),
                cwd: pane.cwd.clone(),
                transcript_path: thread.transcript_path.clone(),
            };
            states.insert(pane.pane_id.clone(), entry);
            cache.bindings.insert(pane.pane_id.clone(), binding);
        },
        None => cache.bindings.remove(&pane.pane_id),
    }
}

/// Gives each pane its thread, and keeps in mind which it was.
pub fn collect_status_snapshot(
    panes: &[PaneTarget],
    files: &[CodexFile],
    cache: &mut RefreshCache,
    now: Timestamp,
) -> (snapshot: StatusSnapshot)
    ensures
        snapshot@ == snapshot_of(target_views(panes@), file_views(files@), old(cache)@, now),
        final(cache)@ == bindings_after(
            target_views(panes@),
            file_views(files@),
            old(cache)@,
            now,
        ),
{
    let thread_names = load_thread_index(files);
    let threads = summarize_threads(files, &thread_names, now);
    let ghost bindings = cache@;
    let ghost targets = target_views(panes@);
    let ghost known = thread_views(threads@);
    let mut states: SortedMap<String, PaneStatusEntry> = SortedMap::new();
    let mut i: usize = 0;
    while i < panes.len()
        invariant
            i <= panes@.len(),
            targets == target_views(panes@),
            known == thread_views(threads@),
            (AssignmentView { states: states@, bindings: cache@ }) == assigned(
                targets.take(i as int),
                known,
                bindings,
            ),
        decreases panes@.len() - i,
    {
        proof {
            assert(targets.take(i + 1).drop_last() =~= targets.take(i as int));
            assert(targets.take(i + 1).last() == panes@[i as int]@);
        }
        assign_pane(&mut states, cache, &panes[i], &threads);
        i += 1;
    }
    proof {
        assert(targets.take(i as int) =~= targets);
    }
    prune_bindings(cache, panes, &threads);
    StatusSnapshot { panes: states, updated_at: unix_seconds(now) }
}

// ---------------------------------------------------------------------------
// Laws
// ---------------------------------------------------------------------------
/// A pane keeps the thread that it is bound to until a newer match wins; a match of
/// the same second is not newer, whatever its state.
pub proof fn law_binding_is_sticky(
    pane: PaneTargetView,
    threads: Seq<ThreadView>,
    bindings: Map<Seq<char>, BindingView>,
    bound: ThreadView,
)
    requires
        bound_thread(pane, threads, bindings) == Some(bound),
        best_thread(threads, pane.cwd) matches Some(best) ==> best.updated_at <= bound.updated_at,
    ensures
        resolved_thread(pane, threads, bindings) == Some(bound),
{
}

/// A newer match takes the place of the thread that a pane is bound to.
pub proof fn law_newer_thread_replaces_binding(
    pane: PaneTargetView,
    threads: Seq<ThreadView>,
    bindings: Map<Seq<char>, BindingView>,
    bound: ThreadView,
    best: ThreadView,
)
    requires
        bound_thread(pane, threads, bindings) == Some(bound),
        best_thread(threads, pane.cwd) == Some(best),
        bound.updated_at < best.updated_at,
    ensures
        resolved_thread(pane, threads, bindings) == Some(best),
{
}

/// Every binding that a refresh keeps in mind belongs to a pane that is there, in
/// the directory that the binding tells, and to a transcript that is known.
pub proof fn law_kept_bindings_are_live(
    panes: Seq<PaneTargetView>,
    files: Seq<CodexFileView>,
    bindings: Map<Seq<char>, BindingView>,
    now: Timestamp,
    id: Seq<char>,
)
    requires
        bindings_after(panes, files, bindings, now).dom().contains(id),
    ensures
        is_live(
            bindings_after(panes, files, bindings, now)[id],
            cwd_of(panes, id),
            known_threads(files, now),
        ),
        exists|i: int| 0 <= i < panes.len() && (#[trigger] panes[i]).pane_id == id,
{
    lemma_cwd_of_pane(panes, id);
}

proof fn lemma_cwd_of_pane(panes: Seq<PaneTargetView>, id: Seq<char>)
    ensures
        cwd_of(panes, id) is Some ==> exists|i: int|
            0 <= i < panes.len() && (#[trigger] panes[i]).pane_id == id,
    decreases panes.len(),
{
    if panes.len() > 0 {
        lemma_cwd_of_pane(panes.drop_last(), id);
        if panes.last().pane_id == id {
            assert(panes[panes.len() - 1].pane_id == id);
        } else if cwd_of(panes, id) is Some {
            let i = choose|i: int|
                0 <= i < panes.drop_last().len() && (#[trigger] panes.drop_last()[i]).pane_id == id;
            assert(panes[i].pane_id == id);
        }
    }
}

/// A snapshot tells the state of no pane but those asked about.
pub proof fn law_states_belong_to_panes(
    panes: Seq<PaneTargetView>,
    threads: Seq<ThreadView>,
    bindings: Map<Seq<char>, BindingView>,
    id: Seq<char>,
)
    requires
        assigned(panes, threads, bindings).states.dom().contains(id),
    ensures
        exists|i: int| 0 <= i < panes.len() && (#[trigger] panes[i]).pane_id == id,
        assigned(panes, threads, bindings).states[id].pane_id == id,
    decreases panes.len(),
{
    let front = panes.drop_last();
    if panes.last().pane_id == id {
        assert(panes[panes.len() - 1].pane_id == id);
    }
    if assigned(front, threads, bindings).states.dom().contains(id) {
        law_states_belong_to_panes(front, threads, bindings, id);
        let i = choose|i: int| 0 <= i < front.len() && (#[trigger] front[i]).pane_id == id;
        assert(panes[i].pane_id == id);
    }
}

/// Whether no two panes have one id.
pub open spec fn ids_differ(panes: Seq<PaneTargetView>) -> bool {
    forall|i: int, j: int|
        0 <= i < j < panes.len() ==> (#[trigger] panes[i]).pane_id != (#[trigger] panes[j]).pane_id
}

proof fn lemma_other_binding_stays(
    panes: Seq<PaneTargetView>,
    threads: Seq<ThreadView>,
    bindings: Map<Seq<char>, BindingView>,
    id: Seq<char>,
)
    requires
        forall|i: int| 0 <= i < panes.len() ==> (#[trigger] panes[i]).pane_id != id,
    ensures
        assigned(panes, threads, bindings).bindings.dom().contains(id) == bindings.dom().contains(
            id,
        ),
        bindings.dom().contains(id) ==> assigned(panes, threads, bindings).bindings[id]
            == bindings[id],
        !assigned(panes, threads, bindings).states.dom().contains(id),
    decreases panes.len(),
{
    if panes.len() > 0 {
        let front = panes.drop_last();
        assert forall|i: int| 0 <= i < front.len() implies (#[trigger] front[i]).pane_id != id by {
            assert(front[i] == panes[i]);
        }
        assert(panes[panes.len() - 1].pane_id != id);
        lemma_other_binding_stays(front, threads, bindings, id);
    }
}

/// Where no two panes have one id, the state and the binding of each pane follow
/// from its own binding and the threads alone; the other panes do not matter.
pub proof fn law_panes_are_independent(
    panes: Seq<PaneTargetView>,
    threads: Seq<ThreadView>,
    bindings: Map<Seq<char>, BindingView>,
    i: int,
)
    requires
        ids_differ(panes),
        0 <= i < panes.len(),
    ensures
        match resolved_thread(panes[i], threads, bindings) {
            Some(thread) => {
                let result = assigned(panes, threads, bindings);
                &&& result.states.dom().contains(panes[i].pane_id)
                &&& result.states[panes[i].pane_id] == shown_status(panes[i].pane_id, thread)
                &&& result.bindings.dom().contains(panes[i].pane_id)
                &&& result.bindings[panes[i].pane_id] == binding_to(panes[i], thread)
            },
            None => {
                let result = assigned(panes, threads, bindings);
                &&& !result.states.dom().contains(panes[i].pane_id)
                &&& !result.bindings.dom().contains(panes[i].pane_id)
            },
        },
    decreases panes.len(),
{
    let front = panes.drop_last();
    let id = panes[i].pane_id;
    assert forall|a: int, b: int| 0 <= a < b < front.len() implies (#[trigger] front[a]).pane_id != (
    #[trigger] front[b]).pane_id by {
        assert(panes[a].pane_id != panes[b].pane_id);
    }
    if i < front.len() {
        law_panes_are_independent(front, threads, bindings, i);
        assert(front[i] == panes[i]);
        assert(panes[i].pane_id != panes[panes.len() - 1].pane_id);
    } else {
        assert forall|a: int| 0 <= a < front.len() implies (#[trigger] front[a]).pane_id != id by {
            assert(panes[a].pane_id != panes[i].pane_id);
        }
        lemma_other_binding_stays(front, threads, bindings, id);
    }
}

/// A refresh shows a bound pane with its thread until a newer match wins.
pub proof fn law_refresh_keeps_bound_threads(
    panes: Seq<PaneTargetView>,
    files: Seq<CodexFileView>,
    bindings: Map<Seq<char>, BindingView>,
    now: Timestamp,
    i: int,
    bound: ThreadView,
)
    requires
        ids_differ(panes),
        0 <= i < panes.len(),
        bound_thread(panes[i], known_threads(files, now), bindings) == Some(bound),
        best_thread(known_threads(files, now), panes[i].cwd) matches Some(best)
            ==> best.updated_at <= bound.updated_at,
    ensures
        snapshot_of(panes, files, bindings, now).panes.dom().contains(panes[i].pane_id),
        snapshot_of(panes, files, bindings, now).panes[panes[i].pane_id] == shown_status(
            panes[i].pane_id,
            bound,
        ),
{
    let threads = known_threads(files, now);
    law_binding_is_sticky(panes[i], threads, bindings, bound);
    law_panes_are_independent(panes, threads, bindings, i);
}

/// Whether the transcripts of some threads lie at normal paths, no two at one.
pub open spec fn paths_differ(threads: Seq<ThreadView>) -> bool {
    &&& forall|i: int|
        0 <= i < threads.len() ==> normalized((#[trigger] threads[i]).transcript_path)
            == threads[i].transcript_path
    &&& forall|i: int, j: int|
        0 <= i < j < threads.len() ==> !same_path(
            (#[trigger] threads[i]).transcript_path,
            (#[trigger] threads[j]).transcript_path,
        )
}

proof fn lemma_thread_found(threads: Seq<ThreadView>, i: int)
    requires
        paths_differ(threads),
        0 <= i < threads.len(),
    ensures
        thread_at(threads, threads[i].transcript_path) == Some(threads[i]),
    decreases threads.len(),
{
    if i < threads.len() - 1 {
        let front = threads.drop_last();
        assert(paths_differ(front)) by {
            assert forall|a: int| 0 <= a < front.len() implies normalized(
                (#[trigger] front[a]).transcript_path,
            ) == front[a].transcript_path by {
                assert(front[a] == threads[a]);
            }
            assert forall|a: int, b: int| 0 <= a < b < front.len() implies !same_path(
                (#[trigger] front[a]).transcript_path,
                (#[trigger] front[b]).transcript_path,
            ) by {
                assert(front[a] == threads[a]);
                assert(front[b] == threads[b]);
            }
        }
        lemma_thread_found(front, i);
        assert(front[i] == threads[i]);
        assert(!same_path(threads[i].transcript_path, threads[threads.len() - 1].transcript_path));
    }
}

proof fn lemma_thread_at_is_thread(threads: Seq<ThreadView>, path: Seq<char>)
    ensures
        thread_at(threads, path) matches Some(thread) ==> exists|i: int|
            0 <= i < threads.len() && #[trigger] threads[i] == thread,
    decreases threads.len(),
{
    if threads.len() > 0 {
        let front = threads.drop_last();
        lemma_thread_at_is_thread(front, path);
        if same_path(threads.last().transcript_path, path) {
            assert(threads[threads.len() - 1] == threads.last());
        } else if thread_at(front, path) is Some {
            let i = choose|i: int| 0 <= i < front.len() && #[trigger] front[i] == thread_at(front, path)->0;
            assert(threads[i] == front[i]);
        }
    }
}

/// Binding a pane to the thread that it shows leaves that thread in place at the
/// next look, as long as the threads stay the same.
pub proof fn law_choice_is_stable(
    pane: PaneTargetView,
    threads: Seq<ThreadView>,
    bindings: Map<Seq<char>, BindingView>,
    later: Map<Seq<char>, BindingView>,
    thread: ThreadView,
)
    requires
        paths_differ(threads),
        same_path(normalized(pane.cwd), pane.cwd),
        resolved_thread(pane, threads, bindings) == Some(thread),
        later.dom().contains(pane.pane_id),
        later[pane.pane_id] == binding_to(pane, thread),
    ensures
        bound_thread(pane, threads, later) == Some(thread),
        resolved_thread(pane, threads, later) == Some(thread),
{
    law_best_thread_ranks_highest(threads, normalized(pane.cwd));
    if bindings.dom().contains(pane.pane_id) {
        lemma_thread_at_is_thread(threads, normalized(bindings[pane.pane_id].transcript_path));
    }
    if best_thread(threads, pane.cwd) == Some(thread) {
        let best = best_position(threads, normalized(pane.cwd))->0;
        assert(threads[best] == thread);
    }
    let i = choose|i: int| 0 <= i < threads.len() && #[trigger] threads[i] == thread;
    lemma_thread_found(threads, i);
}

/// Refreshing again with the same panes and files gives the same states and keeps
/// the same bindings in mind: no pane jumps to another thread without cause.
pub proof fn law_refresh_is_stable(
    panes: Seq<PaneTargetView>,
    files: Seq<CodexFileView>,
    bindings: Map<Seq<char>, BindingView>,
    now: Timestamp,
)
    requires
        ids_differ(panes),
        forall|i: int|
            0 <= i < panes.len() ==> same_path(
                normalized((#[trigger] panes[i]).cwd),
                panes[i].cwd,
            ),
        paths_differ(known_threads(files, now)),
    ensures
        snapshot_of(panes, files, bindings_after(panes, files, bindings, now), now) == snapshot_of(
            panes,
            files,
            bindings,
            now,
        ),
        bindings_after(panes, files, bindings_after(panes, files, bindings, now), now)
            == bindings_after(panes, files, bindings, now),
{
    let threads = known_threads(files, now);
    let first = assigned(panes, threads, bindings);
    let later = bindings_after(panes, files, bindings, now);
    let second = assigned(panes, threads, later);
    let last = bindings_after(panes, files, later, now);
    assert forall|i: int| 0 <= i < panes.len() implies {
        let id = (#[trigger] panes[i]).pane_id;
        &&& first.states.dom().contains(id) == second.states.dom().contains(id)
        &&& first.states.dom().contains(id) ==> first.states[id] == second.states[id]
        &&& later.dom().contains(id) == last.dom().contains(id)
        &&& later.dom().contains(id) ==> later[id] == last[id]
    } by {
        let pane = panes[i];
        law_panes_are_independent(panes, threads, bindings, i);
        law_panes_are_independent(panes, threads, later, i);
        match resolved_thread(pane, threads, bindings) {
            Some(thread) => {
                let bound = bindings.insert(pane.pane_id, binding_to(pane, thread));
                law_choice_is_stable(pane, threads, bindings, bound, thread);
                lemma_cwd_of_distinct(panes, i);
                assert(later.dom().contains(pane.pane_id));
                law_choice_is_stable(pane, threads, bindings, later, thread);
            },
            None => {},
        }
    }
    assert forall|id: Seq<char>|
        #![trigger first.states.dom().contains(id)]
        #![trigger second.states.dom().contains(id)]
        {
            &&& first.states.dom().contains(id) == second.states.dom().contains(id)
            &&& first.states.dom().contains(id) ==> first.states[id] == second.states[id]
        } by {
        if first.states.dom().contains(id) {
            law_states_belong_to_panes(panes, threads, bindings, id);
        }
        if second.states.dom().contains(id) {
            law_states_belong_to_panes(panes, threads, later, id);
        }
    }
    assert(first.states =~= second.states);
    assert forall|id: Seq<char>|
        #![trigger later.dom().contains(id)]
        #![trigger last.dom().contains(id)]
        {
            &&& later.dom().contains(id) == last.dom().contains(id)
            &&& later.dom().contains(id) ==> later[id] == last[id]
        } by {
        lemma_cwd_of_pane(panes, id);
    }
    assert(later =~= last);
}

proof fn lemma_cwd_of_distinct(panes: Seq<PaneTargetView>, i: int)
    requires
        ids_differ(panes),
        0 <= i < panes.len(),
    ensures
        cwd_of(panes, panes[i].pane_id) == Some(panes[i].cwd),
    decreases panes.len(),
{
    if i < panes.len() - 1 {
        let front = panes.drop_last();
        assert forall|a: int, b: int| 0 <= a < b < front.len() implies (
        #[trigger] front[a]).pane_id != (#[trigger] front[b]).pane_id by {
            assert(panes[a].pane_id != panes[b].pane_id);
        }
        lemma_cwd_of_distinct(front, i);
        assert(front[i] == panes[i]);
        assert(panes[i].pane_id != panes[panes.len() - 1].pane_id);
    }
}

/// A binding counts only in the directory that it was made in: a pane that has gone
/// elsewhere, or that has no binding, shows the thread that fits its directory best,
/// whatever the binding says.
pub proof fn law_binding_counts_only_in_its_directory(
    pane: PaneTargetView,
    threads: Seq<ThreadView>,
    bindings: Map<Seq<char>, BindingView>,
)
    requires
        bindings.dom().contains(pane.pane_id) ==> steps(normalized(bindings[pane.pane_id].cwd))
            != steps(pane.cwd),
    ensures
        resolved_thread(pane, threads, bindings) == best_thread(threads, pane.cwd),
{
}

/// A binding to a transcript that is not known does not count either.
pub proof fn law_binding_needs_its_transcript(
    pane: PaneTargetView,
    threads: Seq<ThreadView>,
    bindings: Map<Seq<char>, BindingView>,
)
    requires
        bindings.dom().contains(pane.pane_id) ==> forall|i: int|
            0 <= i < threads.len() ==> steps((#[trigger] threads[i]).transcript_path) != steps(
                normalized(bindings[pane.pane_id].transcript_path),
            ),
    ensures
        resolved_thread(pane, threads, bindings) == best_thread(threads, pane.cwd),
{
    if bindings.dom().contains(pane.pane_id) {
        law_thread_at_is_the_last_there(
            threads,
            normalized(bindings[pane.pane_id].transcript_path),
        );
    }
}

/// The thread at a path has its transcript there, and no later one has; there is
/// none only where no transcript lies there.
pub proof fn law_thread_at_is_the_last_there(threads: Seq<ThreadView>, path: Seq<char>)
    ensures
        match thread_at(threads, path) {
            Some(thread) => exists|i: int|
                0 <= i < threads.len() && #[trigger] threads[i] == thread && steps(
                    thread.transcript_path,
                ) == steps(path) && forall|j: int|
                    i < j < threads.len() ==> steps((#[trigger] threads[j]).transcript_path)
                        != steps(path),
            None => forall|i: int|
                0 <= i < threads.len() ==> steps((#[trigger] threads[i]).transcript_path) != steps(
                    path,
                ),
        },
    decreases threads.len(),
{
    if threads.len() > 0 {
        let front = threads.drop_last();
        let last = threads.len() - 1;
        law_thread_at_is_the_last_there(front, path);
        assert forall|i: int| 0 <= i < last implies #[trigger] threads[i] == front[i] by {}
        assert(threads[last] == threads.last());
        if steps(threads[last].transcript_path) != steps(path) && thread_at(front, path) is Some {
            let thread = thread_at(front, path)->0;
            let i = choose|i: int|
                0 <= i < front.len() && #[trigger] front[i] == thread && steps(
                    thread.transcript_path,
                ) == steps(path) && forall|j: int|
                    i < j < front.len() ==> steps((#[trigger] front[j]).transcript_path) != steps(
                        path,
                    );
            assert(threads[i] == thread);
            assert forall|j: int| i < j < threads.len() implies steps(
                (#[trigger] threads[j]).transcript_path,
            ) != steps(path) by {
                if j < last {
                    assert(front[j] == threads[j]);
                }
            }
        }
    }
}

/// A pane that still works where its binding was made stays with the bound thread,
/// unless the thread that fits best changed in a later second: then it shows that
/// one.
pub proof fn law_bound_pane_stays_or_moves_to_newer(
    pane: PaneTargetView,
    threads: Seq<ThreadView>,
    bindings: Map<Seq<char>, BindingView>,
    i: int,
)
    requires
        bindings.dom().contains(pane.pane_id),
        steps(normalized(bindings[pane.pane_id].cwd)) == steps(pane.cwd),
        0 <= i < threads.len(),
        steps(threads[i].transcript_path) == steps(
            normalized(bindings[pane.pane_id].transcript_path),
        ),
        forall|j: int|
            i < j < threads.len() ==> steps((#[trigger] threads[j]).transcript_path) != steps(
                threads[i].transcript_path,
            ),
    ensures
        match best_thread(threads, pane.cwd) {
            Some(best) => resolved_thread(pane, threads, bindings) == Some(
                if best.updated_at > threads[i].updated_at {
                    best
                } else {
                    threads[i]
                },
            ),
            None => resolved_thread(pane, threads, bindings) == Some(threads[i]),
        },
{
    let path = normalized(bindings[pane.pane_id].transcript_path);
    law_thread_at_is_the_last_there(threads, path);
    let found = thread_at(threads, path)->0;
    let k = choose|k: int|
        0 <= k < threads.len() && #[trigger] threads[k] == found && steps(found.transcript_path)
            == steps(path) && forall|j: int|
            k < j < threads.len() ==> steps((#[trigger] threads[j]).transcript_path) != steps(path);
    if k < i {
        assert(steps(threads[i].transcript_path) != steps(path));
    } else if i < k {
        assert(steps(threads[k].transcript_path) != steps(threads[i].transcript_path));
    }
}

/// A pane shows one of the threads. Its project directory contains the directory of
/// the pane or lies in it, unless the pane was bound to its transcript in that same
/// directory.
pub proof fn law_shown_thread_belongs_to_the_pane(
    pane: PaneTargetView,
    threads: Seq<ThreadView>,
    bindings: Map<Seq<char>, BindingView>,
    thread: ThreadView,
)
    requires
        resolved_thread(pane, threads, bindings) == Some(thread),
    ensures
        exists|i: int| 0 <= i < threads.len() && #[trigger] threads[i] == thread,
        ({
            let place = steps(normalized(pane.cwd));
            let project = steps(thread.project_dir);
            ||| project.len() <= place.len() && place.take(project.len() as int) == project
            ||| place.len() <= project.len() && project.take(place.len() as int) == place
            ||| {
                &&& bindings.dom().contains(pane.pane_id)
                &&& steps(normalized(bindings[pane.pane_id].cwd)) == steps(pane.cwd)
                &&& steps(normalized(bindings[pane.pane_id].transcript_path)) == steps(
                    thread.transcript_path,
                )
            }
        }),
{
    law_best_thread_ranks_highest(threads, normalized(pane.cwd));
    if best_thread(threads, pane.cwd) == Some(thread) {
        let place = steps(normalized(pane.cwd));
        let project = steps(thread.project_dir);
        let best = best_position(threads, normalized(pane.cwd))->0;
        assert(threads[best] == thread);
        if place == project {
            assert(place.take(project.len() as int) =~= project);
        }
    } else {
        law_thread_at_is_the_last_there(
            threads,
            normalized(bindings[pane.pane_id].transcript_path),
        );
    }
}

/// A pane shows no thread only where none fits its directory and it has no binding
/// that counts.
pub proof fn law_pane_without_thread(
    pane: PaneTargetView,
    threads: Seq<ThreadView>,
    bindings: Map<Seq<char>, BindingView>,
)
    ensures
        resolved_thread(pane, threads, bindings) is None ==> best_thread(threads, pane.cwd) is None,
        resolved_thread(pane, threads, bindings) is None && bindings.dom().contains(pane.pane_id)
            && steps(normalized(bindings[pane.pane_id].cwd)) == steps(pane.cwd) ==> forall|i: int|
            0 <= i < threads.len() ==> steps((#[trigger] threads[i]).transcript_path) != steps(
                normalized(bindings[pane.pane_id].transcript_path),
            ),
{
    if bindings.dom().contains(pane.pane_id) {
        law_thread_at_is_the_last_there(
            threads,
            normalized(bindings[pane.pane_id].transcript_path),
        );
    }
}

/// What a snapshot tells of a pane is what the thread that it shows tells: its id,
/// its name, its state and the second of its last change. A pane without a thread is
/// not in the snapshot. The snapshot is of the second in which it was taken.
pub proof fn law_snapshot_tells_the_shown_thread(
    panes: Seq<PaneTargetView>,
    files: Seq<CodexFileView>,
    bindings: Map<Seq<char>, BindingView>,
    now: Timestamp,
    i: int,
)
    requires
        ids_differ(panes),
        0 <= i < panes.len(),
    ensures
        ({
            let snapshot = snapshot_of(panes, files, bindings, now);
            let id = panes[i].pane_id;
            match resolved_thread(panes[i], known_threads(files, now), bindings) {
                Some(thread) => {
                    &&& snapshot.panes.dom().contains(id)
                    &&& snapshot.panes[id].pane_id == id
                    &&& snapshot.panes[id].thread_id == Some(thread.thread_id)
                    &&& snapshot.panes[id].thread_name == thread.thread_name
                    &&& snapshot.panes[id].status == thread.status
                    &&& snapshot.panes[id].updated_at == thread.updated_at
                },
                None => !snapshot.panes.dom().contains(id),
            }
        }),
        now.secs >= 0 ==> snapshot_of(panes, files, bindings, now).updated_at == now.secs,
{
    law_panes_are_independent(panes, known_threads(files, now), bindings, i);
}

/// A pane that has gone to another directory than its binding tells is shown with
/// the thread that fits its directory best, and with none where none fits.
pub proof fn law_moved_pane_shows_the_best_thread(
    panes: Seq<PaneTargetView>,
    files: Seq<CodexFileView>,
    bindings: Map<Seq<char>, BindingView>,
    now: Timestamp,
    i: int,
)
    requires
        ids_differ(panes),
        0 <= i < panes.len(),
        bindings.dom().contains(panes[i].pane_id) ==> steps(
            normalized(bindings[panes[i].pane_id].cwd),
        ) != steps(panes[i].cwd),
    ensures
        ({
            let snapshot = snapshot_of(panes, files, bindings, now);
            let id = panes[i].pane_id;
            match best_thread(known_threads(files, now), panes[i].cwd) {
                Some(thread) => {
                    &&& snapshot.panes.dom().contains(id)
                    &&& snapshot.panes[id].thread_id == Some(thread.thread_id)
                    &&& snapshot.panes[id].thread_name == thread.thread_name
                    &&& snapshot.panes[id].status == thread.status
                    &&& snapshot.panes[id].updated_at == thread.updated_at
                },
                None => !snapshot.panes.dom().contains(id),
            }
        }),
{
    law_binding_counts_only_in_its_directory(panes[i], known_threads(files, now), bindings);
    law_snapshot_tells_the_shown_thread(panes, files, bindings, now, i);
}

/// A refresh binds each pane that shows a thread to the directory of the pane and to
/// the transcript of that thread, as long as both are normal, and keeps no binding
/// for a pane that shows none.
pub proof fn law_refresh_binds_the_shown_thread(
    panes: Seq<PaneTargetView>,
    files: Seq<CodexFileView>,
    bindings: Map<Seq<char>, BindingView>,
    now: Timestamp,
    i: int,
)
    requires
        ids_differ(panes),
        0 <= i < panes.len(),
    ensures
        ({
            let after = bindings_after(panes, files, bindings, now);
            let id = panes[i].pane_id;
            match resolved_thread(panes[i], known_threads(files, now), bindings) {
                Some(thread) => {
                    &&& steps(normalized(panes[i].cwd)) == steps(panes[i].cwd) && steps(
                        normalized(thread.transcript_path),
                    ) == steps(thread.transcript_path) ==> after.dom().contains(id)
                    &&& after.dom().contains(id) ==> {
                        &&& after[id].pane_id == id
                        &&& after[id].cwd == panes[i].cwd
                        &&& after[id].transcript_path == thread.transcript_path
                    }
                },
                None => !after.dom().contains(id),
            }
        }),
{
    let threads = known_threads(files, now);
    law_panes_are_independent(panes, threads, bindings, i);
    lemma_cwd_of_distinct(panes, i);
    if resolved_thread(panes[i], threads, bindings) is Some {
        let thread = resolved_thread(panes[i], threads, bindings)->0;
        law_shown_thread_belongs_to_the_pane(panes[i], threads, bindings, thread);
        law_thread_at_is_the_last_there(threads, normalized(thread.transcript_path));
    }
}

/// No binding is kept for a pane that is not asked about.
pub proof fn law_other_panes_are_forgotten(
    panes: Seq<PaneTargetView>,
    files: Seq<CodexFileView>,
    bindings: Map<Seq<char>, BindingView>,
    now: Timestamp,
    id: Seq<char>,
)
    requires
        forall|i: int| 0 <= i < panes.len() ==> (#[trigger] panes[i]).pane_id != id,
    ensures
        !bindings_after(panes, files, bindings, now).dom().contains(id),
        !snapshot_of(panes, files, bindings, now).panes.dom().contains(id),
{
    lemma_cwd_of_pane(panes, id);
    lemma_other_binding_stays(panes, known_threads(files, now), bindings, id);
}

/// A binding survives a pruning exactly where its pane is there, where the last pane
/// of that id works in the directory of the binding, and where a thread has its
/// transcript at the path of the binding; what survives is unchanged.
pub proof fn law_pruning_keeps_live_bindings(
    bindings: Map<Seq<char>, BindingView>,
    panes: Seq<PaneTargetView>,
    threads: Seq<ThreadView>,
    i: int,
)
    requires
        0 <= i < panes.len(),
        bindings.dom().contains(panes[i].pane_id),
        forall|j: int|
            i < j < panes.len() ==> (#[trigger] panes[j]).pane_id != panes[i].pane_id,
    ensures
        ({
            let id = panes[i].pane_id;
            let after = pruned(bindings, panes, threads);
            &&& after.dom().contains(id) <==> {
                &&& steps(normalized(bindings[id].cwd)) == steps(panes[i].cwd)
                &&& exists|t: int|
                    0 <= t < threads.len() && steps((#[trigger] threads[t]).transcript_path)
                        == steps(normalized(bindings[id].transcript_path))
            }
            &&& after.dom().contains(id) ==> after[id] == bindings[id]
        }),
{
    let id = panes[i].pane_id;
    lemma_cwd_of_last(panes, i);
    law_thread_at_is_the_last_there(threads, normalized(bindings[id].transcript_path));
}

proof fn lemma_cwd_of_last(panes: Seq<PaneTargetView>, i: int)
    requires
        0 <= i < panes.len(),
        forall|j: int|
            i < j < panes.len() ==> (#[trigger] panes[j]).pane_id != panes[i].pane_id,
    ensures
        cwd_of(panes, panes[i].pane_id) == Some(panes[i].cwd),
    decreases panes.len(),
{
    if i < panes.len() - 1 {
        let front = panes.drop_last();
        assert(panes[panes.len() - 1].pane_id != panes[i].pane_id);
        assert(front[i] == panes[i]);
        assert forall|j: int| i < j < front.len() implies (#[trigger] front[j]).pane_id
            != front[i].pane_id by {
            assert(front[j] == panes[j]);
        }
        lemma_cwd_of_last(front, i);
    }
}

/// A pruning keeps no binding of a pane that is not there, and makes none.
pub proof fn law_pruning_only_removes(
    bindings: Map<Seq<char>, BindingView>,
    panes: Seq<PaneTargetView>,
    threads: Seq<ThreadView>,
    id: Seq<char>,
)
    requires
        pruned(bindings, panes, threads).dom().contains(id),
    ensures
        bindings.dom().contains(id),
        pruned(bindings, panes, threads)[id] == bindings[id],
        exists|i: int| 0 <= i < panes.len() && (#[trigger] panes[i]).pane_id == id,
{
    lemma_cwd_of_pane(panes, id);
}

/// The threads that panes can show are those of the transcripts among the files. Each
/// has the path, the id and the second of its transcript, and the name that the index
/// gives to its id, where the index gives one.
pub proof fn law_known_threads_come_from_the_files(
    files: Seq<CodexFileView>,
    now: Timestamp,
    j: int,
)
    requires
        0 <= j < files.len(),
        files[j].kind is Transcript,
    ensures
        thread_in(files[j], index_names(files), now) matches Some(thread) ==> {
            &&& known_threads(files, now).contains(thread)
            &&& index_names(files).dom().contains(thread.thread_id) ==> thread.thread_name == Some(
                index_names(files)[thread.thread_id],
            )
        },
{
    let names = index_names(files);
    if thread_in(files[j], names, now) is Some {
        lemma_thread_is_known(files, names, now, j);
        law_thread_tells_its_transcript(files[j], names, now);
        if names.dom().contains(thread_id_of(files[j].path)) {
            law_index_name_wins(files[j], names, now);
        }
    }
}

proof fn lemma_thread_is_known(
    files: Seq<CodexFileView>,
    names: Map<Seq<char>, Seq<char>>,
    now: Timestamp,
    j: int,
)
    requires
        0 <= j < files.len(),
        files[j].kind is Transcript,
        thread_in(files[j], names, now) is Some,
    ensures
        threads_in(files, names, now).contains(thread_in(files[j], names, now)->0),
    decreases files.len(),
{
    let front = files.drop_last();
    let thread = thread_in(files[j], names, now)->0;
    let all = threads_in(files, names, now);
    if j < front.len() {
        assert(front[j] == files[j]);
        lemma_thread_is_known(front, names, now, j);
        let before = threads_in(front, names, now);
        let i = choose|i: int| 0 <= i < before.len() && before[i] == thread;
        assert(all[i] == thread);
    } else {
        assert(all[all.len() - 1] == thread);
    }
}

/// No other thread is known: each comes from a transcript among the files, with the
/// names that the index among the files gives.
pub proof fn law_no_other_threads_are_known(
    files: Seq<CodexFileView>,
    now: Timestamp,
    thread: ThreadView,
)
    requires
        known_threads(files, now).contains(thread),
    ensures
        exists|j: int|
            0 <= j < files.len() && (#[trigger] files[j]).kind is Transcript && thread_in(
                files[j],
                index_names(files),
                now,
            ) == Some(thread),
{
    let all = known_threads(files, now);
    let i = choose|i: int| 0 <= i < all.len() && all[i] == thread;
    let j = law_threads_come_from_transcripts(files, index_names(files), now, i);
    assert(files[j].kind is Transcript);
}

/// What a snapshot tells of a pane, some transcript among the files told: the thread has
/// the id and the second of that transcript, and the name from the index, where the
/// index gives one.
pub proof fn law_snapshot_tells_what_a_transcript_told(
    panes: Seq<PaneTargetView>,
    files: Seq<CodexFileView>,
    bindings: Map<Seq<char>, BindingView>,
    now: Timestamp,
    i: int,
) -> (j: int)
    requires
        ids_differ(panes),
        0 <= i < panes.len(),
        snapshot_of(panes, files, bindings, now).panes.dom().contains(panes[i].pane_id),
    ensures
        0 <= j < files.len(),
        files[j].kind is Transcript,
        ({
            let state = snapshot_of(panes, files, bindings, now).panes[panes[i].pane_id];
            let id = thread_id_of(files[j].path);
            &&& state.thread_id == Some(id)
            &&& state.updated_at == files[j].modified_at
            &&& index_names(files).dom().contains(id) ==> state.thread_name == Some(
                index_names(files)[id],
            )
            &&& thread_in(files[j], index_names(files), now) is Some
            &&& state.status == thread_in(files[j], index_names(files), now)->0.status
            &&& state.thread_name == thread_in(files[j], index_names(files), now)->0.thread_name
        }),
{
    let threads = known_threads(files, now);
    law_snapshot_tells_the_shown_thread(panes, files, bindings, now, i);
    let thread = resolved_thread(panes[i], threads, bindings)->0;
    law_shown_thread_belongs_to_the_pane(panes[i], threads, bindings, thread);
    assert(threads.contains(thread));
    law_no_other_threads_are_known(files, now, thread);
    let j = choose|j: int|
        0 <= j < files.len() && (#[trigger] files[j]).kind is Transcript && thread_in(
            files[j],
            index_names(files),
            now,
        ) == Some(thread);
    law_thread_tells_its_transcript(files[j], index_names(files), now);
    if index_names(files).dom().contains(thread_id_of(files[j].path)) {
        law_index_name_wins(files[j], index_names(files), now);
    }
    j
}

/// Panes get their threads one after the other. A pane that shows a thread is told with
/// it and bound to it, in place of what was told of its id before; a pane that shows
/// none loses its binding, and what was told before stays. Other ids are left alone.
pub proof fn law_panes_are_assigned_in_turn(
    panes: Seq<PaneTargetView>,
    pane: PaneTargetView,
    threads: Seq<ThreadView>,
    bindings: Map<Seq<char>, BindingView>,
    other: Seq<char>,
)
    requires
        other != pane.pane_id,
    ensures
        ({
            let before = assigned(panes, threads, bindings);
            let after = assigned(panes.push(pane), threads, bindings);
            let id = pane.pane_id;
            &&& resolved_thread(pane, threads, before.bindings) matches Some(thread) ==> {
                &&& after.states.dom().contains(id)
                &&& after.states[id].thread_id == Some(thread.thread_id)
                &&& after.states[id].status == thread.status
                &&& after.bindings.dom().contains(id)
                &&& after.bindings[id].cwd == pane.cwd
                &&& after.bindings[id].transcript_path == thread.transcript_path
            }
            &&& resolved_thread(pane, threads, before.bindings) is None ==> {
                &&& after.states == before.states
                &&& !after.bindings.dom().contains(id)
            }
            &&& after.states.dom().contains(other) == before.states.dom().contains(other)
            &&& before.states.dom().contains(other) ==> after.states[other] == before.states[other]
            &&& after.bindings.dom().contains(other) == before.bindings.dom().contains(other)
            &&& before.bindings.dom().contains(other) ==> after.bindings[other]
                == before.bindings[other]
        }),
        assigned(Seq::empty(), threads, bindings).states == Map::<
            Seq<char>,
            PaneStatusView,
        >::empty(),
        assigned(Seq::empty(), threads, bindings).bindings == bindings,
{
    assert(panes.push(pane).drop_last() =~= panes);
}

} // verus!
