//! Which thread fits a directory best.

use vstd::prelude::*;

use crate::codex_thread::{thread_views, ThreadSummary, ThreadView};
use crate::path::{
    common_prefix_len, common_steps, depth, depth_of, is_same_path,
    law_common_steps_are_all_there_are, leads_through, normalize_path,
    normalized, path_starts_with, same_path, steps, StepView,
};
use crate::status::priority_of;

verus! {

/// What a project directory scores, beside its depth, that is the very directory
/// asked for.
pub const EXACT_MATCH_SCORE: u128 = 10_000;

/// How well a project directory fits a directory; not at all where neither lies
/// in the other.
pub open spec fn score_of(cwd: Seq<StepView>, project_dir: Seq<StepView>) -> Option<nat> {
    if cwd == project_dir {
        Some((EXACT_MATCH_SCORE + depth_of(project_dir)) as nat)
    } else if leads_through(cwd, project_dir) || leads_through(project_dir, cwd) {
        Some(common_steps(cwd, project_dir))
    } else {
        None
    }
}

/// What decides between threads, in this order.
pub struct RankView {
    pub score: nat,
    pub depth: nat,
    pub updated_at: nat,
    pub priority: nat,
}

/// The rank of a thread for a directory.
pub open spec fn rank_of(thread: ThreadView, cwd: Seq<char>) -> Option<RankView> {
    match score_of(steps(cwd), steps(thread.project_dir)) {
        Some(score) => Some(
            RankView {
                score,
                depth: depth_of(steps(thread.project_dir)),
                updated_at: thread.updated_at as nat,
                priority: priority_of(thread.status) as nat,
            },
        ),
        None => None,
    }
}

/// Whether one rank is lower than another.
pub open spec fn rank_below(a: RankView, b: RankView) -> bool {
    if a.score != b.score {
        a.score < b.score
    } else if a.depth != b.depth {
        a.depth < b.depth
    } else if a.updated_at != b.updated_at {
        a.updated_at < b.updated_at
    } else {
        a.priority < b.priority
    }
}

/// Whether one thread is older than another: it changed last in an earlier second.
pub open spec fn older_than(a: ThreadView, b: ThreadView) -> bool {
    a.updated_at < b.updated_at
}

/// The position of the thread of the highest rank for a directory; of several
/// such threads, that of the last.
pub open spec fn best_position(threads: Seq<ThreadView>, cwd: Seq<char>) -> Option<int>
    decreases threads.len(),
{
    if threads.len() == 0 {
        None
    } else {
        let last = threads.len() - 1;
        let front = best_position(threads.drop_last(), cwd);
        match (rank_of(threads[last], cwd), front) {
            (None, _) => front,
            (Some(_), None) => Some(last),
            (Some(rank), Some(best)) => if rank_below(rank, rank_of(threads[best], cwd)->0) {
                front
            } else {
                Some(last)
            },
        }
    }
}

/// The thread that fits a directory best.
pub open spec fn best_thread(threads: Seq<ThreadView>, cwd: Seq<char>) -> Option<ThreadView> {
    match best_position(threads, normalized(cwd)) {
        Some(best) => Some(threads[best]),
        None => None,
    }
}

struct Rank {
    score: u128,
    depth: usize,
    updated_at: u64,
    priority: usize,
}

impl View for Rank {
    type V = RankView;

    closed spec fn view(&self) -> RankView {
        RankView {
            score: self.score as nat,
            depth: self.depth as nat,
            updated_at: self.updated_at as nat,
            priority: self.priority as nat,
        }
    }
}

impl Rank {
    fn is_below(&self, other: &Rank) -> (below: bool)
        ensures
            below == rank_below(self@, other@),
    {
        if self.score != other.score {
            self.score < other.score
        } else if self.depth != other.depth {
            self.depth < other.depth
        } else if self.updated_at != other.updated_at {
            self.updated_at < other.updated_at
        } else {
            self.priority < other.priority
        }
    }
}

/// How well a project directory fits a directory.
pub fn match_score(pane_cwd: &str, project_dir: &str) -> (score: Option<u128>)
    ensures
        match score {
            Some(score) => score_of(steps(pane_cwd@), steps(project_dir@)) == Some(score as nat),
            None => score_of(steps(pane_cwd@), steps(project_dir@)) is None,
        },
{
    if is_same_path(pane_cwd, project_dir) {
        return Some(EXACT_MATCH_SCORE + depth(project_dir) as u128);
    }
    if path_starts_with(pane_cwd, project_dir) || path_starts_with(project_dir, pane_cwd) {
        return Some(common_prefix_len(pane_cwd, project_dir) as u128);
    }
    None
}

/// The second in which a thread changed last, and how much it asks for
/// attention.
pub fn thread_sort_key(thread: &ThreadSummary) -> (key: (u64, usize))
    ensures
        key.0 == thread@.updated_at,
        key.1 == priority_of(thread@.status),
{
    (thread.updated_at, thread.status.priority())
}

/// Whether one thread is older than another.
pub fn is_older(thread: &ThreadSummary, other: &ThreadSummary) -> (older: bool)
    ensures
        older == older_than(thread@, other@),
{
    thread.updated_at < other.updated_at
}

fn rank_thread(thread: &ThreadSummary, cwd: &str) -> (rank: Option<Rank>)
    ensures
        match rank {
            Some(rank) => rank_of(thread@, cwd@) == Some(rank@),
            None => rank_of(thread@, cwd@) is None,
        },
{
    match match_score(cwd, thread.project_dir.as_str()) {
        Some(score) => {
            let key = thread_sort_key(thread);
            Some(
                Rank {
                    score,
                    depth: depth(thread.project_dir.as_str()),
                    updated_at: key.0,
                    priority: key.1,
                },
            )
        },
        None => None,
    }
}

/// The thread that fits a directory best.
pub fn select_best_thread<'a>(threads: &'a [ThreadSummary], pane_cwd: &str) -> (best: Option<
    &'a ThreadSummary,
>)
    ensures
        match best {
            Some(thread) => best_thread(thread_views(threads@), pane_cwd@) == Some(thread@),
            None => best_thread(thread_views(threads@), pane_cwd@) is None,
        },
{
    let cwd = normalize_path(pane_cwd);
    let ghost all = thread_views(threads@);
    let mut best: Option<(usize, Rank)> = None;
    let mut i: usize = 0;
    while i < threads.len()
        invariant
            i <= threads@.len(),
            all == thread_views(threads@),
            match best {
                Some((at, rank)) => at < i && best_position(all.take(i as int), cwd@) == Some(
                    at as int,
                ) && rank_of(all[at as int], cwd@) == Some(rank@),
                None => best_position(all.take(i as int), cwd@) is None,
            },
        decreases threads@.len() - i,
    {
        proof {
            assert(all.take(i + 1).drop_last() =~= all.take(i as int));
            assert(all.take(i + 1).last() == threads@[i as int]@);
        }
        match rank_thread(&threads[i], cwd.as_str()) {
            Some(rank) => {
                let beaten = match &best {
                    Some(found) => rank.is_below(&found.1),
                    None => false,
                };
                if !beaten {
                    best = Some((i, rank));
                }
            },
            None => {},
        }
        i += 1;
    }
    proof {
        assert(all.take(i as int) =~= all);
    }
    match best {
        Some(found) => Some(&threads[found.0]),
        None => None,
    }
}

// ---------------------------------------------------------------------------
// Laws
// ---------------------------------------------------------------------------
/// No rank is below itself, one rank below a second below a third is below the
/// third, and of two different ranks one is below the other.
pub proof fn law_ranks_are_ordered(a: RankView, b: RankView, c: RankView)
    ensures
        !rank_below(a, a),
        rank_below(a, b) && rank_below(b, c) ==> rank_below(a, c),
        a == b || rank_below(a, b) || rank_below(b, a),
{
}

/// The best thread fits, no thread ranks above it, and no later thread ranks
/// with it; there is one wherever a thread fits.
pub proof fn law_best_thread_ranks_highest(threads: Seq<ThreadView>, cwd: Seq<char>)
    ensures
        match best_position(threads, cwd) {
            Some(best) => {
                &&& 0 <= best < threads.len()
                &&& rank_of(threads[best], cwd) is Some
                &&& forall|i: int|
                    #![trigger threads[i]]
                    0 <= i < threads.len() && rank_of(threads[i], cwd) is Some ==> !rank_below(
                        rank_of(threads[best], cwd)->0,
                        rank_of(threads[i], cwd)->0,
                    )
                &&& forall|i: int|
                    #![trigger threads[i]]
                    best < i < threads.len() && rank_of(threads[i], cwd) is Some ==> rank_below(
                        rank_of(threads[i], cwd)->0,
                        rank_of(threads[best], cwd)->0,
                    )
            },
            None => forall|i: int|
                #![trigger threads[i]]
                0 <= i < threads.len() ==> rank_of(threads[i], cwd) is None,
        },
    decreases threads.len(),
{
    if threads.len() > 0 {
        let front = threads.drop_last();
        law_best_thread_ranks_highest(front, cwd);
        assert forall|i: int| 0 <= i < front.len() implies #[trigger] threads[i] == front[i] by {}
    }
}

proof fn lemma_common_bounded(a: Seq<StepView>, b: Seq<StepView>)
    ensures
        common_steps(a, b) <= a.len(),
    decreases a.len(),
{
    if a.len() > 0 && b.len() > 0 && a[0] == b[0] {
        lemma_common_bounded(a.drop_first(), b.drop_first());
    }
}

proof fn lemma_depth_of_normal(path: Seq<char>, n: int)
    requires
        0 <= n <= steps(normalized(path)).len(),
    ensures
        depth_of(steps(normalized(path)).take(n)) == n,
    decreases n,
{
    if n > 0 {
        let place = steps(normalized(path));
        lemma_depth_of_normal(path, n - 1);
        assert(place.take(n).drop_last() =~= place.take(n - 1));
        crate::path::law_normalized_has_names_only(path, n - 1);
    }
}

/// Where a thread works in the very directory asked for, the best thread does
/// too, whatever else fits.
pub proof fn law_exact_directory_wins(threads: Seq<ThreadView>, cwd: Seq<char>, i: int)
    requires
        0 <= i < threads.len(),
        same_path(threads[i].project_dir, normalized(cwd)),
    ensures
        best_thread(threads, cwd) matches Some(best) && same_path(
            best.project_dir,
            normalized(cwd),
        ),
{
    let place = normalized(cwd);
    law_best_thread_ranks_highest(threads, place);
    let at = best_position(threads, place)->0;
    let chosen = threads[at];
    assert(rank_of(threads[i], place) is Some);
    lemma_depth_of_normal(cwd, steps(place).len() as int);
    assert(steps(place).take(steps(place).len() as int) =~= steps(place));
    lemma_common_bounded(steps(place), steps(chosen.project_dir));
}

/// A project directory fits a directory exactly where one of the two contains the
/// other. The very directory scores ten thousand beside its depth; any other scores as
/// many as the steps that both have in common.
pub proof fn law_scores(cwd: Seq<StepView>, project_dir: Seq<StepView>)
    ensures
        score_of(cwd, project_dir) is Some <==> {
            ||| project_dir.len() <= cwd.len() && cwd.take(project_dir.len() as int)
                == project_dir
            ||| cwd.len() <= project_dir.len() && project_dir.take(cwd.len() as int) == cwd
        },
        cwd == project_dir ==> score_of(cwd, project_dir) == Some(
            (10_000 + depth_of(project_dir)) as nat,
        ),
        cwd != project_dir && cwd.len() <= project_dir.len() && project_dir.take(cwd.len() as int)
            == cwd ==> score_of(cwd, project_dir) == Some(cwd.len()),
        cwd != project_dir && project_dir.len() <= cwd.len() && cwd.take(project_dir.len() as int)
            == project_dir ==> score_of(cwd, project_dir) == Some(project_dir.len()),
{
    if cwd == project_dir {
        assert(cwd.take(project_dir.len() as int) =~= project_dir);
    }
    law_common_steps_are_all_there_are(cwd, project_dir);
    let n = common_steps(cwd, project_dir) as int;
    if project_dir.len() <= cwd.len() && cwd.take(project_dir.len() as int) == project_dir {
        if n < project_dir.len() {
            assert(cwd.take(project_dir.len() as int)[n] == project_dir[n]);
        }
    }
    if cwd.len() <= project_dir.len() && project_dir.take(cwd.len() as int) == cwd {
        if n < cwd.len() {
            assert(project_dir.take(cwd.len() as int)[n] == cwd[n]);
        }
    }
}

/// Between two threads that fit a directory the score decides, then the depth of the
/// project directory, then the second of the last change, then how urgent the state
/// is.
pub proof fn law_ranks_compare_threads(a: ThreadView, b: ThreadView, cwd: Seq<char>)
    requires
        rank_of(a, cwd) is Some,
        rank_of(b, cwd) is Some,
    ensures
        ({
            let place = steps(cwd);
            let score_a = score_of(place, steps(a.project_dir))->0;
            let score_b = score_of(place, steps(b.project_dir))->0;
            let depth_a = depth_of(steps(a.project_dir));
            let depth_b = depth_of(steps(b.project_dir));
            let below = rank_below(rank_of(a, cwd)->0, rank_of(b, cwd)->0);
            &&& score_a < score_b ==> below
            &&& score_a > score_b ==> !below
            &&& score_a == score_b && depth_a < depth_b ==> below
            &&& score_a == score_b && depth_a > depth_b ==> !below
            &&& score_a == score_b && depth_a == depth_b && a.updated_at < b.updated_at ==> below
            &&& score_a == score_b && depth_a == depth_b && a.updated_at > b.updated_at ==> !below
            &&& score_a == score_b && depth_a == depth_b && a.updated_at == b.updated_at ==> (below
                <==> priority_of(a.status) < priority_of(b.status))
        }),
{
}

/// A thread fits a directory exactly where its project directory contains that
/// directory or lies in it.
pub proof fn law_fitting_threads(thread: ThreadView, cwd: Seq<char>)
    ensures
        rank_of(thread, cwd) is Some <==> {
            let place = steps(cwd);
            let project = steps(thread.project_dir);
            ||| project.len() <= place.len() && place.take(project.len() as int) == project
            ||| place.len() <= project.len() && project.take(place.len() as int) == place
        },
{
    law_scores(steps(cwd), steps(thread.project_dir));
}

/// Whether a project directory contains a directory or lies in it.
pub open spec fn is_related(project: Seq<StepView>, place: Seq<StepView>) -> bool {
    ||| project.len() <= place.len() && place.take(project.len() as int) == project
    ||| place.len() <= project.len() && project.take(place.len() as int) == place
}

/// The best thread is one of the threads and fits the directory; there is none only
/// where none fits. No other thread works in the very directory unless the best one
/// does, and of threads in one project directory it changed last.
pub proof fn law_best_thread(threads: Seq<ThreadView>, cwd: Seq<char>)
    ensures
        match best_thread(threads, cwd) {
            Some(best) => {
                let place = steps(normalized(cwd));
                &&& threads.contains(best)
                &&& is_related(steps(best.project_dir), place)
                &&& forall|i: int|
                    0 <= i < threads.len() && steps((#[trigger] threads[i]).project_dir) == place
                        ==> steps(best.project_dir) == place
                &&& forall|i: int|
                    0 <= i < threads.len() && steps((#[trigger] threads[i]).project_dir) == steps(
                        best.project_dir,
                    ) ==> {
                        &&& threads[i].updated_at <= best.updated_at
                        &&& threads[i].updated_at == best.updated_at ==> priority_of(
                            threads[i].status,
                        ) <= priority_of(best.status)
                    }
            },
            None => forall|i: int|
                0 <= i < threads.len() ==> !is_related(
                    steps((#[trigger] threads[i]).project_dir),
                    steps(normalized(cwd)),
                ),
        },
{
    let place = normalized(cwd);
    law_best_thread_ranks_highest(threads, place);
    match best_position(threads, place) {
        Some(at) => {
            let best = threads[at];
            assert(threads.contains(best));
            law_fitting_threads(best, place);
            assert forall|i: int|
                0 <= i < threads.len() && steps((#[trigger] threads[i]).project_dir) == steps(
                    place,
                ) implies steps(best.project_dir) == steps(place) by {
                law_exact_directory_wins(threads, cwd, i);
            }
            assert forall|i: int|
                0 <= i < threads.len() && steps((#[trigger] threads[i]).project_dir) == steps(
                    best.project_dir,
                ) implies {
                &&& threads[i].updated_at <= best.updated_at
                &&& threads[i].updated_at == best.updated_at ==> priority_of(threads[i].status)
                    <= priority_of(best.status)
            } by {
                law_fitting_threads(threads[i], place);
                law_ranks_compare_threads(best, threads[i], place);
            }
        },
        None => {
            assert forall|i: int| 0 <= i < threads.len() implies !is_related(
                steps((#[trigger] threads[i]).project_dir),
                steps(place),
            ) by {
                law_fitting_threads(threads[i], place);
            }
        },
    }
}

/// Among threads whose project directories all contain the directory, the best one
/// has the innermost.
pub proof fn law_innermost_project_wins(
    threads: Seq<ThreadView>,
    cwd: Seq<char>,
    i: int,
    best: ThreadView,
)
    requires
        0 <= i < threads.len(),
        best_thread(threads, cwd) == Some(best),
        ({
            let place = steps(normalized(cwd));
            let project = steps(threads[i].project_dir);
            project.len() <= place.len() && place.take(project.len() as int) == project
        }),
    ensures
        steps(best.project_dir).len() >= steps(threads[i].project_dir).len(),
{
    let place = normalized(cwd);
    law_best_thread_ranks_highest(threads, place);
    let chosen = steps(best.project_dir);
    let project = steps(threads[i].project_dir);
    law_fitting_threads(threads[i], place);
    law_fitting_threads(best, place);
    law_scores(steps(place), chosen);
    law_scores(steps(place), project);
    law_ranks_compare_threads(best, threads[i], place);
    lemma_exact_directory(threads, cwd, i, best);
}

proof fn lemma_exact_directory(
    threads: Seq<ThreadView>,
    cwd: Seq<char>,
    i: int,
    best: ThreadView,
)
    requires
        0 <= i < threads.len(),
        best_thread(threads, cwd) == Some(best),
    ensures
        steps(threads[i].project_dir) == steps(normalized(cwd)) ==> steps(best.project_dir)
            == steps(normalized(cwd)),
{
    if steps(threads[i].project_dir) == steps(normalized(cwd)) {
        law_exact_directory_wins(threads, cwd, i);
    }
}

} // verus!
