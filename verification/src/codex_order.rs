//! Transcripts in the order of their age, and the newest of them.

use vstd::prelude::*;

use crate::codex_file::{file_views, CodexFile, CodexFileView};
use crate::path::{
    is_path_before, law_path_order_irreflexive, law_path_order_total, law_path_order_transitive,
    path_before, steps, StepView,
};

verus! {

/// How many transcripts are looked at.
pub const MAX_TRANSCRIPTS: usize = 12;

/// An order of files by age; files of one second stand in the order of their
/// paths.
#[derive(Clone, Copy, Debug, PartialEq, Eq, Structural)]
pub enum AgeOrder {
    NewestFirst,
    OldestFirst,
}

/// Whether one file goes before another.
pub open spec fn goes_before(order: AgeOrder, a: CodexFileView, b: CodexFileView) -> bool {
    if a.modified_at != b.modified_at {
        match order {
            AgeOrder::NewestFirst => a.modified_at > b.modified_at,
            AgeOrder::OldestFirst => a.modified_at < b.modified_at,
        }
    } else {
        path_before(steps(a.path), steps(b.path))
    }
}

/// Files in order with one more: it comes behind all that do not go after it.
pub open spec fn with_file(
    order: AgeOrder,
    files: Seq<CodexFileView>,
    file: CodexFileView,
) -> Seq<CodexFileView>
    decreases files.len(),
{
    if files.len() > 0 && goes_before(order, file, files.last()) {
        with_file(order, files.drop_last(), file).push(files.last())
    } else {
        files.push(file)
    }
}

/// Some files in order; files that neither goes before the other stay as they
/// stood.
pub open spec fn in_age_order(order: AgeOrder, files: Seq<CodexFileView>) -> Seq<CodexFileView>
    decreases files.len(),
{
    if files.len() == 0 {
        Seq::empty()
    } else {
        with_file(order, in_age_order(order, files.drop_last()), files.last())
    }
}

/// The first files of some, at most as many as transcripts are looked at.
pub open spec fn first_files(files: Seq<CodexFileView>) -> Seq<CodexFileView> {
    if files.len() <= MAX_TRANSCRIPTS {
        files
    } else {
        files.take(MAX_TRANSCRIPTS as int)
    }
}

/// The newest of some files, the oldest of them first.
pub open spec fn newest_files(files: Seq<CodexFileView>) -> Seq<CodexFileView> {
    in_age_order(
        AgeOrder::OldestFirst,
        first_files(in_age_order(AgeOrder::NewestFirst, files)),
    )
}

// ---------------------------------------------------------------------------
// Operations
// ---------------------------------------------------------------------------
fn precedes(order: AgeOrder, a: &CodexFile, b: &CodexFile) -> (before: bool)
    ensures
        before == goes_before(order, a@, b@),
{
    if a.modified_at != b.modified_at {
        match order {
            AgeOrder::NewestFirst => a.modified_at > b.modified_at,
            AgeOrder::OldestFirst => a.modified_at < b.modified_at,
        }
    } else {
        is_path_before(a.path.as_str(), b.path.as_str())
    }
}

proof fn lemma_insert_place(
    order: AgeOrder,
    files: Seq<CodexFileView>,
    file: CodexFileView,
    at: int,
)
    requires
        0 <= at <= files.len(),
        at > 0 ==> !goes_before(order, file, files[at - 1]),
        forall|i: int| at <= i < files.len() ==> goes_before(order, file, #[trigger] files[i]),
    ensures
        with_file(order, files, file) == files.insert(at, file),
    decreases files.len(),
{
    if at < files.len() {
        let front = files.drop_last();
        assert(goes_before(order, file, files[files.len() - 1]));
        assert forall|i: int| at <= i < front.len() implies goes_before(
            order,
            file,
            #[trigger] front[i],
        ) by {
            assert(front[i] == files[i]);
        }
        lemma_insert_place(order, front, file, at);
        assert(front.insert(at, file).push(files.last()) =~= files.insert(at, file));
    } else {
        assert(files.insert(at, file) =~= files.push(file));
    }
}

fn insert_file(order: AgeOrder, files: &mut Vec<CodexFile>, file: CodexFile)
    ensures
        file_views(final(files)@) == with_file(order, file_views(old(files)@), file@),
{
    let ghost before = file_views(files@);
    let mut at: usize = files.len();
    while at > 0 && precedes(order, &file, &files[at - 1])
        invariant
            at <= files@.len(),
            before == file_views(files@),
            forall|i: int| at <= i < before.len() ==> goes_before(order, file@, #[trigger] before[i]),
        decreases at,
    {
        at -= 1;
    }
    proof {
        lemma_insert_place(order, before, file@, at as int);
    }
    files.insert(at, file);
    proof {
        assert(file_views(files@) =~= before.insert(at as int, file@));
    }
}

/// Puts some files in order.
pub fn sort_files(order: AgeOrder, files: Vec<CodexFile>) -> (sorted: Vec<CodexFile>)
    ensures
        file_views(sorted@) == in_age_order(order, file_views(files@)),
{
    let ghost all = file_views(files@);
    let mut sorted: Vec<CodexFile> = Vec::new();
    proof {
        assert(file_views(sorted@) =~= in_age_order(order, all.take(0)));
    }
    for file in it: files
        invariant
            all == file_views(it.seq()),
            file_views(sorted@) == in_age_order(order, all.take(it.index())),
    {
        proof {
            assert(all.take(it.index() + 1).drop_last() =~= all.take(it.index()));
            assert(all.take(it.index() + 1).last() == file@);
        }
        insert_file(order, &mut sorted, file);
    }
    proof {
        assert(all.take(all.len() as int) =~= all);
    }
    sorted
}

/// The newest of some files, the oldest of them first.
pub fn keep_newest(files: Vec<CodexFile>) -> (kept: Vec<CodexFile>)
    ensures
        file_views(kept@) == newest_files(file_views(files@)),
{
    let mut sorted = sort_files(AgeOrder::NewestFirst, files);
    let ghost all = file_views(sorted@);
    sorted.truncate(MAX_TRANSCRIPTS);
    proof {
        assert(file_views(sorted@) =~= first_files(all));
    }
    sort_files(AgeOrder::OldestFirst, sorted)
}

// ---------------------------------------------------------------------------
// Laws
// ---------------------------------------------------------------------------
/// No file goes before itself, and a file that goes before a second one that
/// does not go after a third goes before the third.
pub proof fn law_age_order(order: AgeOrder, a: CodexFileView, b: CodexFileView, c: CodexFileView)
    ensures
        !goes_before(order, a, a),
        goes_before(order, a, b) ==> !goes_before(order, b, a),
        goes_before(order, a, b) && !goes_before(order, c, b) ==> goes_before(order, a, c),
{
    law_path_order_irreflexive(steps(a.path));
    if path_before(steps(a.path), steps(b.path)) {
        if path_before(steps(b.path), steps(a.path)) {
            law_path_order_transitive(steps(a.path), steps(b.path), steps(a.path));
        }
        if !path_before(steps(c.path), steps(b.path)) {
            law_path_order_total(steps(b.path), steps(c.path));
            if path_before(steps(b.path), steps(c.path)) {
                law_path_order_transitive(steps(a.path), steps(b.path), steps(c.path));
            }
        }
    }
}

/// Whether no file of some stands behind one that it goes before.
pub open spec fn is_in_order(order: AgeOrder, files: Seq<CodexFileView>) -> bool {
    forall|i: int, j: int|
        0 <= i < j < files.len() ==> !goes_before(order, #[trigger] files[j], #[trigger] files[i])
}

proof fn lemma_insert_keeps_order(order: AgeOrder, files: Seq<CodexFileView>, file: CodexFileView)
    requires
        is_in_order(order, files),
    ensures
        is_in_order(order, with_file(order, files, file)),
        with_file(order, files, file).to_multiset() == files.to_multiset().insert(file),
        with_file(order, files, file).len() == files.len() + 1,
        forall|top: CodexFileView|
            #![trigger goes_before(order, top, file)]
            !goes_before(order, top, file) && (forall|i: int|
                0 <= i < files.len() ==> !goes_before(order, top, #[trigger] files[i])) ==> (forall|
                i: int,
            |
                0 <= i < with_file(order, files, file).len() ==> !goes_before(
                    order,
                    top,
                    #[trigger] with_file(order, files, file)[i],
                )),
    decreases files.len(),
{
    broadcast use vstd::seq_lib::group_to_multiset_ensures;

    let result = with_file(order, files, file);
    if files.len() > 0 && goes_before(order, file, files.last()) {
        let front = files.drop_last();
        let last = files.last();
        assert forall|i: int, j: int| 0 <= i < j < front.len() implies !goes_before(
            order,
            #[trigger] front[j],
            #[trigger] front[i],
        ) by {
            assert(front[i] == files[i] && front[j] == files[j]);
        }
        lemma_insert_keeps_order(order, front, file);
        let inner = with_file(order, front, file);
        assert(result == inner.push(last));
        law_age_order(order, file, last, file);
        assert forall|i: int| 0 <= i < front.len() implies !goes_before(
            order,
            last,
            #[trigger] front[i],
        ) by {
            assert(!goes_before(order, files[files.len() - 1], files[i]));
        }
        assert(!goes_before(order, last, file));
        assert forall|i: int, j: int| 0 <= i < j < result.len() implies !goes_before(
            order,
            #[trigger] result[j],
            #[trigger] result[i],
        ) by {
            assert(result[i] == inner[i]);
            if j < inner.len() {
                assert(result[j] == inner[j]);
            }
        }
        assert(files =~= front.push(last));
        assert forall|top: CodexFileView|
            #![trigger goes_before(order, top, file)]
            !goes_before(order, top, file) && (forall|i: int|
                0 <= i < files.len() ==> !goes_before(order, top, #[trigger] files[i])) implies (
        forall|i: int|
            0 <= i < result.len() ==> !goes_before(order, top, #[trigger] result[i])) by {
            assert forall|i: int| 0 <= i < front.len() implies !goes_before(
                order,
                top,
                #[trigger] front[i],
            ) by {
                assert(front[i] == files[i]);
            }
            assert forall|i: int| 0 <= i < result.len() implies !goes_before(
                order,
                top,
                #[trigger] result[i],
            ) by {
                if i < inner.len() {
                    assert(result[i] == inner[i]);
                } else {
                    assert(result[i] == files[files.len() - 1]);
                }
            }
        }
    } else {
        assert(result == files.push(file));
        assert forall|i: int, j: int| 0 <= i < j < result.len() implies !goes_before(
            order,
            #[trigger] result[j],
            #[trigger] result[i],
        ) by {
            assert(result[i] == files[i]);
            if j < files.len() {
                assert(result[j] == files[j]);
            } else if i < files.len() - 1 {
                assert(!goes_before(order, files[files.len() - 1], files[i]));
                if goes_before(order, file, files[i]) {
                    law_age_order(order, file, files[i], files[files.len() - 1]);
                }
            }
        }
        assert forall|top: CodexFileView|
            #![trigger goes_before(order, top, file)]
            !goes_before(order, top, file) && (forall|i: int|
                0 <= i < files.len() ==> !goes_before(order, top, #[trigger] files[i])) implies (
        forall|i: int|
            0 <= i < result.len() ==> !goes_before(order, top, #[trigger] result[i])) by {
            assert forall|i: int| 0 <= i < result.len() implies !goes_before(
                order,
                top,
                #[trigger] result[i],
            ) by {
                if i < files.len() {
                    assert(result[i] == files[i]);
                }
            }
        }
    }
}

/// Putting files in order leaves every file in, and none stands behind one that
/// it goes before.
pub proof fn law_sorting_orders(order: AgeOrder, files: Seq<CodexFileView>)
    ensures
        is_in_order(order, in_age_order(order, files)),
        in_age_order(order, files).to_multiset() == files.to_multiset(),
        in_age_order(order, files).len() == files.len(),
    decreases files.len(),
{
    broadcast use vstd::seq_lib::group_to_multiset_ensures;

    if files.len() > 0 {
        law_sorting_orders(order, files.drop_last());
        lemma_insert_keeps_order(order, in_age_order(order, files.drop_last()), files.last());
        assert(files =~= files.drop_last().push(files.last()));
    } else {
        assert(in_age_order(order, files) =~= files);
    }
}

/// Of some files the newest are kept, at most as many as transcripts are looked
/// at, the oldest of them first: none that is left out goes before one that is
/// kept.
pub proof fn law_newest_are_kept(files: Seq<CodexFileView>) -> (dropped: Seq<CodexFileView>)
    ensures
        newest_files(files).len() == if files.len() <= MAX_TRANSCRIPTS {
            files.len()
        } else {
            MAX_TRANSCRIPTS as nat
        },
        newest_files(files).to_multiset().add(dropped.to_multiset()) == files.to_multiset(),
        forall|i: int, j: int|
            0 <= i < dropped.len() && 0 <= j < newest_files(files).len() ==> !goes_before(
                AgeOrder::NewestFirst,
                #[trigger] dropped[i],
                #[trigger] newest_files(files)[j],
            ),
        is_in_order(AgeOrder::OldestFirst, newest_files(files)),
{
    broadcast use vstd::seq_lib::group_to_multiset_ensures;

    let newest = AgeOrder::NewestFirst;
    let sorted = in_age_order(newest, files);
    let kept = first_files(sorted);
    let dropped = sorted.skip(kept.len() as int);
    law_sorting_orders(newest, files);
    law_sorting_orders(AgeOrder::OldestFirst, kept);
    let result = newest_files(files);
    assert(sorted =~= kept + dropped);
    vstd::seq_lib::lemma_multiset_commutative(kept, dropped);
    assert forall|i: int, j: int| 0 <= i < dropped.len() && 0 <= j < result.len() implies !goes_before(
        newest,
        #[trigger] dropped[i],
        #[trigger] result[j],
    ) by {
        assert(result.to_multiset().count(result[j]) > 0) by {
            assert(result.contains(result[j]));
        }
        assert(kept.contains(result[j]));
        let k = choose|k: int| 0 <= k < kept.len() && kept[k] == result[j];
        assert(sorted[k] == kept[k]);
        assert(sorted[kept.len() + i] == dropped[i]);
    }
    dropped
}

/// In an order by age the second of the last change decides, the later one first or
/// last; files of one second stand in the order of their paths.
pub proof fn law_age_decides_before_paths(a: CodexFileView, b: CodexFileView)
    ensures
        a.modified_at > b.modified_at ==> goes_before(AgeOrder::NewestFirst, a, b)
            && !goes_before(AgeOrder::NewestFirst, b, a) && goes_before(
            AgeOrder::OldestFirst,
            b,
            a,
        ) && !goes_before(AgeOrder::OldestFirst, a, b),
        a.modified_at == b.modified_at ==> goes_before(AgeOrder::NewestFirst, a, b)
            == path_before(steps(a.path), steps(b.path)) && goes_before(
            AgeOrder::OldestFirst,
            a,
            b,
        ) == path_before(steps(a.path), steps(b.path)),
{
}

/// Files of one age and one path stay in the order in which they stood.
pub proof fn law_sorting_is_stable(
    order: AgeOrder,
    files: Seq<CodexFileView>,
    modified_at: u64,
    path: Seq<StepView>,
)
    ensures
        in_age_order(order, files).filter(
            |file: CodexFileView| file.modified_at == modified_at && steps(file.path) == path,
        ) == files.filter(
            |file: CodexFileView| file.modified_at == modified_at && steps(file.path) == path,
        ),
    decreases files.len(),
{
    let alike = |file: CodexFileView|
        file.modified_at == modified_at && steps(file.path) == path;
    reveal(Seq::filter);
    if files.len() > 0 {
        law_sorting_is_stable(order, files.drop_last(), modified_at, path);
        lemma_insert_filters(
            order,
            in_age_order(order, files.drop_last()),
            files.last(),
            modified_at,
            path,
        );
    }
}

proof fn lemma_insert_filters(
    order: AgeOrder,
    files: Seq<CodexFileView>,
    file: CodexFileView,
    modified_at: u64,
    path: Seq<StepView>,
)
    ensures
        ({
            let alike = |file: CodexFileView|
                file.modified_at == modified_at && steps(file.path) == path;
            with_file(order, files, file).filter(alike) == if alike(file) {
                files.filter(alike).push(file)
            } else {
                files.filter(alike)
            }
        }),
    decreases files.len(),
{
    let alike = |file: CodexFileView|
        file.modified_at == modified_at && steps(file.path) == path;
    reveal(Seq::filter);
    let result = with_file(order, files, file);
    if files.len() > 0 && goes_before(order, file, files.last()) {
        let front = files.drop_last();
        let last = files.last();
        lemma_insert_filters(order, front, file, modified_at, path);
        assert(result.drop_last() =~= with_file(order, front, file));
        assert(result.last() == last);
        law_path_order_irreflexive(path);
    } else {
        assert(result.drop_last() =~= files);
    }
}

} // verus!
