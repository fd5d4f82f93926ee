//! Paths as text, taken apart at `/` without looking at any file system.

use vstd::prelude::*;

use crate::text::{
    chars_of, concat2, find_from, is_text_before, last_position, law_last_position,
    law_text_order_irreflexive, law_text_order_total, law_text_order_transitive,
    lemma_last_position_is, lemma_until, lemma_until_is, same_text, text_before, text_between,
    until,
};

verus! {

// ---------------------------------------------------------------------------
// Models
// ---------------------------------------------------------------------------
/// One step of a path.
pub enum StepView {
    /// The root directory, at the start of a path only.
    Root,
    /// The directory itself, at the start of a path only.
    Current,
    /// The directory above.
    Parent,
    /// An entry of that name.
    Normal(Seq<char>),
}

/// The step that a part between separators stands for. An empty part and a part
/// `.` stand for none.
pub open spec fn part_step(part: Seq<char>) -> Seq<StepView> {
    if part.len() == 0 || part == seq!['.'] {
        Seq::empty()
    } else if part == seq!['.', '.'] {
        seq![StepView::Parent]
    } else {
        seq![StepView::Normal(part)]
    }
}

/// What stands behind the first separator.
pub open spec fn after_part(path: Seq<char>) -> Seq<char> {
    if until(path, '/') < path.len() {
        path.skip(until(path, '/') + 1)
    } else {
        Seq::empty()
    }
}

/// The steps that the parts of a path stand for.
pub open spec fn part_steps(path: Seq<char>) -> Seq<StepView>
    decreases path.len(),
    via part_steps_shrink
{
    if path.len() == 0 {
        Seq::empty()
    } else {
        part_step(path.take(until(path, '/'))) + part_steps(after_part(path))
    }
}

#[via_fn]
proof fn part_steps_shrink(path: Seq<char>) {
    lemma_until(path, '/');
}

/// Whether a path begins with a part `.`.
pub open spec fn begins_with_dot(path: Seq<char>) -> bool {
    path.len() > 0 && path[0] == '.' && (path.len() == 1 || path[1] == '/')
}

/// The step that only the beginning of a path can stand for.
pub open spec fn first_step(path: Seq<char>) -> Seq<StepView> {
    if path.len() > 0 && path[0] == '/' {
        seq![StepView::Root]
    } else if begins_with_dot(path) {
        seq![StepView::Current]
    } else {
        Seq::empty()
    }
}

/// The steps of a path. Repeated and trailing separators do not count, nor does
/// a part `.` that the path does not begin with.
pub open spec fn steps(path: Seq<char>) -> Seq<StepView> {
    first_step(path) + part_steps(path)
}

/// Whether two paths have the same steps.
pub open spec fn same_path(a: Seq<char>, b: Seq<char>) -> bool {
    steps(a) == steps(b)
}

/// Takes one step further from a place that is given by the steps to it. The
/// directory above is what remains without the last name.
pub open spec fn take_step(place: Seq<StepView>, step: StepView) -> Seq<StepView> {
    match step {
        StepView::Current => place,
        StepView::Parent => if place.len() > 0 && place.last() is Normal {
            place.drop_last()
        } else {
            place
        },
        _ => place.push(step),
    }
}

/// The place that the steps lead to, by the names alone.
pub open spec fn walk(path: Seq<StepView>) -> Seq<StepView>
    decreases path.len(),
{
    if path.len() == 0 {
        Seq::empty()
    } else {
        take_step(walk(path.drop_last()), path.last())
    }
}

/// A path with one more step behind it.
pub open spec fn extended(base: Seq<char>, step: StepView) -> Seq<char> {
    match step {
        StepView::Root => seq!['/'],
        StepView::Current => base,
        StepView::Parent => base,
        StepView::Normal(name) => if base.len() == 0 || base.last() == '/' {
            base + name
        } else {
            base.push('/') + name
        },
    }
}

/// The text of a path with the given steps.
pub open spec fn path_text(path: Seq<StepView>) -> Seq<char>
    decreases path.len(),
{
    if path.len() == 0 {
        Seq::empty()
    } else {
        extended(path_text(path.drop_last()), path.last())
    }
}

/// The path without `.` and `..`, by the names alone.
pub open spec fn normalized(path: Seq<char>) -> Seq<char> {
    path_text(walk(steps(path)))
}

/// Whether a step adds to the depth of a path.
pub open spec fn has_depth(step: StepView) -> bool {
    step is Root || step is Normal
}

/// How many of the steps add to the depth.
pub open spec fn depth_of(path: Seq<StepView>) -> nat
    decreases path.len(),
{
    if path.len() == 0 {
        0
    } else {
        depth_of(path.drop_last()) + if has_depth(path.last()) {
            1nat
        } else {
            0nat
        }
    }
}

/// How many steps two paths begin with in common.
pub open spec fn common_steps(a: Seq<StepView>, b: Seq<StepView>) -> nat
    decreases a.len(),
{
    if a.len() == 0 || b.len() == 0 || a[0] != b[0] {
        0
    } else {
        1 + common_steps(a.drop_first(), b.drop_first())
    }
}

/// Whether the steps of `base` are the first steps of `path`.
pub open spec fn leads_through(path: Seq<StepView>, base: Seq<StepView>) -> bool {
    base.len() <= path.len() && path.take(base.len() as int) == base
}

/// The name of the entry that a path ends at.
pub open spec fn file_name_of(path: Seq<char>) -> Option<Seq<char>> {
    if steps(path).len() > 0 && steps(path).last() is Normal {
        Some(steps(path).last()->Normal_0)
    } else {
        None
    }
}

/// A name without the last dot and what follows it, unless the name begins with
/// that dot.
pub open spec fn stem_of_name(name: Seq<char>) -> Seq<char> {
    if last_position(name, '.') > 0 {
        name.take(last_position(name, '.'))
    } else {
        name
    }
}

/// What follows the last dot of a name, unless the name begins with that dot.
pub open spec fn extension_of_name(name: Seq<char>) -> Option<Seq<char>> {
    if last_position(name, '.') > 0 {
        Some(name.skip(last_position(name, '.') + 1))
    } else {
        None
    }
}

/// A path with a further one behind it; a further path from the root replaces
/// the first one.
pub open spec fn join_paths(base: Seq<char>, further: Seq<char>) -> Seq<char> {
    if further.len() > 0 && further[0] == '/' {
        further
    } else if base.len() == 0 || base.last() == '/' {
        base + further
    } else {
        base.push('/') + further
    }
}

/// The place of a kind of step in the order of steps.
pub open spec fn step_rank(step: StepView) -> int {
    match step {
        StepView::Root => 0,
        StepView::Current => 1,
        StepView::Parent => 2,
        StepView::Normal(_) => 3,
    }
}

/// The order of steps: by kind, and names by their text.
pub open spec fn step_before(a: StepView, b: StepView) -> bool {
    match (a, b) {
        (StepView::Normal(x), StepView::Normal(y)) => text_before(x, y),
        _ => step_rank(a) < step_rank(b),
    }
}

/// The order of paths: by the first step in which they differ, and a path before
/// every longer one that begins with it.
pub open spec fn path_before(a: Seq<StepView>, b: Seq<StepView>) -> bool
    decreases a.len(),
{
    if b.len() == 0 {
        false
    } else if a.len() == 0 {
        true
    } else if a[0] != b[0] {
        step_before(a[0], b[0])
    } else {
        path_before(a.drop_first(), b.drop_first())
    }
}

// ---------------------------------------------------------------------------
// Steps of a path
// ---------------------------------------------------------------------------
/// One step of a path.
#[derive(Debug, PartialEq, Eq)]
pub enum Step {
    Root,
    Current,
    Parent,
    Normal(String),
}

impl View for Step {
    type V = StepView;

    open spec fn view(&self) -> StepView {
        match *self {
            Step::Root => StepView::Root,
            Step::Current => StepView::Current,
            Step::Parent => StepView::Parent,
            Step::Normal(name) => StepView::Normal(name@),
        }
    }
}

/// The models of some steps.
pub open spec fn step_views(path: Seq<Step>) -> Seq<StepView> {
    Seq::new(path.len(), |i: int| path[i]@)
}

/// The steps of a path.
pub fn components(path: &str) -> (found: Vec<Step>)
    ensures
        step_views(found@) == steps(path@),
{
    let chars = chars_of(path);
    let mut found: Vec<Step> = Vec::new();
    if chars.len() > 0 && chars[0] == '/' {
        found.push(Step::Root);
    } else if chars.len() > 0 && chars[0] == '.' && (chars.len() == 1 || chars[1] == '/') {
        found.push(Step::Current);
    }
    proof {
        assert(step_views(found@) =~= first_step(path@));
        assert(chars@.skip(0) =~= chars@);
    }
    let mut start: usize = 0;
    while start < chars.len()
        invariant
            start <= chars@.len(),
            step_views(found@) + part_steps(chars@.skip(start as int)) == steps(chars@),
        decreases chars@.len() - start,
    {
        let end = find_from(&chars, start, '/');
        let ghost rest = chars@.skip(start as int);
        let ghost before = step_views(found@);
        let part = text_between(&chars, start, end);
        let is_dot = end - start == 1 && chars[start] == '.';
        let is_parent = end - start == 2 && chars[start] == '.' && chars[start + 1] == '.';
        proof {
            assert(part@ =~= rest.take(end - start));
            assert(is_dot == (part@ == seq!['.'])) by {
                if is_dot {
                    assert(part@ =~= seq!['.']);
                }
                if part@ == seq!['.'] {
                    assert(part@.len() == 1 && part@[0] == '.');
                }
            }
            assert(is_parent == (part@ == seq!['.', '.'])) by {
                if is_parent {
                    assert(part@ =~= seq!['.', '.']);
                }
                if part@ == seq!['.', '.'] {
                    assert(part@.len() == 2 && part@[0] == '.' && part@[1] == '.');
                }
            }
        }
        if start == end || is_dot {
        } else if is_parent {
            found.push(Step::Parent);
        } else {
            found.push(Step::Normal(part));
        }
        proof {
            assert(step_views(found@) =~= before + part_step(rest.take(end - start)));
        }
        if end == chars.len() {
            proof {
                assert(after_part(rest) =~= chars@.skip(end as int));
            }
            start = end;
        } else {
            proof {
                assert(after_part(rest) =~= chars@.skip(end + 1));
            }
            start = end + 1;
        }
        proof {
            assert(step_views(found@) + part_steps(chars@.skip(start as int)) =~= before
                + part_steps(rest));
        }
    }
    proof {
        assert(step_views(found@) + part_steps(chars@.skip(start as int)) =~= step_views(found@));
    }
    found
}

fn same_step(a: &Step, b: &Step) -> (same: bool)
    ensures
        same == (a@ == b@),
{
    match (a, b) {
        (Step::Root, Step::Root) => true,
        (Step::Current, Step::Current) => true,
        (Step::Parent, Step::Parent) => true,
        (Step::Normal(x), Step::Normal(y)) => same_text(x.as_str(), y.as_str()),
        _ => false,
    }
}

proof fn lemma_common_steps(a: Seq<StepView>, b: Seq<StepView>, n: int)
    requires
        0 <= n <= a.len(),
        n <= b.len(),
        forall|i: int| 0 <= i < n ==> a[i] == b[i],
        n < a.len() && n < b.len() ==> a[n] != b[n],
    ensures
        common_steps(a, b) == n,
    decreases n,
{
    if n > 0 {
        assert(a[0] == b[0]);
        lemma_common_steps(a.drop_first(), b.drop_first(), n - 1);
    }
}

fn common_of(a: &Vec<Step>, b: &Vec<Step>) -> (count: usize)
    ensures
        count == common_steps(step_views(a@), step_views(b@)),
        count <= a@.len(),
        count <= b@.len(),
        forall|i: int| 0 <= i < count ==> a@[i]@ == b@[i]@,
        count < a@.len() && count < b@.len() ==> a@[count as int]@ != b@[count as int]@,
{
    let mut count: usize = 0;
    while count < a.len() && count < b.len() && same_step(&a[count], &b[count])
        invariant
            count <= a@.len(),
            count <= b@.len(),
            forall|i: int| 0 <= i < count ==> a@[i]@ == b@[i]@,
        decreases a@.len() - count,
    {
        count += 1;
    }
    proof {
        lemma_common_steps(step_views(a@), step_views(b@), count as int);
    }
    count
}

/// How many steps two paths begin with in common.
pub fn common_prefix_len(left: &str, right: &str) -> (count: usize)
    ensures
        count == common_steps(steps(left@), steps(right@)),
{
    let a = components(left);
    let b = components(right);
    common_of(&a, &b)
}

/// Whether two paths have the same steps.
pub fn is_same_path(left: &str, right: &str) -> (same: bool)
    ensures
        same == same_path(left@, right@),
{
    let a = components(left);
    let b = components(right);
    let count = common_of(&a, &b);
    let same = count == a.len() && count == b.len();
    proof {
        let va = step_views(a@);
        let vb = step_views(b@);
        if same {
            assert(va =~= vb);
        } else if va == vb {
            if count < a@.len() {
                assert(va[count as int] == vb[count as int]);
            }
        }
    }
    same
}

/// Whether the steps of `base` are the first steps of `path`.
pub fn path_starts_with(path: &str, base: &str) -> (starts: bool)
    ensures
        starts == leads_through(steps(path@), steps(base@)),
{
    let a = components(path);
    let b = components(base);
    let count = common_of(&a, &b);
    proof {
        let va = step_views(a@);
        let vb = step_views(b@);
        if count == b@.len() {
            assert(va.take(vb.len() as int) =~= vb);
        } else if leads_through(va, vb) {
            assert(va.take(vb.len() as int)[count as int] == vb[count as int]);
        }
    }
    count == b.len()
}

/// How many steps of a path are the root or a name.
pub fn depth(path: &str) -> (count: usize)
    ensures
        count == depth_of(steps(path@)),
        count <= steps(path@).len(),
{
    let found = components(path);
    let ghost all = step_views(found@);
    let mut count: usize = 0;
    let mut i: usize = 0;
    while i < found.len()
        invariant
            i <= found@.len(),
            all == step_views(found@),
            count <= i,
            count == depth_of(all.take(i as int)),
        decreases found@.len() - i,
    {
        proof {
            assert(all.take(i + 1).drop_last() =~= all.take(i as int));
            assert(all.take(i + 1).last() == found@[i as int]@);
        }
        match &found[i] {
            Step::Root => {
                count += 1;
            },
            Step::Normal(_) => {
                count += 1;
            },
            _ => {},
        }
        i += 1;
    }
    proof {
        assert(all.take(i as int) =~= all);
    }
    count
}

// ---------------------------------------------------------------------------
// Normal form
// ---------------------------------------------------------------------------
/// The path without `.` and `..`, by the names alone.
pub fn normalize_path(path: &str) -> (normal: String)
    ensures
        normal@ == normalized(path@),
{
    let found = components(path);
    let ghost all = step_views(found@);
    let mut kept: Vec<usize> = Vec::new();
    let mut i: usize = 0;
    while i < found.len()
        invariant
            i <= found@.len(),
            all == step_views(found@),
            forall|k: int| 0 <= k < kept@.len() ==> (#[trigger] kept@[k]) < found@.len(),
            walk(all.take(i as int)) == Seq::new(kept@.len(), |k: int| all[kept@[k] as int]),
        decreases found@.len() - i,
    {
        let ghost place = walk(all.take(i as int));
        let ghost before = kept@;
        proof {
            assert(all.take(i + 1).drop_last() =~= all.take(i as int));
            assert(all.take(i + 1).last() == all[i as int]);
        }
        match &found[i] {
            Step::Current => {},
            Step::Parent => {
                if kept.len() > 0 {
                    let last = kept[kept.len() - 1];
                    if let Step::Normal(_) = &found[last] {
                        kept.pop();
                        proof {
                            assert(place.drop_last() =~= Seq::new(
                                kept@.len(),
                                |k: int| all[kept@[k] as int],
                            ));
                        }
                    }
                }
            },
            _ => {
                kept.push(i);
                proof {
                    assert(place.push(all[i as int]) =~= Seq::new(
                        kept@.len(),
                        |k: int| all[kept@[k] as int],
                    ));
                }
            },
        }
        i += 1;
    }
    let ghost place = walk(all);
    proof {
        assert(all.take(i as int) =~= all);
    }
    let mut normal = String::new();
    let mut j: usize = 0;
    while j < kept.len()
        invariant
            j <= kept@.len(),
            all == step_views(found@),
            forall|k: int| 0 <= k < kept@.len() ==> (#[trigger] kept@[k]) < found@.len(),
            place == Seq::new(kept@.len(), |k: int| all[kept@[k] as int]),
            normal@ == path_text(place.take(j as int)),
        decreases kept@.len() - j,
    {
        proof {
            assert(place.take(j + 1).drop_last() =~= place.take(j as int));
            assert(place.take(j + 1).last() == place[j as int]);
        }
        match &found[kept[j]] {
            Step::Root => {
                normal = String::new();
                normal.push('/');
                assert(normal@ =~= seq!['/']);
            },
            Step::Normal(name) => {
                normal = join_name(normal.as_str(), name.as_str());
            },
            _ => {},
        }
        j += 1;
    }
    proof {
        assert(place.take(j as int) =~= place);
    }
    normal
}

fn ends_with_slash(chars: &Vec<char>) -> (ends: bool)
    ensures
        ends == (chars@.len() > 0 && chars@.last() == '/'),
{
    chars.len() > 0 && chars[chars.len() - 1] == '/'
}

fn join_name(base: &str, name: &str) -> (path: String)
    ensures
        path@ == extended(base@, StepView::Normal(name@)),
{
    let chars = chars_of(base);
    if chars.len() == 0 || ends_with_slash(&chars) {
        concat2(base, name)
    } else {
        let mut path = base.to_owned();
        path.push('/');
        path.append(name);
        path
    }
}

/// A path with a further one behind it.
pub fn join_path(base: &str, further: &str) -> (path: String)
    ensures
        path@ == join_paths(base@, further@),
{
    let rest = chars_of(further);
    if rest.len() > 0 && rest[0] == '/' {
        further.to_owned()
    } else {
        join_name(base, further)
    }
}

// ---------------------------------------------------------------------------
// File names
// ---------------------------------------------------------------------------
/// The name of the entry that a path ends at.
pub fn file_name(path: &str) -> (name: Option<String>)
    ensures
        crate::text::maybe_text(name) == file_name_of(path@),
{
    let mut found = components(path);
    let ghost all = step_views(found@);
    match found.pop() {
        Some(Step::Normal(name)) => {
            proof {
                assert(all.last() == StepView::Normal(name@));
            }
            Some(name)
        },
        Some(step) => {
            proof {
                assert(all.last() == step@);
            }
            None
        },
        None => None,
    }
}

fn last_dot(chars: &Vec<char>) -> (at: Option<usize>)
    ensures
        match at {
            Some(i) => last_position(chars@, '.') == i && i < chars@.len(),
            None => last_position(chars@, '.') == -1,
        },
{
    let mut i: usize = chars.len();
    proof {
        assert(chars@.take(i as int) =~= chars@);
    }
    while i > 0
        invariant
            i <= chars@.len(),
            last_position(chars@, '.') == last_position(chars@.take(i as int), '.'),
        decreases i,
    {
        proof {
            assert(chars@.take(i as int).drop_last() =~= chars@.take(i - 1));
        }
        if chars[i - 1] == '.' {
            return Some(i - 1);
        }
        i -= 1;
    }
    None
}

/// The name that a path ends at, without its extension.
pub fn file_stem(path: &str) -> (stem: Option<String>)
    ensures
        match file_name_of(path@) {
            Some(name) => stem matches Some(found) && found@ == stem_of_name(name),
            None => stem is None,
        },
{
    match file_name(path) {
        Some(name) => {
            let chars = chars_of(name.as_str());
            match last_dot(&chars) {
                Some(at) => {
                    if at > 0 {
                        proof {
                            assert(chars@.subrange(0, at as int) =~= chars@.take(at as int));
                        }
                        Some(text_between(&chars, 0, at))
                    } else {
                        Some(name)
                    }
                },
                None => Some(name),
            }
        },
        None => None,
    }
}

/// What follows the last dot of the name that a path ends at.
pub fn file_extension(path: &str) -> (extension: Option<String>)
    ensures
        crate::text::maybe_text(extension) == match file_name_of(path@) {
            Some(name) => extension_of_name(name),
            None => None,
        },
{
    match file_name(path) {
        Some(name) => {
            let chars = chars_of(name.as_str());
            let end = chars.len();
            match last_dot(&chars) {
                Some(at) => {
                    if at > 0 {
                        proof {
                            assert(chars@.subrange(at + 1, chars@.len() as int) =~= chars@.skip(
                                at + 1,
                            ));
                        }
                        Some(text_between(&chars, at + 1, end))
                    } else {
                        None
                    }
                },
                None => None,
            }
        },
        None => None,
    }
}

// ---------------------------------------------------------------------------
// Order
// ---------------------------------------------------------------------------
fn is_step_before(a: &Step, b: &Step) -> (before: bool)
    ensures
        before == step_before(a@, b@),
{
    match (a, b) {
        (Step::Normal(x), Step::Normal(y)) => is_text_before(x.as_str(), y.as_str()),
        (Step::Root, Step::Root) => false,
        (Step::Root, _) => true,
        (Step::Current, Step::Root) => false,
        (Step::Current, Step::Current) => false,
        (Step::Current, _) => true,
        (Step::Parent, Step::Normal(_)) => true,
        _ => false,
    }
}

proof fn lemma_path_before(a: Seq<StepView>, b: Seq<StepView>, n: int)
    requires
        0 <= n <= a.len(),
        n <= b.len(),
        forall|i: int| 0 <= i < n ==> a[i] == b[i],
        n < a.len() && n < b.len() ==> a[n] != b[n],
    ensures
        path_before(a, b) == if n == b.len() {
            false
        } else if n == a.len() {
            true
        } else {
            step_before(a[n], b[n])
        },
    decreases n,
{
    if n > 0 {
        assert(a[0] == b[0]);
        lemma_path_before(a.drop_first(), b.drop_first(), n - 1);
    }
}

/// Whether one path stands before another.
pub fn is_path_before(left: &str, right: &str) -> (before: bool)
    ensures
        before == path_before(steps(left@), steps(right@)),
{
    let a = components(left);
    let b = components(right);
    let count = common_of(&a, &b);
    proof {
        lemma_path_before(step_views(a@), step_views(b@), count as int);
    }
    if count == b.len() {
        false
    } else if count == a.len() {
        true
    } else {
        is_step_before(&a[count], &b[count])
    }
}

// ---------------------------------------------------------------------------
// Laws
// ---------------------------------------------------------------------------
/// Whether a name can stand between two separators as a step of its own.
pub open spec fn is_good_name(name: Seq<char>) -> bool {
    &&& name.len() > 0
    &&& forall|i: int| 0 <= i < name.len() ==> name[i] != '/'
    &&& name != seq!['.']
    &&& name != seq!['.', '.']
}

/// Whether the steps are names behind an optional root.
pub open spec fn is_clean(place: Seq<StepView>) -> bool {
    forall|i: int|
        0 <= i < place.len() ==> match #[trigger] place[i] {
            StepView::Root => i == 0,
            StepView::Normal(name) => is_good_name(name),
            _ => false,
        }
}

proof fn lemma_one_part(name: Seq<char>)
    requires
        forall|i: int| 0 <= i < name.len() ==> name[i] != '/',
    ensures
        part_steps(name) == part_step(name),
{
    lemma_until_is(name, '/', name.len() as int);
    assert(name.take(name.len() as int) =~= name);
    assert(part_steps(Seq::<char>::empty()) =~= Seq::<StepView>::empty());
    assert(part_step(name) + Seq::<StepView>::empty() =~= part_step(name));
}

proof fn lemma_parts_join(a: Seq<char>, b: Seq<char>)
    ensures
        part_steps(a.push('/') + b) == part_steps(a) + part_steps(b),
    decreases a.len(),
{
    let whole = a.push('/') + b;
    let n = until(a, '/');
    lemma_until(a, '/');
    assert forall|i: int| 0 <= i < n implies whole[i] != '/' by {
        assert(whole[i] == a[i]);
    }
    lemma_until_is(whole, '/', n);
    assert(whole.take(n) =~= a.take(n));
    if n == a.len() {
        lemma_one_part(a);
        assert(a.take(n) =~= a);
        assert(after_part(whole) =~= b);
    } else {
        let rest = a.skip(n + 1);
        assert(after_part(whole) =~= rest.push('/') + b);
        lemma_parts_join(rest, b);
        assert(part_step(a.take(n)) + (part_steps(rest) + part_steps(b)) =~= (part_step(a.take(n))
            + part_steps(rest)) + part_steps(b));
    }
}

proof fn lemma_part_steps_good(path: Seq<char>, i: int)
    requires
        0 <= i < part_steps(path).len(),
    ensures
        match part_steps(path)[i] {
            StepView::Parent => true,
            StepView::Normal(name) => is_good_name(name),
            _ => false,
        },
    decreases path.len(),
{
    let n = until(path, '/');
    lemma_until(path, '/');
    let head = part_step(path.take(n));
    if i < head.len() {
        assert(part_steps(path)[i] == head[i]);
        assert forall|k: int| 0 <= k < n implies path.take(n)[k] != '/' by {
            assert(path[k] != '/');
        }
    } else {
        assert(part_steps(path)[i] == part_steps(after_part(path))[i - head.len()]);
        lemma_part_steps_good(after_part(path), i - head.len());
    }
}

proof fn lemma_walk_clean(path: Seq<char>, count: int)
    requires
        0 <= count <= steps(path).len(),
    ensures
        is_clean(walk(steps(path).take(count))),
        walk(steps(path).take(count)).len() <= count,
    decreases count,
{
    if count > 0 {
        let all = steps(path);
        lemma_walk_clean(path, count - 1);
        assert(all.take(count).drop_last() =~= all.take(count - 1));
        assert(all.take(count).last() == all[count - 1]);
        let head = first_step(path);
        if count - 1 >= head.len() {
            assert(all[count - 1] == part_steps(path)[count - 1 - head.len()]);
            lemma_part_steps_good(path, count - 1 - head.len());
        } else {
            assert(all[count - 1] == head[count - 1]);
        }
    }
}

proof fn lemma_clean_text(place: Seq<StepView>)
    requires
        is_clean(place),
    ensures
        steps(path_text(place)) == place,
        place.len() > 0 && place.last() is Normal ==> path_text(place).len() > 0 && path_text(
            place,
        ).last() != '/',
    decreases place.len(),
{
    let text = path_text(place);
    if place.len() == 0 {
        assert(steps(text) =~= place);
    } else {
        let front = place.drop_last();
        let base = path_text(front);
        assert(is_clean(front)) by {
            assert forall|i: int| 0 <= i < front.len() implies match #[trigger] front[i] {
                StepView::Root => i == 0,
                StepView::Normal(name) => is_good_name(name),
                _ => false,
            } by {
                assert(front[i] == place[i]);
            }
        }
        lemma_clean_text(front);
        assert(place =~= front.push(place.last()));
        assert(place[place.len() - 1] == place.last());
        match place.last() {
            StepView::Root => {
                assert(front =~= Seq::<StepView>::empty());
                assert(text =~= Seq::<char>::empty().push('/') + Seq::<char>::empty());
                lemma_parts_join(Seq::<char>::empty(), Seq::<char>::empty());
                assert(steps(text) =~= place);
            },
            StepView::Normal(name) => {
                lemma_one_part(name);
                assert(part_steps(name) =~= seq![StepView::Normal(name)]);
                if front.len() == 0 {
                    assert(text =~= name);
                    assert(name.len() == 1 ==> name[0] != '.') by {
                        if name.len() == 1 && name[0] == '.' {
                            assert(name =~= seq!['.']);
                        }
                    }
                    assert(first_step(text) =~= Seq::<StepView>::empty());
                    assert(steps(text) =~= place);
                } else if front.last() is Root {
                    assert(front[front.len() - 1] is Root);
                    assert(front.len() == 1);
                    assert(front.drop_last() =~= Seq::<StepView>::empty());
                    assert(base =~= seq!['/']);
                    assert(text =~= Seq::<char>::empty().push('/') + name);
                    lemma_parts_join(Seq::<char>::empty(), name);
                    assert(part_steps(Seq::<char>::empty()) =~= Seq::<StepView>::empty());
                    assert(steps(text) =~= place);
                } else {
                    assert(front[front.len() - 1] is Normal);
                    assert(text =~= base.push('/') + name);
                    lemma_parts_join(base, name);
                    assert(first_step(base).len() > 0 ==> steps(base)[0] == first_step(base)[0]);
                    assert(front[0] !is Current);
                    assert(first_step(text) =~= first_step(base)) by {
                        assert(text[0] == base[0]);
                        if base.len() > 1 {
                            assert(text[1] == base[1]);
                        } else {
                            assert(!begins_with_dot(base));
                        }
                    }
                    assert(steps(text) =~= front + seq![StepView::Normal(name)]);
                    assert(steps(text) =~= place);
                }
                assert(text.last() == name.last());
            },
            _ => {},
        }
    }
}

/// The steps of a normalized path are the place that the path leads to.
pub proof fn law_normalized_steps(path: Seq<char>)
    ensures
        steps(normalized(path)) == walk(steps(path)),
{
    lemma_walk_clean(path, steps(path).len() as int);
    assert(steps(path).take(steps(path).len() as int) =~= steps(path));
    lemma_clean_text(walk(steps(path)));
}

/// A normalized path holds neither `.` nor `..` as a step, and a root only at its
/// beginning.
pub proof fn law_normalized_has_names_only(path: Seq<char>, i: int)
    requires
        0 <= i < steps(normalized(path)).len(),
    ensures
        steps(normalized(path))[i] is Normal || (i == 0 && steps(normalized(path))[i] is Root),
{
    law_normalized_steps(path);
    lemma_walk_clean(path, steps(path).len() as int);
    assert(steps(path).take(steps(path).len() as int) =~= steps(path));
}

proof fn lemma_walk_stays(place: Seq<StepView>)
    requires
        is_clean(place),
    ensures
        walk(place) == place,
    decreases place.len(),
{
    if place.len() > 0 {
        let front = place.drop_last();
        assert(is_clean(front)) by {
            assert forall|i: int| 0 <= i < front.len() implies match #[trigger] front[i] {
                StepView::Root => i == 0,
                StepView::Normal(name) => is_good_name(name),
                _ => false,
            } by {
                assert(front[i] == place[i]);
            }
        }
        lemma_walk_stays(front);
        assert(place[place.len() - 1] == place.last());
        assert(front.push(place.last()) =~= place);
    } else {
        assert(walk(place) =~= place);
    }
}

/// Normalizing a normalized path changes nothing.
pub proof fn law_normalize_is_idempotent(path: Seq<char>)
    ensures
        normalized(normalized(path)) == normalized(path),
{
    law_normalized_steps(path);
    lemma_walk_clean(path, steps(path).len() as int);
    assert(steps(path).take(steps(path).len() as int) =~= steps(path));
    lemma_walk_stays(walk(steps(path)));
}

/// Two normalized paths with the same steps are the same text.
pub proof fn law_normalized_text_decides(a: Seq<char>, b: Seq<char>)
    requires
        same_path(normalized(a), normalized(b)),
    ensures
        normalized(a) == normalized(b),
{
    law_normalized_steps(a);
    law_normalized_steps(b);
}

/// No path stands before itself.
pub proof fn law_path_order_irreflexive(a: Seq<StepView>)
    ensures
        !path_before(a, a),
    decreases a.len(),
{
    if a.len() > 0 {
        law_path_order_irreflexive(a.drop_first());
    }
}

/// What stands before a path stands before all that it stands before.
pub proof fn law_path_order_transitive(a: Seq<StepView>, b: Seq<StepView>, c: Seq<StepView>)
    requires
        path_before(a, b),
        path_before(b, c),
    ensures
        path_before(a, c),
    decreases a.len(),
{
    if a.len() > 0 && b.len() > 0 && c.len() > 0 {
        if a[0] == b[0] && b[0] == c[0] {
            law_path_order_transitive(a.drop_first(), b.drop_first(), c.drop_first());
        } else if a[0] != b[0] && b[0] != c[0] {
            match (a[0], b[0], c[0]) {
                (StepView::Normal(x), StepView::Normal(y), StepView::Normal(z)) => {
                    law_text_order_transitive(x, y, z);
                    law_text_order_irreflexive(x);
                },
                _ => {},
            }
        }
    }
}

/// Of two paths with different steps, one stands before the other.
pub proof fn law_path_order_total(a: Seq<StepView>, b: Seq<StepView>)
    ensures
        a == b || path_before(a, b) || path_before(b, a),
    decreases a.len(),
{
    if a.len() == 0 && b.len() == 0 {
        assert(a =~= b);
    } else if a.len() > 0 && b.len() > 0 {
        if a[0] == b[0] {
            law_path_order_total(a.drop_first(), b.drop_first());
            if a.drop_first() == b.drop_first() {
                assert(a =~= seq![a[0]] + a.drop_first());
                assert(b =~= seq![b[0]] + b.drop_first());
            }
        } else {
            match (a[0], b[0]) {
                (StepView::Normal(x), StepView::Normal(y)) => {
                    law_text_order_total(x, y);
                },
                _ => {},
            }
        }
    }
}

proof fn lemma_steps_join(base: Seq<char>, rest: Seq<char>)
    requires
        base.len() > 0,
    ensures
        steps(base.push('/') + rest) == steps(base) + part_steps(rest),
{
    let whole = base.push('/') + rest;
    lemma_parts_join(base, rest);
    assert(whole[0] == base[0]);
    if base.len() > 1 {
        assert(whole[1] == base[1]);
    } else {
        assert(whole[1] == '/');
    }
    assert(first_step(whole) =~= first_step(base));
    assert(steps(whole) =~= steps(base) + part_steps(rest));
}

proof fn lemma_short_parts()
    ensures
        part_steps(Seq::empty()) == Seq::<StepView>::empty(),
        part_steps(seq!['.']) == Seq::<StepView>::empty(),
        part_steps(seq!['.', '.']) == seq![StepView::Parent],
{
    lemma_one_part(seq!['.']);
    lemma_one_part(seq!['.', '.']);
    assert(seq!['.', '.'].len() != seq!['.'].len());
    assert(part_step(seq!['.', '.']) == seq![StepView::Parent]);
    assert(part_steps(Seq::<char>::empty()) =~= Seq::<StepView>::empty());
}

/// The steps of a path are the root, where a separator begins it, and one for each
/// name or `..` between separators. Separators in a row, one at the end, and a part
/// `.` count for nothing, but for a `.` at the beginning.
pub proof fn law_steps_of_a_path(base: Seq<char>, name: Seq<char>)
    requires
        base.len() > 0,
        is_good_name(name),
    ensures
        steps(base + seq!['/']) == steps(base),
        steps(base + seq!['/', '.']) == steps(base),
        steps(base + seq!['/', '.', '.']) == steps(base).push(StepView::Parent),
        steps(base + seq!['/'] + name) == steps(base).push(StepView::Normal(name)),
        steps(name) == seq![StepView::Normal(name)],
        steps(seq!['/'] + name) == seq![StepView::Root, StepView::Normal(name)],
        steps(Seq::empty()) == Seq::<StepView>::empty(),
        steps(seq!['/']) == seq![StepView::Root],
        steps(seq!['.']) == seq![StepView::Current],
        steps(seq!['.', '.']) == seq![StepView::Parent],
{
    lemma_short_parts();
    lemma_one_part(name);
    assert(part_steps(name) == seq![StepView::Normal(name)]);
    lemma_steps_join(base, Seq::empty());
    assert(base.push('/') + Seq::<char>::empty() =~= base + seq!['/']);
    assert(steps(base) + Seq::<StepView>::empty() =~= steps(base));
    lemma_steps_join(base, seq!['.']);
    assert(base.push('/') + seq!['.'] =~= base + seq!['/', '.']);
    lemma_steps_join(base, seq!['.', '.']);
    assert(base.push('/') + seq!['.', '.'] =~= base + seq!['/', '.', '.']);
    assert(steps(base) + seq![StepView::Parent] =~= steps(base).push(StepView::Parent));
    lemma_steps_join(base, name);
    assert(base.push('/') + name =~= base + seq!['/'] + name);
    assert(steps(base) + seq![StepView::Normal(name)] =~= steps(base).push(
        StepView::Normal(name),
    ));
    assert(name.len() == 1 ==> name[0] != '.') by {
        if name.len() == 1 && name[0] == '.' {
            assert(name =~= seq!['.']);
        }
    }
    assert(first_step(name) =~= Seq::<StepView>::empty());
    assert(steps(name) =~= seq![StepView::Normal(name)]);
    lemma_parts_join(Seq::empty(), name);
    assert(Seq::<char>::empty().push('/') + name =~= seq!['/'] + name);
    assert(steps(seq!['/'] + name) =~= seq![StepView::Root, StepView::Normal(name)]);
    assert(steps(Seq::<char>::empty()) =~= Seq::<StepView>::empty());
    lemma_parts_join(Seq::empty(), Seq::empty());
    assert(Seq::<char>::empty().push('/') + Seq::<char>::empty() =~= seq!['/']);
    assert(steps(seq!['/']) =~= seq![StepView::Root]);
    assert(steps(seq!['.']) =~= seq![StepView::Current]);
    assert(first_step(seq!['.', '.']) =~= Seq::<StepView>::empty());
    assert(steps(seq!['.', '.']) =~= seq![StepView::Parent]);
}

/// The normal form of a path has a name behind it for a name, and one name less for
/// `..`, where there is one to take; all else changes nothing. A path without names is
/// the root or the empty path.
pub proof fn law_normal_form_of_a_path(base: Seq<char>, name: Seq<char>)
    requires
        base.len() > 0,
        is_good_name(name),
    ensures
        normalized(base + seq!['/']) == normalized(base),
        normalized(base + seq!['/', '.']) == normalized(base),
        normalized(base + seq!['/'] + name) == (if normalized(base).len() == 0 || normalized(
            base,
        ).last() == '/' {
            normalized(base) + name
        } else {
            normalized(base) + seq!['/'] + name
        }),
        normalized(base + seq!['/'] + name + seq!['/', '.', '.']) == normalized(base),
        (forall|i: int|
            0 <= i < steps(normalized(base)).len() ==> !((#[trigger] steps(
                normalized(base),
            )[i]) is Normal)) ==> normalized(base + seq!['/', '.', '.']) == normalized(base),
        normalized(name) == name,
        normalized(seq!['/'] + name) == seq!['/'] + name,
        normalized(Seq::empty()) == Seq::<char>::empty(),
        normalized(seq!['/']) == seq!['/'],
        normalized(seq!['.']) == Seq::<char>::empty(),
        normalized(seq!['.', '.']) == Seq::<char>::empty(),
{
    law_steps_of_a_path(base, name);
    let place = walk(steps(base));
    let longer = base + seq!['/'] + name;
    law_steps_of_a_path(longer, name);
    lemma_walk_push(steps(base), StepView::Normal(name));
    lemma_walk_push(steps(base), StepView::Parent);
    lemma_walk_push(steps(longer), StepView::Parent);
    lemma_text_push(place, StepView::Normal(name));
    assert(normalized(base).push('/') + name =~= normalized(base) + seq!['/'] + name);
    assert(place.push(StepView::Normal(name)).drop_last() =~= place);
    law_normalized_steps(base);
    if place.len() > 0 && place.last() is Normal {
        assert(steps(normalized(base))[place.len() - 1] is Normal);
    }
    let none = Seq::<StepView>::empty();
    let nothing = Seq::<char>::empty();
    assert(walk(none) =~= none);
    assert(path_text(none) =~= nothing);
    lemma_walk_push(none, StepView::Normal(name));
    lemma_text_push(none, StepView::Normal(name));
    assert(none.push(StepView::Normal(name)) =~= seq![StepView::Normal(name)]);
    assert(nothing + name =~= name);
    lemma_walk_push(none, StepView::Root);
    lemma_text_push(none, StepView::Root);
    assert(none.push(StepView::Root) =~= seq![StepView::Root]);
    lemma_walk_push(seq![StepView::Root], StepView::Normal(name));
    lemma_text_push(seq![StepView::Root], StepView::Normal(name));
    assert(seq![StepView::Root].push(StepView::Normal(name)) =~= seq![
        StepView::Root,
        StepView::Normal(name),
    ]);
    lemma_walk_push(none, StepView::Current);
    assert(none.push(StepView::Current) =~= seq![StepView::Current]);
    lemma_walk_push(none, StepView::Parent);
    assert(none.push(StepView::Parent) =~= seq![StepView::Parent]);
}

proof fn lemma_walk_push(path: Seq<StepView>, step: StepView)
    ensures
        walk(path.push(step)) == take_step(walk(path), step),
{
    assert(path.push(step).drop_last() =~= path);
}

proof fn lemma_text_push(path: Seq<StepView>, step: StepView)
    ensures
        path_text(path.push(step)) == extended(path_text(path), step),
{
    assert(path.push(step).drop_last() =~= path);
}

/// Two paths are the same where they take as many steps and each step is the same.
pub proof fn law_same_path_means_same_steps(a: Seq<char>, b: Seq<char>)
    ensures
        same_path(a, b) <==> steps(a).len() == steps(b).len() && forall|i: int|
            0 <= i < steps(a).len() ==> #[trigger] steps(a)[i] == steps(b)[i],
{
    if steps(a).len() == steps(b).len() && forall|i: int|
        0 <= i < steps(a).len() ==> #[trigger] steps(a)[i] == steps(b)[i] {
        assert(steps(a) =~= steps(b));
    }
}

/// The depth counts the root and the names, and nothing else.
pub proof fn law_depth_counts_names(path: Seq<StepView>, step: StepView)
    ensures
        depth_of(Seq::empty()) == 0,
        depth_of(path.push(step)) == depth_of(path) + if step is Root || step is Normal {
            1nat
        } else {
            0
        },
{
    assert(path.push(step).drop_last() =~= path);
}

/// Two paths have so many steps in common as they begin with: all of these are the
/// same, and the next ones, where there are any, differ.
pub proof fn law_common_steps_are_all_there_are(a: Seq<StepView>, b: Seq<StepView>)
    ensures
        ({
            let n = common_steps(a, b) as int;
            &&& n <= a.len()
            &&& n <= b.len()
            &&& forall|i: int| 0 <= i < n ==> a[i] == b[i]
            &&& n < a.len() && n < b.len() ==> a[n] != b[n]
        }),
    decreases a.len(),
{
    if a.len() > 0 && b.len() > 0 && a[0] == b[0] {
        let n = common_steps(a, b) as int;
        law_common_steps_are_all_there_are(a.drop_first(), b.drop_first());
        assert forall|i: int| 0 <= i < n implies a[i] == b[i] by {
            if i > 0 {
                assert(a.drop_first()[i - 1] == b.drop_first()[i - 1]);
            }
        }
        if n < a.len() && n < b.len() {
            assert(a.drop_first()[n - 1] != b.drop_first()[n - 1]);
        }
    }
}

/// A path leads through another exactly where it continues it.
pub proof fn law_leading_through(path: Seq<StepView>, base: Seq<StepView>, rest: Seq<StepView>)
    ensures
        leads_through(base + rest, base),
        leads_through(path, base) ==> path == base + path.skip(base.len() as int),
{
    assert((base + rest).take(base.len() as int) =~= base);
    if leads_through(path, base) {
        assert(path =~= path.take(base.len() as int) + path.skip(base.len() as int));
    }
}

/// The name at the end of a path is what stands behind the last separator, with or
/// without a separator behind it. A path that ends with `..`, and the root, have none.
pub proof fn law_file_name(dir: Seq<char>, name: Seq<char>)
    requires
        dir.len() > 0,
        name.len() > 0,
        forall|i: int| 0 <= i < name.len() ==> name[i] != '/',
        name != seq!['.'],
        name != seq!['.', '.'],
    ensures
        file_name_of(dir + seq!['/'] + name) == Some(name),
        file_name_of(dir + seq!['/'] + name + seq!['/']) == Some(name),
        file_name_of(name) == Some(name),
        file_name_of(dir + seq!['/', '.', '.']) is None,
        file_name_of(seq!['/']) is None,
        file_name_of(Seq::empty()) is None,
{
    law_steps_of_a_path(dir, name);
    law_steps_of_a_path(dir + seq!['/'] + name, name);
}

/// What stands behind the last dot of a name is its extension, and what stands before
/// that dot its stem.
pub proof fn law_extension(stem: Seq<char>, extension: Seq<char>)
    requires
        stem.len() > 0,
        forall|i: int| 0 <= i < extension.len() ==> extension[i] != '.',
    ensures
        extension_of_name(stem + seq!['.'] + extension) == Some(extension),
        stem_of_name(stem + seq!['.'] + extension) == stem,
{
    let name = stem + seq!['.'] + extension;
    let at = stem.len() as int;
    assert forall|i: int| at < i < name.len() implies name[i] != '.' by {
        assert(name[i] == extension[i - at - 1]);
    }
    assert(name[at] == '.');
    lemma_last_position_is(name, '.', at);
    assert(name.skip(at + 1) =~= extension);
    assert(name.take(at) =~= stem);
}

/// A name without a dot behind its first character has no extension, and is its own
/// stem.
pub proof fn law_no_extension(name: Seq<char>)
    requires
        forall|i: int| 1 <= i < name.len() ==> name[i] != '.',
    ensures
        extension_of_name(name) is None,
        stem_of_name(name) == name,
{
    law_last_position(name, '.');
}

/// A further path goes behind the first one, with one separator between, and a path
/// from the root takes its place.
pub proof fn law_joined_paths(base: Seq<char>, further: Seq<char>)
    ensures
        further.len() > 0 && further[0] == '/' ==> join_paths(base, further) == further,
        !(further.len() > 0 && further[0] == '/') ==> join_paths(base, further) == (
        if base.len() == 0 || base.last() == '/' {
            base
        } else {
            base + seq!['/']
        }) + further,
{
    assert(base.push('/') =~= base + seq!['/']);
}

/// Of two paths that begin alike, the first step in which they differ decides: the
/// root before `.`, that before `..`, that before every name, and names by their text.
/// A path stands before what continues it.
pub proof fn law_first_differing_step_decides(
    start: Seq<StepView>,
    a: StepView,
    b: StepView,
    left: Seq<StepView>,
    right: Seq<StepView>,
)
    ensures
        path_before(start, start.push(b) + right),
        !path_before(start.push(b) + right, start),
        a is Root && !(b is Root) ==> path_before(start.push(a) + left, start.push(b) + right)
            && !path_before(start.push(b) + right, start.push(a) + left),
        a is Current && (b is Parent || b is Normal) ==> path_before(
            start.push(a) + left,
            start.push(b) + right,
        ) && !path_before(start.push(b) + right, start.push(a) + left),
        a is Parent && b is Normal ==> path_before(start.push(a) + left, start.push(b) + right)
            && !path_before(start.push(b) + right, start.push(a) + left),
        a is Normal && b is Normal && a != b ==> path_before(
            start.push(a) + left,
            start.push(b) + right,
        ) == text_before(a->Normal_0, b->Normal_0),
    decreases start.len(),
{
    let one = start.push(a) + left;
    let two = start.push(b) + right;
    if start.len() == 0 {
        assert(one[0] == a && two[0] == b);
    } else {
        let rest = start.drop_first();
        law_first_differing_step_decides(rest, a, b, left, right);
        assert(one.drop_first() =~= rest.push(a) + left);
        assert(two.drop_first() =~= rest.push(b) + right);
        assert(one[0] == start[0] && two[0] == start[0]);
    }
}

/// Paths with the same steps end at the same name.
pub proof fn law_same_steps_same_name(a: Seq<char>, b: Seq<char>, name: Seq<char>)
    ensures
        steps(a) == steps(b) ==> file_name_of(a) == file_name_of(b),
        file_name_of(a) == Some(name) <==> steps(a).len() > 0 && steps(a)[steps(a).len() - 1]
            == StepView::Normal(name),
{
}

} // verus!
