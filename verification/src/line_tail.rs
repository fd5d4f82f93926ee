//! The last lines of a file.

use std::collections::VecDeque;

use vstd::prelude::*;

use crate::text::{
    are_unbroken, concat2, is_line, is_unbroken, join, joined, lemma_first_line, lines, texts,
    without_return,
};

verus! {

/// Some lines without the empty ones, where those are to be passed over.
pub open spec fn kept_lines(lines: Seq<Seq<char>>, skip_empty: bool) -> Seq<Seq<char>>
    decreases lines.len(),
{
    if lines.len() == 0 {
        Seq::empty()
    } else if skip_empty && lines.last().len() == 0 {
        kept_lines(lines.drop_last(), skip_empty)
    } else {
        kept_lines(lines.drop_last(), skip_empty).push(lines.last())
    }
}

/// The last `max_lines` of some lines; all of them where `max_lines` is zero.
pub open spec fn last_lines(lines: Seq<Seq<char>>, max_lines: nat) -> Seq<Seq<char>> {
    if max_lines == 0 || lines.len() <= max_lines {
        lines
    } else {
        lines.skip(lines.len() - max_lines)
    }
}

/// The last `max_lines` of the lines that are kept.
pub open spec fn tail_of(lines: Seq<Seq<char>>, max_lines: nat, skip_empty: bool) -> Seq<Seq<char>> {
    last_lines(kept_lines(lines, skip_empty), max_lines)
}

/// Some lines as one text, each with a line feed behind it.
pub open spec fn joined_lines(lines: Seq<Seq<char>>) -> Seq<char> {
    if lines.len() == 0 {
        Seq::empty()
    } else {
        join(lines, "\n"@) + "\n"@
    }
}

/// What a `LineTail` says.
pub struct LineTailView {
    pub max_lines: nat,
    pub skip_empty: bool,
    pub lines: Seq<Seq<char>>,
}

/// The tail after one more line.
pub open spec fn with_next_line(tail: LineTailView, line: Seq<char>) -> LineTailView {
    let lines = if tail.skip_empty && line.len() == 0 {
        tail.lines
    } else if tail.lines.len() == tail.max_lines && tail.lines.len() > 0 {
        tail.lines.drop_first().push(line)
    } else {
        tail.lines.push(line)
    };
    LineTailView { lines, ..tail }
}

/// The last lines of what has been read so far.
#[derive(Debug)]
pub struct LineTail {
    max_lines: usize,
    skip_empty: bool,
    lines: VecDeque<String>,
}

impl View for LineTail {
    type V = LineTailView;

    closed spec fn view(&self) -> LineTailView {
        LineTailView {
            max_lines: self.max_lines as nat,
            skip_empty: self.skip_empty,
            lines: texts(self.lines@),
        }
    }
}

impl LineTail {
    /// The tail before the first line.
    pub fn new(max_lines: usize, skip_empty: bool) -> (tail: LineTail)
        ensures
            tail@ == (LineTailView {
                max_lines: max_lines as nat,
                skip_empty,
                lines: Seq::empty(),
            }),
    {
        let tail = LineTail { max_lines, skip_empty, lines: VecDeque::new() };
        proof {
            assert(texts(tail.lines@) =~= Seq::<Seq<char>>::empty());
        }
        tail
    }

    /// Takes in one more line.
    pub fn push(&mut self, line: String)
        ensures
            final(self)@ == with_next_line(old(self)@, line@),
    {
        let ghost before = texts(self.lines@);
        if self.skip_empty && line.as_str().is_empty() {
            return;
        }
        let full = self.lines.len() == self.max_lines;
        if full {
            let _ = self.lines.pop_front();
        }
        self.lines.push_back(line);
        proof {
            if full && before.len() > 0 {
                assert(texts(self.lines@) =~= before.drop_first().push(line@));
            } else {
                assert(texts(self.lines@) =~= before.push(line@));
            }
        }
    }

    /// The lines of the tail.
    pub fn into_lines(self) -> (lines: Vec<String>)
        ensures
            texts(lines@) == self@.lines,
    {
        let mut queue = self.lines;
        let mut lines: Vec<String> = Vec::new();
        let ghost all = queue@;
        proof {
            assert(lines@ + queue@ =~= all);
        }
        while queue.len() > 0
            invariant
                lines@ + queue@ == all,
            decreases queue@.len(),
        {
            let ghost done = lines@;
            let ghost left = queue@;
            match queue.pop_front() {
                Some(line) => {
                    lines.push(line);
                    proof {
                        assert(lines@ + queue@ =~= done + left);
                    }
                },
                None => {},
            }
        }
        proof {
            assert(lines@ =~= all);
        }
        lines
    }
}

proof fn lemma_tail_step(lines: Seq<Seq<char>>, line: Seq<char>, max_lines: nat, skip_empty: bool)
    ensures
        tail_of(lines.push(line), max_lines, skip_empty) == with_next_line(
            LineTailView { max_lines, skip_empty, lines: tail_of(lines, max_lines, skip_empty) },
            line,
        ).lines,
{
    let kept = kept_lines(lines, skip_empty);
    assert(lines.push(line).drop_last() =~= lines);
    if !(skip_empty && line.len() == 0) {
        assert(kept_lines(lines.push(line), skip_empty) == kept.push(line));
        if max_lines > 0 && kept.len() >= max_lines {
            assert(last_lines(kept.push(line), max_lines) =~= last_lines(
                kept,
                max_lines,
            ).drop_first().push(line));
        }
    }
}

/// The last `max_lines` of the lines that are kept.
pub fn tail_lines(lines: Vec<String>, max_lines: usize, skip_empty: bool) -> (tail: Vec<String>)
    ensures
        texts(tail@) == tail_of(texts(lines@), max_lines as nat, skip_empty),
{
    let ghost all = texts(lines@);
    let mut tail = LineTail::new(max_lines, skip_empty);
    proof {
        assert(tail_of(all.take(0), max_lines as nat, skip_empty) =~= Seq::<Seq<char>>::empty());
    }
    for line in it: lines
        invariant
            all == texts(it.seq()),
            tail@.max_lines == max_lines,
            tail@.skip_empty == skip_empty,
            tail@.lines == tail_of(all.take(it.index()), max_lines as nat, skip_empty),
    {
        proof {
            lemma_tail_step(all.take(it.index()), line@, max_lines as nat, skip_empty);
            assert(all.take(it.index() + 1) =~= all.take(it.index()).push(line@));
        }
        tail.push(line);
    }
    proof {
        assert(all.take(all.len() as int) =~= all);
    }
    tail.into_lines()
}

/// Some lines as one text, each with a line feed behind it.
pub fn join_lines(lines: &Vec<String>) -> (text: String)
    ensures
        text@ == joined_lines(texts(lines@)),
{
    if lines.len() == 0 {
        let text = String::new();
        proof {
            assert(text@ =~= Seq::<char>::empty());
        }
        text
    } else {
        let text = joined(lines, "\n");
        concat2(text.as_str(), "\n")
    }
}

// ---------------------------------------------------------------------------
// Laws
// ---------------------------------------------------------------------------
/// A tail that is to hold some lines never holds more.
pub proof fn law_tail_is_bounded(lines: Seq<Seq<char>>, max_lines: nat, skip_empty: bool)
    requires
        max_lines > 0,
    ensures
        tail_of(lines, max_lines, skip_empty).len() <= max_lines,
{
}

/// The tail of a tail is that tail: cutting while reading and cutting once more
/// afterwards gives the same lines.
pub proof fn law_tail_of_tail(lines: Seq<Seq<char>>, max_lines: nat, skip_empty: bool)
    ensures
        tail_of(tail_of(lines, max_lines, skip_empty), max_lines, skip_empty) == tail_of(
            lines,
            max_lines,
            skip_empty,
        ),
{
    let kept = kept_lines(lines, skip_empty);
    let tail = last_lines(kept, max_lines);
    lemma_kept_is_filled(lines, skip_empty);
    assert forall|i: int| 0 <= i < tail.len() && skip_empty implies (#[trigger] tail[i]).len() > 0 by {
        if tail.len() < kept.len() {
            assert(tail[i] == kept[i + kept.len() - max_lines]);
        }
    }
    lemma_filled_is_kept(tail, skip_empty);
}

proof fn lemma_kept_is_filled(lines: Seq<Seq<char>>, skip_empty: bool)
    ensures
        forall|i: int|
            0 <= i < kept_lines(lines, skip_empty).len() && skip_empty ==> (
            #[trigger] kept_lines(lines, skip_empty)[i]).len() > 0,
    decreases lines.len(),
{
    if lines.len() > 0 {
        let front = kept_lines(lines.drop_last(), skip_empty);
        let kept = kept_lines(lines, skip_empty);
        lemma_kept_is_filled(lines.drop_last(), skip_empty);
        assert forall|i: int| 0 <= i < kept.len() && skip_empty implies (
        #[trigger] kept[i]).len() > 0 by {
            if i < front.len() {
                assert(kept[i] == front[i]);
            }
        }
    }
}

proof fn lemma_filled_is_kept(lines: Seq<Seq<char>>, skip_empty: bool)
    requires
        forall|i: int| 0 <= i < lines.len() && skip_empty ==> (#[trigger] lines[i]).len() > 0,
    ensures
        kept_lines(lines, skip_empty) == lines,
    decreases lines.len(),
{
    if lines.len() > 0 {
        let front = lines.drop_last();
        assert forall|i: int| 0 <= i < front.len() && skip_empty implies (
        #[trigger] front[i]).len() > 0 by {
            assert(front[i] == lines[i]);
        }
        lemma_filled_is_kept(front, skip_empty);
        assert(lines[lines.len() - 1] == lines.last());
        assert(front.push(lines.last()) =~= lines);
    } else {
        assert(kept_lines(lines, skip_empty) =~= lines);
    }
}

proof fn lemma_join_first(lines: Seq<Seq<char>>)
    requires
        lines.len() > 0,
    ensures
        joined_lines(lines) == lines[0].push('\n') + joined_lines(lines.drop_first()),
    decreases lines.len(),
{
    reveal_strlit("\n");
    assert("\n"@ =~= seq!['\n']);
    let rest = lines.drop_first();
    if lines.len() == 1 {
        assert(lines.drop_last().len() == 0);
        assert(join(lines, "\n"@) =~= lines[0]);
        assert(joined_lines(lines) =~= lines[0].push('\n') + joined_lines(rest));
    } else {
        let front = lines.drop_last();
        lemma_join_first(front);
        assert(front[0] == lines[0]);
        assert(front.drop_first() =~= rest.drop_last());
        assert(rest.last() == lines.last());
        assert(join(lines, "\n"@) == join(front, "\n"@) + "\n"@ + lines.last());
        if rest.len() == 1 {
            assert(join(rest, "\n"@) =~= rest.last());
            assert(front.len() == 1);
            assert(join(front, "\n"@) =~= lines[0]);
        }
        assert(joined_lines(lines) =~= lines[0].push('\n') + joined_lines(rest));
    }
}

/// Some lines as they read back, each without a carriage return at its end.
pub open spec fn without_returns(kept: Seq<Seq<char>>) -> Seq<Seq<char>> {
    Seq::new(kept.len(), |i: int| without_return(kept[i]))
}

/// Lines that are written as one text read back one by one, each without a carriage
/// return at its end.
pub proof fn law_joined_lines_stay_apart(kept: Seq<Seq<char>>)
    requires
        are_unbroken(kept),
    ensures
        lines(joined_lines(kept)) == without_returns(kept),
    decreases kept.len(),
{
    if kept.len() > 0 {
        let rest = kept.drop_first();
        lemma_join_first(kept);
        assert(is_unbroken(kept[0]));
        lemma_first_line(kept[0], joined_lines(rest));
        assert forall|i: int| 0 <= i < rest.len() implies is_unbroken(#[trigger] rest[i]) by {
            assert(rest[i] == kept[i + 1]);
        }
        law_joined_lines_stay_apart(rest);
        assert(seq![without_return(kept[0])] + without_returns(rest) =~= without_returns(kept));
    } else {
        assert(lines(joined_lines(kept)) =~= without_returns(kept));
    }
}

/// Lines that are written as one text read back as those lines.
pub proof fn law_joined_lines_read_back(kept: Seq<Seq<char>>)
    requires
        forall|i: int| 0 <= i < kept.len() ==> is_line(#[trigger] kept[i]),
    ensures
        lines(joined_lines(kept)) == kept,
{
    assert forall|i: int| 0 <= i < kept.len() implies is_unbroken(#[trigger] kept[i]) by {
        assert(is_line(kept[i]));
    }
    law_joined_lines_stay_apart(kept);
    assert forall|i: int| 0 <= i < kept.len() implies without_return(kept[i])
        == #[trigger] kept[i] by {
        assert(is_line(kept[i]));
    }
    assert(without_returns(kept) =~= kept);
}

proof fn lemma_kept_was_read(lines: Seq<Seq<char>>, skip_empty: bool, i: int) -> (j: int)
    requires
        0 <= i < kept_lines(lines, skip_empty).len(),
    ensures
        0 <= j < lines.len(),
        kept_lines(lines, skip_empty)[i] == lines[j],
    decreases lines.len(),
{
    let front = lines.drop_last();
    if i < kept_lines(front, skip_empty).len() {
        let j = lemma_kept_was_read(front, skip_empty, i);
        assert(front[j] == lines[j]);
        j
    } else {
        lines.len() - 1
    }
}

/// Every line of a tail is one of the lines that were read.
pub proof fn law_tail_was_read(
    lines: Seq<Seq<char>>,
    max_lines: nat,
    skip_empty: bool,
    i: int,
) -> (j: int)
    requires
        0 <= i < tail_of(lines, max_lines, skip_empty).len(),
    ensures
        0 <= j < lines.len(),
        tail_of(lines, max_lines, skip_empty)[i] == lines[j],
{
    let kept = kept_lines(lines, skip_empty);
    if max_lines == 0 || kept.len() <= max_lines {
        lemma_kept_was_read(lines, skip_empty, i)
    } else {
        lemma_kept_was_read(lines, skip_empty, i + kept.len() - max_lines)
    }
}

/// A tail that is written as one text reads back line by line, and no more lines
/// than it is to hold.
pub proof fn law_tail_reads_back(read: Seq<Seq<char>>, max_lines: nat, skip_empty: bool)
    requires
        are_unbroken(read),
    ensures
        lines(joined_lines(tail_of(read, max_lines, skip_empty))) == without_returns(
            tail_of(read, max_lines, skip_empty),
        ),
        max_lines > 0 ==> lines(joined_lines(tail_of(read, max_lines, skip_empty))).len()
            <= max_lines,
{
    let tail = tail_of(read, max_lines, skip_empty);
    assert forall|i: int| 0 <= i < tail.len() implies is_unbroken(#[trigger] tail[i]) by {
        let j = law_tail_was_read(read, max_lines, skip_empty, i);
        assert(is_unbroken(read[j]));
    }
    law_joined_lines_stay_apart(tail);
}

/// The lines that are kept are those that are not empty, or all of them where empty
/// lines are not to be passed over, in their order.
pub proof fn law_kept_lines_are_the_filled_ones(lines: Seq<Seq<char>>)
    ensures
        kept_lines(lines, false) == lines,
        kept_lines(lines, true) == lines.filter(|line: Seq<char>| line.len() > 0),
    decreases lines.len(),
{
    reveal(Seq::filter);
    if lines.len() > 0 {
        law_kept_lines_are_the_filled_ones(lines.drop_last());
        assert(lines =~= lines.drop_last().push(lines.last()));
    } else {
        assert(kept_lines(lines, false) =~= lines);
    }
}

/// A tail is the end of the lines that are kept, as long as it may be: all of them
/// where they are no more, or where there is no limit.
pub proof fn law_tail_is_the_end(lines: Seq<Seq<char>>, max_lines: nat, skip_empty: bool)
    ensures
        ({
            let kept = if skip_empty {
                lines.filter(|line: Seq<char>| line.len() > 0)
            } else {
                lines
            };
            let tail = tail_of(lines, max_lines, skip_empty);
            &&& tail.len() == if max_lines == 0 || kept.len() < max_lines {
                kept.len()
            } else {
                max_lines
            }
            &&& forall|i: int|
                0 <= i < tail.len() ==> #[trigger] tail[i] == kept[kept.len() - tail.len() + i]
        }),
{
    law_kept_lines_are_the_filled_ones(lines);
}

/// A line that is taken in stands at the end of the tail, and at most one line leaves
/// it, the first; an empty line that is to be passed over changes nothing.
pub proof fn law_line_joins_the_tail(tail: LineTailView, line: Seq<char>)
    ensures
        ({
            let after = with_next_line(tail, line);
            &&& after.max_lines == tail.max_lines
            &&& after.skip_empty == tail.skip_empty
            &&& tail.skip_empty && line.len() == 0 ==> after.lines == tail.lines
            &&& !(tail.skip_empty && line.len() == 0) ==> {
                &&& after.lines.len() > 0
                &&& after.lines.last() == line
                &&& after.lines.drop_last() == if tail.lines.len() > 0 && tail.lines.len()
                    == tail.max_lines {
                    tail.lines.skip(1)
                } else {
                    tail.lines
                }
            }
        }),
{
    if !(tail.skip_empty && line.len() == 0) {
        let after = with_next_line(tail, line);
        assert(after.lines.drop_last() =~= if tail.lines.len() > 0 && tail.lines.len()
            == tail.max_lines {
            tail.lines.skip(1)
        } else {
            tail.lines
        });
    }
}

/// Each line of a text that lines are written to has a line feed behind it.
pub proof fn law_joined_lines_are_ended(lines: Seq<Seq<char>>, line: Seq<char>)
    ensures
        joined_lines(Seq::empty()).len() == 0,
        joined_lines(lines.push(line)) == joined_lines(lines) + line + seq!['\n'],
{
    reveal_strlit("\n");
    assert("\n"@ =~= seq!['\n']);
    let more = lines.push(line);
    assert(more.drop_last() =~= lines);
    if lines.len() == 0 {
        assert(join(more, "\n"@) =~= line);
    }
    assert(joined_lines(more) =~= joined_lines(lines) + line + seq!['\n']);
}

} // verus!
