//! Arguments that name panes and their processes.

use vstd::prelude::*;

use crate::text::{
    chars_of, concat2, decimal, digits_value, find_from, is_digit, law_decimal_reads_back,
    law_numbers_are_read, lemma_until_is, parse_unsigned, same_text, text_between, texts, unsigned_value, until,
    without_plus,
};

verus! {

/// What a `PanePid` says.
pub struct PanePidView {
    pub id: Seq<char>,
    pub pid: u32,
}

/// A pane and the process in it.
#[derive(Clone, Debug, PartialEq, Eq)]
pub struct PanePid {
    pub id: String,
    pub pid: u32,
}

impl View for PanePid {
    type V = PanePidView;

    open spec fn view(&self) -> PanePidView {
        PanePidView { id: self.id@, pid: self.pid }
    }
}

/// What some panes say.
pub open spec fn pane_pid_views(panes: Seq<PanePid>) -> Seq<PanePidView> {
    Seq::new(panes.len(), |i: int| panes[i]@)
}

/// What is wrong with the text of a number.
#[derive(Clone, Copy, Debug, PartialEq, Eq, Structural)]
pub enum NumberFault {
    Empty,
    InvalidDigit,
    TooLarge,
}

/// What is wrong with an argument.
#[derive(Clone, Debug, PartialEq, Eq)]
pub enum PaneArgError {
    Unexpected(String),
    MissingValue,
    InvalidPane(String),
    InvalidPid(NumberFault),
}

/// What a `PaneArgError` says.
pub enum PaneArgFault {
    Unexpected(Seq<char>),
    MissingValue,
    InvalidPane(Seq<char>),
    InvalidPid(NumberFault),
}

impl View for PaneArgError {
    type V = PaneArgFault;

    open spec fn view(&self) -> PaneArgFault {
        match *self {
            PaneArgError::Unexpected(arg) => PaneArgFault::Unexpected(arg@),
            PaneArgError::MissingValue => PaneArgFault::MissingValue,
            PaneArgError::InvalidPane(value) => PaneArgFault::InvalidPane(value@),
            PaneArgError::InvalidPid(fault) => PaneArgFault::InvalidPid(fault),
        }
    }
}

// ---------------------------------------------------------------------------
// Models
// ---------------------------------------------------------------------------
/// The first thing wrong with some digits, from left to right.
pub open spec fn digits_fault(digits: Seq<char>, max: nat) -> Option<NumberFault>
    decreases digits.len(),
{
    if digits.len() == 0 {
        None
    } else {
        match digits_fault(digits.drop_last(), max) {
            Some(fault) => Some(fault),
            None => if !is_digit(digits.last()) {
                Some(NumberFault::InvalidDigit)
            } else if digits_value(digits) > max {
                Some(NumberFault::TooLarge)
            } else {
                None
            },
        }
    }
}

/// What is wrong with the text of a number of at most `max`.
pub open spec fn number_fault(s: Seq<char>, max: nat) -> Option<NumberFault> {
    if s.len() == 0 {
        Some(NumberFault::Empty)
    } else if without_plus(s).len() == 0 {
        Some(NumberFault::InvalidDigit)
    } else {
        digits_fault(without_plus(s), max)
    }
}

/// The pane that a value names: an id and a process, with a colon between.
pub open spec fn pane_of(value: Seq<char>) -> Result<PanePidView, PaneArgFault> {
    let colon = until(value, ':');
    if colon >= value.len() {
        Err(PaneArgFault::InvalidPane(value))
    } else {
        let number = value.skip(colon + 1);
        match number_fault(number, u32::MAX as nat) {
            Some(fault) => Err(PaneArgFault::InvalidPid(fault)),
            None => Ok(
                PanePidView {
                    id: value.take(colon),
                    pid: digits_value(without_plus(number)) as u32,
                },
            ),
        }
    }
}

/// The panes that some arguments name, each with `--pane` before it, or what is
/// wrong with the first bad one.
pub open spec fn panes_of(args: Seq<Seq<char>>) -> Result<Seq<PanePidView>, PaneArgFault>
    decreases args.len(),
{
    if args.len() == 0 {
        Ok(Seq::empty())
    } else if args[0] != "--pane"@ {
        Err(PaneArgFault::Unexpected(args[0]))
    } else if args.len() == 1 {
        Err(PaneArgFault::MissingValue)
    } else {
        match pane_of(args[1]) {
            Err(fault) => Err(fault),
            Ok(pane) => match panes_of(args.skip(2)) {
                Err(fault) => Err(fault),
                Ok(panes) => Ok(seq![pane] + panes),
            },
        }
    }
}

/// What is said of a fault in a number.
pub open spec fn number_message(fault: NumberFault) -> Seq<char> {
    match fault {
        NumberFault::Empty => "cannot parse integer from empty string"@,
        NumberFault::InvalidDigit => "invalid digit found in string"@,
        NumberFault::TooLarge => "number too large to fit in target type"@,
    }
}

/// What is said of a fault in an argument.
pub open spec fn fault_message(fault: PaneArgFault) -> Seq<char> {
    match fault {
        PaneArgFault::Unexpected(arg) => "unexpected arg: "@ + arg,
        PaneArgFault::MissingValue => "missing value after --pane"@,
        PaneArgFault::InvalidPane(value) => "invalid pane value: "@ + value,
        PaneArgFault::InvalidPid(fault) => number_message(fault),
    }
}

// ---------------------------------------------------------------------------
// Operations
// ---------------------------------------------------------------------------
proof fn lemma_no_fault(digits: Seq<char>, max: nat)
    ensures
        digits_fault(digits, max) is None <==> {
            &&& forall|i: int| 0 <= i < digits.len() ==> is_digit(#[trigger] digits[i])
            &&& digits_value(digits) <= max
        },
    decreases digits.len(),
{
    if digits.len() > 0 {
        let front = digits.drop_last();
        lemma_no_fault(front, max);
        if forall|i: int| 0 <= i < digits.len() ==> is_digit(#[trigger] digits[i]) {
            assert forall|i: int| 0 <= i < front.len() implies is_digit(#[trigger] front[i]) by {
                assert(front[i] == digits[i]);
            }
            assert(is_digit(digits[digits.len() - 1]));
        }
        if digits_fault(digits, max) is None {
            assert forall|i: int| 0 <= i < digits.len() implies is_digit(#[trigger] digits[i]) by {
                if i < front.len() {
                    assert(front[i] == digits[i]);
                }
            }
        }
    }
}

/// A text is the text of a number exactly where nothing is wrong with it.
pub proof fn law_fault_or_number(s: Seq<char>, max: nat)
    ensures
        number_fault(s, max) is None <==> unsigned_value(s, max) is Some,
        unsigned_value(s, max) is Some ==> unsigned_value(s, max) == Some(
            digits_value(without_plus(s)),
        ),
{
    lemma_no_fault(without_plus(s), max);
}

fn find_fault(chars: &Vec<char>, from: usize, max: u32) -> (fault: Option<NumberFault>)
    requires
        from <= chars@.len(),
    ensures
        fault == digits_fault(chars@.skip(from as int), max as nat),
{
    let ghost digits = chars@.skip(from as int);
    let mut value: u64 = 0;
    let mut i: usize = from;
    let len = chars.len();
    while i < len
        invariant
            from <= i <= len == chars@.len(),
            digits == chars@.skip(from as int),
            value <= max,
            value == digits_value(digits.take(i - from)),
            digits_fault(digits.take(i - from), max as nat) is None,
        decreases len - i,
    {
        let ch = chars[i];
        proof {
            assert(digits.take(i + 1 - from).drop_last() =~= digits.take(i - from));
            assert(digits.take(i + 1 - from).last() == ch);
        }
        if !('0' <= ch && ch <= '9') {
            proof {
                lemma_fault_stays(digits, i + 1 - from, max as nat);
            }
            return Some(NumberFault::InvalidDigit);
        }
        value = value * 10 + (ch as u64 - 48);
        if value > max as u64 {
            proof {
                lemma_fault_stays(digits, i + 1 - from, max as nat);
            }
            return Some(NumberFault::TooLarge);
        }
        i += 1;
    }
    proof {
        assert(digits.take(i - from) =~= digits);
    }
    None
}

proof fn lemma_fault_stays(digits: Seq<char>, n: int, max: nat)
    requires
        0 <= n <= digits.len(),
        digits_fault(digits.take(n), max) is Some,
    ensures
        digits_fault(digits, max) == digits_fault(digits.take(n), max),
    decreases digits.len() - n,
{
    if n < digits.len() {
        assert(digits.take(n + 1).drop_last() =~= digits.take(n));
        lemma_fault_stays(digits, n + 1, max);
    } else {
        assert(digits.take(n) =~= digits);
    }
}

fn parse_pid(text: &str) -> (pid: Result<u32, NumberFault>)
    ensures
        match pid {
            Ok(pid) => number_fault(text@, u32::MAX as nat) is None && pid == digits_value(
                without_plus(text@),
            ),
            Err(fault) => number_fault(text@, u32::MAX as nat) == Some(fault),
        },
{
    proof {
        law_fault_or_number(text@, u32::MAX as nat);
    }
    match parse_unsigned(text, u32::MAX as u64) {
        Some(number) => Ok(number as u32),
        None => {
            let chars = chars_of(text);
            if chars.len() == 0 {
                return Err(NumberFault::Empty);
            }
            let from: usize = if chars[0] == '+' {
                1
            } else {
                0
            };
            proof {
                assert(chars@.skip(from as int) =~= without_plus(text@));
            }
            if from == chars.len() {
                return Err(NumberFault::InvalidDigit);
            }
            match find_fault(&chars, from, u32::MAX) {
                Some(fault) => Err(fault),
                None => Err(NumberFault::InvalidDigit),
            }
        },
    }
}

/// The pane that a value names.
pub fn parse_pane(value: &str) -> (parsed: Result<PanePid, PaneArgError>)
    ensures
        match parsed {
            Ok(pane) => pane_of(value@) == Ok::<_, PaneArgFault>(pane@),
            Err(error) => pane_of(value@) == Err::<PanePidView, _>(error@),
        },
{
    let chars = chars_of(value);
    let colon = find_from(&chars, 0, ':');
    proof {
        lemma_until_is(value@, ':', colon as int);
    }
    if colon == chars.len() {
        return Err(PaneArgError::InvalidPane(value.to_owned()));
    }
    let id = text_between(&chars, 0, colon);
    let number = text_between(&chars, colon + 1, chars.len());
    proof {
        assert(id@ =~= value@.take(colon as int));
        assert(number@ =~= value@.skip(colon + 1));
    }
    match parse_pid(number.as_str()) {
        Ok(pid) => Ok(PanePid { id, pid }),
        Err(fault) => Err(PaneArgError::InvalidPid(fault)),
    }
}

proof fn lemma_panes_join(args: Seq<Seq<char>>, done: int, panes: Seq<PanePidView>)
    requires
        0 <= done <= args.len(),
        done % 2 == 0,
        reads_so_far(args, done, panes),
    ensures
        match panes_of(args.skip(done)) {
            Ok(rest) => panes_of(args) == Ok::<_, PaneArgFault>(panes + rest),
            Err(fault) => panes_of(args) == Err::<Seq<PanePidView>, _>(fault),
        },
    decreases done,
{
    if done == 0 {
        assert(args.skip(0) =~= args);
        match panes_of(args) {
            Ok(rest) => {
                assert(panes + rest =~= rest);
            },
            Err(_) => {},
        }
    } else {
        let last = panes.len() - 1;
        let front = panes.drop_last();
        assert(reads_so_far(args, done - 2, front)) by {
            assert forall|i: int| 0 <= i < front.len() implies args[2 * i] == "--pane"@ && pane_of(
                #[trigger] args[2 * i + 1],
            ) == Ok::<_, PaneArgFault>(front[i]) by {
                assert(front[i] == panes[i]);
            }
        }
        lemma_panes_join(args, done - 2, front);
        let rest = args.skip(done - 2);
        assert(rest[0] == args[2 * last]);
        assert(rest[1] == args[2 * last + 1]);
        assert(rest.skip(2) =~= args.skip(done));
        match panes_of(args.skip(done)) {
            Ok(tail) => {
                assert(front + (seq![panes[last]] + tail) =~= panes + tail);
            },
            Err(_) => {},
        }
    }
}

/// Whether the first `done` arguments name some panes.
spec fn reads_so_far(args: Seq<Seq<char>>, done: int, panes: Seq<PanePidView>) -> bool {
    &&& done == 2 * panes.len()
    &&& done <= args.len()
    &&& forall|i: int|
        0 <= i < panes.len() ==> args[2 * i] == "--pane"@ && pane_of(#[trigger] args[2 * i + 1])
            == Ok::<_, PaneArgFault>(panes[i])
}

/// The panes that some arguments name.
pub fn parse_panes(args: &Vec<String>) -> (parsed: Result<Vec<PanePid>, PaneArgError>)
    ensures
        match parsed {
            Ok(panes) => panes_of(texts(args@)) == Ok::<_, PaneArgFault>(pane_pid_views(panes@)),
            Err(error) => panes_of(texts(args@)) == Err::<Seq<PanePidView>, _>(error@),
        },
{
    let ghost all = texts(args@);
    let mut panes: Vec<PanePid> = Vec::new();
    let mut i: usize = 0;
    let len = args.len();
    while i < len
        invariant
            i <= len == args@.len(),
            i % 2 == 0,
            all == texts(args@),
            reads_so_far(all, i as int, pane_pid_views(panes@)),
        decreases len - i,
    {
        let ghost before = pane_pid_views(panes@);
        proof {
            lemma_panes_join(all, i as int, before);
            assert(all.skip(i as int)[0] == args@[i as int]@);
        }
        if !same_text(args[i].as_str(), "--pane") {
            return Err(PaneArgError::Unexpected(args[i].clone()));
        }
        if i + 1 == len {
            return Err(PaneArgError::MissingValue);
        }
        proof {
            assert(all.skip(i as int)[1] == args@[i + 1]@);
        }
        match parse_pane(args[i + 1].as_str()) {
            Ok(pane) => {
                panes.push(pane);
                proof {
                    let after = pane_pid_views(panes@);
                    assert(after =~= before.push(pane@));
                    assert forall|j: int| 0 <= j < after.len() implies all[2 * j] == "--pane"@
                        && pane_of(#[trigger] all[2 * j + 1]) == Ok::<_, PaneArgFault>(after[j]) by {
                        if j < before.len() {
                            assert(after[j] == before[j]);
                        } else {
                            assert(2 * j == i);
                        }
                    }
                }
            },
            Err(error) => {
                return Err(error);
            },
        }
        i += 2;
    }
    proof {
        lemma_panes_join(all, i as int, pane_pid_views(panes@));
        assert(all.skip(i as int).len() == 0);
        assert(pane_pid_views(panes@) + Seq::<PanePidView>::empty() =~= pane_pid_views(panes@));
    }
    Ok(panes)
}

impl PaneArgError {
    /// What is said of the error.
    pub fn message(&self) -> (message: String)
        ensures
            message@ == fault_message(self@),
    {
        match self {
            PaneArgError::Unexpected(arg) => concat2("unexpected arg: ", arg.as_str()),
            PaneArgError::MissingValue => "missing value after --pane".to_owned(),
            PaneArgError::InvalidPane(value) => concat2("invalid pane value: ", value.as_str()),
            PaneArgError::InvalidPid(fault) => match fault {
                NumberFault::Empty => "cannot parse integer from empty string".to_owned(),
                NumberFault::InvalidDigit => "invalid digit found in string".to_owned(),
                NumberFault::TooLarge => "number too large to fit in target type".to_owned(),
            },
        }
    }
}

// ---------------------------------------------------------------------------
// Laws
// ---------------------------------------------------------------------------
/// Arguments that are accepted come in pairs, one pair for each pane.
pub proof fn law_panes_come_in_pairs(args: Seq<Seq<char>>)
    ensures
        panes_of(args) matches Ok(panes) ==> args.len() == 2 * panes.len(),
    decreases args.len(),
{
    if args.len() > 1 {
        law_panes_come_in_pairs(args.skip(2));
    }
}

/// A pane that is written out as an argument reads back as that pane.
pub proof fn law_pane_reads_back(id: Seq<char>, pid: u32)
    requires
        forall|i: int| 0 <= i < id.len() ==> id[i] != ':',
    ensures
        pane_of(id + seq![':'] + decimal(pid as nat)) == Ok::<_, PaneArgFault>(
            PanePidView { id, pid },
        ),
{
    let value = id + seq![':'] + decimal(pid as nat);
    assert forall|i: int| 0 <= i < id.len() implies value[i] != ':' by {
        assert(value[i] == id[i]);
    }
    assert(value[id.len() as int] == ':');
    lemma_until_is(value, ':', id.len() as int);
    assert(value.take(id.len() as int) =~= id);
    assert(value.skip(id.len() + 1int) =~= decimal(pid as nat));
    law_decimal_reads_back(pid as nat, u32::MAX as nat);
    law_fault_or_number(decimal(pid as nat), u32::MAX as nat);
}

/// The first thing wrong with some digits is the first character that is no digit, or
/// the first digit with which the number is too large, whichever comes first.
pub proof fn law_first_fault(digits: Seq<char>, n: int, max: nat)
    requires
        0 <= n < digits.len(),
        forall|i: int| 0 <= i < n ==> is_digit(#[trigger] digits[i]),
        digits_value(digits.take(n)) <= max,
    ensures
        !('0' <= digits[n] && digits[n] <= '9') ==> digits_fault(digits, max) == Some(
            NumberFault::InvalidDigit,
        ),
        '0' <= digits[n] && digits[n] <= '9' && 10 * digits_value(digits.take(n)) + (digits[n]
            as int - '0' as int) > max ==> digits_fault(digits, max) == Some(NumberFault::TooLarge),
{
    let front = digits.take(n);
    assert forall|i: int| 0 <= i < front.len() implies is_digit(#[trigger] front[i]) by {
        assert(front[i] == digits[i]);
    }
    lemma_no_fault(front, max);
    assert(digits.take(n + 1).drop_last() =~= front);
    assert(digits.take(n + 1).last() == digits[n]);
    if digits_fault(digits.take(n + 1), max) is Some {
        lemma_fault_stays(digits, n + 1, max);
    }
}

/// Nothing is wrong with the notation of a number up to the limit, with or without a
/// plus sign; the empty text is empty, and a plus sign alone is no digit.
pub proof fn law_faults_of_numbers(value: nat, max: nat)
    ensures
        number_fault(Seq::empty(), max) == Some(NumberFault::Empty),
        number_fault(seq!['+'], max) == Some(NumberFault::InvalidDigit),
        value <= max ==> number_fault(decimal(value), max) is None,
        value <= max ==> number_fault(seq!['+'] + decimal(value), max) is None,
        value > max ==> number_fault(decimal(value), max) is Some,
{
    law_numbers_are_read(value, max, seq!['+'], 0);
    law_fault_or_number(decimal(value), max);
    law_fault_or_number(seq!['+'] + decimal(value), max);
    assert(seq!['+'].drop_first() =~= Seq::<char>::empty());
}

/// The id of a pane is what stands before the first colon, and the process what stands
/// behind it. A value without a colon names no pane, and one with a bad number tells
/// what is wrong with it.
pub proof fn law_panes_of_values(id: Seq<char>, number: Seq<char>)
    requires
        forall|i: int| 0 <= i < id.len() ==> id[i] != ':',
    ensures
        pane_of(id) == Err::<PanePidView, _>(PaneArgFault::InvalidPane(id)),
        match number_fault(number, u32::MAX as nat) {
            Some(fault) => pane_of(id + seq![':'] + number) == Err::<PanePidView, _>(
                PaneArgFault::InvalidPid(fault),
            ),
            None => pane_of(id + seq![':'] + number) is Ok && pane_of(
                id + seq![':'] + number,
            )->Ok_0.id == id && unsigned_value(number, u32::MAX as nat) == Some(
                pane_of(id + seq![':'] + number)->Ok_0.pid as nat,
            ),
        },
{
    let value = id + seq![':'] + number;
    assert forall|i: int| 0 <= i < id.len() implies value[i] != ':' by {
        assert(value[i] == id[i]);
    }
    assert(value[id.len() as int] == ':');
    lemma_until_is(value, ':', id.len() as int);
    lemma_until_is(id, ':', id.len() as int);
    assert(value.take(id.len() as int) =~= id);
    assert(value.skip(id.len() + 1int) =~= number);
    law_fault_or_number(number, u32::MAX as nat);
}

/// Arguments name the panes that their values name, in their order. The first bad
/// argument decides what is wrong: one that is not `--pane` where that is due, one with
/// nothing behind it, or a value that names no pane.
pub proof fn law_panes_of_arguments(args: Seq<Seq<char>>, panes: Seq<PanePidView>)
    requires
        2 * panes.len() <= args.len(),
        forall|i: int|
            0 <= i < panes.len() ==> args[2 * i] == "--pane"@ && pane_of(#[trigger] args[2 * i + 1])
                == Ok::<_, PaneArgFault>(panes[i]),
    ensures
        ({
            let done = 2 * panes.len() as int;
            &&& args.len() == done ==> panes_of(args) == Ok::<_, PaneArgFault>(panes)
            &&& done < args.len() && args[done] != "--pane"@ ==> panes_of(args) == Err::<
                Seq<PanePidView>,
                _,
            >(PaneArgFault::Unexpected(args[done]))
            &&& done + 1 == args.len() && args[done] == "--pane"@ ==> panes_of(args) == Err::<
                Seq<PanePidView>,
                _,
            >(PaneArgFault::MissingValue)
            &&& done + 1 < args.len() && args[done] == "--pane"@ && pane_of(args[done + 1]) is Err
                ==> panes_of(args) == Err::<Seq<PanePidView>, _>(pane_of(args[done + 1])->Err_0)
        }),
{
    let done = 2 * panes.len() as int;
    assert(reads_so_far(args, done, panes));
    lemma_panes_join(args, done, panes);
    let rest = args.skip(done);
    if done < args.len() {
        assert(rest[0] == args[done]);
    }
    if done + 1 < args.len() {
        assert(rest[1] == args[done + 1]);
    }
    if args.len() == done {
        assert(panes + Seq::<PanePidView>::empty() =~= panes);
    }
}

/// What is said of a fault names it and what it is about.
pub proof fn law_messages_of_faults(text: Seq<char>)
    ensures
        fault_message(PaneArgFault::Unexpected(text)) == "unexpected arg: "@ + text,
        fault_message(PaneArgFault::InvalidPane(text)) == "invalid pane value: "@ + text,
        fault_message(PaneArgFault::MissingValue) == "missing value after --pane"@,
        fault_message(PaneArgFault::InvalidPid(NumberFault::Empty))
            == "cannot parse integer from empty string"@,
        fault_message(PaneArgFault::InvalidPid(NumberFault::InvalidDigit))
            == "invalid digit found in string"@,
        fault_message(PaneArgFault::InvalidPid(NumberFault::TooLarge))
            == "number too large to fit in target type"@,
{
}

} // verus!
