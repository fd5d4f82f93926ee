//! Text as a sequence of characters: splitting, trimming, joining, ordering,
//! and unsigned numbers in decimal notation.

use vstd::prelude::*;

verus! {

/// `String::push` appends one character to the end of the text.
pub assume_specification[ String::push ](text: &mut String, ch: char)
    ensures
        final(text)@ == old(text)@.push(ch),
;

// ---------------------------------------------------------------------------
// Models
// ---------------------------------------------------------------------------
/// The contents of each text of a list.
pub open spec fn texts(list: Seq<String>) -> Seq<Seq<char>> {
    Seq::new(list.len(), |i: int| list[i]@)
}

/// The content of a text that may be absent.
pub open spec fn maybe_text(text: Option<String>) -> Option<Seq<char>> {
    match text {
        Some(text) => Some(text@),
        None => None,
    }
}

/// The characters of a borrowed text, where there is one.
pub open spec fn maybe_str(text: Option<&str>) -> Option<Seq<char>> {
    match text {
        Some(text) => Some(text@),
        None => None,
    }
}

/// Whether `s` begins with `prefix`.
pub open spec fn begins_with(s: Seq<char>, prefix: Seq<char>) -> bool {
    &&& prefix.len() <= s.len()
    &&& s.take(prefix.len() as int) == prefix
}

/// How many characters stand before the first `mark`; the whole length where
/// there is none.
pub open spec fn until(s: Seq<char>, mark: char) -> int
    decreases s.len(),
{
    if s.len() == 0 || s[0] == mark {
        0
    } else {
        1 + until(s.drop_first(), mark)
    }
}

/// The position of the last `mark`, or -1 where there is none.
pub open spec fn last_position(s: Seq<char>, mark: char) -> int
    decreases s.len(),
{
    if s.len() == 0 {
        -1
    } else if s.last() == mark {
        s.len() - 1
    } else {
        last_position(s.drop_last(), mark)
    }
}

/// A line without the carriage return that stood before its line feed.
pub open spec fn without_return(line: Seq<char>) -> Seq<char> {
    if line.len() > 0 && line.last() == '\r' {
        line.drop_last()
    } else {
        line
    }
}

/// The lines of a text. A line ends at a line feed, with or without a carriage
/// return before it; the last line needs no ending.
pub open spec fn lines(s: Seq<char>) -> Seq<Seq<char>>
    decreases s.len(),
    via lines_shrink
{
    if s.len() == 0 {
        Seq::empty()
    } else if until(s, '\n') >= s.len() {
        seq![s]
    } else {
        seq![without_return(s.take(until(s, '\n')))] + lines(s.skip(until(s, '\n') + 1))
    }
}

#[via_fn]
proof fn lines_shrink(s: Seq<char>) {
    lemma_until(s, '\n');
}

/// Whether a text holds no line feed.
pub open spec fn is_unbroken(s: Seq<char>) -> bool {
    forall|i: int| 0 <= i < s.len() ==> #[trigger] s[i] != '\n'
}

/// Whether none of some texts holds a line feed.
pub open spec fn are_unbroken(parts: Seq<Seq<char>>) -> bool {
    forall|i: int| 0 <= i < parts.len() ==> is_unbroken(#[trigger] parts[i])
}

/// Whether a text can be a line: it holds no line feed, and no carriage return
/// stands at its end.
pub open spec fn is_line(s: Seq<char>) -> bool {
    &&& is_unbroken(s)
    &&& s.len() > 0 ==> s.last() != '\r'
}

/// Whether a text holds no character that ends a line.
pub open spec fn is_one_line(s: Seq<char>) -> bool {
    forall|i: int| 0 <= i < s.len() ==> #[trigger] s[i] != '\n' && s[i] != '\r'
}

/// Whether Unicode gives the character the property `White_Space`.
pub open spec fn is_white(ch: char) -> bool {
    ||| '\u{9}' <= ch && ch <= '\u{d}'
    ||| ch == ' '
    ||| ch == '\u{85}'
    ||| ch == '\u{a0}'
    ||| ch == '\u{1680}'
    ||| '\u{2000}' <= ch && ch <= '\u{200a}'
    ||| ch == '\u{2028}'
    ||| ch == '\u{2029}'
    ||| ch == '\u{202f}'
    ||| ch == '\u{205f}'
    ||| ch == '\u{3000}'
}

/// `s` without the white space that it begins with.
pub open spec fn trim_start(s: Seq<char>) -> Seq<char>
    decreases s.len(),
{
    if s.len() > 0 && is_white(s[0]) {
        trim_start(s.drop_first())
    } else {
        s
    }
}

/// `s` without the white space that it ends with.
pub open spec fn trim_end(s: Seq<char>) -> Seq<char>
    decreases s.len(),
{
    if s.len() > 0 && is_white(s.last()) {
        trim_end(s.drop_last())
    } else {
        s
    }
}

/// `s` without white space on either side.
pub open spec fn trim(s: Seq<char>) -> Seq<char> {
    trim_end(trim_start(s))
}

/// At most the first `count` characters of `s`.
pub open spec fn at_most(s: Seq<char>, count: nat) -> Seq<char> {
    if s.len() <= count {
        s
    } else {
        s.take(count as int)
    }
}

/// The parts with `separator` between each two of them.
pub open spec fn join(parts: Seq<Seq<char>>, separator: Seq<char>) -> Seq<char>
    decreases parts.len(),
{
    if parts.len() == 0 {
        Seq::empty()
    } else if parts.len() == 1 {
        parts[0]
    } else {
        join(parts.drop_last(), separator) + separator + parts.last()
    }
}

/// `count` copies of one character.
pub open spec fn repeated(ch: char, count: nat) -> Seq<char> {
    Seq::new(count, |i: int| ch)
}

/// The decimal digit for a number below ten.
pub open spec fn digit(value: nat) -> char {
    (48 + value) as char
}

/// A number in decimal notation, without leading zeros.
pub open spec fn decimal(value: nat) -> Seq<char>
    decreases value,
{
    if value < 10 {
        seq![digit(value)]
    } else {
        decimal(value / 10).push(digit(value % 10))
    }
}

/// Whether the character is a decimal digit.
pub open spec fn is_digit(ch: char) -> bool {
    '0' <= ch && ch <= '9'
}

/// The number that a sequence of digits writes.
pub open spec fn digits_value(s: Seq<char>) -> nat
    decreases s.len(),
{
    if s.len() == 0 {
        0
    } else {
        (digits_value(s.drop_last()) * 10 + (s.last() as int - 48)) as nat
    }
}

/// The digits of a number that may carry a plus sign.
pub open spec fn without_plus(s: Seq<char>) -> Seq<char> {
    if s.len() > 0 && s[0] == '+' {
        s.drop_first()
    } else {
        s
    }
}

/// The number that `s` writes: one or more digits, with or without a plus sign
/// before them, and not more than `max`.
pub open spec fn unsigned_value(s: Seq<char>, max: nat) -> Option<nat> {
    let digits = without_plus(s);
    if digits.len() > 0 && (forall|i: int| 0 <= i < digits.len() ==> is_digit(#[trigger] digits[i]))
        && digits_value(digits) <= max {
        Some(digits_value(digits))
    } else {
        None
    }
}

/// The order of texts: by the first character in which they differ, and a text
/// before every longer one that begins with it.
pub open spec fn text_before(a: Seq<char>, b: Seq<char>) -> bool
    decreases a.len(),
{
    if b.len() == 0 {
        false
    } else if a.len() == 0 {
        true
    } else if a[0] != b[0] {
        a[0] < b[0]
    } else {
        text_before(a.drop_first(), b.drop_first())
    }
}

// ---------------------------------------------------------------------------
// Facts
// ---------------------------------------------------------------------------
/// `until` points at the first mark.
pub proof fn lemma_until(s: Seq<char>, mark: char)
    ensures
        0 <= until(s, mark) <= s.len(),
        forall|i: int| 0 <= i < until(s, mark) ==> s[i] != mark,
        until(s, mark) < s.len() ==> s[until(s, mark)] == mark,
    decreases s.len(),
{
    if s.len() > 0 && s[0] != mark {
        lemma_until(s.drop_first(), mark);
        assert forall|i: int| 0 <= i < until(s, mark) implies s[i] != mark by {
            if i > 0 {
                assert(s[i] == s.drop_first()[i - 1]);
            }
        }
    }
}

/// Only the position of the first mark is what `until` says.
pub proof fn lemma_until_is(s: Seq<char>, mark: char, n: int)
    requires
        0 <= n <= s.len(),
        forall|i: int| 0 <= i < n ==> s[i] != mark,
        n < s.len() ==> s[n] == mark,
    ensures
        until(s, mark) == n,
{
    lemma_until(s, mark);
    let m = until(s, mark);
    if m < n {
        assert(s[m] != mark);
    } else if n < m {
        assert(s[n] != mark);
    }
}

/// A text without a line feed, with one behind it, is the first line of what
/// follows.
pub proof fn lemma_first_line(line: Seq<char>, rest: Seq<char>)
    requires
        is_unbroken(line),
    ensures
        lines(line.push('\n') + rest) == seq![without_return(line)] + lines(rest),
        is_line(line) ==> without_return(line) == line,
{
    let whole = line.push('\n') + rest;
    assert forall|i: int| 0 <= i < line.len() implies whole[i] != '\n' by {
        assert(whole[i] == line[i]);
    }
    lemma_until_is(whole, '\n', line.len() as int);
    assert(whole.take(line.len() as int) =~= line);
    assert(whole.skip(line.len() as int + 1) =~= rest);
}

/// The lines of a text that ends with a line come before the lines of what follows
/// it.
pub proof fn law_lines_of_joined_texts(a: Seq<char>, b: Seq<char>)
    requires
        a.len() > 0 ==> a.last() == '\n',
    ensures
        lines(a + b) == lines(a) + lines(b),
    decreases a.len(),
{
    if a.len() == 0 {
        assert(a + b =~= b);
        assert(lines(a) + lines(b) =~= lines(b));
    } else {
        let whole = a + b;
        let n = until(a, '\n');
        lemma_until(a, '\n');
        if n == a.len() {
            assert(a[a.len() - 1] != '\n');
        }
        assert forall|i: int| 0 <= i < n implies whole[i] != '\n' by {
            assert(whole[i] == a[i]);
        }
        lemma_until_is(whole, '\n', n);
        let rest = a.skip(n + 1);
        assert(whole.take(n) =~= a.take(n));
        assert(whole.skip(n + 1) =~= rest + b);
        if rest.len() > 0 {
            assert(rest.last() == a.last());
        }
        law_lines_of_joined_texts(rest, b);
        let first = seq![without_return(a.take(n))];
        assert(first + (lines(rest) + lines(b)) =~= (first + lines(rest)) + lines(b));
    }
}

proof fn lemma_digits_grow(s: Seq<char>, n: int)
    requires
        0 <= n <= s.len(),
        forall|i: int| 0 <= i < s.len() ==> is_digit(#[trigger] s[i]),
    ensures
        digits_value(s.take(n)) <= digits_value(s),
    decreases s.len() - n,
{
    if n == s.len() {
        assert(s.take(n) =~= s);
    } else {
        lemma_digits_grow(s, n + 1);
        assert(s.take(n + 1).drop_last() =~= s.take(n));
        assert(is_digit(s[n]));
    }
}

/// Reading back the decimal notation of a number gives the number.
pub proof fn law_decimal_reads_back(value: nat, max: nat)
    requires
        value <= max,
    ensures
        unsigned_value(decimal(value), max) == Some(value),
{
    lemma_decimal(value);
    assert(decimal(value)[0] != '+');
}

/// The decimal notation of a number consists of digits that stand for it.
pub proof fn lemma_decimal(value: nat)
    ensures
        decimal(value).len() > 0,
        forall|i: int| 0 <= i < decimal(value).len() ==> is_digit(#[trigger] decimal(value)[i]),
        digits_value(decimal(value)) == value,
    decreases value,
{
    if value < 10 {
        assert(decimal(value).drop_last() =~= Seq::<char>::empty());
        assert(digits_value(decimal(value).drop_last()) == 0);
        assert(decimal(value).last() == digit(value));
    } else {
        lemma_decimal(value / 10);
        assert(decimal(value).drop_last() =~= decimal(value / 10));
        assert(decimal(value).last() == digit(value % 10));
        assert forall|i: int| 0 <= i < decimal(value).len() implies is_digit(
            #[trigger] decimal(value)[i],
        ) by {
            if i < decimal(value).len() - 1 {
                assert(decimal(value)[i] == decimal(value / 10)[i]);
            }
        }
    }
}

/// Two numbers with the same decimal notation are the same.
pub proof fn law_decimal_is_injective(a: nat, b: nat)
    requires
        decimal(a) == decimal(b),
    ensures
        a == b,
{
    lemma_decimal(a);
    lemma_decimal(b);
}

/// No text stands before itself.
pub proof fn law_text_order_irreflexive(a: Seq<char>)
    ensures
        !text_before(a, a),
    decreases a.len(),
{
    if a.len() > 0 {
        law_text_order_irreflexive(a.drop_first());
    }
}

/// What stands before a text stands before all that it stands before.
pub proof fn law_text_order_transitive(a: Seq<char>, b: Seq<char>, c: Seq<char>)
    requires
        text_before(a, b),
        text_before(b, c),
    ensures
        text_before(a, c),
    decreases a.len(),
{
    if a.len() > 0 && b.len() > 0 && c.len() > 0 && a[0] == b[0] && b[0] == c[0] {
        law_text_order_transitive(a.drop_first(), b.drop_first(), c.drop_first());
    }
}

/// Of two different texts, one stands before the other.
pub proof fn law_text_order_total(a: Seq<char>, b: Seq<char>)
    ensures
        a == b || text_before(a, b) || text_before(b, a),
    decreases a.len(),
{
    if a.len() == 0 && b.len() == 0 {
        assert(a =~= b);
    } else if a.len() > 0 && b.len() > 0 && a[0] == b[0] {
        law_text_order_total(a.drop_first(), b.drop_first());
        if a.drop_first() == b.drop_first() {
            assert(a =~= seq![a[0]] + a.drop_first());
            assert(b =~= seq![b[0]] + b.drop_first());
        }
    }
}

// ---------------------------------------------------------------------------
// Operations
// ---------------------------------------------------------------------------
/// The characters of a text, in order.
pub fn chars_of(text: &str) -> (chars: Vec<char>)
    ensures
        chars@ == text@,
{
    let mut chars: Vec<char> = Vec::new();
    for ch in it: text.chars()
        invariant
            it.seq() == text@,
            chars@ == it.seq().take(it.index()),
    {
        chars.push(ch);
    }
    chars
}

/// The text made of the characters from `from` up to `to`.
pub fn text_between(chars: &Vec<char>, from: usize, to: usize) -> (text: String)
    requires
        from <= to <= chars@.len(),
    ensures
        text@ == chars@.subrange(from as int, to as int),
{
    let mut text = String::new();
    let mut i: usize = from;
    while i < to
        invariant
            from <= i <= to <= chars@.len(),
            text@ == chars@.subrange(from as int, i as int),
        decreases to - i,
    {
        text.push(chars[i]);
        i += 1;
    }
    text
}

/// A text once more, where there is one.
pub fn copy_text(text: &Option<String>) -> (copy: Option<String>)
    ensures
        maybe_text(copy) == maybe_text(*text),
{
    match text {
        Some(text) => Some(text.clone()),
        None => None,
    }
}

/// Whether two texts hold the same characters.
pub fn same_text(left: &str, right: &str) -> (same: bool)
    ensures
        same == (left@ == right@),
{
    let mut ls = left.chars();
    let mut rs = right.chars();
    let ghost mut n: int = 0;
    loop
        invariant
            0 <= n <= left@.len(),
            n <= right@.len(),
            left@.take(n) == right@.take(n),
            vstd::std_specs::iter::IteratorSpec::remaining(&ls) == left@.skip(n),
            vstd::std_specs::iter::IteratorSpec::remaining(&rs) == right@.skip(n),
        decreases left@.len() - n,
    {
        let l = ls.next();
        let r = rs.next();
        match (l, r) {
            (Some(a), Some(b)) => {
                if a != b {
                    assert(left@[n] != right@[n]);
                    return false;
                }
                proof {
                    assert(left@.take(n + 1) =~= left@.take(n).push(left@[n]));
                    assert(right@.take(n + 1) =~= right@.take(n).push(right@[n]));
                    assert(left@.skip(n + 1) =~= left@.skip(n).drop_first());
                    assert(right@.skip(n + 1) =~= right@.skip(n).drop_first());
                    n = n + 1;
                }
            },
            (None, None) => {
                assert(left@.take(n) =~= left@);
                assert(right@.take(n) =~= right@);
                return true;
            },
            _ => {
                return false;
            },
        }
    }
}

/// Whether a text that may be absent is there and holds `expected`.
pub fn is_text(text: Option<&str>, expected: &str) -> (is: bool)
    ensures
        is == (text matches Some(content) && content@ == expected@),
{
    match text {
        Some(content) => same_text(content, expected),
        None => false,
    }
}

/// Whether a text begins with another.
pub fn starts_with(text: &str, prefix: &str) -> (starts: bool)
    ensures
        starts == begins_with(text@, prefix@),
{
    let mut ts = text.chars();
    let mut ps = prefix.chars();
    let ghost mut n: int = 0;
    loop
        invariant
            0 <= n <= text@.len(),
            n <= prefix@.len(),
            text@.take(n) == prefix@.take(n),
            vstd::std_specs::iter::IteratorSpec::remaining(&ts) == text@.skip(n),
            vstd::std_specs::iter::IteratorSpec::remaining(&ps) == prefix@.skip(n),
        decreases prefix@.len() - n,
    {
        let p = ps.next();
        let t = ts.next();
        match (p, t) {
            (None, _) => {
                assert(prefix@.take(n) =~= prefix@);
                return true;
            },
            (Some(_), None) => {
                return false;
            },
            (Some(a), Some(b)) => {
                if a != b {
                    proof {
                        if prefix@.len() <= text@.len() {
                            assert(text@.take(prefix@.len() as int)[n] == b);
                        }
                    }
                    return false;
                }
                proof {
                    assert(text@.take(n + 1) =~= text@.take(n).push(text@[n]));
                    assert(prefix@.take(n + 1) =~= prefix@.take(n).push(prefix@[n]));
                    assert(text@.skip(n + 1) =~= text@.skip(n).drop_first());
                    assert(prefix@.skip(n + 1) =~= prefix@.skip(n).drop_first());
                    n = n + 1;
                }
            },
        }
    }
}

/// The position of the first `mark` at or after `from`; the end where there is
/// none.
pub fn find_from(chars: &Vec<char>, from: usize, mark: char) -> (at: usize)
    requires
        from <= chars@.len(),
    ensures
        from <= at <= chars@.len(),
        at - from == until(chars@.skip(from as int), mark),
        at < chars@.len() ==> chars@[at as int] == mark,
        forall|i: int| from <= i < at ==> chars@[i] != mark,
{
    let mut at: usize = from;
    while at < chars.len() && chars[at] != mark
        invariant
            from <= at <= chars@.len(),
            forall|i: int| from <= i < at ==> chars@[i] != mark,
        decreases chars@.len() - at,
    {
        at += 1;
    }
    proof {
        lemma_until_is(chars@.skip(from as int), mark, at - from);
    }
    at
}

/// The lines of a text.
pub fn lines_of(text: &str) -> (found: Vec<String>)
    ensures
        texts(found@) == lines(text@),
{
    let chars = chars_of(text);
    let mut found: Vec<String> = Vec::new();
    let mut start: usize = 0;
    proof {
        assert(chars@.skip(0) =~= chars@);
        assert(texts(found@) + lines(chars@) =~= lines(chars@));
    }
    while start < chars.len()
        invariant
            start <= chars@.len(),
            texts(found@) + lines(chars@.skip(start as int)) == lines(chars@),
        decreases chars@.len() - start,
    {
        let end = find_from(&chars, start, '\n');
        let ghost rest = chars@.skip(start as int);
        let ghost before = texts(found@);
        if end == chars.len() {
            found.push(text_between(&chars, start, end));
            proof {
                assert(texts(found@) =~= before.push(rest));
                assert(lines(rest) =~= seq![rest]);
                assert(lines(chars@.skip(end as int)) =~= Seq::<Seq<char>>::empty());
                assert(texts(found@) + lines(chars@.skip(end as int)) =~= before + lines(rest));
            }
            start = end;
        } else {
            let stop = if end > start && chars[end - 1] == '\r' {
                end - 1
            } else {
                end
            };
            found.push(text_between(&chars, start, stop));
            proof {
                assert(rest.take(end - start) =~= chars@.subrange(start as int, end as int));
                assert(without_return(rest.take(end - start)) =~= chars@.subrange(
                    start as int,
                    stop as int,
                ));
                assert(rest.skip(end - start + 1) =~= chars@.skip(end + 1));
                assert(texts(found@) =~= before.push(without_return(rest.take(end - start))));
                assert(texts(found@) + lines(chars@.skip(end + 1)) =~= before + lines(rest));
            }
            start = end + 1;
        }
    }
    proof {
        assert(lines(chars@.skip(start as int)) =~= Seq::<Seq<char>>::empty());
    }
    found
}

/// Whether the character is white space.
pub fn is_white_char(ch: char) -> (white: bool)
    ensures
        white == is_white(ch),
{
    ('\u{9}' <= ch && ch <= '\u{d}') || ch == ' ' || ch == '\u{85}' || ch == '\u{a0}' || ch
        == '\u{1680}' || ('\u{2000}' <= ch && ch <= '\u{200a}') || ch == '\u{2028}' || ch == '\u{2029}'
        || ch == '\u{202f}' || ch == '\u{205f}' || ch == '\u{3000}'
}

proof fn lemma_trim_end(s: Seq<char>, n: int)
    requires
        0 <= n <= s.len(),
        forall|i: int| n <= i < s.len() ==> is_white(#[trigger] s[i]),
        n > 0 ==> !is_white(s[n - 1]),
    ensures
        trim_end(s) == s.take(n),
    decreases s.len(),
{
    if n == s.len() {
        assert(s.take(n) =~= s);
    } else {
        assert(is_white(s[s.len() - 1]));
        lemma_trim_end(s.drop_last(), n);
        assert(s.drop_last().take(n) =~= s.take(n));
    }
}

proof fn lemma_trim_start(s: Seq<char>, n: int)
    requires
        0 <= n <= s.len(),
        forall|i: int| 0 <= i < n ==> is_white(#[trigger] s[i]),
        n < s.len() ==> !is_white(s[n]),
    ensures
        trim_start(s) == s.skip(n),
    decreases s.len(),
{
    if n == 0 {
        assert(s.skip(n) =~= s);
    } else {
        assert(is_white(s[0]));
        lemma_trim_start(s.drop_first(), n - 1);
        assert(s.drop_first().skip(n - 1) =~= s.skip(n));
    }
}

/// The text without the white space that it ends with.
pub fn trimmed_end(text: &str) -> (trimmed: String)
    ensures
        trimmed@ == trim_end(text@),
{
    let chars = chars_of(text);
    let mut to: usize = chars.len();
    while to > 0 && is_white_char(chars[to - 1])
        invariant
            to <= chars@.len(),
            forall|i: int| to <= i < chars@.len() ==> is_white(#[trigger] chars@[i]),
        decreases to,
    {
        to -= 1;
    }
    proof {
        lemma_trim_end(chars@, to as int);
        assert(chars@.subrange(0, to as int) =~= chars@.take(to as int));
    }
    text_between(&chars, 0, to)
}

/// The text without white space on either side.
pub fn trimmed(text: &str) -> (trimmed: String)
    ensures
        trimmed@ == trim(text@),
{
    let chars = chars_of(text);
    let mut from: usize = 0;
    while from < chars.len() && is_white_char(chars[from])
        invariant
            from <= chars@.len(),
            forall|i: int| 0 <= i < from ==> is_white(#[trigger] chars@[i]),
        decreases chars@.len() - from,
    {
        from += 1;
    }
    let mut to: usize = chars.len();
    while to > from && is_white_char(chars[to - 1])
        invariant
            from <= to <= chars@.len(),
            forall|i: int| to <= i < chars@.len() ==> is_white(#[trigger] chars@[i]),
        decreases to,
    {
        to -= 1;
    }
    proof {
        let rest = chars@.skip(from as int);
        lemma_trim_start(chars@, from as int);
        assert forall|i: int| to - from <= i < rest.len() implies is_white(#[trigger] rest[i]) by {
            assert(is_white(chars@[i + from]));
        }
        lemma_trim_end(rest, to - from);
        assert(rest.take(to - from) =~= chars@.subrange(from as int, to as int));
    }
    text_between(&chars, from, to)
}

/// At most the first `count` characters of a text.
pub fn first_chars(text: &str, count: usize) -> (head: String)
    ensures
        head@ == at_most(text@, count as nat),
{
    let chars = chars_of(text);
    let to = if chars.len() <= count {
        chars.len()
    } else {
        count
    };
    proof {
        assert(chars@.subrange(0, to as int) =~= at_most(text@, count as nat));
    }
    text_between(&chars, 0, to)
}

/// The texts with `separator` between each two of them.
pub fn joined(parts: &Vec<String>, separator: &str) -> (whole: String)
    ensures
        whole@ == join(texts(parts@), separator@),
{
    let mut whole = String::new();
    let mut i: usize = 0;
    while i < parts.len()
        invariant
            i <= parts@.len(),
            whole@ == join(texts(parts@).take(i as int), separator@),
        decreases parts@.len() - i,
    {
        proof {
            assert(texts(parts@).take(i + 1).drop_last() =~= texts(parts@).take(i as int));
        }
        if i > 0 {
            whole.append(separator);
        }
        whole.append(parts[i].as_str());
        i += 1;
    }
    proof {
        assert(texts(parts@).take(i as int) =~= texts(parts@));
    }
    whole
}

/// `count` copies of one character.
pub fn repeat_char(ch: char, count: usize) -> (text: String)
    ensures
        text@ == repeated(ch, count as nat),
{
    let mut text = String::new();
    let mut i: usize = 0;
    while i < count
        invariant
            i <= count,
            text@ == repeated(ch, i as nat),
        decreases count - i,
    {
        text.push(ch);
        i += 1;
        assert(text@ =~= repeated(ch, i as nat));
    }
    text
}

/// One text after another.
pub fn concat2(first: &str, second: &str) -> (whole: String)
    ensures
        whole@ == first@ + second@,
{
    let mut whole = String::new();
    whole.append(first);
    whole.append(second);
    assert(whole@ =~= first@ + second@);
    whole
}

fn push_decimal(text: &mut String, value: u64)
    ensures
        final(text)@ == old(text)@ + decimal(value as nat),
    decreases value,
{
    if value >= 10 {
        push_decimal(text, value / 10);
    }
    let ghost before = text@;
    text.push((48u8 + (value % 10) as u8) as char);
    proof {
        assert(text@ =~= old(text)@ + decimal(value as nat));
    }
}

/// A number in decimal notation.
pub fn decimal_text(value: u64) -> (text: String)
    ensures
        text@ == decimal(value as nat),
{
    let mut text = String::new();
    push_decimal(&mut text, value);
    assert(text@ =~= decimal(value as nat));
    text
}

/// Reads a number of at most `max` in decimal notation.
pub fn parse_unsigned(text: &str, max: u64) -> (value: Option<u64>)
    ensures
        match value {
            Some(number) => unsigned_value(text@, max as nat) == Some(number as nat),
            None => unsigned_value(text@, max as nat) is None,
        },
{
    let chars = chars_of(text);
    let from: usize = if chars.len() > 0 && chars[0] == '+' {
        1
    } else {
        0
    };
    let ghost digits = without_plus(text@);
    proof {
        assert(digits =~= chars@.skip(from as int));
    }
    if from == chars.len() {
        return None;
    }
    let mut value: u64 = 0;
    let mut i: usize = from;
    while i < chars.len()
        invariant
            from <= i <= chars@.len(),
            digits == chars@.skip(from as int),
            digits == without_plus(text@),
            forall|k: int| from <= k < i ==> is_digit(#[trigger] chars@[k]),
            value <= max,
            value == digits_value(digits.take(i - from)),
        decreases chars@.len() - i,
    {
        let ch = chars[i];
        if !('0' <= ch && ch <= '9') {
            assert(!is_digit(digits[i - from]));
            return None;
        }
        let worth: u64 = (ch as u32 - 48) as u64;
        proof {
            assert(digits.take(i - from + 1).drop_last() =~= digits.take(i - from));
            assert(digits.take(i - from + 1).last() == ch);
            assert(digits_value(digits.take(i - from + 1)) == value * 10 + worth);
        }
        if value > max / 10 || (value == max / 10 && worth > max % 10) {
            proof {
                assert(value * 10 + worth > max);
                if unsigned_value(text@, max as nat) is Some {
                    lemma_digits_grow(digits, i - from + 1);
                }
            }
            return None;
        }
        value = value * 10 + worth;
        i += 1;
    }
    proof {
        assert(digits.take(i - from) =~= digits);
        assert forall|k: int| 0 <= k < digits.len() implies is_digit(#[trigger] digits[k]) by {
            assert(is_digit(chars@[k + from]));
        }
    }
    Some(value)
}

/// Whether one text stands before another.
pub fn is_text_before(left: &str, right: &str) -> (before: bool)
    ensures
        before == text_before(left@, right@),
{
    let mut ls = left.chars();
    let mut rs = right.chars();
    let ghost mut a = left@;
    let ghost mut b = right@;
    loop
        invariant
            text_before(left@, right@) == text_before(a, b),
            vstd::std_specs::iter::IteratorSpec::remaining(&ls) == a,
            vstd::std_specs::iter::IteratorSpec::remaining(&rs) == b,
        decreases a.len(),
    {
        let l = ls.next();
        let r = rs.next();
        match (l, r) {
            (_, None) => {
                return false;
            },
            (None, Some(_)) => {
                return true;
            },
            (Some(x), Some(y)) => {
                if x != y {
                    return x < y;
                }
                proof {
                    a = a.drop_first();
                    b = b.drop_first();
                }
            },
        }
    }
}

// ---------------------------------------------------------------------------
// Laws
// ---------------------------------------------------------------------------
/// The last position of a mark is one of the mark, and none stands behind it; there
/// is none only where the mark does not occur.
pub proof fn law_last_position(s: Seq<char>, mark: char)
    ensures
        -1 <= last_position(s, mark) < s.len(),
        last_position(s, mark) >= 0 ==> s[last_position(s, mark)] == mark,
        forall|i: int| last_position(s, mark) < i < s.len() ==> s[i] != mark,
    decreases s.len(),
{
    if s.len() > 0 && s.last() != mark {
        let front = s.drop_last();
        law_last_position(front, mark);
        assert forall|i: int| last_position(s, mark) < i < s.len() implies s[i] != mark by {
            if i < front.len() {
                assert(front[i] != mark);
            }
        }
    }
}

/// Only the last position of a mark is what `last_position` says.
pub proof fn lemma_last_position_is(s: Seq<char>, mark: char, n: int)
    requires
        0 <= n < s.len(),
        s[n] == mark,
        forall|i: int| n < i < s.len() ==> s[i] != mark,
    ensures
        last_position(s, mark) == n,
{
    law_last_position(s, mark);
    let m = last_position(s, mark);
    if m < n {
        assert(s[n] != mark);
    } else if n < m {
        assert(s[m] != mark);
    }
}

/// The empty text has no lines, and a text without a line feed is one line. A line
/// that a line feed ends comes before the lines of what follows, and a carriage
/// return right before the line feed belongs to neither.
pub proof fn law_lines_end_at_line_feeds(line: Seq<char>, rest: Seq<char>)
    requires
        forall|i: int| 0 <= i < line.len() ==> line[i] != '\n',
    ensures
        lines(Seq::empty()).len() == 0,
        line.len() > 0 ==> lines(line) == seq![line],
        line.len() > 0 && line.last() == '\r' || lines(line + seq!['\n'] + rest) == seq![line]
            + lines(rest),
        lines(line + seq!['\r', '\n'] + rest) == seq![line] + lines(rest),
{
    if line.len() > 0 {
        lemma_until_is(line, '\n', line.len() as int);
    }
    assert(is_unbroken(line));
    lemma_first_line(line, rest);
    assert(line + seq!['\n'] + rest =~= line.push('\n') + rest);
    let returned = line.push('\r');
    assert(is_unbroken(returned));
    lemma_first_line(returned, rest);
    assert(line + seq!['\r', '\n'] + rest =~= returned.push('\n') + rest);
    assert(without_return(returned) =~= line);
}

/// No line of a text holds a line feed.
pub proof fn law_lines_hold_no_line_feed(s: Seq<char>, i: int)
    requires
        0 <= i < lines(s).len(),
    ensures
        forall|k: int| 0 <= k < lines(s)[i].len() ==> lines(s)[i][k] != '\n',
    decreases s.len(),
{
    lemma_until(s, '\n');
    let n = until(s, '\n');
    if n < s.len() {
        if i == 0 {
            assert forall|k: int| 0 <= k < lines(s)[0].len() implies lines(s)[0][k] != '\n' by {
                assert(lines(s)[0][k] == s[k]);
            }
        } else {
            assert(lines(s)[i] == lines(s.skip(n + 1))[i - 1]);
            law_lines_hold_no_line_feed(s.skip(n + 1), i - 1);
        }
    }
}

/// Blanks, tabs and the ends of lines are white space; no printable ASCII character
/// but the blank is.
pub proof fn law_white_space(ch: char)
    ensures
        ch == ' ' || ch == '\t' || ch == '\n' || ch == '\r' ==> is_white(ch),
        ' ' < ch && ch <= '~' ==> !is_white(ch),
{
}

/// Trimming takes white space from both ends and nothing else: what is left neither
/// begins nor ends with white space, and all that was taken is white space.
pub proof fn law_trim_takes_white_space(s: Seq<char>) -> (from: int)
    ensures
        0 <= from <= from + trim(s).len() <= s.len(),
        trim(s) == s.subrange(from, from + trim(s).len()),
        forall|i: int| 0 <= i < from ==> is_white(#[trigger] s[i]),
        forall|i: int| from + trim(s).len() <= i < s.len() ==> is_white(#[trigger] s[i]),
        trim(s).len() > 0 ==> !is_white(trim(s)[0]) && !is_white(trim(s).last()),
{
    let from = lemma_trim_start_takes(s);
    let rest = trim_start(s);
    law_trim_end_takes_white_space(rest);
    let len = trim(s).len() as int;
    assert(trim(s) =~= s.subrange(from, from + len));
    assert forall|i: int| from + len <= i < s.len() implies is_white(#[trigger] s[i]) by {
        assert(rest[i - from] == s[i]);
    }
    if len > 0 {
        assert(trim(s)[0] == rest[0]);
    }
    from
}

proof fn lemma_trim_start_takes(s: Seq<char>) -> (from: int)
    ensures
        0 <= from <= s.len(),
        trim_start(s) == s.skip(from),
        forall|i: int| 0 <= i < from ==> is_white(#[trigger] s[i]),
        from < s.len() ==> !is_white(s[from]),
    decreases s.len(),
{
    if s.len() > 0 && is_white(s[0]) {
        let rest = s.drop_first();
        let from = lemma_trim_start_takes(rest);
        assert(rest.skip(from) =~= s.skip(from + 1));
        assert forall|i: int| 0 <= i < from + 1 implies is_white(#[trigger] s[i]) by {
            if i > 0 {
                assert(rest[i - 1] == s[i]);
            }
        }
        from + 1
    } else {
        assert(s.skip(0) =~= s);
        0
    }
}

/// Trimming the end takes white space from there and nothing else.
pub proof fn law_trim_end_takes_white_space(s: Seq<char>)
    ensures
        trim_end(s).len() <= s.len(),
        trim_end(s) == s.take(trim_end(s).len() as int),
        forall|i: int| trim_end(s).len() <= i < s.len() ==> is_white(#[trigger] s[i]),
        trim_end(s).len() > 0 ==> !is_white(trim_end(s).last()),
    decreases s.len(),
{
    if s.len() > 0 && is_white(s.last()) {
        let front = s.drop_last();
        law_trim_end_takes_white_space(front);
        let n = trim_end(s).len() as int;
        assert(front.take(n) =~= s.take(n));
        assert forall|i: int| n <= i < s.len() implies is_white(#[trigger] s[i]) by {
            if i < front.len() {
                assert(front[i] == s[i]);
            }
        }
    } else {
        assert(s.take(s.len() as int) =~= s);
    }
}

/// A text is cut behind its first characters, and only where it is longer.
pub proof fn law_cut_keeps_the_beginning(s: Seq<char>, count: nat)
    ensures
        at_most(s, count).len() == if s.len() < count {
            s.len()
        } else {
            count
        },
        forall|i: int| 0 <= i < at_most(s, count).len() ==> at_most(s, count)[i] == s[i],
{
}

/// One part joined is that part, no part is the empty text, and between what two
/// lists of parts give stands one separator.
pub proof fn law_joined_parts(
    first: Seq<Seq<char>>,
    second: Seq<Seq<char>>,
    part: Seq<char>,
    separator: Seq<char>,
)
    requires
        first.len() > 0,
        second.len() > 0,
    ensures
        join(Seq::empty(), separator).len() == 0,
        join(seq![part], separator) == part,
        join(first + second, separator) == join(first, separator) + separator + join(
            second,
            separator,
        ),
    decreases second.len(),
{
    let whole = first + second;
    if second.len() == 1 {
        assert(whole.drop_last() =~= first);
        assert(whole.last() == second[0]);
    } else {
        let front = second.drop_last();
        law_joined_parts(first, front, part, separator);
        assert(whole.drop_last() =~= first + front);
        assert(whole.last() == second.last());
        assert(join(whole, separator) =~= join(first, separator) + separator + join(
            second,
            separator,
        ));
    }
}

/// The notation of a number below ten is its digit, and a further digit behind a
/// notation stands for ten times the number and the digit. So no notation but that of
/// zero begins with a zero.
pub proof fn law_decimal_notation(value: nat, unit: nat)
    requires
        unit < 10,
    ensures
        decimal(unit) == seq![('0' as int + unit) as char],
        value > 0 ==> decimal(10 * value + unit) == decimal(value).push(
            ('0' as int + unit) as char,
        ),
        value > 0 ==> decimal(value)[0] != '0',
    decreases value,
{
    if value > 0 {
        assert((10 * value + unit) / 10 == value);
        assert((10 * value + unit) % 10 == unit);
        if value >= 10 {
            law_decimal_notation(value / 10, value % 10);
            lemma_decimal(value / 10);
            assert(decimal(value)[0] == decimal(value / 10)[0]);
        } else {
            assert(decimal(value)[0] == digit(value));
        }
    }
}

/// A number is read where its notation stands, with or without a plus sign, and only
/// up to the limit; no text with another character is a number, nor is one without a
/// digit.
pub proof fn law_numbers_are_read(value: nat, max: nat, s: Seq<char>, i: int)
    requires
        0 <= i < s.len(),
    ensures
        value <= max ==> unsigned_value(decimal(value), max) == Some(value),
        value <= max ==> unsigned_value(seq!['+'] + decimal(value), max) == Some(value),
        value > max ==> unsigned_value(decimal(value), max) is None,
        !('0' <= s[i] && s[i] <= '9') && !(i == 0 && s[0] == '+') ==> unsigned_value(s, max) is None,
        unsigned_value(Seq::empty(), max) is None,
        unsigned_value(seq!['+'], max) is None,
{
    lemma_decimal(value);
    assert(decimal(value)[0] != '+');
    assert((seq!['+'] + decimal(value)).drop_first() =~= decimal(value));
    if !is_digit(s[i]) && !(i == 0 && s[0] == '+') {
        let digits = without_plus(s);
        if s[0] == '+' {
            assert(digits[i - 1] == s[i]);
        } else {
            assert(digits[i] == s[i]);
        }
    }
}

/// Of two texts that begin alike, the first character in which they differ decides,
/// and a text stands before what continues it.
pub proof fn law_first_difference_decides(
    start: Seq<char>,
    a: char,
    b: char,
    left: Seq<char>,
    right: Seq<char>,
)
    ensures
        text_before(start, start.push(b) + right),
        !text_before(start.push(b) + right, start),
        a != b ==> text_before(start.push(a) + left, start.push(b) + right) == (a < b),
    decreases start.len(),
{
    let one = start.push(a) + left;
    let two = start.push(b) + right;
    if start.len() == 0 {
        assert(one[0] == a && two[0] == b);
    } else {
        let rest = start.drop_first();
        law_first_difference_decides(rest, a, b, left, right);
        assert(one.drop_first() =~= rest.push(a) + left);
        assert(two.drop_first() =~= rest.push(b) + right);
        assert(one[0] == start[0] && two[0] == start[0]);
    }
}

/// A text begins with another exactly where it is that text with something behind it.
pub proof fn law_beginning(prefix: Seq<char>, rest: Seq<char>, s: Seq<char>)
    ensures
        begins_with(prefix + rest, prefix),
        begins_with(s, prefix) ==> s == prefix + s.skip(prefix.len() as int),
{
    assert((prefix + rest).take(prefix.len() as int) =~= prefix);
    if begins_with(s, prefix) {
        assert(s =~= s.take(prefix.len() as int) + s.skip(prefix.len() as int));
    }
}

/// Copies of a character are as many as asked for, and nothing else.
pub proof fn law_copies(ch: char, count: nat, i: int)
    ensures
        repeated(ch, count).len() == count,
        0 <= i < count ==> repeated(ch, count)[i] == ch,
{
}

/// The characters that count as white space, by their code points.
pub proof fn law_white_code_points(ch: char)
    ensures
        is_white(ch) <==> ({
            let code = ch as u32;
            ||| 0x9 <= code <= 0xd
            ||| code == 0x20
            ||| code == 0x85
            ||| code == 0xa0
            ||| code == 0x1680
            ||| 0x2000 <= code <= 0x200a
            ||| code == 0x2028
            ||| code == 0x2029
            ||| code == 0x202f
            ||| code == 0x205f
            ||| code == 0x3000
        }),
{
}

} // verus!
