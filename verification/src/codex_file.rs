//! Codex files as a refresh delivers them: one stream of sections, each opened
//! by a header line and followed by the lines of the file.

use vstd::prelude::*;
use vstd::utf8::{decode_utf8, valid_utf8};

use crate::line_tail::{joined_lines, law_joined_lines_are_ended};
use crate::path::{normalize_path, normalized};
use crate::text::{
    chars_of, concat2, decimal, find_from, is_digit, law_decimal_reads_back,
    law_lines_of_joined_texts, lemma_decimal, lemma_until, lemma_until_is, lines, lines_of,
    parse_unsigned, same_text, text_between, texts, unsigned_value, until, without_return,
};

verus! {

/// The character that opens a header line.
pub const SECTION_MARKER: char = '\u{1e}';

/// What a Codex file holds.
#[derive(Clone, Copy, Debug, PartialEq, Eq, Structural)]
pub enum CodexFileKind {
    /// Names of threads.
    Index,
    /// The entries of one thread.
    Transcript,
}

/// What a `CodexFile` says.
pub struct CodexFileView {
    pub kind: CodexFileKind,
    pub modified_at: u64,
    pub path: Seq<char>,
    pub content: Seq<char>,
}

/// A Codex file with its content.
#[derive(Clone, Debug, PartialEq, Eq)]
pub struct CodexFile {
    pub kind: CodexFileKind,
    pub modified_at: u64,
    pub path: String,
    pub content: String,
}

impl View for CodexFile {
    type V = CodexFileView;

    open spec fn view(&self) -> CodexFileView {
        CodexFileView {
            kind: self.kind,
            modified_at: self.modified_at,
            path: self.path@,
            content: self.content@,
        }
    }
}

/// What some files say.
pub open spec fn file_views(files: Seq<CodexFile>) -> Seq<CodexFileView> {
    Seq::new(files.len(), |i: int| files[i]@)
}

// ---------------------------------------------------------------------------
// Models
// ---------------------------------------------------------------------------
/// The kind that a header names.
pub open spec fn kind_named(name: Seq<char>) -> Option<CodexFileKind> {
    if name == "index"@ {
        Some(CodexFileKind::Index)
    } else if name == "transcript"@ {
        Some(CodexFileKind::Transcript)
    } else {
        None
    }
}

/// The file that the second and third field of a header open.
pub open spec fn file_after_kind(kind: CodexFileKind, fields: Seq<char>) -> Result<
    CodexFileView,
    Seq<char>,
> {
    let end = until(fields, '\t');
    match unsigned_value(fields.take(end), u64::MAX as nat) {
        None => Err("invalid modified_at"@),
        Some(modified_at) => if end + 1 < fields.len() {
            Ok(
                CodexFileView {
                    kind,
                    modified_at: modified_at as u64,
                    path: normalized(fields.skip(end + 1)),
                    content: Seq::empty(),
                },
            )
        } else {
            Err("missing codex file path"@)
        },
    }
}

/// The empty file that a header opens, or what is wrong with the header. A
/// header holds a kind, a time and a path, with a tab after the first two.
pub open spec fn header_file(header: Seq<char>) -> Result<CodexFileView, Seq<char>> {
    let end = until(header, '\t');
    match kind_named(header.take(end)) {
        None => Err("unknown codex file kind: "@ + header.take(end)),
        Some(kind) => if end < header.len() {
            file_after_kind(kind, header.skip(end + 1))
        } else {
            Err("missing modified_at"@)
        },
    }
}

/// Whether a line opens a section.
pub open spec fn is_header(line: Seq<char>) -> bool {
    line.len() > 0 && line[0] == SECTION_MARKER
}

/// A file with one more line.
pub open spec fn with_line(file: CodexFileView, line: Seq<char>) -> CodexFileView {
    CodexFileView { content: file.content + line + seq!['\n'], ..file }
}

/// The files that some lines hold, or what is wrong with the first bad header.
/// Lines before the first header belong to no file.
pub open spec fn sections(lines: Seq<Seq<char>>) -> Result<Seq<CodexFileView>, Seq<char>>
    decreases lines.len(),
{
    if lines.len() == 0 {
        Ok(Seq::empty())
    } else {
        match sections(lines.drop_last()) {
            Err(error) => Err(error),
            Ok(files) => if is_header(lines.last()) {
                match header_file(lines.last().skip(1)) {
                    Err(error) => Err(error),
                    Ok(file) => Ok(files.push(file)),
                }
            } else if files.len() == 0 {
                Ok(files)
            } else {
                Ok(files.drop_last().push(with_line(files.last(), lines.last())))
            },
        }
    }
}

/// How many lines open a section.
pub open spec fn header_count(lines: Seq<Seq<char>>) -> nat
    decreases lines.len(),
{
    if lines.len() == 0 {
        0
    } else {
        header_count(lines.drop_last()) + if is_header(lines.last()) {
            1nat
        } else {
            0
        }
    }
}

/// What a parse returns, over what the files and the error say.
pub open spec fn parse_view(parsed: Result<Vec<CodexFile>, String>) -> Result<
    Seq<CodexFileView>,
    Seq<char>,
> {
    match parsed {
        Ok(files) => Ok(file_views(files@)),
        Err(error) => Err(error@),
    }
}

/// What `String::from_utf8_lossy` makes of some bytes.
pub uninterp spec fn lossy_utf8(bytes: Seq<u8>) -> Seq<char>;

/// Calls `String::from_utf8_lossy`. The result depends on the bytes alone, and
/// valid UTF-8 is decoded as it stands. What comes in place of invalid bytes is
/// left unsaid, and with it how such bytes decode where two streams are joined.
#[verifier::external_body]
fn lossy_text(bytes: &[u8]) -> (text: String)
    ensures
        text@ == lossy_utf8(bytes@),
        valid_utf8(bytes@) ==> text@ == decode_utf8(bytes@),
{
    String::from_utf8_lossy(bytes).into_owned()
}

// ---------------------------------------------------------------------------
// Operations
// ---------------------------------------------------------------------------
fn parse_section_fields(kind: CodexFileKind, fields: &str) -> (parsed: Result<CodexFile, String>)
    ensures
        match parsed {
            Ok(file) => file_after_kind(kind, fields@) == Ok::<_, Seq<char>>(file@),
            Err(error) => file_after_kind(kind, fields@) == Err::<CodexFileView, _>(error@),
        },
{
    let chars = chars_of(fields);
    let end = find_from(&chars, 0, '\t');
    proof {
        lemma_until_is(fields@, '\t', end as int);
        assert(fields@.take(end as int) =~= chars@.subrange(0, end as int));
    }
    let time = text_between(&chars, 0, end);
    match parse_unsigned(time.as_str(), u64::MAX) {
        None => Err("invalid modified_at".to_owned()),
        Some(modified_at) => {
            let len = chars.len();
            if end == len || end + 1 == len {
                return Err("missing codex file path".to_owned());
            }
            let path = text_between(&chars, end + 1, len);
            proof {
                assert(path@ =~= fields@.skip(end + 1));
            }
            let file = CodexFile {
                kind,
                modified_at,
                path: normalize_path(path.as_str()),
                content: String::new(),
            };
            proof {
                assert(file.content@ =~= Seq::<char>::empty());
            }
            Ok(file)
        },
    }
}

/// Opens the empty file that a header names.
pub fn parse_section_header(header: &str) -> (parsed: Result<CodexFile, String>)
    ensures
        match parsed {
            Ok(file) => header_file(header@) == Ok::<_, Seq<char>>(file@),
            Err(error) => header_file(header@) == Err::<CodexFileView, _>(error@),
        },
{
    let chars = chars_of(header);
    let end = find_from(&chars, 0, '\t');
    proof {
        lemma_until_is(header@, '\t', end as int);
        assert(header@.take(end as int) =~= chars@.subrange(0, end as int));
    }
    let name = text_between(&chars, 0, end);
    let kind = if same_text(name.as_str(), "index") {
        CodexFileKind::Index
    } else if same_text(name.as_str(), "transcript") {
        CodexFileKind::Transcript
    } else {
        return Err(concat2("unknown codex file kind: ", name.as_str()));
    };
    let len = chars.len();
    if end == len {
        return Err("missing modified_at".to_owned());
    }
    let fields = text_between(&chars, end + 1, len);
    proof {
        assert(fields@ =~= header@.skip(end + 1));
    }
    parse_section_fields(kind, fields.as_str())
}

/// The rest of a header line behind its marker; nothing for any other line.
fn header_of(line: &str) -> (header: Option<String>)
    ensures
        match header {
            Some(header) => is_header(line@) && header@ == line@.skip(1),
            None => !is_header(line@),
        },
{
    let chars = chars_of(line);
    if chars.len() > 0 && chars[0] == SECTION_MARKER {
        let header = text_between(&chars, 1, chars.len());
        proof {
            assert(header@ =~= line@.skip(1));
        }
        Some(header)
    } else {
        None
    }
}

/// Adds a line to the file that was opened last.
fn add_line(files: &mut Vec<CodexFile>, line: &str)
    ensures
        file_views(final(files)@) == (if old(files)@.len() == 0 {
            file_views(old(files)@)
        } else {
            file_views(old(files)@).drop_last().push(
                with_line(file_views(old(files)@).last(), line@),
            )
        }),
{
    let ghost before = file_views(files@);
    match files.pop() {
        Some(open) => {
            let mut file = open;
            file.content.append(line);
            file.content.push('\n');
            proof {
                assert(file.content@ =~= open.content@ + line@ + seq!['\n']);
            }
            files.push(file);
            proof {
                assert(file_views(files@) =~= before.drop_last().push(
                    with_line(before.last(), line@),
                ));
            }
        },
        None => {},
    }
}

/// Parts a text into the files that it holds.
pub fn parse_refresh_text(text: &str) -> (parsed: Result<Vec<CodexFile>, String>)
    ensures
        parse_view(parsed) == sections(lines(text@)),
{
    let found = lines_of(text);
    let ghost all = texts(found@);
    let mut files: Vec<CodexFile> = Vec::new();
    let mut i: usize = 0;
    proof {
        assert(file_views(files@) =~= Seq::<CodexFileView>::empty());
    }
    while i < found.len()
        invariant
            i <= found@.len(),
            all == texts(found@),
            all == lines(text@),
            sections(all.take(i as int)) == Ok::<_, Seq<char>>(file_views(files@)),
        decreases found@.len() - i,
    {
        proof {
            assert(all.take(i + 1).drop_last() =~= all.take(i as int));
            assert(all.take(i + 1).last() == found@[i as int]@);
        }
        let line = found[i].as_str();
        match header_of(line) {
            Some(header) => match parse_section_header(header.as_str()) {
                Ok(file) => {
                    let ghost before = file_views(files@);
                    files.push(file);
                    proof {
                        assert(file_views(files@) =~= before.push(file@));
                    }
                },
                Err(error) => {
                    proof {
                        lemma_sections_fail(all, i + 1);
                    }
                    return Err(error);
                },
            },
            None => add_line(&mut files, line),
        }
        i += 1;
    }
    proof {
        assert(all.take(i as int) =~= all);
    }
    Ok(files)
}

/// Parts the output of a refresh into the files that it holds.
pub fn parse_refresh_output(stdout: &[u8]) -> (parsed: Result<Vec<CodexFile>, String>)
    ensures
        parse_view(parsed) == sections(lines(lossy_utf8(stdout@))),
        valid_utf8(stdout@) ==> parse_view(parsed) == sections(lines(decode_utf8(stdout@))),
{
    let text = lossy_text(stdout);
    parse_refresh_text(text.as_str())
}

// ---------------------------------------------------------------------------
// Laws
// ---------------------------------------------------------------------------
proof fn lemma_sections_fail(lines: Seq<Seq<char>>, n: int)
    requires
        0 <= n <= lines.len(),
        sections(lines.take(n)) is Err,
    ensures
        sections(lines) == sections(lines.take(n)),
    decreases lines.len() - n,
{
    if n < lines.len() {
        assert(lines.take(n + 1).drop_last() =~= lines.take(n));
        lemma_sections_fail(lines, n + 1);
    } else {
        assert(lines.take(n) =~= lines);
    }
}

/// A bad header makes the whole parse fail with the first such error, whatever
/// follows it.
pub proof fn law_first_error_wins(lines: Seq<Seq<char>>, n: int, error: Seq<char>)
    requires
        0 <= n <= lines.len(),
        sections(lines.take(n)) == Err::<Seq<CodexFileView>, _>(error),
    ensures
        sections(lines) == Err::<Seq<CodexFileView>, _>(error),
{
    lemma_sections_fail(lines, n);
}

/// A parse that succeeds gives one file for each header.
pub proof fn law_one_file_per_header(lines: Seq<Seq<char>>)
    ensures
        sections(lines) matches Ok(files) ==> files.len() == header_count(lines),
    decreases lines.len(),
{
    if lines.len() > 0 {
        law_one_file_per_header(lines.drop_last());
    }
}

/// Lines that begin with a header give their files after those of the lines before
/// them.
pub proof fn law_joined_sections(
    first: Seq<Seq<char>>,
    second: Seq<Seq<char>>,
    files: Seq<CodexFileView>,
    more: Seq<CodexFileView>,
)
    requires
        sections(first) == Ok::<_, Seq<char>>(files),
        sections(second) == Ok::<_, Seq<char>>(more),
        second.len() > 0 ==> is_header(second[0]),
    ensures
        sections(first + second) == Ok::<_, Seq<char>>(files + more),
        second.len() > 0 ==> more.len() > 0,
    decreases second.len(),
{
    if second.len() == 0 {
        assert(first + second =~= first);
        assert(files + more =~= files);
    } else {
        let front = second.drop_last();
        let before = sections(front)->Ok_0;
        if front.len() > 0 {
            assert(front[0] == second[0]);
        } else {
            assert(second.last() == second[0]);
        }
        law_joined_sections(first, front, files, before);
        assert((first + second).drop_last() =~= first + front);
        assert((first + second).last() == second.last());
        if is_header(second.last()) {
            let file = header_file(second.last().skip(1))->Ok_0;
            assert((files + before).push(file) =~= files + more);
        } else {
            let changed = with_line(before.last(), second.last());
            assert((files + before).last() == before.last());
            assert((files + before).drop_last().push(changed) =~= files + more);
        }
    }
}

/// Refresh texts can be joined: where one ends with a line, the next begins with a
/// header, and both can be parsed, the joined text gives the files of both.
pub proof fn law_joined_texts(
    a: Seq<char>,
    b: Seq<char>,
    files: Seq<CodexFileView>,
    more: Seq<CodexFileView>,
)
    requires
        a.len() > 0 ==> a.last() == '\n',
        b.len() > 0 ==> b[0] == SECTION_MARKER,
        sections(lines(a)) == Ok::<_, Seq<char>>(files),
        sections(lines(b)) == Ok::<_, Seq<char>>(more),
    ensures
        sections(lines(a + b)) == Ok::<_, Seq<char>>(files + more),
{
    law_lines_of_joined_texts(a, b);
    if b.len() > 0 {
        lemma_until(b, '\n');
        let n = until(b, '\n');
        if n < b.len() {
            assert(n > 0);
            assert(b.take(n)[0] == SECTION_MARKER);
            if n == 1 {
                assert(b.take(n).last() == SECTION_MARKER);
            }
            assert(lines(b)[0] == without_return(b.take(n)));
        } else {
            assert(lines(b)[0] == b);
        }
        assert(is_header(lines(b)[0]));
    }
    law_joined_sections(lines(a), lines(b), files, more);
}

proof fn lemma_ascii_first(bytes: Seq<u8>)
    requires
        valid_utf8(bytes),
        bytes.len() > 0,
        bytes[0] < 0x80,
    ensures
        decode_utf8(bytes) == seq![bytes[0] as char] + decode_utf8(bytes.skip(1)),
{
    let byte = bytes[0];
    assert(byte & 0x80 == 0 && byte & 0x7f == byte) by (bit_vector)
        requires
            byte < 0x80,
    ;
    assert(vstd::utf8::pop_first_scalar(bytes) =~= bytes.skip(1));
    assert(decode_utf8(bytes) =~= seq![byte as char] + decode_utf8(bytes.skip(1)));
}

/// Refresh outputs can be joined: where one ends with a line feed, the next begins
/// with the marker of a header, both are UTF-8 and can be parsed, the joined output
/// is UTF-8 and gives the files of both.
pub proof fn law_joined_outputs(
    a: Seq<u8>,
    b: Seq<u8>,
    files: Seq<CodexFileView>,
    more: Seq<CodexFileView>,
)
    requires
        valid_utf8(a),
        valid_utf8(b),
        a.len() > 0 ==> a.last() == 0x0a,
        b.len() > 0 ==> b[0] == 0x1e,
        sections(lines(decode_utf8(a))) == Ok::<_, Seq<char>>(files),
        sections(lines(decode_utf8(b))) == Ok::<_, Seq<char>>(more),
    ensures
        valid_utf8(a + b),
        sections(lines(decode_utf8(a + b))) == Ok::<_, Seq<char>>(files + more),
{
    vstd::utf8::valid_utf8_concat(a, b);
    if b.len() == 0 {
        assert(a + b =~= a);
        assert(decode_utf8(a) + decode_utf8(b) =~= decode_utf8(a));
    } else {
        lemma_ascii_first(b);
        assert(decode_utf8(b)[0] == SECTION_MARKER);
        lemma_decode_after_ascii(a + b, a.len() as int);
        assert((a + b).subrange(0, a.len() as int) =~= a);
        assert((a + b).subrange(a.len() as int, (a + b).len() as int) =~= b);
    }
    if a.len() > 0 {
        let n = a.len() - 1;
        let end = a.subrange(n, a.len() as int);
        lemma_decode_after_ascii(a, n);
        lemma_ascii_first(end);
        assert(decode_utf8(end).last() == '\n');
        assert(decode_utf8(a).last() == '\n');
    }
    law_joined_texts(decode_utf8(a), decode_utf8(b), files, more);
}

/// Text parts where an ASCII character begins.
proof fn lemma_decode_after_ascii(bytes: Seq<u8>, n: int)
    requires
        valid_utf8(bytes),
        0 <= n < bytes.len(),
        bytes[n] < 0x80,
    ensures
        valid_utf8(bytes.subrange(0, n)),
        valid_utf8(bytes.subrange(n, bytes.len() as int)),
        decode_utf8(bytes) == decode_utf8(bytes.subrange(0, n)) + decode_utf8(
            bytes.subrange(n, bytes.len() as int),
        ),
{
    let byte = bytes[n];
    assert(!(0x80 <= byte <= 0xbf));
    vstd::utf8::is_char_boundary_iff_not_is_continuation_byte(bytes, n);
    vstd::utf8::valid_utf8_split(bytes, n);
    vstd::utf8::decode_utf8_split(bytes, n);
}

proof fn lemma_until_mark(start: Seq<char>, mark: char, rest: Seq<char>)
    requires
        forall|i: int| 0 <= i < start.len() ==> start[i] != mark,
    ensures
        until(start, mark) == start.len(),
        start.take(start.len() as int) == start,
        until(start + seq![mark] + rest, mark) == start.len(),
        (start + seq![mark] + rest).take(start.len() as int) == start,
        (start + seq![mark] + rest).skip(start.len() + 1int) == rest,
{
    let whole = start + seq![mark] + rest;
    lemma_until_is(start, mark, start.len() as int);
    assert forall|i: int| 0 <= i < start.len() implies whole[i] != mark by {
        assert(whole[i] == start[i]);
    }
    assert(whole[start.len() as int] == mark);
    lemma_until_is(whole, mark, start.len() as int);
    assert(start.take(start.len() as int) =~= start);
    assert(whole.take(start.len() as int) =~= start);
    assert(whole.skip(start.len() + 1int) =~= rest);
}

/// A header that names a kind, a second and a path, with a tab between each two, opens
/// the empty file of just that, its path in the normal form.
pub proof fn law_header_reads_back(time: u64, path: Seq<char>)
    requires
        path.len() > 0,
    ensures
        header_file("index"@ + seq!['\t'] + (decimal(time as nat) + seq!['\t'] + path)) == Ok::<
            _,
            Seq<char>,
        >(
            CodexFileView {
                kind: CodexFileKind::Index,
                modified_at: time,
                path: normalized(path),
                content: Seq::empty(),
            },
        ),
        header_file("transcript"@ + seq!['\t'] + (decimal(time as nat) + seq!['\t'] + path))
            == Ok::<_, Seq<char>>(
            CodexFileView {
                kind: CodexFileKind::Transcript,
                modified_at: time,
                path: normalized(path),
                content: Seq::empty(),
            },
        ),
{
    reveal_strlit("index");
    reveal_strlit("transcript");
    let number = decimal(time as nat);
    let fields = number + seq!['\t'] + path;
    lemma_decimal(time as nat);
    assert forall|i: int| 0 <= i < number.len() implies number[i] != '\t' by {
        assert(is_digit(number[i]));
    }
    lemma_until_mark(number, '\t', path);
    law_decimal_reads_back(time as nat, u64::MAX as nat);
    lemma_until_mark("index"@, '\t', fields);
    lemma_until_mark("transcript"@, '\t', fields);
    assert("index"@.len() != "transcript"@.len());
}

/// What is wrong with a header is told by its first bad field: a kind that is neither
/// `index` nor `transcript`, a second that is missing or no number, a path that is
/// missing or empty.
pub proof fn law_header_errors(kind: Seq<char>, time: Seq<char>, rest: Seq<char>)
    requires
        forall|i: int| 0 <= i < kind.len() ==> kind[i] != '\t',
        forall|i: int| 0 <= i < time.len() ==> time[i] != '\t',
    ensures
        kind != "index"@ && kind != "transcript"@ ==> {
            &&& header_file(kind) == Err::<CodexFileView, _>("unknown codex file kind: "@ + kind)
            &&& header_file(kind + seq!['\t'] + rest) == Err::<CodexFileView, _>(
                "unknown codex file kind: "@ + kind,
            )
        },
        kind == "index"@ || kind == "transcript"@ ==> {
            &&& header_file(kind) == Err::<CodexFileView, _>("missing modified_at"@)
            &&& unsigned_value(time, u64::MAX as nat) is None ==> {
                &&& header_file(kind + seq!['\t'] + time) == Err::<CodexFileView, _>(
                    "invalid modified_at"@,
                )
                &&& header_file(kind + seq!['\t'] + (time + seq!['\t'] + rest)) == Err::<
                    CodexFileView,
                    _,
                >("invalid modified_at"@)
            }
            &&& unsigned_value(time, u64::MAX as nat) is Some ==> {
                &&& header_file(kind + seq!['\t'] + time) == Err::<CodexFileView, _>(
                    "missing codex file path"@,
                )
                &&& header_file(kind + seq!['\t'] + (time + seq!['\t'])) == Err::<
                    CodexFileView,
                    _,
                >("missing codex file path"@)
                &&& rest.len() > 0 ==> header_file(
                    kind + seq!['\t'] + (time + seq!['\t'] + rest),
                ) is Ok
            }
        },
{
    lemma_until_mark(kind, '\t', rest);
    lemma_until_mark(kind, '\t', time);
    lemma_until_mark(time, '\t', rest);
    lemma_until_mark(time, '\t', Seq::empty());
    lemma_until_mark(kind, '\t', time + seq!['\t'] + rest);
    lemma_until_mark(kind, '\t', time + seq!['\t']);
    assert(time + seq!['\t'] + Seq::<char>::empty() =~= time + seq!['\t']);
}

/// Without lines there are no files. A line that begins with the record separator opens
/// the file that its header names, behind those before it, or makes the parse fail with
/// what is wrong with the header. Any other line goes to the end of the last file, with
/// a line feed behind it, and to none where none is open.
pub proof fn law_lines_make_files(lines: Seq<Seq<char>>, line: Seq<char>, files: Seq<CodexFileView>)
    requires
        sections(lines) == Ok::<_, Seq<char>>(files),
    ensures
        sections(Seq::empty()) == Ok::<_, Seq<char>>(Seq::<CodexFileView>::empty()),
        line.len() > 0 && line[0] == '\u{1e}' ==> match header_file(line.skip(1)) {
            Ok(file) => sections(lines.push(line)) == Ok::<_, Seq<char>>(files.push(file)),
            Err(error) => sections(lines.push(line)) == Err::<Seq<CodexFileView>, _>(error),
        },
        !(line.len() > 0 && line[0] == '\u{1e}') ==> {
            &&& sections(lines.push(line)) is Ok
            &&& sections(lines.push(line))->Ok_0.len() == files.len()
            &&& forall|i: int|
                0 <= i < files.len() - 1 ==> #[trigger] sections(lines.push(line))->Ok_0[i]
                    == files[i]
            &&& files.len() > 0 ==> {
                let file = sections(lines.push(line))->Ok_0.last();
                &&& file.kind == files.last().kind
                &&& file.modified_at == files.last().modified_at
                &&& file.path == files.last().path
                &&& file.content == files.last().content + line + seq!['\n']
            }
        },
{
    assert(lines.push(line).drop_last() =~= lines);
}

/// Some lines under a header become the content of its file, each with a line feed
/// behind it.
pub proof fn law_section_holds_its_lines(
    header: Seq<char>,
    body: Seq<Seq<char>>,
    file: CodexFileView,
)
    requires
        header_file(header) == Ok::<_, Seq<char>>(file),
        forall|i: int|
            0 <= i < body.len() ==> !((#[trigger] body[i]).len() > 0 && body[i][0] == '\u{1e}'),
    ensures
        sections(seq![seq!['\u{1e}'] + header] + body) == Ok::<_, Seq<char>>(
            seq![CodexFileView { content: joined_lines(body), ..file }],
        ),
    decreases body.len(),
{
    let top = seq!['\u{1e}'] + header;
    let all = seq![top] + body;
    if body.len() == 0 {
        assert(all =~= Seq::<Seq<char>>::empty().push(top));
        assert(top.skip(1) =~= header);
        law_lines_make_files(Seq::empty(), top, Seq::empty());
        assert(joined_lines(body) =~= Seq::<char>::empty());
        let end = until(header, '\t');
        assert(file.content =~= Seq::<char>::empty());
        assert(Seq::<CodexFileView>::empty().push(file) =~= seq![
            CodexFileView { content: joined_lines(body), ..file },
        ]);
    } else {
        let front = body.drop_last();
        assert forall|i: int| 0 <= i < front.len() implies !((#[trigger] front[i]).len() > 0
            && front[i][0] == '\u{1e}') by {
            assert(front[i] == body[i]);
        }
        law_section_holds_its_lines(header, front, file);
        let before = seq![CodexFileView { content: joined_lines(front), ..file }];
        let last = body.last();
        assert(body[body.len() - 1] == last);
        assert(all =~= (seq![top] + front).push(last));
        law_lines_make_files(seq![top] + front, last, before);
        law_joined_lines_are_ended(front, last);
        assert(body =~= front.push(last));
        assert(sections(all)->Ok_0 =~= seq![CodexFileView { content: joined_lines(body), ..file }]);
    }
}

} // verus!
