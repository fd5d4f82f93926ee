//! What a single entry of a Codex transcript says.

use vstd::prelude::*;

use crate::json::{list_model, text_field_is, Json, JsonView};
use crate::status::AgentStatusKind;
use crate::text::{
    at_most, begins_with, first_chars, is_text, join, joined, lines, lines_of, maybe_text,
    starts_with, texts, trim, trimmed,
};

verus! {

/// The longest thread name, in characters.
pub const THREAD_NAME_MAX: usize = 80;

// ---------------------------------------------------------------------------
// Models
// ---------------------------------------------------------------------------
/// The kind that an entry gives itself.
pub open spec fn entry_kind(entry: JsonView) -> Option<Seq<char>> {
    entry.text_field("type"@)
}

/// The value under a key of the payload.
pub open spec fn payload_field(entry: JsonView, key: Seq<char>) -> Option<JsonView> {
    match entry.field("payload"@) {
        Some(payload) => payload.field(key),
        None => None,
    }
}

/// The text under a key of the payload.
pub open spec fn payload_text(entry: JsonView, key: Seq<char>) -> Option<Seq<char>> {
    match payload_field(entry, key) {
        Some(value) => value.text(),
        None => None,
    }
}

/// The directory that an entry says the thread works in.
pub open spec fn entry_project_dir(entry: JsonView) -> Option<Seq<char>> {
    if entry_kind(entry) == Some("session_meta"@) || entry_kind(entry) == Some("turn_context"@) {
        payload_text(entry, "cwd"@)
    } else {
        None
    }
}

/// The state after a message of the agent: done where it was the final answer.
pub open spec fn answer_status(entry: JsonView) -> AgentStatusKind {
    if payload_text(entry, "phase"@) == Some("final_answer"@) {
        AgentStatusKind::Done
    } else {
        AgentStatusKind::Running
    }
}

/// The state after an event message.
pub open spec fn event_status(entry: JsonView) -> Option<AgentStatusKind> {
    let event = payload_text(entry, "type"@);
    if event == Some("task_complete"@) || event == Some("turn_aborted"@) {
        Some(AgentStatusKind::Done)
    } else if event == Some("task_started"@) || event == Some("user_message"@) {
        Some(AgentStatusKind::Running)
    } else if event == Some("agent_message"@) {
        Some(answer_status(entry))
    } else {
        None
    }
}

/// Whether an item of a response shows that the agent works.
pub open spec fn is_work_item(item: Option<Seq<char>>) -> bool {
    ||| item == Some("function_call"@)
    ||| item == Some("function_call_output"@)
    ||| item == Some("reasoning"@)
    ||| item == Some("custom_tool_call"@)
    ||| item == Some("custom_tool_call_output"@)
    ||| item == Some("web_search_call"@)
}

/// The state after an item of a response.
pub open spec fn response_status(entry: JsonView) -> Option<AgentStatusKind> {
    let item = payload_text(entry, "type"@);
    if item == Some("message"@) {
        let role = payload_text(entry, "role"@);
        if role == Some("developer"@) {
            None
        } else if role == Some("assistant"@) {
            Some(answer_status(entry))
        } else if role == Some("user"@) {
            Some(AgentStatusKind::Running)
        } else {
            None
        }
    } else if is_work_item(item) {
        Some(AgentStatusKind::Running)
    } else {
        None
    }
}

/// The state after an entry; `None` where the entry does not tell.
pub open spec fn entry_status(entry: JsonView) -> Option<AgentStatusKind> {
    let kind = entry_kind(entry);
    if kind == Some("event_msg"@) {
        event_status(entry)
    } else if kind == Some("response_item"@) {
        response_status(entry)
    } else if kind == Some("message"@) {
        let role = entry.text_field("role"@);
        if role == Some("user"@) || role == Some("assistant"@) {
            Some(AgentStatusKind::Running)
        } else {
            None
        }
    } else if kind == Some("function_call"@) || kind == Some("function_call_output"@) || kind
        == Some("reasoning"@) {
        Some(AgentStatusKind::Running)
    } else {
        None
    }
}

/// Whether an entry is a call of a tool.
pub open spec fn is_tool_call(entry: JsonView) -> bool {
    let kind = entry_kind(entry);
    if kind == Some("function_call"@) {
        true
    } else if kind != Some("response_item"@) {
        false
    } else {
        let item = payload_text(entry, "type"@);
        ||| item == Some("function_call"@)
        ||| item == Some("custom_tool_call"@)
        ||| item == Some("web_search_call"@)
    }
}

/// The texts that the user put in.
pub open spec fn input_parts(items: Seq<JsonView>) -> Seq<Seq<char>>
    decreases items.len(),
{
    if items.len() == 0 {
        Seq::empty()
    } else {
        let front = input_parts(items.drop_last());
        match items.last().text_field("text"@) {
            Some(text) => if text_field_is(items.last(), "type"@, "input_text"@) {
                front.push(text)
            } else {
                front
            },
            None => front,
        }
    }
}

/// The first of some lines that holds more than white space, trimmed.
pub open spec fn first_filled(lines: Seq<Seq<char>>) -> Option<Seq<char>>
    decreases lines.len(),
{
    if lines.len() == 0 {
        None
    } else if trim(lines[0]).len() > 0 {
        Some(trim(lines[0]))
    } else {
        first_filled(lines.drop_first())
    }
}

/// Whether a line is machinery rather than something that the user wrote.
pub open spec fn is_machinery(line: Seq<char>) -> bool {
    ||| begins_with(line, "<"@)
    ||| begins_with(line, "{"@)
    ||| begins_with(line, "# AGENTS.md"@)
}

/// The name that a text gives to its thread: its first line that is not blank,
/// cut to the longest name, unless that line is machinery.
pub open spec fn thread_name_of(text: Seq<char>) -> Option<Seq<char>> {
    match first_filled(lines(text)) {
        Some(line) => if is_machinery(line) {
            None
        } else {
            Some(at_most(line, THREAD_NAME_MAX as nat))
        },
        None => None,
    }
}

/// The name that a content list gives to its thread.
pub open spec fn content_name(content: Option<JsonView>) -> Option<Seq<char>> {
    match content {
        Some(list) => match list.items() {
            Some(items) => thread_name_of(join(input_parts(items), "\n"@)),
            None => None,
        },
        None => None,
    }
}

/// The name that an entry gives to its thread.
pub open spec fn entry_thread_name(entry: JsonView) -> Option<Seq<char>> {
    let kind = entry_kind(entry);
    if kind == Some("event_msg"@) && payload_text(entry, "type"@) == Some("user_message"@) {
        match payload_text(entry, "message"@) {
            Some(message) => thread_name_of(message),
            None => None,
        }
    } else {
        let from_payload = if kind == Some("response_item"@) && payload_text(entry, "type"@) == Some(
            "message"@,
        ) && payload_text(entry, "role"@) == Some("user"@) {
            content_name(payload_field(entry, "content"@))
        } else {
            None
        };
        if from_payload is Some {
            from_payload
        } else if kind == Some("message"@) && entry.text_field("role"@) == Some("user"@) {
            content_name(entry.field("content"@))
        } else {
            None
        }
    }
}

// ---------------------------------------------------------------------------
// Operations
// ---------------------------------------------------------------------------
fn payload_value<'a>(entry: &'a Json, key: &str) -> (found: Option<&'a Json>)
    ensures
        match found {
            Some(value) => payload_field(entry@, key@) == Some(value@),
            None => payload_field(entry@, key@) is None,
        },
{
    match entry.get("payload") {
        Some(payload) => payload.get(key),
        None => None,
    }
}

fn payload_str<'a>(entry: &'a Json, key: &str) -> (found: Option<&'a str>)
    ensures
        match found {
            Some(text) => payload_text(entry@, key@) == Some(text@),
            None => payload_text(entry@, key@) is None,
        },
{
    match payload_value(entry, key) {
        Some(value) => value.as_str(),
        None => None,
    }
}

fn payload_is(entry: &Json, key: &str, expected: &str) -> (is: bool)
    ensures
        is == (payload_text(entry@, key@) == Some(expected@)),
{
    is_text(payload_str(entry, key), expected)
}

/// The directory that an entry says the thread works in.
pub fn extract_project_dir(entry: &Json) -> (dir: Option<String>)
    ensures
        maybe_text(dir) == entry_project_dir(entry@),
{
    if entry.has_text("type", "session_meta") || entry.has_text("type", "turn_context") {
        match payload_str(entry, "cwd") {
            Some(dir) => Some(dir.to_owned()),
            None => None,
        }
    } else {
        None
    }
}

fn status_of_answer(entry: &Json) -> (status: AgentStatusKind)
    ensures
        status == answer_status(entry@),
{
    if payload_is(entry, "phase", "final_answer") {
        AgentStatusKind::Done
    } else {
        AgentStatusKind::Running
    }
}

fn status_of_event(entry: &Json) -> (status: Option<AgentStatusKind>)
    ensures
        status == event_status(entry@),
{
    let event = payload_str(entry, "type");
    if is_text(event, "task_complete") || is_text(event, "turn_aborted") {
        Some(AgentStatusKind::Done)
    } else if is_text(event, "task_started") || is_text(event, "user_message") {
        Some(AgentStatusKind::Running)
    } else if is_text(event, "agent_message") {
        Some(status_of_answer(entry))
    } else {
        None
    }
}

fn status_of_response(entry: &Json) -> (status: Option<AgentStatusKind>)
    ensures
        status == response_status(entry@),
{
    let item = payload_str(entry, "type");
    if is_text(item, "message") {
        let role = payload_str(entry, "role");
        if is_text(role, "developer") {
            None
        } else if is_text(role, "assistant") {
            Some(status_of_answer(entry))
        } else if is_text(role, "user") {
            Some(AgentStatusKind::Running)
        } else {
            None
        }
    } else if is_text(item, "function_call") || is_text(item, "function_call_output") || is_text(
        item,
        "reasoning",
    ) || is_text(item, "custom_tool_call") || is_text(item, "custom_tool_call_output") || is_text(
        item,
        "web_search_call",
    ) {
        Some(AgentStatusKind::Running)
    } else {
        None
    }
}

/// The state after an entry; `None` where the entry does not tell.
pub fn determine_status(entry: &Json) -> (status: Option<AgentStatusKind>)
    ensures
        status == entry_status(entry@),
{
    let kind = entry.get_str("type");
    if is_text(kind, "event_msg") {
        status_of_event(entry)
    } else if is_text(kind, "response_item") {
        status_of_response(entry)
    } else if is_text(kind, "message") {
        let role = entry.get_str("role");
        if is_text(role, "user") || is_text(role, "assistant") {
            Some(AgentStatusKind::Running)
        } else {
            None
        }
    } else if is_text(kind, "function_call") || is_text(kind, "function_call_output") || is_text(
        kind,
        "reasoning",
    ) {
        Some(AgentStatusKind::Running)
    } else {
        None
    }
}

/// Whether an entry is a call of a tool.
pub fn is_tool_call_entry(entry: &Json) -> (is: bool)
    ensures
        is == is_tool_call(entry@),
{
    let kind = entry.get_str("type");
    if is_text(kind, "function_call") {
        return true;
    }
    if !is_text(kind, "response_item") {
        return false;
    }
    let item = payload_str(entry, "type");
    is_text(item, "function_call") || is_text(item, "custom_tool_call") || is_text(
        item,
        "web_search_call",
    )
}

fn input_text(items: &Vec<Json>) -> (text: String)
    ensures
        text@ == join(input_parts(list_model(items@)), "\n"@),
{
    let ghost all = list_model(items@);
    let mut parts: Vec<String> = Vec::new();
    let mut i: usize = 0;
    proof {
        assert(texts(parts@) =~= input_parts(all.take(0)));
    }
    while i < items.len()
        invariant
            i <= items@.len(),
            all == list_model(items@),
            texts(parts@) == input_parts(all.take(i as int)),
        decreases items@.len() - i,
    {
        let ghost before = texts(parts@);
        proof {
            assert(all.take(i + 1).drop_last() =~= all.take(i as int));
            assert(all.take(i + 1).last() == items@[i as int]@);
        }
        let item = &items[i];
        if item.has_text("type", "input_text") {
            match item.get_str("text") {
                Some(text) => {
                    parts.push(text.to_owned());
                    assert(texts(parts@) =~= before.push(text@));
                },
                None => {},
            }
        }
        i += 1;
    }
    proof {
        assert(all.take(i as int) =~= all);
    }
    joined(&parts, "\n")
}

fn name_of_content(content: Option<&Json>) -> (name: Option<String>)
    ensures
        maybe_text(name) == content_name(
            match content {
                Some(list) => Some(list@),
                None => None,
            },
        ),
{
    match content {
        Some(list) => match list.as_list() {
            Some(items) => {
                let text = input_text(items);
                normalize_thread_name(text.as_str())
            },
            None => None,
        },
        None => None,
    }
}

/// The name that an entry gives to its thread.
pub fn extract_thread_name(entry: &Json) -> (name: Option<String>)
    ensures
        maybe_text(name) == entry_thread_name(entry@),
{
    let kind = entry.get_str("type");
    if is_text(kind, "event_msg") && payload_is(entry, "type", "user_message") {
        return match payload_str(entry, "message") {
            Some(message) => normalize_thread_name(message),
            None => None,
        };
    }
    if is_text(kind, "response_item") && payload_is(entry, "type", "message") && payload_is(
        entry,
        "role",
        "user",
    ) {
        let from_payload = name_of_content(payload_value(entry, "content"));
        if from_payload.is_some() {
            return from_payload;
        }
    }
    if is_text(kind, "message") && entry.has_text("role", "user") {
        name_of_content(entry.get("content"))
    } else {
        None
    }
}

fn first_filled_line(found: &Vec<String>) -> (line: Option<String>)
    ensures
        maybe_text(line) == first_filled(texts(found@)),
{
    let ghost all = texts(found@);
    let mut i: usize = 0;
    proof {
        assert(all.skip(0) =~= all);
    }
    while i < found.len()
        invariant
            i <= found@.len(),
            all == texts(found@),
            first_filled(all) == first_filled(all.skip(i as int)),
        decreases found@.len() - i,
    {
        proof {
            assert(all.skip(i as int).drop_first() =~= all.skip(i + 1));
            assert(all.skip(i as int)[0] == found@[i as int]@);
        }
        let line = trimmed(found[i].as_str());
        if !line.as_str().is_empty() {
            return Some(line);
        }
        i += 1;
    }
    None
}

/// The name that a text gives to its thread.
pub fn normalize_thread_name(text: &str) -> (name: Option<String>)
    ensures
        maybe_text(name) == thread_name_of(text@),
{
    let found = lines_of(text);
    match first_filled_line(&found) {
        Some(line) => {
            if starts_with(line.as_str(), "<") || starts_with(line.as_str(), "{") || starts_with(
                line.as_str(),
                "# AGENTS.md",
            ) {
                None
            } else {
                Some(first_chars(line.as_str(), THREAD_NAME_MAX))
            }
        },
        None => None,
    }
}

// ---------------------------------------------------------------------------
// Laws
// ---------------------------------------------------------------------------
/// A thread name is never empty and never longer than the longest name.
pub proof fn law_thread_name_is_bounded(text: Seq<char>)
    ensures
        thread_name_of(text) matches Some(name) ==> 0 < name.len() <= THREAD_NAME_MAX,
{
    lemma_first_filled(lines(text));
}

/// No thread is named by machinery.
pub proof fn law_thread_name_is_no_machinery(text: Seq<char>)
    ensures
        thread_name_of(text) matches Some(name) ==> !is_machinery(name),
{
    match first_filled(lines(text)) {
        Some(line) => {
            let name = at_most(line, THREAD_NAME_MAX as nat);
            reveal_strlit("<");
            reveal_strlit("{");
            reveal_strlit("# AGENTS.md");
            assert(name.take("<"@.len() as int) == "<"@ ==> line.take("<"@.len() as int) =~= "<"@);
            assert(name.take("{"@.len() as int) == "{"@ ==> line.take("{"@.len() as int) =~= "{"@);
            assert(name.take("# AGENTS.md"@.len() as int) == "# AGENTS.md"@ ==> line.take(
                "# AGENTS.md"@.len() as int,
            ) =~= "# AGENTS.md"@);
        },
        None => {},
    }
}

proof fn lemma_first_filled(lines: Seq<Seq<char>>)
    ensures
        first_filled(lines) matches Some(line) ==> line.len() > 0,
    decreases lines.len(),
{
    if lines.len() > 0 && trim(lines[0]).len() == 0 {
        lemma_first_filled(lines.drop_first());
    }
}

/// A call of a tool means that the agent runs.
pub proof fn law_tool_call_is_running(entry: JsonView)
    requires
        is_tool_call(entry),
    ensures
        entry_status(entry) == Some(AgentStatusKind::Running),
{
    reveal_strlit("event_msg");
    reveal_strlit("response_item");
    reveal_strlit("message");
    reveal_strlit("function_call");
    reveal_strlit("custom_tool_call");
    reveal_strlit("web_search_call");
    assert("function_call"@[0] != "response_item"@[0]);
    assert("event_msg"@.len() < "response_item"@.len() == "function_call"@.len());
    assert("message"@.len() < "function_call"@.len() < "web_search_call"@.len()
        < "custom_tool_call"@.len());
}

/// No entry says that the agent is idle, nor that it waits.
pub proof fn law_entry_is_running_or_done(entry: JsonView)
    ensures
        entry_status(entry) matches Some(status) ==> status is Running || status is Done,
{
}

/// What stands under a key of the payload is what stands there in the object under
/// `payload`.
pub proof fn law_payload(entry: JsonView, key: Seq<char>, text: Seq<char>)
    ensures
        entry.field("payload"@) is None ==> payload_field(entry, key) is None,
        entry.field("payload"@) matches Some(payload) ==> payload_field(entry, key)
            == payload.field(key),
        payload_text(entry, key) == Some(text) <==> (entry.field("payload"@) matches Some(payload)
            && payload.field(key) == Some(JsonView::Text(text))),
{
}

proof fn lemma_kinds_differ()
    ensures
        "event_msg"@ != "response_item"@,
        "event_msg"@ != "message"@,
        "event_msg"@ != "function_call"@,
        "event_msg"@ != "function_call_output"@,
        "event_msg"@ != "reasoning"@,
        "response_item"@ != "message"@,
        "response_item"@ != "function_call"@,
        "response_item"@ != "function_call_output"@,
        "response_item"@ != "reasoning"@,
        "message"@ != "function_call"@,
        "message"@ != "function_call_output"@,
        "message"@ != "reasoning"@,
        "message"@ != "custom_tool_call"@,
        "message"@ != "custom_tool_call_output"@,
        "message"@ != "web_search_call"@,
        "developer"@ != "assistant"@,
        "developer"@ != "user"@,
        "assistant"@ != "user"@,
        "task_complete"@ != "task_started"@,
        "task_complete"@ != "user_message"@,
        "task_complete"@ != "agent_message"@,
        "turn_aborted"@ != "task_started"@,
        "turn_aborted"@ != "user_message"@,
        "turn_aborted"@ != "agent_message"@,
        "task_started"@ != "agent_message"@,
        "user_message"@ != "agent_message"@,
{
    reveal_strlit("event_msg");
    reveal_strlit("response_item");
    reveal_strlit("message");
    reveal_strlit("function_call");
    reveal_strlit("function_call_output");
    reveal_strlit("reasoning");
    reveal_strlit("custom_tool_call");
    reveal_strlit("custom_tool_call_output");
    reveal_strlit("web_search_call");
    reveal_strlit("developer");
    reveal_strlit("assistant");
    reveal_strlit("user");
    reveal_strlit("task_complete");
    reveal_strlit("turn_aborted");
    reveal_strlit("task_started");
    reveal_strlit("user_message");
    reveal_strlit("agent_message");
    assert("event_msg"@[0] == 'e' && "response_item"@[0] == 'r' && "message"@[0] == 'm'
        && "function_call"@[0] == 'f' && "function_call_output"@[0] == 'f' && "reasoning"@[0]
        == 'r' && "custom_tool_call"@[0] == 'c' && "custom_tool_call_output"@[0] == 'c'
        && "web_search_call"@[0] == 'w');
    assert("response_item"@.len() == 13 && "reasoning"@.len() == 9);
    assert("developer"@[0] == 'd' && "assistant"@[0] == 'a' && "user"@[0] == 'u');
    assert("task_complete"@[5] == 'c' && "task_started"@[5] == 's');
    assert("task_complete"@[0] == 't' && "turn_aborted"@[0] == 't' && "task_started"@[0] == 't'
        && "user_message"@[0] == 'u' && "agent_message"@[0] == 'a');
    assert("turn_aborted"@[1] == 'u' && "task_started"@[1] == 'a');
}

/// An event says that the agent is done where its task is complete, where its turn was
/// broken off, and where its message is the final answer; it says that the agent runs
/// where a task has begun, where the user has written, and with any other message of
/// the agent. No other event tells a state.
pub proof fn law_states_of_events(entry: JsonView)
    requires
        entry.text_field("type"@) == Some("event_msg"@),
    ensures
        ({
            let event = payload_text(entry, "type"@);
            let is_final = payload_text(entry, "phase"@) == Some("final_answer"@);
            &&& entry_status(entry) == Some(AgentStatusKind::Done) <==> {
                ||| event == Some("task_complete"@)
                ||| event == Some("turn_aborted"@)
                ||| event == Some("agent_message"@) && is_final
            }
            &&& entry_status(entry) == Some(AgentStatusKind::Running) <==> {
                ||| event == Some("task_started"@)
                ||| event == Some("user_message"@)
                ||| event == Some("agent_message"@) && !is_final
            }
        }),
{
    lemma_kinds_differ();
}

/// An item of a response says that the agent is done where it is a final answer of the
/// assistant; it says that the agent runs where it is any other message of the
/// assistant or one of the user, a call of a tool or its output, a thought, or a search
/// of the web. No other item tells a state.
pub proof fn law_states_of_response_items(entry: JsonView)
    requires
        entry.text_field("type"@) == Some("response_item"@),
    ensures
        ({
            let item = payload_text(entry, "type"@);
            let role = payload_text(entry, "role"@);
            let is_final = payload_text(entry, "phase"@) == Some("final_answer"@);
            &&& entry_status(entry) == Some(AgentStatusKind::Done) <==> item == Some("message"@)
                && role == Some("assistant"@) && is_final
            &&& entry_status(entry) == Some(AgentStatusKind::Running) <==> {
                ||| item == Some("message"@) && role == Some("assistant"@) && !is_final
                ||| item == Some("message"@) && role == Some("user"@)
                ||| item == Some("function_call"@)
                ||| item == Some("function_call_output"@)
                ||| item == Some("reasoning"@)
                ||| item == Some("custom_tool_call"@)
                ||| item == Some("custom_tool_call_output"@)
                ||| item == Some("web_search_call"@)
            }
        }),
{
    lemma_kinds_differ();
}

/// An entry of any other kind says that the agent runs where it is a message of the
/// user or the assistant, a call of a function or its output, or a thought; otherwise it
/// tells no state.
pub proof fn law_states_of_other_entries(entry: JsonView)
    requires
        entry.text_field("type"@) != Some("event_msg"@),
        entry.text_field("type"@) != Some("response_item"@),
    ensures
        ({
            let kind = entry.text_field("type"@);
            let role = entry.text_field("role"@);
            entry_status(entry) == if kind == Some("message"@) && (role == Some("user"@) || role
                == Some("assistant"@)) || kind == Some("function_call"@) || kind == Some(
                "function_call_output"@,
            ) || kind == Some("reasoning"@) {
                Some(AgentStatusKind::Running)
            } else {
                None
            }
        }),
{
    lemma_kinds_differ();
}

/// A call of a tool is an entry or an item of a response that calls a function, and an
/// item that calls a custom tool or searches the web; an output is none.
pub proof fn law_calls_of_tools(entry: JsonView)
    ensures
        ({
            let kind = entry.text_field("type"@);
            let item = payload_text(entry, "type"@);
            is_tool_call(entry) <==> {
                ||| kind == Some("function_call"@)
                ||| kind == Some("response_item"@) && (item == Some("function_call"@) || item
                    == Some("custom_tool_call"@) || item == Some("web_search_call"@))
            }
        }),
{
    lemma_kinds_differ();
}

/// The directory of a thread stands under `cwd` in the payload of an entry that opens
/// a session or a turn; no other entry tells it.
pub proof fn law_directories_of_entries(entry: JsonView, dir: Seq<char>)
    ensures
        entry_project_dir(entry) == Some(dir) <==> {
            &&& entry.text_field("type"@) == Some("session_meta"@) || entry.text_field("type"@)
                == Some("turn_context"@)
            &&& entry.field("payload"@) matches Some(payload) && payload.field("cwd"@) == Some(
                JsonView::Text(dir),
            )
        },
{
}

/// The first filled line is trimmed, and every line before it holds white space only;
/// there is none only where all lines do.
pub proof fn law_first_filled_line(lines: Seq<Seq<char>>)
    ensures
        match first_filled(lines) {
            Some(line) => line.len() > 0 && exists|i: int|
                0 <= i < lines.len() && line == trim(#[trigger] lines[i]) && forall|j: int|
                    0 <= j < i ==> trim(#[trigger] lines[j]).len() == 0,
            None => forall|i: int| 0 <= i < lines.len() ==> trim(#[trigger] lines[i]).len() == 0,
        },
    decreases lines.len(),
{
    if lines.len() > 0 {
        let rest = lines.drop_first();
        law_first_filled_line(rest);
        if trim(lines[0]).len() > 0 {
            assert(trim(lines[0]) == first_filled(lines)->0);
        } else {
            assert forall|i: int| 1 <= i < lines.len() implies #[trigger] lines[i] == rest[i - 1] by {}
            if first_filled(rest) is Some {
                let line = first_filled(rest)->0;
                let i = choose|i: int|
                    0 <= i < rest.len() && line == trim(#[trigger] rest[i]) && forall|j: int|
                        0 <= j < i ==> trim(#[trigger] rest[j]).len() == 0;
                assert(lines[i + 1] == rest[i]);
                assert forall|j: int| 0 <= j < i + 1 implies trim(#[trigger] lines[j]).len() == 0 by {
                    if j > 0 {
                        assert(trim(rest[j - 1]).len() == 0);
                    }
                }
            }
        }
    }
}

/// A text names a thread by its first filled line, cut to eighty characters, unless
/// that line begins with `<`, `{` or `# AGENTS.md`; a text without a filled line names
/// none.
pub proof fn law_names_in_texts(text: Seq<char>)
    ensures
        match first_filled(lines(text)) {
            Some(line) => if line[0] == '<' || line[0] == '{' || begins_with(line, "# AGENTS.md"@) {
                thread_name_of(text) is None
            } else {
                thread_name_of(text) == Some(
                    if line.len() <= 80 {
                        line
                    } else {
                        line.take(80)
                    },
                )
            },
            None => thread_name_of(text) is None,
        },
{
    lemma_first_filled(lines(text));
    reveal_strlit("<");
    reveal_strlit("{");
    match first_filled(lines(text)) {
        Some(line) => {
            assert(line.take(1) =~= seq![line[0]]);
            assert("<"@ =~= seq!['<']);
            assert("{"@ =~= seq!['{']);
            assert(seq![line[0]][0] == line[0]);
            assert(seq!['<'][0] == '<');
            assert(seq!['{'][0] == '{');
        },
        None => {},
    }
}

/// The parts of a content list are the texts of its items of type `input_text`, in
/// their order.
pub proof fn law_parts_of_content(items: Seq<JsonView>)
    ensures
        input_parts(items) == items.filter(
            |item: JsonView|
                item.text_field("type"@) == Some("input_text"@) && item.text_field("text"@) is Some,
        ).map_values(|item: JsonView| item.text_field("text"@)->0),
    decreases items.len(),
{
    let wanted = |item: JsonView|
        item.text_field("type"@) == Some("input_text"@) && item.text_field("text"@) is Some;
    let made = |item: JsonView| item.text_field("text"@)->0;
    reveal(Seq::filter);
    if items.len() > 0 {
        law_parts_of_content(items.drop_last());
        let front = items.drop_last().filter(wanted);
        if wanted(items.last()) {
            assert(front.push(items.last()).map_values(made) =~= front.map_values(made).push(
                made(items.last()),
            ));
        }
    } else {
        assert(items.filter(wanted).map_values(made) =~= input_parts(items));
    }
}

/// A thread is named by what its user writes: by the message of an event, and by the
/// content of a message of the user, in a response or on its own, the parts of which
/// stand on lines of their own. No other entry names it.
pub proof fn law_names_in_entries(entry: JsonView)
    ensures
        ({
            let kind = entry.text_field("type"@);
            let item = payload_text(entry, "type"@);
            let content = if kind == Some("response_item"@) {
                payload_field(entry, "content"@)
            } else {
                entry.field("content"@)
            };
            let by_user = if kind == Some("response_item"@) {
                item == Some("message"@) && payload_text(entry, "role"@) == Some("user"@)
            } else {
                kind == Some("message"@) && entry.text_field("role"@) == Some("user"@)
            };
            if kind == Some("event_msg"@) && item == Some("user_message"@) {
                match payload_text(entry, "message"@) {
                    Some(message) => entry_thread_name(entry) == thread_name_of(message),
                    None => entry_thread_name(entry) is None,
                }
            } else if by_user && content is Some && content->0 is List {
                entry_thread_name(entry) == thread_name_of(
                    join(input_parts(content->0->List_0), "\n"@),
                )
            } else {
                entry_thread_name(entry) is None
            }
        }),
{
    lemma_kinds_differ();
}

} // verus!
