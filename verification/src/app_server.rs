//! The conversation with an app server: requests as JSON-RPC texts, and what the
//! messages of the server mean to the request that waits.

use vstd::prelude::*;

use crate::json::{
    is_writable, json_of_text, json_text, no_fields, object_of, open_value, parse_json,
    parse_value, print_json, put_field, reads_back, take_field, value_text, Json, JsonView, Node,
};
use crate::text::{concat2, decimal, is_one_line};

verus! {

/// How many loaded threads are asked for.
pub const LOADED_LIMIT: u64 = 16;

// ---------------------------------------------------------------------------
// Requests
// ---------------------------------------------------------------------------
/// A number in a document.
pub open spec fn number_view(number: u64) -> JsonView {
    JsonView::Number(Some(number), decimal(number as nat))
}

/// A request.
pub open spec fn request_view(id: u64, method: Seq<char>, params: JsonView) -> JsonView {
    JsonView::Object(
        map![
            "jsonrpc"@ => JsonView::Text("2.0"@),
            "id"@ => number_view(id),
            "method"@ => JsonView::Text(method),
            "params"@ => params,
        ],
    )
}

/// What the client tells of itself: its name and version, and which notices it
/// does without.
pub open spec fn initialize_view(version: Seq<char>) -> JsonView {
    JsonView::Object(
        map![
            "clientInfo"@ => JsonView::Object(
                map!["name"@ => JsonView::Text("zeldex"@), "version"@ => JsonView::Text(version)],
            ),
            "capabilities"@ => JsonView::Object(
                map![
                    "experimentalApi"@ => JsonView::Bool(true),
                    "optOutNotificationMethods"@ => JsonView::List(
                        seq![
                            JsonView::Text("thread/started"@),
                            JsonView::Text("turn/started"@),
                            JsonView::Text("turn/completed"@),
                            JsonView::Text("thread/status/changed"@),
                        ],
                    ),
                ],
            ),
        ],
    )
}

/// What is asked of the list of loaded threads.
pub open spec fn loaded_list_view() -> JsonView {
    JsonView::Object(map!["limit"@ => number_view(LOADED_LIMIT)])
}

/// What is asked of a thread.
pub open spec fn thread_read_view(thread_id: Seq<char>) -> JsonView {
    JsonView::Object(
        map!["threadId"@ => JsonView::Text(thread_id), "includeTurns"@ => JsonView::Bool(false)],
    )
}

/// A request that waits for its answer, with the text to send.
#[derive(Clone, Debug)]
pub struct Request {
    pub id: u64,
    pub method: String,
    pub text: String,
}

/// Whether a request carries an id, a method and parameters; its text is one line
/// that reads back as just that.
pub open spec fn is_request(request: Request, id: u64, method: Seq<char>, params: JsonView) -> bool {
    &&& request.id == id
    &&& request.method@ == method
    &&& request.text@ == json_text(request_view(id, method, params))
    &&& is_one_line(request.text@)
    &&& json_of_text(request.text@) == Some(request_view(id, method, params))
}

/// One conversation; its requests are numbered from one on.
#[derive(Debug)]
pub struct AppServerSession {
    next_id: u64,
}

impl View for AppServerSession {
    type V = u64;

    /// The number of the next request.
    closed spec fn view(&self) -> u64 {
        self.next_id
    }
}

impl AppServerSession {
    /// A conversation before its first request.
    pub fn new() -> (session: AppServerSession)
        ensures
            session@ == 1,
    {
        AppServerSession { next_id: 1 }
    }

    /// Whether there is a number left for another request.
    pub fn can_request(&self) -> (can: bool)
        ensures
            can == (self@ < u64::MAX),
    {
        self.next_id < u64::MAX
    }

    fn request(&mut self, method: &str, params: Json) -> (request: Request)
        requires
            old(self)@ < u64::MAX,
            is_writable(params),
            reads_back(params@, 126),
        ensures
            is_request(request, old(self)@, method@, params@),
            final(self)@ == old(self)@ + 1,
    {
        let id = self.next_id;
        self.next_id += 1;
        proof {
            reveal_strlit("jsonrpc");
            reveal_strlit("id");
            reveal_strlit("method");
            reveal_strlit("params");
            assert("jsonrpc"@.len() == 7 && "id"@.len() == 2 && "method"@.len() == 6
                && "params"@.len() == 6);
            assert("method"@[0] != "params"@[0]);
        }
        let mut fields = no_fields();
        put_field(&mut fields, "jsonrpc", Json::from_text("2.0"));
        put_field(&mut fields, "id", Json::from_unsigned(id));
        put_field(&mut fields, "method", Json::from_text(method));
        put_field(&mut fields, "params", params);
        let whole = object_of(fields);
        proof {
            assert(whole@ == request_view(id, method@, params@));
            assert(reads_back(JsonView::Text("2.0"@), 126));
            assert(reads_back(number_view(id), 126));
            assert(reads_back(JsonView::Text(method@), 126));
            assert(reads_back(whole@, 127));
        }
        Request { id, method: method.to_owned(), text: print_json(&whole) }
    }

    /// The request that opens the conversation.
    pub fn initialize(&mut self, version: &str) -> (request: Request)
        requires
            old(self)@ < u64::MAX,
        ensures
            is_request(request, old(self)@, "initialize"@, initialize_view(version@)),
            final(self)@ == old(self)@ + 1,
    {
        let params = initialize_params(version);
        self.request("initialize", params)
    }

    /// The request for the list of loaded threads.
    pub fn list_loaded(&mut self) -> (request: Request)
        requires
            old(self)@ < u64::MAX,
        ensures
            is_request(request, old(self)@, "thread/loaded/list"@, loaded_list_view()),
            final(self)@ == old(self)@ + 1,
    {
        let mut fields = no_fields();
        put_field(&mut fields, "limit", Json::from_unsigned(LOADED_LIMIT));
        let params = object_of(fields);
        proof {
            assert(params@ == loaded_list_view());
            assert(reads_back(number_view(LOADED_LIMIT), 125));
            assert(reads_back(params@, 126));
        }
        self.request("thread/loaded/list", params)
    }

    /// The request for a thread, without its turns.
    pub fn read_thread(&mut self, thread_id: &str) -> (request: Request)
        requires
            old(self)@ < u64::MAX,
        ensures
            is_request(request, old(self)@, "thread/read"@, thread_read_view(thread_id@)),
            final(self)@ == old(self)@ + 1,
    {
        proof {
            reveal_strlit("threadId");
            reveal_strlit("includeTurns");
            assert("threadId"@.len() != "includeTurns"@.len());
        }
        let mut fields = no_fields();
        put_field(&mut fields, "threadId", Json::from_text(thread_id));
        put_field(&mut fields, "includeTurns", Json::Bool(false));
        let params = object_of(fields);
        proof {
            assert(params@ == thread_read_view(thread_id@));
            assert(reads_back(JsonView::Text(thread_id@), 125));
            assert(reads_back(JsonView::Bool(false), 125));
            assert(reads_back(params@, 126));
        }
        self.request("thread/read", params)
    }
}

fn unwanted_notices() -> (list: Json)
    ensures
        list@ == JsonView::List(
            seq![
                JsonView::Text("thread/started"@),
                JsonView::Text("turn/started"@),
                JsonView::Text("turn/completed"@),
                JsonView::Text("thread/status/changed"@),
            ],
        ),
        is_writable(list),
{
    let mut items: Vec<Json> = Vec::new();
    items.push(Json::from_text("thread/started"));
    items.push(Json::from_text("turn/started"));
    items.push(Json::from_text("turn/completed"));
    items.push(Json::from_text("thread/status/changed"));
    let list = Json::List(items);
    proof {
        assert(list@->List_0 =~= seq![
            JsonView::Text("thread/started"@),
            JsonView::Text("turn/started"@),
            JsonView::Text("turn/completed"@),
            JsonView::Text("thread/status/changed"@),
        ]);
    }
    list
}

fn initialize_params(version: &str) -> (params: Json)
    ensures
        params@ == initialize_view(version@),
        is_writable(params),
        reads_back(params@, 126),
{
    proof {
        reveal_strlit("name");
        reveal_strlit("version");
        reveal_strlit("experimentalApi");
        reveal_strlit("optOutNotificationMethods");
        reveal_strlit("clientInfo");
        reveal_strlit("capabilities");
        assert("name"@.len() != "version"@.len());
        assert("experimentalApi"@.len() != "optOutNotificationMethods"@.len());
        assert("clientInfo"@.len() != "capabilities"@.len());
    }
    let mut info = no_fields();
    put_field(&mut info, "name", Json::from_text("zeldex"));
    put_field(&mut info, "version", Json::from_text(version));
    let client = object_of(info);
    let notices = unwanted_notices();
    let mut able = no_fields();
    put_field(&mut able, "experimentalApi", Json::Bool(true));
    put_field(&mut able, "optOutNotificationMethods", notices);
    let capabilities = object_of(able);
    let mut fields = no_fields();
    put_field(&mut fields, "clientInfo", client);
    put_field(&mut fields, "capabilities", capabilities);
    let params = object_of(fields);
    proof {
        assert(params@ == initialize_view(version@));
        assert(reads_back(JsonView::Text("zeldex"@), 124));
        assert(reads_back(JsonView::Text(version@), 124));
        assert(reads_back(client@, 125));
        assert forall|i: int| 0 <= i < notices@->List_0.len() implies reads_back(
            #[trigger] notices@->List_0[i],
            123,
        ) by {
            assert(notices@->List_0[i] is Text);
        }
        assert(reads_back(notices@, 124));
        assert(reads_back(JsonView::Bool(true), 124));
        assert(reads_back(capabilities@, 125));
        assert(reads_back(params@, 126));
    }
    params
}

// ---------------------------------------------------------------------------
// Answers
// ---------------------------------------------------------------------------
/// What a message means to the request that waits.
#[derive(Clone, Copy, Debug, PartialEq, Eq, Structural)]
pub enum Verdict {
    /// It answers another request, or none.
    Unrelated,
    /// It holds an error.
    Failed,
    /// It holds neither an error nor a result.
    Empty,
    /// It holds a result.
    Answered,
}

/// What a message means to the request with an id.
pub open spec fn verdict_of(message: JsonView, id: u64) -> Verdict {
    let answers = match message.field("id"@) {
        Some(value) => value.unsigned() == Some(id),
        None => false,
    };
    if !answers {
        Verdict::Unrelated
    } else if message.field("error"@) is Some {
        Verdict::Failed
    } else if message.field("result"@) is Some {
        Verdict::Answered
    } else {
        Verdict::Empty
    }
}

/// What a message means to the request with an id.
pub fn judge(message: &Json, id: u64) -> (verdict: Verdict)
    ensures
        verdict == verdict_of(message@, id),
{
    let answers = match message.get("id") {
        Some(value) => match value.as_u64() {
            Some(number) => number == id,
            None => false,
        },
        None => false,
    };
    if !answers {
        Verdict::Unrelated
    } else if message.get("error").is_some() {
        Verdict::Failed
    } else if message.get("result").is_some() {
        Verdict::Answered
    } else {
        Verdict::Empty
    }
}

/// What becomes of the request that waits.
#[derive(Debug, PartialEq, Eq)]
pub enum Reply {
    /// The message is no JSON.
    Undecodable,
    /// The request waits on.
    Unrelated,
    /// The request failed, for the reason given.
    Failed(String),
    /// The request has its result.
    Answered(Json),
}

/// What a `Reply` says.
pub enum ReplyView {
    Undecodable,
    Unrelated,
    Failed(Seq<char>),
    Answered(JsonView),
}

impl View for Reply {
    type V = ReplyView;

    open spec fn view(&self) -> ReplyView {
        match *self {
            Reply::Undecodable => ReplyView::Undecodable,
            Reply::Unrelated => ReplyView::Unrelated,
            Reply::Failed(reason) => ReplyView::Failed(reason@),
            Reply::Answered(result) => ReplyView::Answered(result@),
        }
    }
}

/// What becomes of the request that waits when a message comes, given the text of
/// the error in the message.
pub open spec fn conclusion(
    message: JsonView,
    id: u64,
    method: Seq<char>,
    error: Seq<char>,
) -> ReplyView {
    match verdict_of(message, id) {
        Verdict::Unrelated => ReplyView::Unrelated,
        Verdict::Failed => ReplyView::Failed(
            "app-server error for "@ + method + ": "@ + error,
        ),
        Verdict::Empty => ReplyView::Failed("missing result for "@ + method),
        Verdict::Answered => ReplyView::Answered(message.field("result"@)->0),
    }
}

/// What becomes of the request that waits when a text comes.
pub open spec fn reply_to(text: Seq<char>, id: u64, method: Seq<char>) -> ReplyView {
    match json_of_text(text) {
        None => ReplyView::Undecodable,
        Some(message) => conclusion(
            message,
            id,
            method,
            json_text(message.field("error"@)->0),
        ),
    }
}

/// What becomes of the request that waits when a message comes, given the text of
/// the error in the message, where there is one.
pub fn conclude(message: Json, id: u64, method: &str, error: &str) -> (reply: Reply)
    ensures
        reply@ == conclusion(message@, id, method@, error@),
{
    match judge(&message, id) {
        Verdict::Unrelated => Reply::Unrelated,
        Verdict::Failed => {
            let subject = concat2("app-server error for ", method);
            let start = concat2(subject.as_str(), ": ");
            Reply::Failed(concat2(start.as_str(), error))
        },
        Verdict::Empty => Reply::Failed(concat2("missing result for ", method)),
        Verdict::Answered => match message.into_field("result") {
            Some(result) => Reply::Answered(result),
            None => Reply::Unrelated,
        },
    }
}

/// The text of the error that a message holds.
fn error_text(text: &str) -> (error: String)
    requires
        json_of_text(text@) is Some,
        json_of_text(text@)->0.field("error"@) is Some,
    ensures
        error@ == json_text(json_of_text(text@)->0.field("error"@)->0),
{
    match parse_value(text) {
        Ok(value) => match open_value(value) {
            Node::Object(fields) => match take_field(fields, "error") {
                Some(error) => value_text(&error),
                None => String::new(),
            },
            _ => String::new(),
        },
        Err(_) => String::new(),
    }
}

impl Request {
    /// What becomes of the request when a text comes.
    pub fn receive(&self, text: &str) -> (reply: Reply)
        ensures
            reply@ == reply_to(text@, self.id, self.method@),
    {
        match parse_json(text) {
            None => Reply::Undecodable,
            Some(message) => {
                let error = if judge(&message, self.id) == Verdict::Failed {
                    error_text(text)
                } else {
                    String::new()
                };
                conclude(message, self.id, self.method.as_str(), error.as_str())
            },
        }
    }
}

// ---------------------------------------------------------------------------
// Laws
// ---------------------------------------------------------------------------
/// A message that does not carry the id of a request never ends it, whatever
/// else the message holds.
pub proof fn law_only_own_messages_end_a_request(text: Seq<char>, id: u64, method: Seq<char>)
    ensures
        reply_to(text, id, method) is Answered || reply_to(text, id, method) is Failed ==> {
            &&& json_of_text(text) is Some
            &&& json_of_text(text)->0.field("id"@) is Some
            &&& json_of_text(text)->0.field("id"@)->0.unsigned() == Some(id)
        },
{
}

/// No message ends two requests with different ids.
pub proof fn law_a_message_ends_one_request(
    text: Seq<char>,
    a: u64,
    b: u64,
    first: Seq<char>,
    second: Seq<char>,
)
    requires
        a != b,
    ensures
        !((reply_to(text, a, first) is Answered || reply_to(text, a, first) is Failed) && (reply_to(
            text,
            b,
            second,
        ) is Answered || reply_to(text, b, second) is Failed)),
{
}

/// A text that is no JSON cannot be decoded. A message without the id of a request does
/// not concern it. One with the id ends it: with the text of the error where there is
/// one, else with the result where there is one, else as a request without a result.
pub proof fn law_replies(text: Seq<char>, id: u64, method: Seq<char>)
    ensures
        ({
            let reply = reply_to(text, id, method);
            match json_of_text(text) {
                None => reply is Undecodable,
                Some(message) => {
                    let own = message.field("id"@) is Some && message.field("id"@)->0.unsigned()
                        == Some(id);
                    &&& !own ==> reply is Unrelated
                    &&& own && message.field("error"@) is Some ==> reply == ReplyView::Failed(
                        "app-server error for "@ + method + ": "@ + json_text(
                            message.field("error"@)->0,
                        ),
                    )
                    &&& own && message.field("error"@) is None ==> match message.field("result"@) {
                        Some(result) => reply == ReplyView::Answered(result),
                        None => reply == ReplyView::Failed("missing result for "@ + method),
                    }
                },
            }
        }),
{
}

/// What becomes of a request depends on a message in just that way, with the text of
/// the error as it is given.
pub proof fn law_conclusions(message: JsonView, id: u64, method: Seq<char>, error: Seq<char>)
    ensures
        ({
            let reply = conclusion(message, id, method, error);
            let own = message.field("id"@) is Some && message.field("id"@)->0.unsigned() == Some(
                id,
            );
            &&& verdict_of(message, id) is Unrelated <==> !own
            &&& verdict_of(message, id) is Failed <==> own && message.field("error"@) is Some
            &&& verdict_of(message, id) is Answered <==> own && message.field("error"@) is None
                && message.field("result"@) is Some
            &&& !own ==> reply is Unrelated
            &&& own && message.field("error"@) is Some ==> reply == ReplyView::Failed(
                "app-server error for "@ + method + ": "@ + error,
            )
            &&& own && message.field("error"@) is None ==> match message.field("result"@) {
                Some(result) => reply == ReplyView::Answered(result),
                None => reply == ReplyView::Failed("missing result for "@ + method),
            }
        }),
{
}

/// A request carries the version of the protocol, its id, its method and its
/// parameters, and nothing else.
pub proof fn law_request_fields(id: u64, method: Seq<char>, params: JsonView, key: Seq<char>)
    ensures
        ({
            let request = request_view(id, method, params);
            &&& request.field("jsonrpc"@) == Some(JsonView::Text("2.0"@))
            &&& request.field("id"@) is Some && request.field("id"@)->0.unsigned() == Some(id)
            &&& request.field("method"@) == Some(JsonView::Text(method))
            &&& request.field("params"@) == Some(params)
            &&& request.field(key) is Some ==> key == "jsonrpc"@ || key == "id"@ || key
                == "method"@ || key == "params"@
        }),
{
    reveal_strlit("jsonrpc");
    reveal_strlit("id");
    reveal_strlit("method");
    reveal_strlit("params");
    assert("jsonrpc"@.len() == 7 && "id"@.len() == 2 && "method"@.len() == 6 && "params"@.len()
        == 6);
    assert("method"@[0] != "params"@[0]);
}

/// A thread is asked for by its id, without its turns, and the list of loaded threads
/// with a limit of sixteen.
pub proof fn law_thread_requests(thread_id: Seq<char>)
    ensures
        thread_read_view(thread_id).field("threadId"@) == Some(JsonView::Text(thread_id)),
        thread_read_view(thread_id).field("includeTurns"@) == Some(JsonView::Bool(false)),
        loaded_list_view().field("limit"@) is Some,
        loaded_list_view().field("limit"@)->0.unsigned() == Some(16u64),
{
    reveal_strlit("threadId");
    reveal_strlit("includeTurns");
    assert("threadId"@.len() != "includeTurns"@.len());
}

/// The client gives its name and version, asks for the experimental interface, and does
/// without the notices of threads and turns.
pub proof fn law_opening_request(version: Seq<char>)
    ensures
        ({
            let params = initialize_view(version);
            let client = params.field("clientInfo"@);
            let able = params.field("capabilities"@);
            &&& client is Some && client->0.text_field("name"@) == Some("zeldex"@)
            &&& client->0.text_field("version"@) == Some(version)
            &&& able is Some && able->0.field("experimentalApi"@) == Some(JsonView::Bool(true))
            &&& able->0.field("optOutNotificationMethods"@) == Some(
                JsonView::List(
                    seq![
                        JsonView::Text("thread/started"@),
                        JsonView::Text("turn/started"@),
                        JsonView::Text("turn/completed"@),
                        JsonView::Text("thread/status/changed"@),
                    ],
                ),
            )
        }),
{
    reveal_strlit("name");
    reveal_strlit("version");
    reveal_strlit("experimentalApi");
    reveal_strlit("optOutNotificationMethods");
    reveal_strlit("clientInfo");
    reveal_strlit("capabilities");
    assert("name"@.len() != "version"@.len());
    assert("experimentalApi"@.len() != "optOutNotificationMethods"@.len());
    assert("clientInfo"@.len() != "capabilities"@.len());
}

/// A request that waits has its id and its method, and its text is one line that reads
/// back as a request with that id, that method and its parameters.
pub proof fn law_request_reads_back(
    request: Request,
    id: u64,
    method: Seq<char>,
    params: JsonView,
)
    requires
        is_request(request, id, method, params),
    ensures
        request.id == id,
        request.method@ == method,
        forall|i: int|
            0 <= i < request.text@.len() ==> #[trigger] request.text@[i] != '\n' && request.text@[i]
                != '\r',
        json_of_text(request.text@) matches Some(read) && {
            &&& read.field("id"@) is Some && read.field("id"@)->0.unsigned() == Some(id)
            &&& read.field("method"@) == Some(JsonView::Text(method))
            &&& read.field("params"@) == Some(params)
        },
        request.text@ == json_text(request_view(id, method, params)),
{
    law_request_fields(id, method, params, method);
}

} // verus!
