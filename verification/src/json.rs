//! JSON documents as plain trees, read and written with `serde_json`.

use vstd::prelude::*;

use crate::text::{decimal, decimal_text, is_one_line, same_text};

verus! {

// ---------------------------------------------------------------------------
// Models
// ---------------------------------------------------------------------------
/// What a JSON document holds.
///
/// A number is kept as its text, together with its value where that is an
/// unsigned integer.
pub enum JsonView {
    Null,
    Bool(bool),
    Number(Option<u64>, Seq<char>),
    Text(Seq<char>),
    List(Seq<JsonView>),
    Object(Map<Seq<char>, JsonView>),
}

impl JsonView {
    /// The value under `key`, where the document is an object that has it.
    pub open spec fn field(self, key: Seq<char>) -> Option<JsonView> {
        match self {
            JsonView::Object(fields) => if fields.dom().contains(key) {
                Some(fields[key])
            } else {
                None
            },
            _ => None,
        }
    }

    /// The text, where the document is one.
    pub open spec fn text(self) -> Option<Seq<char>> {
        match self {
            JsonView::Text(text) => Some(text),
            _ => None,
        }
    }

    /// The elements, where the document is a list.
    pub open spec fn items(self) -> Option<Seq<JsonView>> {
        match self {
            JsonView::List(items) => Some(items),
            _ => None,
        }
    }

    /// The number, where the document is an unsigned integer.
    pub open spec fn unsigned(self) -> Option<u64> {
        match self {
            JsonView::Number(unsigned, _) => unsigned,
            _ => None,
        }
    }

    /// The text under `key`, where there is one.
    pub open spec fn text_field(self, key: Seq<char>) -> Option<Seq<char>> {
        match self.field(key) {
            Some(value) => value.text(),
            None => None,
        }
    }
}

/// Whether the text under `key` is `expected`.
pub open spec fn text_field_is(json: JsonView, key: Seq<char>, expected: Seq<char>) -> bool {
    json.text_field(key) == Some(expected)
}

/// Whether every number of a document is an unsigned integer, and its lists and
/// objects are nested at most `depth` levels deep.
pub open spec fn reads_back(json: JsonView, depth: nat) -> bool
    decreases depth,
{
    match json {
        JsonView::Number(unsigned, _) => unsigned is Some,
        JsonView::List(items) => depth > 0 && forall|i: int|
            0 <= i < items.len() ==> reads_back(#[trigger] items[i], (depth - 1) as nat),
        JsonView::Object(fields) => depth > 0 && forall|key: Seq<char>|
            fields.dom().contains(key) ==> reads_back(#[trigger] fields[key], (depth - 1) as nat),
        _ => true,
    }
}

/// A JSON document. A number is given as an unsigned integer, where it is one, and
/// by its text. Of the fields of an object with one key, the first counts.
#[derive(Debug, PartialEq, Eq)]
pub enum Json {
    Null,
    Bool(bool),
    Number(Option<u64>, String),
    Text(String),
    List(Vec<Json>),
    Object(Vec<(String, Json)>),
}

/// What the items of a list say.
pub open spec fn list_model(items: Seq<Json>) -> Seq<JsonView>
    decreases items,
{
    Seq::new(
        items.len(),
        |i: int|
            if 0 <= i < items.len() {
                json_model(items[i])
            } else {
                JsonView::Null
            },
    )
}

/// What the fields of an object say.
pub open spec fn object_model(fields: Seq<(String, Json)>) -> Map<Seq<char>, JsonView>
    decreases fields, fields.len(),
{
    if fields.len() == 0 {
        Map::empty()
    } else {
        object_model(fields.drop_first()).insert(fields[0].0@, json_model(fields[0].1))
    }
}

/// What a document says.
pub open spec fn json_model(json: Json) -> JsonView
    decreases json,
{
    match json {
        Json::Null => JsonView::Null,
        Json::Bool(flag) => JsonView::Bool(flag),
        Json::Number(unsigned, text) => JsonView::Number(unsigned, text@),
        Json::Text(text) => JsonView::Text(text@),
        Json::List(items) => JsonView::List(list_model(items@)),
        Json::Object(fields) => JsonView::Object(object_model(fields@)),
    }
}

impl View for Json {
    type V = JsonView;

    open spec fn view(&self) -> JsonView {
        json_model(*self)
    }
}

/// Whether no key stands twice among the fields of an object.
pub open spec fn keys_differ(fields: Seq<(String, Json)>) -> bool {
    forall|i: int, j: int|
        0 <= i < j < fields.len() ==> (#[trigger] fields[i]).0@ != (#[trigger] fields[j]).0@
}

/// Whether a document can be written: its numbers are unsigned integers, and no
/// key of an object stands twice.
pub open spec fn is_writable(json: Json) -> bool
    decreases json,
{
    match json {
        Json::Number(unsigned, text) => unsigned is Some && text@ == decimal(unsigned->0 as nat),
        Json::List(items) => forall|i: int|
            0 <= i < items@.len() ==> is_writable(#[trigger] items@[i]),
        Json::Object(fields) => keys_differ(fields@) && forall|i: int|
            0 <= i < fields@.len() ==> is_writable((#[trigger] fields@[i]).1),
        _ => true,
    }
}

// ---------------------------------------------------------------------------
// serde_json
// ---------------------------------------------------------------------------
/// A document as `serde_json` holds it.
#[verifier::external_type_specification]
#[verifier::external_body]
pub struct ExValue(serde_json::Value);

/// Why `serde_json` refused a text.
#[verifier::external_type_specification]
#[verifier::external_body]
pub struct ExError(serde_json::Error);

/// What a `serde_json::Value` holds.
pub uninterp spec fn json_of(value: serde_json::Value) -> JsonView;

/// The document that `serde_json::from_str` reads from a text; `None` where it
/// refuses the text.
pub uninterp spec fn json_of_text(text: Seq<char>) -> Option<JsonView>;

/// The text in which `serde_json::Value::to_string` writes a document.
pub uninterp spec fn json_text(json: JsonView) -> Seq<char>;

/// The outermost layer of a document.
pub(crate) enum Node {
    Null,
    Bool(bool),
    Number(Option<u64>, String),
    Text(String),
    List(Vec<serde_json::Value>),
    Object(Vec<(String, serde_json::Value)>),
}

/// What the fields of a layer say.
pub(crate) open spec fn node_fields(fields: Seq<(String, serde_json::Value)>) -> Map<
    Seq<char>,
    JsonView,
>
    decreases fields.len(),
{
    if fields.len() == 0 {
        Map::empty()
    } else {
        node_fields(fields.drop_first()).insert(fields[0].0@, json_of(fields[0].1))
    }
}

/// What a layer says.
pub(crate) open spec fn node_model(node: Node) -> JsonView {
    match node {
        Node::Null => JsonView::Null,
        Node::Bool(flag) => JsonView::Bool(flag),
        Node::Number(unsigned, text) => JsonView::Number(unsigned, text@),
        Node::Text(text) => JsonView::Text(text@),
        Node::List(items) => JsonView::List(
            items@.map_values(|value: serde_json::Value| json_of(value)),
        ),
        Node::Object(fields) => JsonView::Object(node_fields(fields@)),
    }
}

/// Whether no key stands twice among the fields of a layer.
pub(crate) open spec fn distinct_keys(fields: Seq<(String, serde_json::Value)>) -> bool {
    forall|i: int, j: int|
        0 <= i < j < fields.len() ==> (#[trigger] fields[i]).0@ != (#[trigger] fields[j]).0@
}

/// `serde_json::from_str`: reads a document from a text, or refuses the text. Which
/// texts are documents, and of what, is left unsaid.
#[verifier::external_body]
pub(crate) fn parse_value(text: &str) -> (parsed: Result<serde_json::Value, serde_json::Error>)
    ensures
        match parsed {
            Ok(value) => json_of_text(text@) == Some(json_of(value)),
            Err(_) => json_of_text(text@) is None,
        },
{
    serde_json::from_str(text)
}

/// Takes the outermost layer of a `serde_json::Value` apart. A number is given
/// by `Number::as_u64` and by its text; the keys of an object are all different.
#[verifier::external_body]
pub(crate) fn open_value(value: serde_json::Value) -> (node: Node)
    ensures
        node_model(node) == json_of(value),
        node matches Node::Object(fields) ==> distinct_keys(fields@),
{
    match value {
        serde_json::Value::Null => Node::Null,
        serde_json::Value::Bool(flag) => Node::Bool(flag),
        serde_json::Value::Number(number) => Node::Number(number.as_u64(), number.to_string()),
        serde_json::Value::String(text) => Node::Text(text),
        serde_json::Value::Array(items) => Node::List(items),
        serde_json::Value::Object(fields) => Node::Object(fields.into_iter().collect()),
    }
}

/// Puts a `serde_json::Value` together from its outermost layer. A number is an
/// unsigned integer, whose text `serde_json` writes in decimal notation.
#[verifier::external_body]
fn close_node(node: Node) -> (value: serde_json::Value)
    requires
        node matches Node::Number(unsigned, text) ==> unsigned is Some && text@ == decimal(
            unsigned->0 as nat,
        ),
        node matches Node::Object(fields) ==> distinct_keys(fields@),
    ensures
        json_of(value) == node_model(node),
{
    match node {
        Node::Null => serde_json::Value::Null,
        Node::Bool(flag) => serde_json::Value::Bool(flag),
        Node::Number(unsigned, _) => serde_json::Value::from(unsigned),
        Node::Text(text) => serde_json::Value::String(text),
        Node::List(items) => serde_json::Value::Array(items),
        Node::Object(fields) => serde_json::Value::Object(fields.into_iter().collect()),
    }
}

/// `serde_json::Value::to_string`: the compact text of a document, which is one
/// line, as control characters are escaped. Where the numbers are unsigned
/// integers and the nesting stays below the limit of `serde_json::from_str`,
/// reading the text gives the document back. How the text is spelled is left
/// unsaid otherwise.
#[verifier::external_body]
pub(crate) fn value_text(value: &serde_json::Value) -> (text: String)
    ensures
        text@ == json_text(json_of(*value)),
        is_one_line(text@),
        reads_back(json_of(*value), 127) ==> json_of_text(text@) == Some(json_of(*value)),
{
    value.to_string()
}

// ---------------------------------------------------------------------------
// Reading
// ---------------------------------------------------------------------------
proof fn lemma_fields_finite(fields: Seq<(String, serde_json::Value)>)
    ensures
        node_fields(fields).dom().finite(),
    decreases fields.len(),
{
    if fields.len() > 0 {
        lemma_fields_finite(fields.drop_first());
    }
}

proof fn lemma_node_field(fields: Seq<(String, serde_json::Value)>, i: int)
    requires
        0 <= i < fields.len(),
        distinct_keys(fields),
    ensures
        node_fields(fields).dom().contains(fields[i].0@),
        node_fields(fields)[fields[i].0@] == json_of(fields[i].1),
    decreases fields.len(),
{
    if i > 0 {
        lemma_node_field(fields.drop_first(), i - 1);
        assert(fields[0].0@ != fields[i].0@);
    }
}

proof fn lemma_fields_agree(trees: Seq<(String, Json)>, fields: Seq<(String, serde_json::Value)>)
    requires
        trees.len() == fields.len(),
        forall|i: int|
            0 <= i < trees.len() ==> (#[trigger] trees[i]).0@ == fields[i].0@ && trees[i].1@
                == json_of(fields[i].1),
    ensures
        object_model(trees) == node_fields(fields),
    decreases trees.len(),
{
    if trees.len() > 0 {
        lemma_fields_agree(trees.drop_first(), fields.drop_first());
        assert(trees[0].1@ == json_of(fields[0].1));
    }
}

/// The plain tree of a document.
pub(crate) fn tree_of(value: serde_json::Value) -> (json: Json)
    ensures
        json@ == json_of(value),
    decreases json_of(value),
{
    let ghost whole = json_of(value);
    match open_value(value) {
        Node::Null => Json::Null,
        Node::Bool(flag) => Json::Bool(flag),
        Node::Number(unsigned, text) => Json::Number(unsigned, text),
        Node::Text(text) => Json::Text(text),
        Node::List(items) => {
            let ghost all = items@;
            let mut trees: Vec<Json> = Vec::new();
            for item in it: items
                invariant
                    it.seq() == all,
                    whole == json_of(value),
                    whole == JsonView::List(
                        all.map_values(|inner: serde_json::Value| json_of(inner)),
                    ),
                    trees@.len() == it.index(),
                    forall|i: int|
                        0 <= i < trees@.len() ==> (#[trigger] trees@[i])@ == json_of(all[i]),
            {
                assert(json_of(item) == whole->List_0[it.index()]);
                assert(decreases_to!(whole => whole->List_0));
                assert(decreases_to!(whole->List_0 => whole->List_0[it.index()]));
                trees.push(tree_of(item));
            }
            assert(list_model(trees@) =~= all.map_values(
                |inner: serde_json::Value| json_of(inner),
            ));
            Json::List(trees)
        },
        Node::Object(fields) => {
            let ghost all = fields@;
            let mut trees: Vec<(String, Json)> = Vec::new();
            for field in it: fields
                invariant
                    it.seq() == all,
                    whole == json_of(value),
                    distinct_keys(all),
                    whole == JsonView::Object(node_fields(all)),
                    trees@.len() == it.index(),
                    forall|i: int|
                        0 <= i < trees@.len() ==> (#[trigger] trees@[i]).0@ == all[i].0@
                            && trees@[i].1@ == json_of(all[i].1),
            {
                let (key, inner) = field;
                proof {
                    lemma_fields_finite(all);
                    lemma_node_field(all, it.index());
                    assert(decreases_to!(whole => whole->Object_0));
                    assert(decreases_to!(whole->Object_0 => whole->Object_0[key@]));
                }
                trees.push((key, tree_of(inner)));
            }
            proof {
                lemma_fields_agree(trees@, all);
            }
            Json::Object(trees)
        },
    }
}

/// Reads a document from a text; `None` where the text is not JSON.
pub fn parse_json(text: &str) -> (parsed: Option<Json>)
    ensures
        match parsed {
            Some(json) => json_of_text(text@) == Some(json@),
            None => json_of_text(text@) is None,
        },
{
    match parse_value(text) {
        Ok(value) => Some(tree_of(value)),
        Err(_) => None,
    }
}

/// Takes the value under `key` out of the fields of a layer.
pub(crate) fn take_field(
    fields: Vec<(String, serde_json::Value)>,
    key: &str,
) -> (found: Option<serde_json::Value>)
    ensures
        match found {
            Some(value) => JsonView::Object(node_fields(fields@)).field(key@) == Some(
                json_of(value),
            ),
            None => JsonView::Object(node_fields(fields@)).field(key@) is None,
        },
{
    let ghost all = fields@;
    proof {
        assert(all.skip(0) =~= all);
    }
    for field in it: fields
        invariant
            it.seq() == all,
            JsonView::Object(node_fields(all)).field(key@) == JsonView::Object(
                node_fields(all.skip(it.index())),
            ).field(key@),
    {
        let (name, value) = field;
        proof {
            assert(all.skip(it.index()).drop_first() =~= all.skip(it.index() + 1));
        }
        if same_text(name.as_str(), key) {
            return Some(value);
        }
    }
    proof {
        assert(all.skip(all.len() as int) =~= Seq::<(String, serde_json::Value)>::empty());
    }
    None
}

impl Json {
    /// A text.
    pub fn from_text(text: &str) -> (json: Json)
        ensures
            json@ == JsonView::Text(text@),
            is_writable(json),
    {
        Json::Text(text.to_owned())
    }

    /// An unsigned integer.
    pub fn from_unsigned(number: u64) -> (json: Json)
        ensures
            json@ == JsonView::Number(Some(number), decimal(number as nat)),
            is_writable(json),
    {
        Json::Number(Some(number), decimal_text(number))
    }

    /// The value under `key`, where the document is an object that has it.
    pub fn get(&self, key: &str) -> (found: Option<&Json>)
        ensures
            match found {
                Some(value) => self@.field(key@) == Some(value@),
                None => self@.field(key@) is None,
            },
    {
        match self {
            Json::Object(fields) => {
                let mut i: usize = 0;
                proof {
                    assert(fields@.skip(0) =~= fields@);
                }
                while i < fields.len()
                    invariant
                        i <= fields@.len(),
                        self@ == JsonView::Object(object_model(fields@)),
                        JsonView::Object(object_model(fields@)).field(key@) == JsonView::Object(
                            object_model(fields@.skip(i as int)),
                        ).field(key@),
                    decreases fields@.len() - i,
                {
                    proof {
                        assert(fields@.skip(i as int).drop_first() =~= fields@.skip(i + 1));
                        assert(fields@.skip(i as int)[0] == fields@[i as int]);
                    }
                    if same_text(fields[i].0.as_str(), key) {
                        return Some(&fields[i].1);
                    }
                    i += 1;
                }
                proof {
                    assert(fields@.skip(i as int) =~= Seq::<(String, Json)>::empty());
                }
                None
            },
            _ => None,
        }
    }

    /// Takes the value under `key` out of the document.
    pub fn into_field(self, key: &str) -> (found: Option<Json>)
        ensures
            match found {
                Some(value) => self@.field(key@) == Some(value@),
                None => self@.field(key@) is None,
            },
    {
        match self {
            Json::Object(fields) => {
                let ghost all = fields@;
                proof {
                    assert(all.skip(0) =~= all);
                }
                for field in it: fields
                    invariant
                        it.seq() == all,
                        self@ == JsonView::Object(object_model(all)),
                        JsonView::Object(object_model(all)).field(key@) == JsonView::Object(
                            object_model(all.skip(it.index())),
                        ).field(key@),
                {
                    let (name, value) = field;
                    proof {
                        assert(all.skip(it.index()).drop_first() =~= all.skip(it.index() + 1));
                    }
                    if same_text(name.as_str(), key) {
                        return Some(value);
                    }
                }
                proof {
                    assert(all.skip(all.len() as int) =~= Seq::<(String, Json)>::empty());
                }
                None
            },
            _ => None,
        }
    }

    /// The text, where the document is one.
    pub fn as_str(&self) -> (found: Option<&str>)
        ensures
            match found {
                Some(text) => self@.text() == Some(text@),
                None => self@.text() is None,
            },
    {
        match self {
            Json::Text(text) => Some(text.as_str()),
            _ => None,
        }
    }

    /// The elements, where the document is a list.
    pub fn as_list(&self) -> (found: Option<&Vec<Json>>)
        ensures
            match found {
                Some(items) => self@.items() == Some(list_model(items@)),
                None => self@.items() is None,
            },
    {
        match self {
            Json::List(items) => Some(items),
            _ => None,
        }
    }

    /// The number, where the document is an unsigned integer.
    pub fn as_u64(&self) -> (found: Option<u64>)
        ensures
            found == self@.unsigned(),
    {
        match self {
            Json::Number(unsigned, _) => *unsigned,
            _ => None,
        }
    }

    /// The text under `key`, where there is one.
    pub fn get_str(&self, key: &str) -> (found: Option<&str>)
        ensures
            match found {
                Some(text) => self@.text_field(key@) == Some(text@),
                None => self@.text_field(key@) is None,
            },
    {
        match self.get(key) {
            Some(value) => value.as_str(),
            None => None,
        }
    }

    /// Whether the text under `key` is `expected`.
    pub fn has_text(&self, key: &str, expected: &str) -> (has: bool)
        ensures
            has == text_field_is(self@, key@, expected@),
    {
        match self.get_str(key) {
            Some(text) => same_text(text, expected),
            None => false,
        }
    }
}

// ---------------------------------------------------------------------------
// Writing
// ---------------------------------------------------------------------------
/// Whether an object with some fields can be written.
pub open spec fn are_writable(fields: Seq<(String, Json)>) -> bool {
    keys_differ(fields) && forall|i: int|
        0 <= i < fields.len() ==> is_writable((#[trigger] fields[i]).1)
}

proof fn lemma_object_has(fields: Seq<(String, Json)>, i: int)
    requires
        0 <= i < fields.len(),
    ensures
        object_model(fields).dom().contains(fields[i].0@),
    decreases fields.len(),
{
    if i > 0 {
        lemma_object_has(fields.drop_first(), i - 1);
        assert(fields.drop_first()[i - 1] == fields[i]);
    }
}

proof fn lemma_object_push(fields: Seq<(String, Json)>, key: String, value: Json)
    requires
        !object_model(fields).dom().contains(key@),
    ensures
        object_model(fields.push((key, value))) == object_model(fields).insert(key@, value@),
    decreases fields.len(),
{
    let more = fields.push((key, value));
    if fields.len() == 0 {
        assert(more.drop_first() =~= fields);
    } else {
        lemma_object_push(fields.drop_first(), key, value);
        assert(more.drop_first() =~= fields.drop_first().push((key, value)));
        assert(more[0] == fields[0]);
        assert(object_model(more) =~= object_model(fields).insert(key@, value@));
    }
}

/// Puts one more field into an object that can be written.
pub fn put_field(fields: &mut Vec<(String, Json)>, key: &str, value: Json)
    requires
        are_writable(old(fields)@),
        !object_model(old(fields)@).dom().contains(key@),
        is_writable(value),
    ensures
        are_writable(final(fields)@),
        object_model(final(fields)@) == object_model(old(fields)@).insert(key@, value@),
{
    let ghost before = fields@;
    let name = key.to_owned();
    fields.push((name, value));
    proof {
        lemma_object_push(before, name, value);
        assert forall|i: int, j: int| 0 <= i < j < fields@.len() implies (
        #[trigger] fields@[i]).0@ != (#[trigger] fields@[j]).0@ by {
            assert(fields@[i] == before[i]);
            if j < before.len() {
                assert(fields@[j] == before[j]);
            } else {
                lemma_object_has(before, i);
            }
        }
        assert forall|i: int| 0 <= i < fields@.len() implies is_writable(
            (#[trigger] fields@[i]).1,
        ) by {
            if i < before.len() {
                assert(fields@[i] == before[i]);
            }
        }
    }
}

/// The object without fields.
pub fn no_fields() -> (fields: Vec<(String, Json)>)
    ensures
        are_writable(fields@),
        object_model(fields@) == Map::<Seq<char>, JsonView>::empty(),
{
    Vec::new()
}

/// The object with some fields.
pub fn object_of(fields: Vec<(String, Json)>) -> (json: Json)
    requires
        are_writable(fields@),
    ensures
        json@ == JsonView::Object(object_model(fields@)),
        is_writable(json),
{
    Json::Object(fields)
}

fn value_of(json: &Json) -> (value: serde_json::Value)
    requires
        is_writable(*json),
    ensures
        json_of(value) == json@,
    decreases json,
{
    match json {
        Json::Null => close_node(Node::Null),
        Json::Bool(flag) => close_node(Node::Bool(*flag)),
        Json::Number(unsigned, text) => close_node(Node::Number(*unsigned, text.clone())),
        Json::Text(text) => close_node(Node::Text(text.clone())),
        Json::List(items) => {
            let mut values: Vec<serde_json::Value> = Vec::new();
            let mut i: usize = 0;
            while i < items.len()
                invariant
                    i <= items@.len(),
                    *json == Json::List(*items),
                    is_writable(*json),
                    values@.len() == i,
                    forall|k: int| 0 <= k < i ==> json_of(#[trigger] values@[k]) == items@[k]@,
                decreases items@.len() - i,
            {
                proof {
                    assert(json->List_0@[i as int] == items@[i as int]);
                    assert(is_writable(items@[i as int]));
                    assert(decreases_to!(*json => json->List_0));
                    assert(decreases_to!(*items => items@[i as int]));
                }
                values.push(value_of(&items[i]));
                i += 1;
            }
            proof {
                assert(list_model(items@) =~= values@.map_values(
                    |inner: serde_json::Value| json_of(inner),
                ));
            }
            close_node(Node::List(values))
        },
        Json::Object(fields) => {
            let mut values: Vec<(String, serde_json::Value)> = Vec::new();
            let mut i: usize = 0;
            while i < fields.len()
                invariant
                    i <= fields@.len(),
                    *json == Json::Object(*fields),
                    is_writable(*json),
                    values@.len() == i,
                    forall|k: int|
                        0 <= k < i ==> (#[trigger] values@[k]).0@ == fields@[k].0@ && json_of(
                            values@[k].1,
                        ) == fields@[k].1@,
                decreases fields@.len() - i,
            {
                proof {
                    assert(is_writable(fields@[i as int].1));
                }
                let value = value_of(&fields[i].1);
                values.push((fields[i].0.clone(), value));
                i += 1;
            }
            proof {
                assert(keys_differ(fields@));
                assert forall|a: int, b: int| 0 <= a < b < values@.len() implies (
                #[trigger] values@[a]).0@ != (#[trigger] values@[b]).0@ by {
                    assert(fields@[a].0@ != fields@[b].0@);
                }
                lemma_fields_agree(fields@, values@);
            }
            close_node(Node::Object(values))
        },
    }
}

/// Writes a document as text.
pub fn print_json(json: &Json) -> (text: String)
    requires
        is_writable(*json),
    ensures
        text@ == json_text(json@),
        is_one_line(text@),
        reads_back(json@, 127) ==> json_of_text(text@) == Some(json@),
{
    let value = value_of(json);
    value_text(&value)
}

// ---------------------------------------------------------------------------
// Laws
// ---------------------------------------------------------------------------
/// An object gives out what stands under a key and nothing else; nothing but an
/// object has fields, nothing but a text is one, and nothing but a list has items.
pub proof fn law_parts_of_a_document(fields: Map<Seq<char>, JsonView>, key: Seq<char>, json: JsonView)
    ensures
        fields.dom().contains(key) ==> JsonView::Object(fields).field(key) == Some(fields[key]),
        !fields.dom().contains(key) ==> JsonView::Object(fields).field(key) is None,
        json.field(key) is Some ==> json is Object,
        json.text() is Some <==> json is Text,
        json matches JsonView::Text(text) ==> json.text() == Some(text),
        json.items() is Some <==> json is List,
        json matches JsonView::List(items) ==> json.items() == Some(items),
        json.unsigned() is Some ==> json is Number,
        json matches JsonView::Number(number, _) ==> json.unsigned() == number,
{
}

/// The text under a key is there exactly where the key has a text.
pub proof fn law_text_under_a_key(json: JsonView, key: Seq<char>, text: Seq<char>)
    ensures
        json.text_field(key) == Some(text) <==> json.field(key) == Some(JsonView::Text(text)),
{
}

/// A list says what its items say, in their order, and an object what stands under each
/// key; of fields with one key, the first counts.
pub proof fn law_first_field_counts(fields: Seq<(String, Json)>, items: Seq<Json>, i: int)
    ensures
        list_model(items).len() == items.len(),
        0 <= i < items.len() ==> list_model(items)[i] == items[i]@,
        0 <= i < fields.len() && (forall|j: int|
            0 <= j < i ==> (#[trigger] fields[j]).0@ != fields[i].0@) ==> object_model(
            fields,
        ).dom().contains(fields[i].0@) && object_model(fields)[fields[i].0@] == fields[i].1@,
    decreases fields.len(),
{
    if 0 < i < fields.len() {
        let rest = fields.drop_first();
        law_first_field_counts(rest, items, i - 1);
        assert(rest[i - 1] == fields[i]);
        if forall|j: int| 0 <= j < i ==> (#[trigger] fields[j]).0@ != fields[i].0@ {
            assert forall|j: int| 0 <= j < i - 1 implies (#[trigger] rest[j]).0@
                != rest[i - 1].0@ by {
                assert(rest[j] == fields[j + 1]);
            }
            assert(fields[0].0@ != fields[i].0@);
        }
    }
    if 0 <= i < items.len() {
        assert(list_model(items)[i] == json_model(items[i]));
    }
}

} // verus!
