//! JSON-RPC messages: what comes in, and the text of what goes out.

use crate::text::{decimal, hex_text, opt_text, same_text, to_decimal};
use vstd::prelude::*;
use vstd::string::*;

verus! {

// ---------------------------------------------------------------------------
// JSON
// ---------------------------------------------------------------------------

/// A JSON value, as its text.
#[derive(Debug, PartialEq, Eq)]
pub struct Json {
    pub text: String,
}

impl View for Json {
    type V = Seq<char>;

    open spec fn view(&self) -> Seq<char> {
        self.text@
    }
}

impl Clone for Json {
    fn clone(&self) -> (r: Self)
        ensures
            r == *self,
    {
        Json { text: self.text.clone() }
    }
}

impl Json {
    /// The value with the given text.
    pub fn new(text: &str) -> (r: Self)
        ensures
            r@ == text@,
    {
        Json { text: text.to_owned() }
    }

    pub fn null() -> (r: Self)
        ensures
            r@ == "null"@,
    {
        Json { text: "null".to_owned() }
    }
}

/// A JSON value inside another: its text, and what it says where it is a
/// string.
#[derive(Debug, Clone, PartialEq, Eq)]
pub struct JsonItem {
    pub text: String,
    pub string: Option<String>,
}

/// A JSON value, taken apart one level deep.
#[derive(Debug, Clone, PartialEq, Eq)]
pub enum JsonShape {
    Object(Vec<(String, JsonItem)>),
    Array(Vec<JsonItem>),
    Other,
}

pub struct ItemView {
    pub text: Seq<char>,
    pub string: Option<Seq<char>>,
}

pub enum ShapeView {
    Object(Seq<(Seq<char>, ItemView)>),
    Array(Seq<ItemView>),
    Other,
}

impl View for JsonItem {
    type V = ItemView;

    open spec fn view(&self) -> ItemView {
        ItemView { text: self.text@, string: opt_text(self.string) }
    }
}

impl View for JsonShape {
    type V = ShapeView;

    open spec fn view(&self) -> ShapeView {
        match self {
            JsonShape::Object(members) => ShapeView::Object(
                members@.map_values(|m: (String, JsonItem)| (m.0@, m.1@)),
            ),
            JsonShape::Array(items) => ShapeView::Array(items@.map_values(|i: JsonItem| i@)),
            JsonShape::Other => ShapeView::Other,
        }
    }
}

pub open spec fn shape_view(shape: Option<JsonShape>) -> Option<ShapeView> {
    match shape {
        Some(s) => Some(s@),
        None => None,
    }
}

/// The JSON value that bytes spell, taken apart one level deep; `None` where
/// they spell none.
pub uninterp spec fn json_shape(body: Seq<u8>) -> Option<ShapeView>;

/// A character inside a JSON string: quotation marks, backslashes and control
/// characters are escaped, some of these by a letter and the others by number.
pub open spec fn json_char(c: char) -> Seq<char> {
    let n = c as u32;
    if c == '"' || c == '\\' {
        seq!['\\', c]
    } else if n == 0x08 {
        seq!['\\', 'b']
    } else if n == 0x09 {
        seq!['\\', 't']
    } else if n == 0x0A {
        seq!['\\', 'n']
    } else if n == 0x0C {
        seq!['\\', 'f']
    } else if n == 0x0D {
        seq!['\\', 'r']
    } else if n < 0x20 {
        seq!['\\', 'u'] + hex_text(n as nat, 4)
    } else {
        seq![c]
    }
}

/// The characters of a JSON string.
pub open spec fn json_chars(s: Seq<char>) -> Seq<char>
    decreases s.len(),
{
    if s.len() == 0 {
        Seq::empty()
    } else {
        json_chars(s.drop_last()) + json_char(s.last())
    }
}

/// The JSON text of a string: quoted, with escapes.
pub open spec fn json_string(s: Seq<char>) -> Seq<char> {
    seq!['"'] + json_chars(s) + seq!['"']
}

/// `serde_json::from_slice` to a value: what the bytes spell depends on the
/// bytes alone. The members or elements are handed out as their texts
/// (`Value::to_string`), and as what they say where they are strings.
#[verifier::external_body]
fn parse_json(body: &[u8]) -> (r: Option<JsonShape>)
    ensures
        shape_view(r) == json_shape(body@),
{
    let item = |v: serde_json::Value| JsonItem {
        string: v.as_str().map(str::to_owned),
        text: v.to_string(),
    };
    match serde_json::from_slice(body).ok()? {
        serde_json::Value::Object(m) => Some(
            JsonShape::Object(m.into_iter().map(|(k, v)| (k, item(v))).collect()),
        ),
        serde_json::Value::Array(a) => Some(JsonShape::Array(a.into_iter().map(item).collect())),
        _ => Some(JsonShape::Other),
    }
}

/// `serde_json::to_string` of a string: in quotation marks, with those
/// characters escaped that JSON wants escaped, which never fails.
#[verifier::external_body]
pub(crate) fn quote(s: &str) -> (r: String)
    ensures
        r@ == json_string(s@),
{
    serde_json::to_string(s).expect("a string always serializes")
}

// ---------------------------------------------------------------------------
// Incoming messages
// ---------------------------------------------------------------------------

#[derive(Debug, Clone, PartialEq)]
pub struct Request {
    pub id: Json,
    pub method: String,
    pub params: Json,
}

#[derive(Debug, Clone, PartialEq)]
pub struct Notification {
    pub method: String,
    pub params: Json,
}

#[derive(Debug, Clone, PartialEq)]
pub enum Incoming {
    Request(Request),
    Notification(Notification),
}

pub const PARSE_ERROR: i64 = -32700;

pub const INVALID_REQUEST: i64 = -32600;

pub const INVALID_PARAMS: i64 = -32602;

/// What an [`Incoming`] says, as mathematical values.
pub enum IncomingView {
    Request { id: Seq<char>, method: Seq<char>, params: Seq<char> },
    Notification { method: Seq<char>, params: Seq<char> },
}

impl View for Incoming {
    type V = IncomingView;

    open spec fn view(&self) -> IncomingView {
        match self {
            Incoming::Request(r) => IncomingView::Request {
                id: r.id@,
                method: r.method@,
                params: r.params@,
            },
            Incoming::Notification(n) => IncomingView::Notification {
                method: n.method@,
                params: n.params@,
            },
        }
    }
}

/// The member of an object by its key.
pub open spec fn member(members: Seq<(Seq<char>, ItemView)>, key: Seq<char>) -> Option<ItemView>
    decreases members.len(),
{
    if members.len() == 0 {
        None
    } else if members[0].0 == key {
        Some(members[0].1)
    } else {
        member(members.skip(1), key)
    }
}

/// The text of a value that may be left out, and is null then.
pub open spec fn text_or_null(item: Option<ItemView>) -> Seq<char> {
    match item {
        Some(i) => i.text,
        None => "null"@,
    }
}

pub open spec fn is_string(item: Option<ItemView>) -> bool {
    item is Some && item->0.string is Some
}

/// The message that an object or an array is: a request where there is an id
/// and a method, else a notification where there is a method. An array gives
/// the fields in their order, and no more than there are.
pub open spec fn incoming_of(shape: ShapeView) -> Option<IncomingView> {
    match shape {
        ShapeView::Object(m) => {
            let (id, method) = (member(m, "id"@), member(m, "method"@));
            let params = text_or_null(member(m, "params"@));
            if !is_string(method) {
                None
            } else if id is Some {
                Some(
                    IncomingView::Request {
                        id: id->0.text,
                        method: method->0.string->0,
                        params,
                    },
                )
            } else {
                Some(IncomingView::Notification { method: method->0.string->0, params })
            }
        },
        ShapeView::Array(a) => if 2 <= a.len() <= 3 && a[1].string is Some {
            Some(
                IncomingView::Request {
                    id: a[0].text,
                    method: a[1].string->0,
                    params: if a.len() == 3 {
                        a[2].text
                    } else {
                        "null"@
                    },
                },
            )
        } else if 1 <= a.len() <= 2 && a[0].string is Some {
            Some(
                IncomingView::Notification {
                    method: a[0].string->0,
                    params: if a.len() == 2 {
                        a[1].text
                    } else {
                        "null"@
                    },
                },
            )
        } else {
            None
        },
        ShapeView::Other => None,
    }
}

/// The id of what is no message: the one that it has, or null.
pub open spec fn id_of(shape: ShapeView) -> Seq<char> {
    match shape {
        ShapeView::Object(m) => text_or_null(member(m, "id"@)),
        _ => "null"@,
    }
}

/// The message that a body holds, or the response to a body that holds none.
pub open spec fn received(shape: Option<ShapeView>) -> Result<IncomingView, ResponseView> {
    match shape {
        None => Err(error_response("null"@, PARSE_ERROR, "parse error"@)),
        Some(s) => match incoming_of(s) {
            Some(incoming) => Ok(incoming),
            None => Err(error_response(id_of(s), INVALID_REQUEST, "invalid request"@)),
        },
    }
}

fn find_member<'a>(members: &'a Vec<(String, JsonItem)>, key: &str) -> (r: Option<&'a JsonItem>)
    ensures
        match r {
            Some(item) => member(
                members@.map_values(|m: (String, JsonItem)| (m.0@, m.1@)),
                key@,
            ) == Some(item@),
            None => member(
                members@.map_values(|m: (String, JsonItem)| (m.0@, m.1@)),
                key@,
            ) is None,
        },
{
    let ghost views = members@.map_values(|m: (String, JsonItem)| (m.0@, m.1@));
    let mut i: usize = 0;
    assert(views.skip(0) =~= views);
    while i < members.len()
        invariant
            i <= members.len(),
            views == members@.map_values(|m: (String, JsonItem)| (m.0@, m.1@)),
            member(views, key@) == member(views.skip(i as int), key@),
        decreases members.len() - i,
    {
        assert(views.skip(i as int)[0] == views[i as int]);
        assert(views.skip(i as int).skip(1) =~= views.skip(i + 1));
        if same_text(members[i].0.as_str(), key) {
            return Some(&members[i].1);
        }
        i += 1;
    }
    None
}

fn json_or_null(item: Option<&JsonItem>) -> (r: Json)
    ensures
        r@ == match item {
            Some(i) => i@.text,
            None => "null"@,
        },
{
    match item {
        Some(i) => Json { text: i.text.clone() },
        None => Json::null(),
    }
}

fn incoming_from_object(members: &Vec<(String, JsonItem)>) -> (r: Option<Incoming>)
    ensures
        match r {
            Some(incoming) => incoming_of(
                ShapeView::Object(members@.map_values(|m: (String, JsonItem)| (m.0@, m.1@))),
            ) == Some(incoming@),
            None => incoming_of(
                ShapeView::Object(members@.map_values(|m: (String, JsonItem)| (m.0@, m.1@))),
            ) is None,
        },
{
    let method = match find_member(members, "method") {
        Some(item) => match &item.string {
            Some(method) => method.clone(),
            None => {
                return None;
            },
        },
        None => {
            return None;
        },
    };
    let params = json_or_null(find_member(members, "params"));
    match find_member(members, "id") {
        Some(id) => Some(
            Incoming::Request(Request { id: Json { text: id.text.clone() }, method, params }),
        ),
        None => Some(Incoming::Notification(Notification { method, params })),
    }
}

fn incoming_from_array(items: &Vec<JsonItem>) -> (r: Option<Incoming>)
    ensures
        match r {
            Some(incoming) => incoming_of(
                ShapeView::Array(items@.map_values(|i: JsonItem| i@)),
            ) == Some(incoming@),
            None => incoming_of(ShapeView::Array(items@.map_values(|i: JsonItem| i@))) is None,
        },
{
    let ghost views = items@.map_values(|i: JsonItem| i@);
    assert(views.len() == items@.len());
    assert(forall|k: int| 0 <= k < views.len() ==> views[k] == items@[k]@);
    let len: usize = items.len();
    if 2 <= len && len <= 3 {
        if let Some(method) = &items[1].string {
            let params = if len == 3 {
                Json { text: items[2].text.clone() }
            } else {
                Json::null()
            };
            return Some(
                Incoming::Request(
                    Request { id: Json { text: items[0].text.clone() }, method: method.clone(), params },
                ),
            );
        }
    }
    if 1 <= len && len <= 2 {
        if let Some(method) = &items[0].string {
            let params = if len == 2 {
                Json { text: items[1].text.clone() }
            } else {
                Json::null()
            };
            return Some(Incoming::Notification(Notification { method: method.clone(), params }));
        }
    }
    None
}

/// The message in a value that was taken apart, or the response to a body that
/// holds none.
pub fn incoming(shape: &Option<JsonShape>) -> (r: Result<Incoming, Response>)
    ensures
        match r {
            Ok(message) => received(shape_view(*shape)) == Ok::<IncomingView, ResponseView>(
                message@,
            ),
            Err(response) => received(shape_view(*shape)) == Err::<IncomingView, ResponseView>(
                response@,
            ),
        },
{
    match shape {
        None => Err(Response::error(Json::null(), PARSE_ERROR, "parse error")),
        Some(JsonShape::Object(members)) => match incoming_from_object(members) {
            Some(message) => Ok(message),
            None => {
                let id = json_or_null(find_member(members, "id"));
                Err(Response::error(id, INVALID_REQUEST, "invalid request"))
            },
        },
        Some(JsonShape::Array(items)) => match incoming_from_array(items) {
            Some(message) => Ok(message),
            None => Err(Response::error(Json::null(), INVALID_REQUEST, "invalid request")),
        },
        Some(JsonShape::Other) => Err(
            Response::error(Json::null(), INVALID_REQUEST, "invalid request"),
        ),
    }
}

/// The message that a body holds, or the response to a body that holds none.
pub fn parse_incoming(body: &[u8]) -> (r: Result<Incoming, Response>)
    ensures
        match r {
            Ok(message) => received(json_shape(body@)) == Ok::<IncomingView, ResponseView>(
                message@,
            ),
            Err(response) => received(json_shape(body@)) == Err::<IncomingView, ResponseView>(
                response@,
            ),
        },
{
    incoming(&parse_json(body))
}

// ---------------------------------------------------------------------------
// Outgoing messages
// ---------------------------------------------------------------------------

#[derive(Debug, Clone, PartialEq)]
pub struct ResponseError {
    pub code: i64,
    pub message: String,
}

/// The answer to a request: a result or an error.
#[derive(Debug, PartialEq)]
pub struct Response {
    id: Json,
    outcome: Result<Json, ResponseError>,
}

/// What a [`Response`] says, as mathematical values.
pub struct ResponseView {
    pub id: Seq<char>,
    pub outcome: Result<Seq<char>, (i64, Seq<char>)>,
}

impl View for Response {
    type V = ResponseView;

    closed spec fn view(&self) -> ResponseView {
        ResponseView {
            id: self.id@,
            outcome: match self.outcome {
                Ok(result) => Ok(result@),
                Err(error) => Err((error.code, error.message@)),
            },
        }
    }
}

pub open spec fn success_response(id: Seq<char>, result: Seq<char>) -> ResponseView {
    ResponseView { id, outcome: Ok(result) }
}

pub open spec fn error_response(id: Seq<char>, code: i64, message: Seq<char>) -> ResponseView {
    ResponseView { id, outcome: Err((code, message)) }
}

/// An integer in decimal.
pub open spec fn integer_text(n: int) -> Seq<char> {
    if n < 0 {
        "-"@ + decimal((-n) as nat)
    } else {
        decimal(n as nat)
    }
}

/// The JSON text of a response.
pub open spec fn response_text(response: ResponseView) -> Seq<char> {
    "{\"jsonrpc\":\"2.0\",\"id\":"@ + response.id + match response.outcome {
        Ok(result) => ",\"result\":"@ + result + "}"@,
        Err((code, message)) => ",\"error\":{\"code\":"@ + integer_text(code as int)
            + ",\"message\":"@ + json_string(message) + "}}"@,
    }
}

/// An integer in decimal.
pub fn integer(n: i64) -> (r: String)
    ensures
        r@ == integer_text(n as int),
{
    if n < 0 {
        let magnitude: u64 = (-(n + 1)) as u64 + 1;
        let mut out = "-".to_owned();
        out.append(to_decimal(magnitude).as_str());
        out
    } else {
        to_decimal(n as u64)
    }
}

impl Response {
    pub fn success(id: Json, result: Json) -> (r: Self)
        ensures
            r@ == success_response(id@, result@),
    {
        Self { id, outcome: Ok(result) }
    }

    pub fn error(id: Json, code: i64, message: &str) -> (r: Self)
        ensures
            r@ == error_response(id@, code, message@),
    {
        Self { id, outcome: Err(ResponseError { code, message: message.to_owned() }) }
    }

    /// The response as JSON.
    pub fn to_json(&self) -> (r: String)
        ensures
            r@ == response_text(self@),
    {
        let mut out = "{\"jsonrpc\":\"2.0\",\"id\":".to_owned();
        out.append(self.id.text.as_str());
        match &self.outcome {
            Ok(result) => {
                out.append(",\"result\":");
                out.append(result.text.as_str());
                out.append("}");
            },
            Err(error) => {
                out.append(",\"error\":{\"code\":");
                out.append(integer(error.code).as_str());
                out.append(",\"message\":");
                out.append(quote(error.message.as_str()).as_str());
                out.append("}}");
            },
        }
        assert(out@ =~= response_text(self@));
        out
    }
}

/// A notification that goes out.
#[derive(Debug, Clone, PartialEq)]
pub struct OutgoingNotification {
    method: String,
    params: Json,
}

/// What an [`OutgoingNotification`] says, as mathematical values.
pub struct OutgoingView {
    pub method: Seq<char>,
    pub params: Seq<char>,
}

impl View for OutgoingNotification {
    type V = OutgoingView;

    closed spec fn view(&self) -> OutgoingView {
        OutgoingView { method: self.method@, params: self.params@ }
    }
}

/// The notifications of a list, as mathematical values.
pub open spec fn outgoing_views(list: Seq<OutgoingNotification>) -> Seq<OutgoingView> {
    list.map_values(|n: OutgoingNotification| n@)
}

/// The JSON text of a notification.
pub open spec fn notification_text(n: OutgoingView) -> Seq<char> {
    "{\"jsonrpc\":\"2.0\",\"method\":"@ + json_string(n.method) + ",\"params\":"@ + n.params
        + "}"@
}

impl OutgoingNotification {
    pub fn new(method: &str, params: Json) -> (r: Self)
        ensures
            r@ == (OutgoingView { method: method@, params: params@ }),
    {
        Self { method: method.to_owned(), params }
    }

    /// The notification as JSON.
    pub fn to_json(&self) -> (r: String)
        ensures
            r@ == notification_text(self@),
    {
        let mut out = "{\"jsonrpc\":\"2.0\",\"method\":".to_owned();
        out.append(quote(self.method.as_str()).as_str());
        out.append(",\"params\":");
        out.append(self.params.text.as_str());
        out.append("}");
        out
    }
}

/// An object with a method is a request where it has an id, and a notification
/// where it has none; its parameters are null where it has none of those. What
/// has no method is refused under the id that it has, and what is no JSON is
/// refused under none.
pub proof fn law_a_message_is_told_by_its_members(
    members: Seq<(Seq<char>, ItemView)>,
    method: Seq<char>,
)
    ensures
        ({
            let (id, name, params) = (
                member(members, "id"@),
                member(members, "method"@),
                member(members, "params"@),
            );
            let said = if params is Some {
                params->0.text
            } else {
                "null"@
            };
            let r = received(Some(ShapeView::Object(members)));
            &&& name is Some && name->0.string == Some(method) && id is Some ==> r == Ok::<
                IncomingView,
                ResponseView,
            >(IncomingView::Request { id: id->0.text, method, params: said })
            &&& name is Some && name->0.string == Some(method) && id is None ==> r == Ok::<
                IncomingView,
                ResponseView,
            >(IncomingView::Notification { method, params: said })
            &&& name is None || name->0.string is None ==> r is Err && r->Err_0.id == (if id is Some {
                id->0.text
            } else {
                "null"@
            }) && r->Err_0.outcome is Err && (r->Err_0.outcome->Err_0).0 == -32600
        }),
        ({
            let r = received(None);
            r is Err && r->Err_0.id == "null"@ && r->Err_0.outcome is Err && (
            r->Err_0.outcome->Err_0).0 == -32700
        }),
        ({
            let r = received(Some(ShapeView::Other));
            r is Err && r->Err_0.id == "null"@ && r->Err_0.outcome is Err && (
            r->Err_0.outcome->Err_0).0 == -32600
        }),
{
}

/// The member of a key is the first with that key.
pub proof fn law_a_member_is_found_by_its_key(
    members: Seq<(Seq<char>, ItemView)>,
    key: Seq<char>,
    i: int,
)
    requires
        0 <= i < members.len(),
        members[i].0 == key,
        forall|k: int| 0 <= k < i ==> (#[trigger] members[k]).0 != key,
    ensures
        member(members, key) == Some(members[i].1),
    decreases i,
{
    if i > 0 {
        let rest = members.skip(1);
        assert(members[0].0 != key);
        assert(forall|k: int| 0 <= k < rest.len() ==> rest[k] == members[k + 1]);
        law_a_member_is_found_by_its_key(rest, key, i - 1);
    }
}

/// An object without a key has no member of it.
pub proof fn law_there_is_no_member_without_its_key(
    members: Seq<(Seq<char>, ItemView)>,
    key: Seq<char>,
)
    requires
        forall|k: int| 0 <= k < members.len() ==> (#[trigger] members[k]).0 != key,
    ensures
        member(members, key) is None,
    decreases members.len(),
{
    if members.len() > 0 {
        let rest = members.skip(1);
        assert(members[0].0 != key);
        assert(forall|k: int| 0 <= k < rest.len() ==> rest[k] == members[k + 1]);
        law_there_is_no_member_without_its_key(rest, key);
    }
}

} // verus!
