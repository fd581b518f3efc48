//! The decisions of a line-delimited JSON-RPC session with an MCP server:
//! the messages sent, how a reply is matched to its request, how the tool
//! listing is paged and ordered, and how the captured contract is assembled.

use vstd::prelude::*;
use crate::canonical::{canonical, canonicalize_value};
use crate::integration::{ToolCallSample, opt_text};
use crate::json::{
    parse_json_text, parsed_json,
    JsonMember, JsonModel, JsonNumber, JsonValue, NumberModel, find_member, json_model, lookup,
    members_model, lemma_array_model, lemma_object_model,
};
use crate::render::{json_text, json_to_text};
use crate::text::{push_char, text_lt, text_less, trim, trim_text};

verus! {

/// The id of the `initialize` request.
pub const INITIALIZE_REQUEST_ID: u64 = 1;

/// The id of the first `tools/list` request; each further page takes the next id.
pub const FIRST_LIST_REQUEST_ID: u64 = 10;

/// The id of the first `tools/call` request; each further sample takes the next id.
pub const FIRST_CALL_REQUEST_ID: u64 = 100;

/// The views of a sequence of documents, one by one.
pub open spec fn values_model(v: Seq<JsonValue>) -> Seq<JsonModel> {
    Seq::new(v.len(), |i: int| json_model(v[i]))
}

/// The value of member `key` of an object; nothing for any other value.
pub open spec fn member_of(m: JsonModel, key: Seq<char>) -> Option<JsonModel> {
    match m {
        JsonModel::Object(ms) => lookup(ms, key),
        _ => None,
    }
}

/// The text of member `key` when it is a string.
pub open spec fn text_member(m: JsonModel, key: Seq<char>) -> Option<Seq<char>> {
    match member_of(m, key) {
        Some(JsonModel::Str(s)) => Some(s),
        _ => None,
    }
}

/// A JSON-RPC request, its members in key order.
pub open spec fn request_model(id: u64, method: Seq<char>, params: JsonModel) -> JsonModel {
    JsonModel::Object(
        seq![
            ("id"@, JsonModel::Number(NumberModel::PosInt(id))),
            ("jsonrpc"@, JsonModel::Str("2.0"@)),
            ("method"@, JsonModel::Str(method)),
            ("params"@, params),
        ],
    )
}

pub open spec fn opt_model(o: Option<JsonValue>) -> Option<JsonModel> {
    match o {
        Some(v) => Some(v@),
        None => None,
    }
}

/// A JSON-RPC notification, its members in key order.
pub open spec fn notification_model(method: Seq<char>, params: Option<JsonModel>) -> JsonModel {
    match params {
        Some(p) => JsonModel::Object(
            seq![("jsonrpc"@, JsonModel::Str("2.0"@)), ("method"@, JsonModel::Str(method)), ("params"@, p)],
        ),
        None => JsonModel::Object(
            seq![("jsonrpc"@, JsonModel::Str("2.0"@)), ("method"@, JsonModel::Str(method))],
        ),
    }
}

/// How a message read from the server relates to the request with `id`.
pub enum ResponseOutcome {
    /// The message answers another request, or none: read on.
    Unrelated,
    /// The request failed, with this message.
    Failed(String),
    /// The request succeeded with this result.
    Answered(JsonValue),
}

pub enum OutcomeView {
    Unrelated,
    Failed(Seq<char>),
    Answered(JsonModel),
}

pub open spec fn outcome_view(o: ResponseOutcome) -> OutcomeView {
    match o {
        ResponseOutcome::Unrelated => OutcomeView::Unrelated,
        ResponseOutcome::Failed(m) => OutcomeView::Failed(m@),
        ResponseOutcome::Answered(v) => OutcomeView::Answered(v@),
    }
}

/// What a message means for the request with `id` and method `method`: it
/// answers it only where its `id` is that integer; then an `error` member
/// fails the request, and otherwise its `result` is the answer.
pub open spec fn response_outcome(message: JsonModel, id: u64, method: Seq<char>) -> OutcomeView {
    if member_of(message, "id"@) != Some(JsonModel::Number(NumberModel::PosInt(id))) {
        OutcomeView::Unrelated
    } else {
        match member_of(message, "error"@) {
            Some(e) => OutcomeView::Failed(
                "MCP server returned an error for "@ + method + ": "@ + json_text(e),
            ),
            None => match member_of(message, "result"@) {
                Some(r) => OutcomeView::Answered(r),
                None => OutcomeView::Failed(
                    "MCP response for "@ + method + " did not include a result"@,
                ),
            },
        }
    }
}

/// The parameters of a `tools/list` request.
pub open spec fn list_params_model(cursor: Option<Seq<char>>) -> JsonModel {
    match cursor {
        Some(c) => JsonModel::Object(seq![("cursor"@, JsonModel::Str(c))]),
        None => JsonModel::Object(Seq::empty()),
    }
}

/// The tools of one `tools/list` page: its `tools` array, or none.
pub open spec fn page_tools(result: JsonModel) -> Seq<JsonModel> {
    match member_of(result, "tools"@) {
        Some(JsonModel::Array(items)) => items,
        _ => Seq::empty(),
    }
}

/// The cursor of the next page: `nextCursor`, else `next_cursor`, when a string.
pub open spec fn next_cursor(result: JsonModel) -> Option<Seq<char>> {
    match text_member(result, "nextCursor"@) {
        Some(c) => Some(c),
        None => text_member(result, "next_cursor"@),
    }
}

/// The name a tool is ordered by: its `name` when a string, else empty.
pub open spec fn tool_sort_name(t: JsonModel) -> Seq<char> {
    match text_member(t, "name"@) {
        Some(n) => n,
        None => Seq::empty(),
    }
}

/// Inserts `x` in front of the first tool whose name sorts after `x`'s.
pub open spec fn insert_tool(x: JsonModel, s: Seq<JsonModel>) -> Seq<JsonModel>
    decreases s.len(),
{
    if s.len() == 0 {
        seq![x]
    } else if text_lt(tool_sort_name(x), tool_sort_name(s[0])) {
        seq![x] + s
    } else {
        seq![s[0]] + insert_tool(x, s.drop_first())
    }
}

/// The tools ordered by name; tools with equal names keep their order.
pub open spec fn sort_tools(ts: Seq<JsonModel>) -> Seq<JsonModel>
    decreases ts.len(),
{
    if ts.len() == 0 {
        ts
    } else {
        insert_tool(ts.last(), sort_tools(ts.drop_last()))
    }
}

/// The parameters of an `initialize` request from a client of version `version`.
pub open spec fn initialize_params_model(version: Seq<char>) -> JsonModel {
    JsonModel::Object(
        seq![
            (
                "capabilities"@,
                JsonModel::Object(
                    seq![
                        (
                            "roots"@,
                            JsonModel::Object(seq![("listChanged"@, JsonModel::Bool(false))]),
                        ),
                        ("sampling"@, JsonModel::Object(Seq::empty())),
                    ],
                ),
            ),
            (
                "clientInfo"@,
                JsonModel::Object(
                    seq![("name"@, JsonModel::Str("gatepost"@)), ("version"@, JsonModel::Str(version))],
                ),
            ),
            ("protocolVersion"@, JsonModel::Str("2025-03-26"@)),
        ],
    )
}

/// The parameters of a `tools/call` request.
pub open spec fn call_params_model(name: Seq<char>, arguments: JsonModel) -> JsonModel {
    JsonModel::Object(seq![("arguments"@, arguments), ("name"@, JsonModel::Str(name))])
}

/// A tool call sample with its result, as the contract records it.
pub open spec fn call_record_model(name: Seq<char>, arguments: JsonModel, result: JsonModel) -> JsonModel {
    JsonModel::Object(
        seq![("arguments"@, arguments), ("name"@, JsonModel::Str(name)), ("result"@, result)],
    )
}

/// The captured contract of an MCP server, in canonical form.
pub open spec fn contract_model(initialize: JsonModel, tools: Seq<JsonModel>, samples: Seq<JsonModel>) -> JsonModel {
    canonical(
        JsonModel::Object(
            seq![
                ("baselineType"@, JsonModel::Str("mcp_stdio_contract"@)),
                ("initialize"@, initialize),
                ("toolCallSamples"@, JsonModel::Array(samples)),
                ("tools"@, JsonModel::Array(tools)),
            ],
        ),
    )
}

// ----- building documents -----

fn text_value(s: &str) -> (r: JsonValue)
    ensures
        r@ == JsonModel::Str(s@),
{
    JsonValue::String(String::from_str(s))
}

fn push_member(ms: &mut Vec<JsonMember>, key: &str, value: JsonValue)
    ensures
        members_model(final(ms)@) == members_model(old(ms)@).push((key@, value@)),
{
    ms.push(JsonMember { key: String::from_str(key), value });
    assert(members_model(final(ms)@) =~= members_model(old(ms)@).push((key@, value@)));
}

fn object_value(ms: Vec<JsonMember>) -> (r: JsonValue)
    ensures
        r@ == JsonModel::Object(members_model(ms@)),
{
    proof {
        lemma_object_model(ms);
    }
    JsonValue::Object(ms)
}

fn array_value(items: Vec<JsonValue>) -> (r: JsonValue)
    ensures
        r@ == JsonModel::Array(values_model(items@)),
{
    proof {
        lemma_array_model(items);
    }
    let r = JsonValue::Array(items);
    assert(json_model(r)->Array_0 =~= values_model(items@));
    r
}

/// The `tools/list`, `tools/call` or other request with `id`.
pub fn request_message(id: u64, method: &str, params: JsonValue) -> (r: JsonValue)
    ensures
        r@ == request_model(id, method@, params@),
{
    let mut ms: Vec<JsonMember> = Vec::new();
    push_member(&mut ms, "id", JsonValue::Number(JsonNumber::PosInt(id)));
    push_member(&mut ms, "jsonrpc", text_value("2.0"));
    push_member(&mut ms, "method", text_value(method));
    push_member(&mut ms, "params", params);
    let r = object_value(ms);
    assert(members_model(ms@) =~= request_model(id, method@, params@)->Object_0);
    r
}

/// A notification with `method` and, where given, `params`.
pub fn notification_message(method: &str, params: Option<JsonValue>) -> (r: JsonValue)
    ensures
        r@ == notification_model(method@, opt_model(params)),
{
    let mut ms: Vec<JsonMember> = Vec::new();
    push_member(&mut ms, "jsonrpc", text_value("2.0"));
    push_member(&mut ms, "method", text_value(method));
    match params {
        Some(p) => {
            let ghost pm = p@;
            push_member(&mut ms, "params", p);
            let r = object_value(ms);
            assert(members_model(ms@) =~= notification_model(method@, Some(pm))->Object_0);
            r
        },
        None => {
            let r = object_value(ms);
            assert(members_model(ms@) =~= notification_model(method@, None)->Object_0);
            r
        },
    }
}

/// The line a message is written as: its compact JSON text and a line feed.
pub fn message_line(payload: &JsonValue) -> (r: String)
    ensures
        r@ == json_text(payload@).push('\n'),
{
    let mut line = json_to_text(payload);
    push_char(&mut line, '\n');
    line
}

/// The value of member `key` of `v`, when `v` is an object that has it.
fn member_value<'a>(v: &'a JsonValue, key: &str) -> (r: Option<&'a JsonValue>)
    ensures
        match member_of(v@, key@) {
            Some(m) => r matches Some(x) && x@ == m,
            None => r is None,
        },
{
    match v {
        JsonValue::Object(ms) => {
            proof {
                lemma_object_model(*ms);
            }
            let k = String::from_str(key);
            match find_member(ms, &k) {
                Some(i) => Some(&ms[i].value),
                None => None,
            }
        },
        _ => None,
    }
}

/// The text of member `key` of `v`, when it is a string.
fn text_member_value(v: &JsonValue, key: &str) -> (r: Option<String>)
    ensures
        opt_text(r) == text_member(v@, key@),
{
    match member_value(v, key) {
        Some(JsonValue::String(s)) => Some(s.clone()),
        _ => None,
    }
}

/// What a message read from the server means for the request with `id`.
pub fn classify_response(message: &JsonValue, id: u64, method: &str) -> (r: ResponseOutcome)
    ensures
        outcome_view(r) == response_outcome(message@, id, method@),
{
    let answers = match member_value(message, "id") {
        Some(JsonValue::Number(JsonNumber::PosInt(x))) => *x == id,
        _ => false,
    };
    if !answers {
        return ResponseOutcome::Unrelated;
    }
    match member_value(message, "error") {
        Some(e) => {
            let mut m = String::from_str("MCP server returned an error for ");
            m.append(method);
            m.append(": ");
            let t = json_to_text(e);
            m.append(t.as_str());
            ResponseOutcome::Failed(m)
        },
        None => match member_value(message, "result") {
            Some(v) => ResponseOutcome::Answered(v.deep_copy()),
            None => {
                let mut m = String::from_str("MCP response for ");
                m.append(method);
                m.append(" did not include a result");
                ResponseOutcome::Failed(m)
            },
        },
    }
}

/// The parameters of the `tools/list` request for the page at `cursor`.
pub fn tools_list_params(cursor: &Option<String>) -> (r: JsonValue)
    ensures
        r@ == list_params_model(opt_text(*cursor)),
{
    let mut ms: Vec<JsonMember> = Vec::new();
    match cursor {
        Some(c) => {
            push_member(&mut ms, "cursor", text_value(c.as_str()));
        },
        None => {},
    }
    let r = object_value(ms);
    assert(members_model(ms@) =~= list_params_model(opt_text(*cursor))->Object_0);
    r
}

/// Adds the tools of one `tools/list` page to `tools` and gives the cursor
/// of the next page, if there is one.
pub fn absorb_tools_page(tools: &mut Vec<JsonValue>, result: &JsonValue) -> (cursor: Option<String>)
    ensures
        values_model(final(tools)@) == values_model(old(tools)@) + page_tools(result@),
        opt_text(cursor) == next_cursor(result@),
{
    match member_value(result, "tools") {
        Some(JsonValue::Array(items)) => {
            proof {
                lemma_array_model(*items);
            }
            let ghost start = values_model(tools@);
            let mut i: usize = 0;
            while i < items.len()
                invariant
                    i <= items@.len(),
                    values_model(tools@) == start + values_model(items@).take(i as int),
                decreases items@.len() - i,
            {
                let c = items[i].deep_copy();
                let ghost before = values_model(tools@);
                tools.push(c);
                assert(values_model(tools@) =~= before.push(json_model(items@[i as int])));
                assert(values_model(items@).take(i + 1) =~= values_model(items@).take(i as int).push(json_model(items@[i as int])));
                assert(values_model(tools@) =~= start + values_model(items@).take(i + 1));
                i = i + 1;
            }
            assert(values_model(items@).take(items@.len() as int) =~= values_model(items@));
            assert(json_model(JsonValue::Array(*items))->Array_0 =~= values_model(items@));
        },
        _ => {
            assert(values_model(tools@) =~= values_model(tools@) + Seq::<JsonModel>::empty());
        },
    }
    match text_member_value(result, "nextCursor") {
        Some(c) => Some(c),
        None => text_member_value(result, "next_cursor"),
    }
}

/// The name a tool is ordered by.
fn tool_name_text(t: &JsonValue) -> (r: String)
    ensures
        r@ == tool_sort_name(t@),
{
    match text_member_value(t, "name") {
        Some(n) => n,
        None => String::new(),
    }
}

proof fn lemma_insert_tool_at(x: JsonModel, s: Seq<JsonModel>, p: int)
    requires
        0 <= p <= s.len(),
        forall|j: int| 0 <= j < p ==> !text_lt(tool_sort_name(x), #[trigger] tool_sort_name(s[j])),
        p < s.len() ==> text_lt(tool_sort_name(x), tool_sort_name(s[p])),
    ensures
        insert_tool(x, s) == s.insert(p, x),
    decreases s.len(),
{
    if s.len() == 0 {
        assert(s.insert(0, x) =~= seq![x]);
    } else if p == 0 {
        assert(s.insert(0, x) =~= seq![x] + s);
    } else {
        assert(!text_lt(tool_sort_name(x), tool_sort_name(s[0])));
        assert forall|j: int| 0 <= j < p - 1 implies !text_lt(
            tool_sort_name(x),
            #[trigger] tool_sort_name(s.drop_first()[j]),
        ) by {
            assert(s.drop_first()[j] == s[j + 1]);
        }
        if p - 1 < s.len() - 1 {
            assert(s.drop_first()[p - 1] == s[p]);
        }
        lemma_insert_tool_at(x, s.drop_first(), p - 1);
        assert(seq![s[0]] + s.drop_first().insert(p - 1, x) =~= s.insert(p, x));
    }
}

/// The tools ordered by name, as a stable sort orders them.
pub fn sort_tools_by_name(tools: Vec<JsonValue>) -> (r: Vec<JsonValue>)
    ensures
        values_model(r@) == sort_tools(values_model(tools@)),
{
    let ghost tm = values_model(tools@);
    let mut out: Vec<JsonValue> = Vec::new();
    let mut i: usize = 0;
    assert(sort_tools(tm.take(0)) =~= values_model(out@));
    while i < tools.len()
        invariant
            i <= tools@.len(),
            tm == values_model(tools@),
            values_model(out@) == sort_tools(tm.take(i as int)),
        decreases tools@.len() - i,
    {
        let name = tool_name_text(&tools[i]);
        assert(tm[i as int] == json_model(tools@[i as int]));
        let ghost om = values_model(out@);
        let mut p: usize = 0;
        while p < out.len()
            invariant
                p <= out@.len(),
                om == values_model(out@),
                name@ == tool_sort_name(tm[i as int]),
                forall|j: int| 0 <= j < p ==> !text_lt(name@, #[trigger] tool_sort_name(om[j])),
            ensures
                p <= out@.len(),
                forall|j: int| 0 <= j < p ==> !text_lt(name@, #[trigger] tool_sort_name(om[j])),
                p < out@.len() ==> text_lt(name@, tool_sort_name(om[p as int])),
            decreases out@.len() - p,
        {
            let other = tool_name_text(&out[p]);
            if text_less(name.as_str(), other.as_str()) {
                break;
            }
            p = p + 1;
        }
        let c = tools[i].deep_copy();
        out.insert(p, c);
        proof {
            let x = tm[i as int];
            lemma_insert_tool_at(x, om, p as int);
            assert(values_model(out@) =~= om.insert(p as int, x));
            assert(tm.take(i + 1).drop_last() =~= tm.take(i as int));
            assert(tm.take(i + 1).last() == x);
        }
        i = i + 1;
    }
    assert(tm.take(tools@.len() as int) =~= tm);
    out
}

/// The parameters of the `initialize` request of a client of version `version`.
pub fn initialize_params(version: &str) -> (r: JsonValue)
    ensures
        r@ == initialize_params_model(version@),
{
    let mut roots: Vec<JsonMember> = Vec::new();
    push_member(&mut roots, "listChanged", JsonValue::Bool(false));
    let roots_value = object_value(roots);
    let mut caps: Vec<JsonMember> = Vec::new();
    push_member(&mut caps, "roots", roots_value);
    let empty: Vec<JsonMember> = Vec::new();
    assert(members_model(empty@) =~= Seq::<(Seq<char>, JsonModel)>::empty());
    push_member(&mut caps, "sampling", object_value(empty));
    let caps_value = object_value(caps);
    let mut info: Vec<JsonMember> = Vec::new();
    push_member(&mut info, "name", text_value("gatepost"));
    push_member(&mut info, "version", text_value(version));
    let info_value = object_value(info);
    let mut ms: Vec<JsonMember> = Vec::new();
    push_member(&mut ms, "capabilities", caps_value);
    push_member(&mut ms, "clientInfo", info_value);
    push_member(&mut ms, "protocolVersion", text_value("2025-03-26"));
    let r = object_value(ms);
    proof {
        let m = initialize_params_model(version@);
        assert(members_model(roots@) =~= m->Object_0[0].1->Object_0[0].1->Object_0);
        assert(members_model(caps@) =~= m->Object_0[0].1->Object_0);
        assert(members_model(info@) =~= m->Object_0[1].1->Object_0);
        assert(members_model(ms@) =~= m->Object_0);
    }
    r
}

/// The parameters of the `tools/call` request for `sample`.
pub fn tool_call_params(sample: &ToolCallSample) -> (r: JsonValue)
    ensures
        r@ == call_params_model(sample.name@, sample.arguments@),
{
    let mut ms: Vec<JsonMember> = Vec::new();
    push_member(&mut ms, "arguments", sample.arguments.deep_copy());
    push_member(&mut ms, "name", text_value(sample.name.as_str()));
    let r = object_value(ms);
    assert(members_model(ms@) =~= call_params_model(sample.name@, sample.arguments@)->Object_0);
    r
}

/// The record of `sample` and the `result` its call gave.
pub fn tool_call_record(sample: &ToolCallSample, result: JsonValue) -> (r: JsonValue)
    ensures
        r@ == call_record_model(sample.name@, sample.arguments@, result@),
{
    let ghost rm = result@;
    let mut ms: Vec<JsonMember> = Vec::new();
    push_member(&mut ms, "arguments", sample.arguments.deep_copy());
    push_member(&mut ms, "name", text_value(sample.name.as_str()));
    push_member(&mut ms, "result", result);
    let r = object_value(ms);
    assert(members_model(ms@) =~= call_record_model(sample.name@, sample.arguments@, rm)->Object_0);
    r
}

/// The contract captured from an MCP server: the `initialize` result, the
/// tools and the tool call records, in canonical form.
pub fn stdio_contract(initialize: JsonValue, tools: Vec<JsonValue>, samples: Vec<JsonValue>) -> (r: JsonValue)
    ensures
        r@ == contract_model(initialize@, values_model(tools@), values_model(samples@)),
{
    let ghost im = initialize@;
    let ghost tm = values_model(tools@);
    let ghost sm = values_model(samples@);
    let mut ms: Vec<JsonMember> = Vec::new();
    push_member(&mut ms, "baselineType", text_value("mcp_stdio_contract"));
    push_member(&mut ms, "initialize", initialize);
    push_member(&mut ms, "toolCallSamples", array_value(samples));
    push_member(&mut ms, "tools", array_value(tools));
    let doc = object_value(ms);
    assert(members_model(ms@) =~= seq![
        ("baselineType"@, JsonModel::Str("mcp_stdio_contract"@)),
        ("initialize"@, im),
        ("toolCallSamples"@, JsonModel::Array(sm)),
        ("tools"@, JsonModel::Array(tm)),
    ]);
    canonicalize_value(doc)
}

// ----- reading lines and paging -----

/// What one line read from the server holds: nothing when it is blank (read
/// on), else the message it parses to, or why it parses to none.
pub open spec fn line_message(line: Seq<char>) -> Option<Result<JsonModel, Seq<char>>> {
    let t = trim(line);
    if t.len() == 0 {
        None
    } else {
        match parsed_json(t) {
            Ok(m) => Some(Ok(m)),
            Err(e) => Some(Err("Failed to parse MCP JSON-RPC message: "@ + e)),
        }
    }
}

/// Reads one line from the server.
pub fn read_message_line(line: &str) -> (r: Option<Result<JsonValue, String>>)
    ensures
        match line_message(line@) {
            None => r is None,
            Some(Ok(m)) => r matches Some(Ok(v)) && v@ == m,
            Some(Err(e)) => r matches Some(Err(s)) && s@ == e,
        },
{
    let t = trim_text(line);
    if crate::text::chars_of(t.as_str()).len() == 0 {
        return None;
    }
    match parse_json_text(t.as_str()) {
        Ok(v) => Some(Ok(v)),
        Err(e) => {
            let mut m = String::from_str("Failed to parse MCP JSON-RPC message: ");
            m.append(e.as_str());
            Some(Err(m))
        },
    }
}

/// Where paging through `tools/list` stands: the id of the next request,
/// the cursor to ask for, the tools gathered so far, and whether the last
/// page has come.
pub struct ToolsPaging {
    pub next_id: u64,
    pub cursor: Option<String>,
    pub tools: Vec<JsonValue>,
    pub finished: bool,
}

impl ToolsPaging {
    /// Paging before the first request.
    pub fn start() -> (r: ToolsPaging)
        ensures
            r.next_id == FIRST_LIST_REQUEST_ID,
            r.cursor is None,
            r.tools@.len() == 0,
            !r.finished,
    {
        ToolsPaging { next_id: FIRST_LIST_REQUEST_ID, cursor: None, tools: Vec::new(), finished: false }
    }

    /// The request for the next page.
    pub fn next_request(&self) -> (r: JsonValue)
        ensures
            r@ == request_model(self.next_id, "tools/list"@, list_params_model(opt_text(self.cursor))),
    {
        request_message(self.next_id, "tools/list", tools_list_params(&self.cursor))
    }

    /// Takes the result of the last request: its tools join the list, the
    /// next request takes the next id, and paging ends when no cursor comes.
    pub fn absorb(&mut self, result: &JsonValue)
        requires
            old(self).next_id < u64::MAX,
        ensures
            values_model(final(self).tools@) == values_model(old(self).tools@) + page_tools(result@),
            opt_text(final(self).cursor) == next_cursor(result@),
            final(self).finished == (next_cursor(result@) is None),
            final(self).next_id == old(self).next_id + 1,
    {
        let cursor = absorb_tools_page(&mut self.tools, result);
        self.finished = cursor.is_none();
        self.cursor = cursor;
        self.next_id = self.next_id + 1;
    }

    /// The tools of every page, ordered by name.
    pub fn into_tools(self) -> (r: Vec<JsonValue>)
        ensures
            values_model(r@) == sort_tools(values_model(self.tools@)),
    {
        sort_tools_by_name(self.tools)
    }
}

/// The `tools/call` request for the sample at position `index`: the ids of
/// sample calls count up from [`FIRST_CALL_REQUEST_ID`].
pub fn sample_request(index: usize, sample: &ToolCallSample) -> (r: (u64, JsonValue))
    requires
        index < u64::MAX - FIRST_CALL_REQUEST_ID,
    ensures
        r.0 == FIRST_CALL_REQUEST_ID + index,
        r.1@ == request_model(r.0, "tools/call"@, call_params_model(sample.name@, sample.arguments@)),
{
    let id = FIRST_CALL_REQUEST_ID + index as u64;
    (id, request_message(id, "tools/call", tool_call_params(sample)))
}

} // verus!
