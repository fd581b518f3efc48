//! The profile a tool catalog fetched over HTTP must meet: an object with a
//! `tools` array whose entries each have a unique non-empty `name`, a
//! `description` string and an `inputSchema` object, and, when present, a
//! `toolCount` that is a non-negative integer equal to the number of tools.

use vstd::prelude::*;
use crate::json::{JsonModel, JsonNumber, JsonValue, NumberModel, find_member, json_model, lemma_array_model, lemma_object_model, lookup};
use crate::text::{append_decimal, decimal, trim, trim_text};

verus! {

/// The trimmed, non-empty `name` string of a tool entry.
pub open spec fn tool_name(t: JsonModel) -> Option<Seq<char>> {
    match t {
        JsonModel::Object(ms) => match lookup(ms, "name"@) {
            Some(JsonModel::Str(n)) => if trim(n).len() > 0 {
                Some(trim(n))
            } else {
                None
            },
            _ => None,
        },
        _ => None,
    }
}

pub open spec fn tool_prefix(i: nat) -> Seq<char> {
    "HTTP schema tools["@ + decimal(i) + "]"@
}

/// What is wrong with the tool entry at `i`, given that the entries before it are sound.
pub open spec fn tool_problem(tools: Seq<JsonModel>, i: int) -> Option<Seq<char>> {
    match tools[i] {
        JsonModel::Object(ms) => match tool_name(tools[i]) {
            None => Some(tool_prefix(i as nat) + " is missing a non-empty 'name'."@),
            Some(name) => if exists|j: int| 0 <= j < i && #[trigger] tool_name(tools[j]) == Some(name) {
                Some("HTTP schema contains duplicate tool name '"@ + name + "'."@)
            } else if !(lookup(ms, "description"@) matches Some(JsonModel::Str(_))) {
                Some(tool_prefix(i as nat) + " is missing 'description'."@)
            } else {
                match lookup(ms, "inputSchema"@) {
                    None => Some(tool_prefix(i as nat) + " is missing 'inputSchema'."@),
                    Some(v) => if v is Object {
                        None
                    } else {
                        Some(tool_prefix(i as nat) + " field 'inputSchema' must be an object."@)
                    },
                }
            },
        },
        _ => Some(tool_prefix(i as nat) + " must be an object."@),
    }
}

/// The problem of the first unsound tool entry at or after `i`.
pub open spec fn first_tool_problem(tools: Seq<JsonModel>, i: int) -> Option<Seq<char>>
    decreases tools.len() - i,
{
    if i < 0 || i >= tools.len() {
        None
    } else {
        match tool_problem(tools, i) {
            Some(e) => Some(e),
            None => first_tool_problem(tools, i + 1),
        }
    }
}

/// Why a payload is not a tool catalog, or nothing when it is one.
pub open spec fn catalog_problem(payload: JsonModel) -> Option<Seq<char>> {
    match payload {
        JsonModel::Object(ms) => match lookup(ms, "tools"@) {
            None => Some("HTTP schema payload must include a 'tools' array."@),
            Some(JsonModel::Array(tools)) => match lookup(ms, "toolCount"@) {
                Some(JsonModel::Number(NumberModel::PosInt(c))) => if c != tools.len() {
                    Some(
                        "HTTP schema payload 'toolCount' ("@ + decimal(c as nat)
                            + ") does not match tools length ("@ + decimal(tools.len()) + ")."@,
                    )
                } else {
                    first_tool_problem(tools, 0)
                },
                Some(_) => Some("HTTP schema payload 'toolCount' must be a non-negative integer."@),
                None => first_tool_problem(tools, 0),
            },
            Some(_) => Some("HTTP schema payload field 'tools' must be an array."@),
        },
        _ => Some("HTTP schema payload must be a JSON object."@),
    }
}

fn tool_message(i: usize, tail: &str) -> (r: String)
    ensures
        r@ == tool_prefix(i as nat) + tail@,
{
    let mut m = String::from_str("HTTP schema tools[");
    append_decimal(&mut m, i as u64);
    m.append("]");
    m.append(tail);
    m
}

/// The trimmed non-empty name of a tool entry.
fn name_of_tool(tool: &JsonValue) -> (r: Option<String>)
    ensures
        match tool_name(tool@) {
            Some(n) => r matches Some(s) && s@ == n,
            None => r is None,
        },
{
    match tool {
        JsonValue::Object(ms) => {
            proof {
                lemma_object_model(*ms);
            }
            let key = String::from_str("name");
            match find_member(ms, &key) {
                Some(k) => match &ms[k].value {
                    JsonValue::String(n) => {
                        let t = trim_text(n.as_str());
                        if t.as_str().unicode_len() > 0 {
                            Some(t)
                        } else {
                            None
                        }
                    },
                    _ => None,
                },
                None => None,
            }
        },
        _ => None,
    }
}

fn name_seen(seen: &Vec<String>, name: &String) -> (r: bool)
    ensures
        r == exists|j: int| 0 <= j < seen@.len() && #[trigger] seen@[j]@ == name@,
{
    let mut j: usize = 0;
    while j < seen.len()
        invariant
            j <= seen@.len(),
            forall|k: int| 0 <= k < j ==> #[trigger] seen@[k]@ != name@,
        decreases seen@.len() - j,
    {
        if seen[j] == *name {
            return true;
        }
        j = j + 1;
    }
    false
}

/// The problem of the tool entry at `i`, given the names of the entries before it.
fn check_tool(tools: &Vec<JsonValue>, i: usize, seen: &Vec<String>) -> (r: Result<String, String>)
    requires
        i < tools@.len(),
        seen@.len() == i,
        forall|j: int| 0 <= j < i ==> tool_name(#[trigger] json_model(tools@[j])) == Some(seen@[j]@),
    ensures
        match tool_problem(json_model(JsonValue::Array(*tools))->Array_0, i as int) {
            Some(e) => r matches Err(m) && m@ == e,
            None => r matches Ok(n) && tool_name(json_model(tools@[i as int])) == Some(n@),
        },
{
    proof {
        lemma_array_model(*tools);
    }
    let ghost ts = json_model(JsonValue::Array(*tools))->Array_0;
    assert(ts[i as int] == json_model(tools@[i as int]));
    let tool = &tools[i];
    match tool {
        JsonValue::Object(ms) => {
            proof {
                lemma_object_model(*ms);
            }
            let name = match name_of_tool(tool) {
                Some(n) => n,
                None => {
                    return Err(tool_message(i, " is missing a non-empty 'name'."));
                },
            };
            if name_seen(seen, &name) {
                let mut m = String::from_str("HTTP schema contains duplicate tool name '");
                m.append(name.as_str());
                m.append("'.");
                proof {
                    let j = choose|j: int| 0 <= j < seen@.len() && #[trigger] seen@[j]@ == name@;
                    assert(tool_name(ts[j]) == Some(name@));
                }
                return Err(m);
            }
            proof {
                assert forall|j: int| 0 <= j < i implies #[trigger] tool_name(ts[j]) != Some(name@) by {
                    assert(ts[j] == json_model(tools@[j]));
                    assert(seen@[j]@ != name@);
                }
            }
            let dkey = String::from_str("description");
            let has_description = match find_member(ms, &dkey) {
                Some(k) => match &ms[k].value {
                    JsonValue::String(_) => true,
                    _ => false,
                },
                None => false,
            };
            if !has_description {
                return Err(tool_message(i, " is missing 'description'."));
            }
            let skey = String::from_str("inputSchema");
            match find_member(ms, &skey) {
                None => {
                    return Err(tool_message(i, " is missing 'inputSchema'."));
                },
                Some(k) => match &ms[k].value {
                    JsonValue::Object(_) => {},
                    _ => {
                        return Err(tool_message(i, " field 'inputSchema' must be an object."));
                    },
                },
            }
            Ok(name)
        },
        _ => Err(tool_message(i, " must be an object.")),
    }
}

/// Checks that a payload is a tool catalog.
pub fn validate_mcp_tool_catalog_schema(payload: &JsonValue) -> (r: Result<(), String>)
    ensures
        match catalog_problem(payload@) {
            Some(e) => r matches Err(m) && m@ == e,
            None => r is Ok,
        },
{
    let ms = match payload {
        JsonValue::Object(ms) => ms,
        _ => {
            return Err(String::from_str("HTTP schema payload must be a JSON object."));
        },
    };
    proof {
        lemma_object_model(*ms);
    }
    let tkey = String::from_str("tools");
    let tools = match find_member(ms, &tkey) {
        None => {
            return Err(String::from_str("HTTP schema payload must include a 'tools' array."));
        },
        Some(k) => match &ms[k].value {
            JsonValue::Array(tools) => tools,
            _ => {
                return Err(String::from_str("HTTP schema payload field 'tools' must be an array."));
            },
        },
    };
    proof {
        lemma_array_model(*tools);
    }
    let ghost ts = json_model(JsonValue::Array(*tools))->Array_0;
    let ckey = String::from_str("toolCount");
    match find_member(ms, &ckey) {
        Some(k) => match &ms[k].value {
            JsonValue::Number(JsonNumber::PosInt(c)) => {
                if *c != tools.len() as u64 {
                    let mut m = String::from_str("HTTP schema payload 'toolCount' (");
                    append_decimal(&mut m, *c);
                    m.append(") does not match tools length (");
                    append_decimal(&mut m, tools.len() as u64);
                    m.append(").");
                    return Err(m);
                }
            },
            _ => {
                return Err(String::from_str("HTTP schema payload 'toolCount' must be a non-negative integer."));
            },
        },
        None => {},
    }
    assert(catalog_problem(payload@) == first_tool_problem(ts, 0));
    let mut seen: Vec<String> = Vec::new();
    let mut i: usize = 0;
    while i < tools.len()
        invariant
            catalog_problem(payload@) == first_tool_problem(ts, 0),
            i <= tools@.len(),
            ts == json_model(JsonValue::Array(*tools))->Array_0,
            ts.len() == tools@.len(),
            seen@.len() == i,
            forall|j: int| 0 <= j < i ==> tool_name(#[trigger] json_model(tools@[j])) == Some(seen@[j]@),
            first_tool_problem(ts, 0) == first_tool_problem(ts, i as int),
        decreases tools@.len() - i,
    {
        match check_tool(tools, i, &seen) {
            Err(m) => {
                return Err(m);
            },
            Ok(name) => {
                seen.push(name);
            },
        }
        i = i + 1;
    }
    Ok(())
}

} // verus!
