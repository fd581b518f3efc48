//! Compact JSON text of a document: no whitespace, members in stored order,
//! strings escaped as the JSON data model's serializer escapes them.

use vstd::prelude::*;
use crate::json::{JsonModel, JsonNumber, JsonValue, NumberModel, json_model, number_model, members_model, lemma_array_model, lemma_object_model};
use crate::text::{chars_of, decimal, append_decimal, push_char};

verus! {

/// The lowercase hexadecimal digit for `d < 16`.
pub open spec fn hex_digit(d: nat) -> char {
    if d < 10 {
        (48 + d) as char
    } else {
        (87 + d) as char
    }
}

/// The escaped form of one character inside a JSON string.
pub open spec fn escape_char(c: char) -> Seq<char> {
    if c == '"' {
        seq!['\\', '"']
    } else if c == '\\' {
        seq!['\\', '\\']
    } else if c == '\x08' {
        seq!['\\', 'b']
    } else if c == '\t' {
        seq!['\\', 't']
    } else if c == '\n' {
        seq!['\\', 'n']
    } else if c == '\x0c' {
        seq!['\\', 'f']
    } else if c == '\r' {
        seq!['\\', 'r']
    } else if (c as u32) < 0x20 {
        seq!['\\', 'u', '0', '0', hex_digit((c as u32 / 16) as nat), hex_digit((c as u32 % 16) as nat)]
    } else {
        seq![c]
    }
}

/// The escaped form of a string's contents.
pub open spec fn escaped(s: Seq<char>) -> Seq<char>
    decreases s.len(),
{
    if s.len() == 0 {
        Seq::empty()
    } else {
        escaped(s.drop_last()) + escape_char(s.last())
    }
}

/// A JSON string literal.
pub open spec fn quoted(s: Seq<char>) -> Seq<char> {
    seq!['"'] + escaped(s) + seq!['"']
}

/// The parts separated by commas.
pub open spec fn join_commas(parts: Seq<Seq<char>>) -> Seq<char>
    decreases parts.len(),
{
    if parts.len() == 0 {
        Seq::empty()
    } else if parts.len() == 1 {
        parts[0]
    } else {
        join_commas(parts.drop_last()) + seq![','] + parts.last()
    }
}

/// The text of a number: integers in decimal, floats as their shortest text.
pub open spec fn number_text(n: NumberModel) -> Seq<char> {
    match n {
        NumberModel::PosInt(u) => decimal(u as nat),
        NumberModel::NegInt(i) => if i < 0 {
            seq!['-'] + decimal((-i) as nat)
        } else {
            decimal(i as nat)
        },
        NumberModel::Float(t) => t,
    }
}

/// The compact JSON text of a document.
pub open spec fn json_text(m: JsonModel) -> Seq<char>
    decreases m,
{
    match m {
        JsonModel::Null => "null"@,
        JsonModel::Bool(b) => if b {
            "true"@
        } else {
            "false"@
        },
        JsonModel::Number(n) => number_text(n),
        JsonModel::Str(s) => quoted(s),
        JsonModel::Array(xs) => seq!['['] + join_commas(item_texts(xs)) + seq![']'],
        JsonModel::Object(ms) => seq!['{'] + join_commas(member_texts(ms)) + seq!['}'],
    }
}

/// The texts of array items.
pub open spec fn item_texts(xs: Seq<JsonModel>) -> Seq<Seq<char>>
    decreases xs,
{
    Seq::new(
        xs.len(),
        |i: int|
            if 0 <= i < xs.len() {
                json_text(xs[i])
            } else {
                Seq::empty()
            },
    )
}

/// The texts of object members, `"key":value`.
pub open spec fn member_texts(ms: Seq<(Seq<char>, JsonModel)>) -> Seq<Seq<char>>
    decreases ms,
{
    Seq::new(
        ms.len(),
        |i: int|
            if 0 <= i < ms.len() {
                quoted(ms[i].0) + seq![':'] + json_text(ms[i].1)
            } else {
                Seq::empty()
            },
    )
}

proof fn lemma_join_commas_step(parts: Seq<Seq<char>>, i: int)
    requires
        0 <= i < parts.len(),
    ensures
        join_commas(parts.take(i + 1)) == if i == 0 {
            parts[0]
        } else {
            join_commas(parts.take(i)) + seq![','] + parts[i]
        },
{
    assert(parts.take(i + 1).drop_last() =~= parts.take(i));
    if i == 0 {
        assert(parts.take(1)[0] == parts[0]);
    }
}

fn hex_digit_char(d: u32) -> (c: char)
    requires
        d < 16,
    ensures
        c == hex_digit(d as nat),
{
    if d < 10 {
        let b: u8 = (48 + d) as u8;
        b as char
    } else {
        let b: u8 = (87 + d) as u8;
        b as char
    }
}

/// Appends the escaped form of one character.
fn append_escaped_char(out: &mut String, c: char)
    ensures
        final(out)@ == old(out)@ + escape_char(c),
{
    if c == '"' {
        push_char(out, '\\');
        push_char(out, '"');
    } else if c == '\\' {
        push_char(out, '\\');
        push_char(out, '\\');
    } else if c == '\x08' {
        push_char(out, '\\');
        push_char(out, 'b');
    } else if c == '\t' {
        push_char(out, '\\');
        push_char(out, 't');
    } else if c == '\n' {
        push_char(out, '\\');
        push_char(out, 'n');
    } else if c == '\x0c' {
        push_char(out, '\\');
        push_char(out, 'f');
    } else if c == '\r' {
        push_char(out, '\\');
        push_char(out, 'r');
    } else if (c as u32) < 0x20 {
        let u = c as u32;
        push_char(out, '\\');
        push_char(out, 'u');
        push_char(out, '0');
        push_char(out, '0');
        push_char(out, hex_digit_char(u / 16));
        push_char(out, hex_digit_char(u % 16));
    } else {
        push_char(out, c);
    }
    assert(final(out)@ =~= old(out)@ + escape_char(c));
}

/// Appends a JSON string literal for `s`.
pub fn append_quoted(out: &mut String, s: &str)
    ensures
        final(out)@ == old(out)@ + quoted(s@),
{
    let cs = chars_of(s);
    let ghost start = out@;
    push_char(out, '"');
    let mut i: usize = 0;
    assert(escaped(s@.take(0)) =~= Seq::<char>::empty());
    while i < cs.len()
        invariant
            cs@ == s@,
            i <= cs@.len(),
            out@ == start + seq!['"'] + escaped(s@.take(i as int)),
        decreases cs@.len() - i,
    {
        append_escaped_char(out, cs[i]);
        assert(s@.take(i + 1).drop_last() =~= s@.take(i as int));
        i = i + 1;
    }
    push_char(out, '"');
    assert(s@.take(cs@.len() as int) =~= s@);
    assert(out@ =~= start + quoted(s@));
}

/// Appends the text of a number.
fn append_number(out: &mut String, n: &JsonNumber)
    ensures
        final(out)@ == old(out)@ + number_text(number_model(*n)),
{
    match n {
        JsonNumber::PosInt(u) => append_decimal(out, *u),
        JsonNumber::NegInt(i) => {
            if *i < 0 {
                push_char(out, '-');
                let m: u64 = if *i == i64::MIN {
                    9223372036854775808u64
                } else {
                    (-*i) as u64
                };
                append_decimal(out, m);
                assert(final(out)@ =~= old(out)@ + number_text(number_model(*n)));
            } else {
                append_decimal(out, *i as u64);
            }
        },
        JsonNumber::Float(t) => {
            out.append(t.as_str());
        },
    }
}

/// Appends the compact JSON text of `v`.
#[verifier::loop_isolation(false)]
#[verifier::rlimit(40)]
pub fn append_json_text(out: &mut String, v: &JsonValue)
    ensures
        final(out)@ == old(out)@ + json_text(v@),
    decreases v,
{
    let ghost start = out@;
    match v {
        JsonValue::Null => {
            out.append("null");
        },
        JsonValue::Bool(b) => {
            if *b {
                out.append("true");
            } else {
                out.append("false");
            }
        },
        JsonValue::Number(n) => {
            append_number(out, n);
        },
        JsonValue::String(s) => {
            append_quoted(out, s.as_str());
        },
        JsonValue::Array(items) => {
            let ghost xs = json_model(*v)->Array_0;
            let ghost parts = item_texts(xs);
            proof {
                lemma_array_model(*items);
            }
            push_char(out, '[');
            let mut i: usize = 0;
            assert(join_commas(parts.take(0)) =~= Seq::<char>::empty());
            while i < items.len()
                invariant
                    i <= items@.len(),
                    xs.len() == items@.len(),
                    out@ == start + seq!['['] + join_commas(parts.take(i as int)),
                decreases items@.len() - i,
            {
                proof {
                    assert(decreases_to!(v => items@[i as int]));
                    lemma_join_commas_step(parts, i as int);
                }
                if i > 0 {
                    push_char(out, ',');
                }
                append_json_text(out, &items[i]);
                assert(parts[i as int] == json_text(json_model(items@[i as int])));
                i = i + 1;
            }
            push_char(out, ']');
            assert(parts.take(items@.len() as int) =~= parts);
            assert(out@ =~= start + json_text(json_model(*v)));
        },
        JsonValue::Object(members) => {
            let ghost ms = json_model(*v)->Object_0;
            let ghost parts = member_texts(ms);
            proof {
                lemma_object_model(*members);
            }
            push_char(out, '{');
            let mut i: usize = 0;
            assert(join_commas(parts.take(0)) =~= Seq::<char>::empty());
            while i < members.len()
                invariant
                    i <= members@.len(),
                    ms == members_model(members@),
                    out@ == start + seq!['{'] + join_commas(parts.take(i as int)),
                decreases members@.len() - i,
            {
                proof {
                    assert(decreases_to!(v => members@[i as int].value));
                    lemma_join_commas_step(parts, i as int);
                }
                if i > 0 {
                    push_char(out, ',');
                }
                let ghost before = out@;
                append_quoted(out, members[i].key.as_str());
                push_char(out, ':');
                append_json_text(out, &members[i].value);
                assert(out@ =~= before + parts[i as int]);
                i = i + 1;
            }
            push_char(out, '}');
            assert(parts.take(members@.len() as int) =~= parts);
            assert(out@ =~= start + json_text(json_model(*v)));
        },
    }
}

/// The compact JSON text of `v`.
pub fn json_to_text(v: &JsonValue) -> (r: String)
    ensures
        r@ == json_text(v@),
{
    let mut r = String::new();
    append_json_text(&mut r, v);
    r
}

} // verus!
