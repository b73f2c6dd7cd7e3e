use serde_json::Value;
use vstd::prelude::*;

verus! {

/// A JSON document as read from the wire.
#[derive(Debug)]
pub enum Json {
    Null,
    Bool(bool),
    /// A non-negative integer that fits in 64 bits.
    UInt(u64),
    /// Any other number, in the text that the parser prints for it.
    Number(String),
    Str(String),
    Array(Vec<Json>),
    /// Members in the order the parser hands them out.
    Object(Vec<(String, Json)>),
}

/// A lower-case hexadecimal digit.
pub open spec fn hex_char(d: nat) -> char {
    if d < 10 {
        digit_char(d)
    } else if d == 10 {
        'a'
    } else if d == 11 {
        'b'
    } else if d == 12 {
        'c'
    } else if d == 13 {
        'd'
    } else if d == 14 {
        'e'
    } else {
        'f'
    }
}

/// One character as it stands inside a JSON string literal: quote and
/// backslash escaped, the control characters with a short escape where JSON
/// has one and as `\u00XX` otherwise, every other character as it is.
pub open spec fn escaped_char(c: char) -> Seq<char> {
    if c == '"' {
        seq!['\\', '"']
    } else if c == '\\' {
        seq!['\\', '\\']
    } else if c == '\u{08}' {
        seq!['\\', 'b']
    } else if c == '\t' {
        seq!['\\', 't']
    } else if c == '\n' {
        seq!['\\', 'n']
    } else if c == '\u{0c}' {
        seq!['\\', 'f']
    } else if c == '\r' {
        seq!['\\', 'r']
    } else if (c as u32) < 0x20 {
        seq!['\\', 'u', '0', '0', hex_char((c as u32 / 16) as nat), hex_char((c as u32 % 16) as nat)]
    } else {
        seq![c]
    }
}

/// The characters of `s`, each escaped.
pub open spec fn escaped(s: Seq<char>) -> Seq<char>
    decreases s.len(),
{
    if s.len() == 0 {
        Seq::empty()
    } else {
        escaped(s.drop_last()) + escaped_char(s.last())
    }
}

/// The JSON string literal for `s`: quotes and escapes included.
pub open spec fn json_string(s: Seq<char>) -> Seq<char> {
    seq!['"'] + escaped(s) + seq!['"']
}

pub open spec fn digit_char(d: nat) -> char {
    if d == 0 { '0' }
    else if d == 1 { '1' }
    else if d == 2 { '2' }
    else if d == 3 { '3' }
    else if d == 4 { '4' }
    else if d == 5 { '5' }
    else if d == 6 { '6' }
    else if d == 7 { '7' }
    else if d == 8 { '8' }
    else { '9' }
}

/// Decimal digits of `n`, most significant first, without leading zeros.
pub open spec fn decimal(n: nat) -> Seq<char>
    decreases n,
{
    if n < 10 {
        seq![digit_char(n)]
    } else {
        decimal(n / 10).push(digit_char(n % 10))
    }
}

/// The compact text of a JSON document.
pub open spec fn json_text(j: Json) -> Seq<char>
    decreases j,
{
    match j {
        Json::Null => "null"@,
        Json::Bool(b) => if b { "true"@ } else { "false"@ },
        Json::UInt(n) => decimal(n as nat),
        Json::Number(t) => t@,
        Json::Str(s) => json_string(s@),
        Json::Array(items) => seq!['['] + items_text(items@) + seq![']'],
        Json::Object(members) => seq!['{'] + members_text(members@) + seq!['}'],
    }
}

/// The elements of an array, separated by commas.
pub open spec fn items_text(items: Seq<Json>) -> Seq<char>
    decreases items,
{
    if items.len() == 0 {
        Seq::empty()
    } else if items.len() == 1 {
        json_text(items[0])
    } else {
        items_text(items.drop_last()) + seq![','] + json_text(items.last())
    }
}

/// The members of an object, separated by commas.
pub open spec fn members_text(members: Seq<(String, Json)>) -> Seq<char>
    decreases members,
{
    if members.len() == 0 {
        Seq::empty()
    } else if members.len() == 1 {
        json_string(members[0].0@) + seq![':'] + json_text(members[0].1)
    } else {
        members_text(members.drop_last()) + seq![','] + json_string(members.last().0@) + seq![':']
            + json_text(members.last().1)
    }
}


/// The document that the text `line` holds, if it holds one.
pub uninterp spec fn parsed_json(line: Seq<char>) -> Option<Json>;

/// Relies on serde_json::to_string for a string slice: the JSON string literal
/// for it, escaped as `format_escaped_str` does with its `ESCAPE` table and
/// `write_char_escape`. Serialising a `str` into memory does not fail.
#[verifier::external_body]
fn quote(s: &str) -> (r: String)
    ensures
        r@ == json_string(s@),
{
    match serde_json::to_string(s) {
        Ok(t) => t,
        Err(_) => String::new(),
    }
}

/// Relies on serde_json::from_str into a `serde_json::Value`: whether `line`
/// holds one JSON document, and which.
#[verifier::external_body]
pub(crate) fn parse_json(line: &str) -> (r: Option<Json>)
    ensures
        r == parsed_json(line@),
{
    serde_json::from_str::<Value>(line).ok().map(json_from_value)
}

/// The parser's own tree, held only to be carried over into a `Json`.
#[verifier::external_type_specification]
#[verifier::external_body]
pub struct ExValue(Value);

/// Carries a `serde_json::Value` over into a `Json`, node for node. Relies on
/// serde_json's `Number::as_u64` (a value exactly for the non-negative integers
/// that fit in `u64`) and on the text that `Number` displays for the others.
#[verifier::external_body]
fn json_from_value(v: Value) -> Json {
    match v {
        Value::Null => Json::Null,
        Value::Bool(b) => Json::Bool(b),
        Value::Number(n) => match n.as_u64() {
            Some(u) => Json::UInt(u),
            None => Json::Number(n.to_string()),
        },
        Value::String(s) => Json::Str(s),
        Value::Array(a) => Json::Array(a.into_iter().map(json_from_value).collect()),
        Value::Object(o) => Json::Object(o.into_iter().map(|(k, x)| (k, json_from_value(x))).collect()),
    }
}

fn digit_text(d: u64) -> (r: &'static str)
    requires
        d < 10,
    ensures
        r@ == seq![digit_char(d as nat)],
{
    proof {
        reveal_strlit("0");
        reveal_strlit("1");
        reveal_strlit("2");
        reveal_strlit("3");
        reveal_strlit("4");
        reveal_strlit("5");
        reveal_strlit("6");
        reveal_strlit("7");
        reveal_strlit("8");
        reveal_strlit("9");
    }
    match d {
        0 => "0",
        1 => "1",
        2 => "2",
        3 => "3",
        4 => "4",
        5 => "5",
        6 => "6",
        7 => "7",
        8 => "8",
        _ => "9",
    }
}

/// Appends the decimal digits of `n`.
pub fn push_decimal(out: &mut String, n: u64)
    ensures
        final(out)@ == old(out)@ + decimal(n as nat),
    decreases n,
{
    if n >= 10 {
        push_decimal(out, n / 10);
    }
    out.append(digit_text(n % 10));
    assert(final(out)@ =~= old(out)@ + decimal(n as nat)) by {
        if n >= 10 {
            assert(decimal(n as nat) == decimal((n / 10) as nat).push(digit_char((n % 10) as nat)));
        }
    }
}

/// Appends the JSON string literal for `s`.
pub fn push_quoted(out: &mut String, s: &str)
    ensures
        final(out)@ == old(out)@ + json_string(s@),
{
    let q = quote(s);
    out.append(q.as_str());
}

/// Appends the compact text of `j`.
pub fn push_json(out: &mut String, j: &Json)
    ensures
        final(out)@ == old(out)@ + json_text(*j),
    decreases j,
{
    let ghost start = out@;
    proof {
        reveal_strlit("null");
        reveal_strlit("true");
        reveal_strlit("false");
        reveal_strlit("[");
        reveal_strlit("]");
        reveal_strlit("{");
        reveal_strlit("}");
        reveal_strlit(",");
        reveal_strlit(":");
    }
    match j {
        Json::Null => {
            out.append("null");
        },
        Json::Bool(b) => {
            if *b {
                out.append("true");
            } else {
                out.append("false");
            }
        },
        Json::UInt(n) => {
            push_decimal(out, *n);
        },
        Json::Number(t) => {
            out.append(t.as_str());
        },
        Json::Str(s) => {
            push_quoted(out, s.as_str());
        },
        Json::Array(items) => {
            out.append("[");
            assert(items@.take(0) =~= Seq::<Json>::empty());
            let mut i: usize = 0;
            while i < items.len()
                invariant
                    *j == Json::Array(*items),
                    i <= items@.len(),
                    out@ == start + seq!['['] + items_text(items@.take(i as int)),
                decreases items@.len() - i,
            {
                proof {
                    reveal_strlit(",");
                    reveal_strlit(":");
                }
                if i > 0 {
                    out.append(",");
                }
                proof {
                    broadcast use vstd::std_specs::vec::axiom_vec_index_decreases;
                    assert(decreases_to!(*j => (*j)->Array_0));
                    assert(decreases_to!(*j => items[i as int]));
                }
                push_json(out, &items[i]);
                proof {
                    let t = items@.take(i + 1);
                    assert(t.drop_last() =~= items@.take(i as int));
                    assert(t.last() == items@[i as int]);
                    if i == 0 {
                        assert(items_text(t) == json_text(t[0]));
                    } else {
                        assert(items_text(t) == items_text(t.drop_last()) + seq![',']
                            + json_text(t.last()));
                    }
                    assert(out@ =~= start + seq!['['] + items_text(t));
                }
                i = i + 1;
            }
            out.append("]");
            assert(items@.take(i as int) =~= items@);
        },
        Json::Object(members) => {
            out.append("{");
            assert(members@.take(0) =~= Seq::<(String, Json)>::empty());
            let mut i: usize = 0;
            while i < members.len()
                invariant
                    *j == Json::Object(*members),
                    i <= members@.len(),
                    out@ == start + seq!['{'] + members_text(members@.take(i as int)),
                decreases members@.len() - i,
            {
                proof {
                    reveal_strlit(",");
                    reveal_strlit(":");
                }
                if i > 0 {
                    out.append(",");
                }
                push_quoted(out, members[i].0.as_str());
                out.append(":");
                proof {
                    broadcast use vstd::std_specs::vec::axiom_vec_index_decreases;
                    assert(decreases_to!(*j => (*j)->Object_0));
                    assert(decreases_to!(*j => members[i as int].1));
                }
                push_json(out, &members[i].1);
                proof {
                    let t = members@.take(i + 1);
                    assert(t.drop_last() =~= members@.take(i as int));
                    assert(t.last() == members@[i as int]);
                    assert(out@ =~= start + seq!['{'] + members_text(t));
                }
                i = i + 1;
            }
            out.append("}");
            assert(members@.take(i as int) =~= members@);
        },
    }
}


/// The value of the first member named `key`.
pub open spec fn lookup(members: Seq<(String, Json)>, key: Seq<char>) -> Option<Json>
    decreases members.len(),
{
    if members.len() == 0 {
        None
    } else if members[0].0@ == key {
        Some(members[0].1)
    } else {
        lookup(members.drop_first(), key)
    }
}

pub open spec fn str_member(members: Seq<(String, Json)>, key: Seq<char>) -> Option<String> {
    match lookup(members, key) {
        Some(Json::Str(s)) => Some(s),
        _ => None,
    }
}

pub open spec fn u64_member(members: Seq<(String, Json)>, key: Seq<char>) -> Option<u64> {
    match lookup(members, key) {
        Some(Json::UInt(n)) => Some(n),
        _ => None,
    }
}

pub open spec fn u32_member(members: Seq<(String, Json)>, key: Seq<char>) -> Option<u32> {
    match lookup(members, key) {
        Some(Json::UInt(n)) => if n <= u32::MAX {
            Some(n as u32)
        } else {
            None
        },
        _ => None,
    }
}

pub open spec fn object_member(members: Seq<(String, Json)>, key: Seq<char>) -> Option<
    Seq<(String, Json)>,
> {
    match lookup(members, key) {
        Some(Json::Object(m)) => Some(m@),
        _ => None,
    }
}

/// `items` as strings, if each of them is one.
pub open spec fn strings_of(items: Seq<Json>) -> Option<Seq<String>>
    decreases items.len(),
{
    if items.len() == 0 {
        Some(Seq::empty())
    } else {
        match (strings_of(items.drop_last()), items.last()) {
            (Some(init), Json::Str(s)) => Some(init.push(s)),
            _ => None,
        }
    }
}

/// Whether `a` reads as the text `b`.
pub fn same_text(a: &String, b: &str) -> (r: bool)
    ensures
        r == (a@ == b@),
{
    let t = String::from_str(b);
    *a == t
}

/// The position of the first member named `key`.
pub fn find_member(members: &Vec<(String, Json)>, key: &str) -> (r: Option<usize>)
    ensures
        match r {
            Some(i) => i < members@.len() && lookup(members@, key@) == Some(members@[i as int].1),
            None => lookup(members@, key@) is None,
        },
{
    let mut i: usize = 0;
    assert(members@.subrange(0, members@.len() as int) =~= members@);
    while i < members.len()
        invariant
            i <= members@.len(),
            lookup(members@, key@) == lookup(members@.subrange(i as int, members@.len() as int), key@),
        decreases members@.len() - i,
    {
        let ghost rest = members@.subrange(i as int, members@.len() as int);
        assert(rest[0] == members@[i as int]);
        if same_text(&members[i].0, key) {
            return Some(i);
        }
        assert(rest.drop_first() =~= members@.subrange(i + 1, members@.len() as int));
        i = i + 1;
    }
    None
}

pub fn get_str(members: &Vec<(String, Json)>, key: &str) -> (r: Option<String>)
    ensures
        r == str_member(members@, key@),
{
    match find_member(members, key) {
        Some(i) => match &members[i].1 {
            Json::Str(s) => Some(s.clone()),
            _ => None,
        },
        None => None,
    }
}

pub fn get_u64(members: &Vec<(String, Json)>, key: &str) -> (r: Option<u64>)
    ensures
        r == u64_member(members@, key@),
{
    match find_member(members, key) {
        Some(i) => match &members[i].1 {
            Json::UInt(n) => Some(*n),
            _ => None,
        },
        None => None,
    }
}

pub fn get_u32(members: &Vec<(String, Json)>, key: &str) -> (r: Option<u32>)
    ensures
        r == u32_member(members@, key@),
{
    match find_member(members, key) {
        Some(i) => match &members[i].1 {
            Json::UInt(n) => if *n <= u32::MAX as u64 {
                Some(*n as u32)
            } else {
                None
            },
            _ => None,
        },
        None => None,
    }
}

/// The compact text of the first member named `key`.
pub fn get_text(members: &Vec<(String, Json)>, key: &str) -> (r: Option<String>)
    ensures
        match r {
            Some(t) => lookup(members@, key@) matches Some(v) && t@ == json_text(v),
            None => lookup(members@, key@) is None,
        },
{
    match find_member(members, key) {
        Some(i) => {
            let mut t = String::new();
            push_json(&mut t, &members[i].1);
            Some(t)
        },
        None => None,
    }
}

pub fn get_object<'a>(members: &'a Vec<(String, Json)>, key: &str) -> (r: Option<
    &'a Vec<(String, Json)>,
>)
    ensures
        match r {
            Some(m) => object_member(members@, key@) == Some(m@),
            None => object_member(members@, key@) is None,
        },
{
    match find_member(members, key) {
        Some(i) => match &members[i].1 {
            Json::Object(m) => Some(m),
            _ => None,
        },
        None => None,
    }
}

/// The elements of `items` as strings, if each of them is one.
pub fn get_strings(items: &Vec<Json>) -> (r: Option<Vec<String>>)
    ensures
        match r {
            Some(v) => strings_of(items@) == Some(v@),
            None => strings_of(items@) is None,
        },
{
    let mut out: Vec<String> = Vec::new();
    let mut i: usize = 0;
    while i < items.len()
        invariant
            i <= items@.len(),
            strings_of(items@.take(i as int)) == Some(out@),
        decreases items@.len() - i,
    {
        let ghost t = items@.take(i + 1);
        assert(t.drop_last() =~= items@.take(i as int));
        match &items[i] {
            Json::Str(s) => {
                out.push(s.clone());
            },
            _ => {
                assert(strings_of(t) is None);
                assert forall|k: int| i + 1 <= k <= items@.len() implies #[trigger] strings_of(
                    items@.take(k),
                ) is None by {
                    lemma_strings_prefix(items@, i + 1, k);
                }
                assert(items@.take(items@.len() as int) =~= items@);
                return None;
            },
        }
        i = i + 1;
    }
    assert(items@.take(i as int) =~= items@);
    Some(out)
}

proof fn lemma_strings_prefix(items: Seq<Json>, i: int, k: int)
    requires
        0 <= i <= k <= items.len(),
        strings_of(items.take(i)) is None,
    ensures
        strings_of(items.take(k)) is None,
    decreases k - i,
{
    if k > i {
        lemma_strings_prefix(items, i, k - 1);
        assert(items.take(k).drop_last() =~= items.take(k - 1));
    }
}

} // verus!
