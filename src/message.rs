use vstd::prelude::*;

use crate::json::{
    decimal, get_object, get_str, json_string, object_member, push_decimal,
    push_quoted, same_text, str_member, Json,
};

verus! {

/// One message on the wire: who sent it, who it is for, and what it says.
#[derive(Debug)]
pub struct Message<Body> {
    /// Identifies the node this message came from
    pub src: String,
    /// Identifies the node this message is for
    pub dest: String,
    /// Payload of the message
    pub body: Body,
}

impl<T> Message<T> {
    /// The same envelope around `f` applied to the body.
    pub fn map<U, F: FnOnce(T) -> U>(self, f: F) -> (r: Message<U>)
        requires
            f.requires((self.body,)),
        ensures
            r.src == self.src,
            r.dest == self.dest,
            f.ensures((self.body,), r.body),
    {
        let Message { src, dest, body } = self;
        let body = f(body);
        Message { src, dest, body }
    }
}

/// A failure that is still answered on the wire.
#[derive(Debug)]
pub struct ErrorBody {
    /// `msg_id` of the request which caused this error.
    pub in_reply_to: u32,
    /// Codes 0-999 are reserved for the protocol; 1000 and above are free for layers.
    pub code: u32,
    /// Free-text explanation.
    pub text: String,
}

/// The envelope of a request whose body is an object.
pub open spec fn envelope_of(j: Json) -> Option<Message<Seq<(String, Json)>>> {
    match j {
        Json::Object(m) => match (
            str_member(m@, "src"@),
            str_member(m@, "dest"@),
            object_member(m@, "body"@),
        ) {
            (Some(src), Some(dest), Some(body)) => Some(Message { src, dest, body }),
            _ => None,
        },
        _ => None,
    }
}

/// Whether a body carries the type tag `tag`.
pub open spec fn tagged(body: Seq<(String, Json)>, tag: Seq<char>) -> bool {
    str_member(body, "type"@) matches Some(t) && t@ == tag
}

/// Reads the envelope of a request.
pub fn envelope(j: &Json) -> (r: Option<Message<&Vec<(String, Json)>>>)
    ensures
        match r {
            Some(m) => envelope_of(*j) == Some(Message { src: m.src, dest: m.dest, body: m.body@ }),
            None => envelope_of(*j) is None,
        },
{
    match j {
        Json::Object(m) => {
            let src = get_str(m, "src");
            let dest = get_str(m, "dest");
            let body = get_object(m, "body");
            match (src, dest, body) {
                (Some(src), Some(dest), Some(body)) => Some(Message { src, dest, body }),
                _ => None,
            }
        },
        _ => None,
    }
}

pub fn has_tag(body: &Vec<(String, Json)>, tag: &str) -> (r: bool)
    ensures
        r == tagged(body@, tag@),
{
    match get_str(body, "type") {
        Some(t) => same_text(&t, tag),
        None => false,
    }
}

/// `,"name":` : the start of a field after the first.
pub open spec fn key(name: Seq<char>) -> Seq<char> {
    seq![','] + json_string(name) + seq![':']
}

pub fn push_key(out: &mut String, name: &str)
    ensures
        final(out)@ == old(out)@ + key(name@),
{
    proof {
        reveal_strlit(",");
        reveal_strlit(":");
    }
    out.append(",");
    push_quoted(out, name);
    out.append(":");
    assert(final(out)@ =~= old(out)@ + key(name@));
}

/// `"name":` followed by the decimal digits of `n`, after a comma.
pub open spec fn num_field(name: Seq<char>, n: nat) -> Seq<char> {
    seq![','] + json_string(name) + seq![':'] + decimal(n)
}

/// `"name":` followed by the JSON string for `s`, after a comma.
pub open spec fn str_field(name: Seq<char>, s: Seq<char>) -> Seq<char> {
    seq![','] + json_string(name) + seq![':'] + json_string(s)
}

/// `{"type":"tag"` : the opening of a body.
pub open spec fn open_body(tag: Seq<char>) -> Seq<char> {
    seq!['{'] + json_string("type"@) + seq![':'] + json_string(tag)
}

pub fn push_open_body(out: &mut String, tag: &str)
    ensures
        final(out)@ == old(out)@ + open_body(tag@),
{
    proof {
        reveal_strlit("{");
        reveal_strlit(":");
    }
    out.append("{");
    push_quoted(out, "type");
    out.append(":");
    push_quoted(out, tag);
}

pub fn push_num_field(out: &mut String, name: &str, n: u64)
    ensures
        final(out)@ == old(out)@ + num_field(name@, n as nat),
{
    proof {
        reveal_strlit(",");
        reveal_strlit(":");
    }
    out.append(",");
    push_quoted(out, name);
    out.append(":");
    push_decimal(out, n);
    assert(final(out)@ =~= old(out)@ + num_field(name@, n as nat));
}

pub fn push_str_field(out: &mut String, name: &str, s: &str)
    ensures
        final(out)@ == old(out)@ + str_field(name@, s@),
{
    proof {
        reveal_strlit(",");
        reveal_strlit(":");
    }
    out.append(",");
    push_quoted(out, name);
    out.append(":");
    push_quoted(out, s);
    assert(final(out)@ =~= old(out)@ + str_field(name@, s@));
}

/// `"name":` followed by `text` as it stands, after a comma.
pub open spec fn raw_field(name: Seq<char>, text: Seq<char>) -> Seq<char> {
    seq![','] + json_string(name) + seq![':'] + text
}

pub fn push_raw_field(out: &mut String, name: &str, text: &str)
    ensures
        final(out)@ == old(out)@ + raw_field(name@, text@),
{
    proof {
        reveal_strlit(",");
        reveal_strlit(":");
    }
    out.append(",");
    push_quoted(out, name);
    out.append(":");
    out.append(text);
    assert(final(out)@ =~= old(out)@ + raw_field(name@, text@));
}

/// JSON texts joined by commas.
pub open spec fn joined(items: Seq<Seq<char>>) -> Seq<char>
    decreases items.len(),
{
    if items.len() == 0 {
        Seq::empty()
    } else if items.len() == 1 {
        items[0]
    } else {
        joined(items.drop_last()) + seq![','] + items.last()
    }
}

/// The views of a sequence of strings.
pub open spec fn texts(v: Seq<String>) -> Seq<Seq<char>> {
    v.map_values(|s: String| s@)
}

/// `[`, the JSON texts of `items` joined by commas, `]`.
pub fn push_array_of_texts(out: &mut String, items: &Vec<String>)
    ensures
        final(out)@ == old(out)@ + seq!['['] + joined(texts(items@)) + seq![']'],
{
    proof {
        reveal_strlit("[");
        reveal_strlit("]");
    }
    let ghost start = out@;
    out.append("[");
    assert(texts(items@).take(0) =~= Seq::<Seq<char>>::empty());
    let mut i: usize = 0;
    while i < items.len()
        invariant
            i <= items@.len(),
            out@ == start + seq!['['] + joined(texts(items@).take(i as int)),
        decreases items@.len() - i,
    {
        proof {
            reveal_strlit(",");
        }
        if i > 0 {
            out.append(",");
        }
        out.append(items[i].as_str());
        proof {
            let t = texts(items@).take(i + 1);
            assert(t.drop_last() =~= texts(items@).take(i as int));
            assert(t.last() == items@[i as int]@);
            if i == 0 {
                assert(joined(t) == t[0]);
            }
            assert(out@ =~= start + seq!['['] + joined(t));
        }
        i = i + 1;
    }
    out.append("]");
    assert(texts(items@).take(i as int) =~= texts(items@));
}

/// A typed response that has a wire text.
pub trait Response: Sized {
    /// The wire text of the response.
    spec fn text_of(&self) -> Seq<char>;

    fn write(&self, out: &mut String)
        ensures
            final(out)@ == old(out)@ + self.text_of(),
    ;
}

/// `w` is `m` as it goes on the wire: the same envelope, the response as its text.
pub open spec fn is_wire<R: Response>(
    w: Message<Result<String, ErrorBody>>,
    m: Message<Result<R, ErrorBody>>,
) -> bool {
    w.src == m.src && w.dest == m.dest && match (w.body, m.body) {
        (Ok(t), Ok(resp)) => t@ == resp.text_of(),
        (Err(e), Err(f)) => e == f,
        _ => false,
    }
}

/// Each message of `ms` as it goes on the wire.
pub open spec fn all_wire<R: Response>(
    ws: Seq<Message<Result<String, ErrorBody>>>,
    ms: Seq<Message<Result<R, ErrorBody>>>,
) -> bool {
    ws.len() == ms.len() && forall|i: int| 0 <= i < ms.len() ==> #[trigger] is_wire(ws[i], ms[i])
}

/// Turns typed responses into their wire form.
pub fn to_wire<R: Response>(ms: &Vec<Message<Result<R, ErrorBody>>>) -> (r: Vec<
    Message<Result<String, ErrorBody>>,
>)
    ensures
        all_wire(r@, ms@),
{
    let mut out: Vec<Message<Result<String, ErrorBody>>> = Vec::new();
    let mut i: usize = 0;
    while i < ms.len()
        invariant
            i <= ms@.len(),
            out@.len() == i,
            forall|k: int| 0 <= k < i ==> #[trigger] is_wire(out@[k], ms@[k]),
        decreases ms@.len() - i,
    {
        let m = &ms[i];
        let body = match &m.body {
            Ok(resp) => {
                let mut t = String::new();
                resp.write(&mut t);
                Ok(t)
            },
            Err(e) => Err(e.copy()),
        };
        out.push(Message { src: m.src.clone(), dest: m.dest.clone(), body });
        i = i + 1;
    }
    out
}

impl ErrorBody {
    pub fn copy(&self) -> (r: ErrorBody)
        ensures
            r == *self,
    {
        ErrorBody { in_reply_to: self.in_reply_to, code: self.code, text: self.text.clone() }
    }

    /// The wire text of the error.
    pub open spec fn text_of(self) -> Seq<char> {
        open_body("error"@) + num_field("in_reply_to"@, self.in_reply_to as nat) + num_field(
            "code"@,
            self.code as nat,
        ) + str_field("text"@, self.text@) + seq!['}']
    }

    pub fn write(&self, out: &mut String)
        ensures
            final(out)@ == old(out)@ + self.text_of(),
    {
        proof {
            reveal_strlit("}");
        }
        push_open_body(out, "error");
        push_num_field(out, "in_reply_to", self.in_reply_to as u64);
        push_num_field(out, "code", self.code as u64);
        push_str_field(out, "text", self.text.as_str());
        out.append("}");
        assert(final(out)@ =~= old(out)@ + self.text_of());
    }
}

/// The text of a body on the wire: the response's own text or the error's.
pub open spec fn body_text(body: Result<String, ErrorBody>) -> Seq<char> {
    match body {
        Ok(t) => t@,
        Err(e) => e.text_of(),
    }
}

/// One line of output: the envelope around the body text `body`.
pub open spec fn envelope_text(src: Seq<char>, dest: Seq<char>, body: Seq<char>) -> Seq<char> {
    seq!['{'] + json_string("src"@) + seq![':'] + json_string(src) + str_field("dest"@, dest)
        + seq![','] + json_string("body"@) + seq![':'] + body + seq!['}']
}

/// One line of output: the envelope with its body.
pub open spec fn line_text(m: Message<Result<String, ErrorBody>>) -> Seq<char> {
    envelope_text(m.src@, m.dest@, body_text(m.body))
}

/// Renders a message as one line of output.
pub fn render_line(m: &Message<Result<String, ErrorBody>>) -> (r: String)
    ensures
        r@ == line_text(*m),
{
    proof {
        reveal_strlit("{");
        reveal_strlit("}");
        reveal_strlit(":");
        reveal_strlit(",");
    }
    let mut out = String::new();
    out.append("{");
    push_quoted(&mut out, "src");
    out.append(":");
    push_quoted(&mut out, m.src.as_str());
    push_str_field(&mut out, "dest", m.dest.as_str());
    out.append(",");
    push_quoted(&mut out, "body");
    out.append(":");
    match &m.body {
        Ok(t) => out.append(t.as_str()),
        Err(e) => e.write(&mut out),
    }
    out.append("}");
    assert(out@ =~= line_text(*m));
    out
}

} // verus!
