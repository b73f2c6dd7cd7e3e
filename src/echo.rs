use vstd::prelude::*;

use crate::context::NodeData;
use crate::json::{get_str, get_u32, str_member, u32_member, Json};
use crate::message::{
    envelope, envelope_of, has_tag, num_field, open_body, push_num_field, push_open_body,
    push_str_field, str_field, tagged, ErrorBody, Message, Response,
};

verus! {

/// Sends each request's text back to its sender.
#[derive(Debug)]
pub struct EchoLayer;

#[derive(Debug)]
pub enum Req {
    Echo { echo: String, msg_id: u32 },
}

#[derive(Debug)]
pub enum Resp {
    EchoOk { echo: String, msg_id: u32, in_reply_to: u32 },
}

impl Response for Resp {
    open spec fn text_of(&self) -> Seq<char> {
        match self {
            Resp::EchoOk { echo, msg_id, in_reply_to } => open_body("echo_ok"@) + str_field(
                "echo"@,
                echo@,
            ) + num_field("msg_id"@, msg_id as nat) + num_field("in_reply_to"@, in_reply_to as nat)
                + seq!['}'],
        }
    }

    fn write(&self, out: &mut String) {
        proof {
            reveal_strlit("}");
        }
        match self {
            Resp::EchoOk { echo, msg_id, in_reply_to } => {
                push_open_body(out, "echo_ok");
                push_str_field(out, "echo", echo.as_str());
                push_num_field(out, "msg_id", *msg_id as u64);
                push_num_field(out, "in_reply_to", *in_reply_to as u64);
            },
        }
        out.append("}");
        assert(final(out)@ =~= old(out)@ + self.text_of());
    }
}

/// Whether `j` is a request of this layer, and `r` what it reads as.
pub open spec fn parsed_as(j: Json, r: Option<Message<Req>>) -> bool {
    match envelope_of(j) {
        Some(env) => if tagged(env.body, "echo"@) {
            match (str_member(env.body, "echo"@), u32_member(env.body, "msg_id"@)) {
                (Some(echo), Some(msg_id)) => r == Some(
                    Message { src: env.src, dest: env.dest, body: Req::Echo { echo, msg_id } },
                ),
                _ => r is None,
            }
        } else {
            r is None
        },
        None => r is None,
    }
}

/// Whether `j` is a request of this layer.
pub open spec fn accepts(j: Json) -> bool {
    exists|m: Message<Req>| parsed_as(j, Some(m))
}

/// A request read as nothing is not one of this layer.
pub proof fn lemma_rejected(j: Json)
    requires
        parsed_as(j, None),
    ensures
        !accepts(j),
{
    assert forall|m: Message<Req>| !parsed_as(j, Some(m)) by {}
}

/// The one reply to `req`, from node `id`, under message id `base`.
pub open spec fn answer(id: String, base: u32, req: Message<Req>) -> Message<Result<Resp, ErrorBody>> {
    match req.body {
        Req::Echo { echo, msg_id } => Message {
            src: id,
            dest: req.src,
            body: Ok(Resp::EchoOk { echo, msg_id: base, in_reply_to: msg_id }),
        },
    }
}

impl EchoLayer {
    pub fn new() -> (r: EchoLayer) {
        EchoLayer
    }

    /// Reads `j` as a request of this layer.
    pub fn parse_request(j: &Json) -> (r: Option<Message<Req>>)
        ensures
            parsed_as(*j, r),
    {
        let env = match envelope(j) {
            Some(env) => env,
            None => return None,
        };
        if !has_tag(env.body, "echo") {
            return None;
        }
        match (get_str(env.body, "echo"), get_u32(env.body, "msg_id")) {
            (Some(echo), Some(msg_id)) => Some(
                Message { src: env.src, dest: env.dest, body: Req::Echo { echo, msg_id } },
            ),
            _ => None,
        }
    }

    /// Answers a request with its own text.
    pub fn handle<D: NodeData>(&mut self, node: &D, req: Message<Req>) -> (out: Vec<
        Message<Result<Resp, ErrorBody>>,
    >)
        ensures
            out@ == seq![answer(node.spec_node_id(), node.spec_next_message_id(), req)],
    {
        let Message { src, dest: _, body } = req;
        let Req::Echo { echo, msg_id } = body;
        let out = vec![
            Message {
                src: node.node_id(),
                dest: src,
                body: Ok(Resp::EchoOk { echo, msg_id: node.next_message_id(), in_reply_to: msg_id }),
            },
        ];
        assert(out@ =~= seq![answer(node.spec_node_id(), node.spec_next_message_id(), req)]);
        out
    }
}

} // verus!
