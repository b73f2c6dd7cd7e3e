use vstd::prelude::*;

use crate::context::NodeData;
use crate::json::{decimal, get_u32, push_decimal, u32_member, Json};
use crate::message::{
    envelope, envelope_of, has_tag, num_field, open_body, push_num_field, push_open_body,
    push_str_field, str_field, tagged, ErrorBody, Message, Response,
};

verus! {

/// Error code of a request that finds every id of this node handed out.
pub const IDS_EXHAUSTED: u32 = 1001;

/// Hands out ids that do not repeat on this node: the node's id followed by
/// the count of ids handed out so far.
#[derive(Debug)]
pub struct GenerateLayer {
    counter: u32,
}

#[derive(Debug)]
pub enum Req {
    Generate { msg_id: u32 },
}

#[derive(Debug)]
pub enum Resp {
    GenerateOk { id: String, msg_id: u32, in_reply_to: u32 },
}

/// The `n`-th id that node `node` hands out.
pub open spec fn generated_id(node: Seq<char>, n: nat) -> Seq<char> {
    node + decimal(n)
}

pub open spec fn exhausted_text() -> Seq<char> {
    "every id of this node has been handed out"@
}

impl Response for Resp {
    open spec fn text_of(&self) -> Seq<char> {
        match self {
            Resp::GenerateOk { id, msg_id, in_reply_to } => open_body("generate_ok"@) + str_field(
                "id"@,
                id@,
            ) + num_field("msg_id"@, msg_id as nat) + num_field("in_reply_to"@, in_reply_to as nat)
                + seq!['}'],
        }
    }

    fn write(&self, out: &mut String) {
        proof {
            reveal_strlit("}");
        }
        match self {
            Resp::GenerateOk { id, msg_id, in_reply_to } => {
                push_open_body(out, "generate_ok");
                push_str_field(out, "id", id.as_str());
                push_num_field(out, "msg_id", *msg_id as u64);
                push_num_field(out, "in_reply_to", *in_reply_to as u64);
            },
        }
        out.append("}");
        assert(final(out)@ =~= old(out)@ + self.text_of());
    }
}

/// Whether `j` is a request of this layer, and `r` what it reads as.
pub open spec fn parsed_as(j: Json, r: Option<Message<Req>>) -> bool {
    match envelope_of(j) {
        Some(env) => if tagged(env.body, "generate"@) {
            match u32_member(env.body, "msg_id"@) {
                Some(msg_id) => r == Some(
                    Message { src: env.src, dest: env.dest, body: Req::Generate { msg_id } },
                ),
                None => r is None,
            }
        } else {
            r is None
        },
        None => r is None,
    }
}

/// Whether `j` is a request of this layer.
pub open spec fn accepts(j: Json) -> bool {
    exists|m: Message<Req>| parsed_as(j, Some(m))
}

/// A request read as nothing is not one of this layer.
pub proof fn lemma_rejected(j: Json)
    requires
        parsed_as(j, None),
    ensures
        !accepts(j),
{
    assert forall|m: Message<Req>| !parsed_as(j, Some(m)) by {}
}

/// How the layer answers `req` after handing out `count` ids, on node `id`,
/// under message id `base`: `out` is what is sent.
pub open spec fn handled(
    count: u32,
    id: String,
    base: u32,
    req: Message<Req>,
    out: Seq<Message<Result<Resp, ErrorBody>>>,
) -> bool {
    match req.body {
        Req::Generate { msg_id } => out.len() == 1 && out[0].src == id && out[0].dest == req.src
            && match out[0].body {
            Ok(Resp::GenerateOk { id: g, msg_id: m, in_reply_to }) => count < u32::MAX && g@
                == generated_id(id@, (count + 1) as nat) && m == base && in_reply_to == msg_id,
            Err(e) => count == u32::MAX && e.in_reply_to == msg_id && e.code == IDS_EXHAUSTED
                && e.text@ == exhausted_text(),
        },
    }
}

impl GenerateLayer {
    pub closed spec fn count(&self) -> u32 {
        self.counter
    }

    pub fn new() -> (r: GenerateLayer)
        ensures
            r.count() == 0,
    {
        GenerateLayer { counter: 0 }
    }

    /// Reads `j` as a request of this layer.
    pub fn parse_request(j: &Json) -> (r: Option<Message<Req>>)
        ensures
            parsed_as(*j, r),
    {
        let env = match envelope(j) {
            Some(env) => env,
            None => return None,
        };
        if !has_tag(env.body, "generate") {
            return None;
        }
        match get_u32(env.body, "msg_id") {
            Some(msg_id) => Some(
                Message { src: env.src, dest: env.dest, body: Req::Generate { msg_id } },
            ),
            None => None,
        }
    }

    /// Answers with the next id of this node.
    pub fn handle<D: NodeData>(&mut self, node: &D, req: Message<Req>) -> (out: Vec<
        Message<Result<Resp, ErrorBody>>,
    >)
        ensures
            final(self).count() == (if old(self).count() < u32::MAX {
                old(self).count() + 1
            } else {
                old(self).count() as int
            }),
            handled(
                old(self).count(),
                node.spec_node_id(),
                node.spec_next_message_id(),
                req,
                out@,
            ),
    {
        let Message { src, dest: _, body } = req;
        let Req::Generate { msg_id } = body;
        let node_id = node.node_id();
        if self.counter == u32::MAX {
            proof {
                reveal_strlit("every id of this node has been handed out");
            }
            let text = String::from_str("every id of this node has been handed out");
            return vec![
                Message {
                    src: node_id,
                    dest: src,
                    body: Err(ErrorBody { in_reply_to: msg_id, code: IDS_EXHAUSTED, text }),
                },
            ];
        }
        self.counter = self.counter + 1;
        let mut id = node_id.clone();
        push_decimal(&mut id, self.counter as u64);
        vec![
            Message {
                src: node_id,
                dest: src,
                body: Ok(Resp::GenerateOk { id, msg_id: node.next_message_id(), in_reply_to: msg_id }),
            },
        ]
    }
}

} // verus!
