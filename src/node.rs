use vstd::prelude::*;

use crate::broadcast::{self, BroadcastLayer};
use crate::context::{clone_strings, NodeContext, NodeData};
use crate::echo::{self, EchoLayer};
use crate::gcounter::{self, GCounterLayer};
use crate::generate::{self, GenerateLayer};
use crate::json::{
    find_member, get_str, get_strings, get_u32, lookup, parse_json, parsed_json, str_member,
    strings_of, u32_member, Json,
};
use crate::message::{
    all_wire, envelope, envelope_of, envelope_text, has_tag, line_text, num_field, open_body,
    push_num_field, push_open_body, render_line, tagged, to_wire, ErrorBody, Message, Response,
};

verus! {

/// A condition under which the node cannot go on.
#[derive(Debug, Clone, Copy, PartialEq, Eq, Structural)]
pub enum NodeError {
    /// A topology was handed over that names no neighbours for this node.
    MissingNeighbours,
    /// The layer that accepted a request could answer it with ids past
    /// `u32::MAX`.
    IdsExhausted,
    /// The first line was not an init message.
    BadInit,
}

/// One installed protocol layer.
#[derive(Debug)]
pub enum Layer {
    Echo(EchoLayer),
    Generate(GenerateLayer),
    Broadcast(BroadcastLayer),
    GCounter(GCounterLayer),
}

/// `r` carries `typed` in wire form.
pub open spec fn wire_ok<R: Response>(
    r: Result<Vec<Message<Result<String, ErrorBody>>>, NodeError>,
    typed: Seq<Message<Result<R, ErrorBody>>>,
) -> bool {
    match r {
        Ok(ws) => all_wire(ws@, typed),
        Err(_) => false,
    }
}

impl Layer {
    /// Whether the layer's request schema accepts `j`.
    pub open spec fn accepts(&self, j: Json) -> bool {
        match self {
            Layer::Echo(_) => echo::accepts(j),
            Layer::Generate(_) => generate::accepts(j),
            Layer::Broadcast(_) => broadcast::accepts(j),
            Layer::GCounter(_) => gcounter::accepts(j),
        }
    }

    /// The most messages one request can send, on a cluster of `members` nodes.
    pub open spec fn max_replies(&self, members: nat) -> nat {
        match self {
            Layer::Broadcast(b) => b.max_replies(),
            Layer::GCounter(_) => members + 1,
            _ => 1,
        }
    }

    /// `next` is this layer after it answers `j` on node `id` of the cluster
    /// `members`, with ids from `base`, and `r` is what goes out. A request
    /// whose answer could carry ids past `u32::MAX` is refused with
    /// `IdsExhausted` and changes nothing.
    pub open spec fn handled(
        &self,
        next: Layer,
        id: String,
        members: Seq<String>,
        base: u32,
        j: Json,
        r: Result<Vec<Message<Result<String, ErrorBody>>>, NodeError>,
    ) -> bool {
        if base + self.max_replies(members.len()) > u32::MAX {
            next == *self && r == Err::<Vec<Message<Result<String, ErrorBody>>>, NodeError>(
                NodeError::IdsExhausted,
            )
        } else {
            self.answered(next, id, members, base, j, r)
        }
    }

    /// `next` is this layer after it answers `j` on node `id` of the cluster
    /// `members`, with ids from `base`, and `r` is what goes out.
    pub open spec fn answered(
        &self,
        next: Layer,
        id: String,
        members: Seq<String>,
        base: u32,
        j: Json,
        r: Result<Vec<Message<Result<String, ErrorBody>>>, NodeError>,
    ) -> bool {
        match (*self, next) {
            (Layer::Echo(_), Layer::Echo(_)) => exists|req: Message<echo::Req>|
                echo::parsed_as(j, Some(req)) && wire_ok(r, seq![echo::answer(id, base, req)]),
            (Layer::Generate(g0), Layer::Generate(g1)) => exists|
                req: Message<generate::Req>,
                out: Seq<Message<Result<generate::Resp, ErrorBody>>>,
            |
                generate::parsed_as(j, Some(req)) && generate::handled(g0.count(), id, base, req, out)
                    && g1.count() == (if g0.count() < u32::MAX {
                    g0.count() + 1
                } else {
                    g0.count() as int
                }) && wire_ok(r, out),
            (Layer::Broadcast(b0), Layer::Broadcast(b1)) => exists|
                req: Message<broadcast::Req>,
                out: Result<Vec<Message<Result<broadcast::Resp, ErrorBody>>>, NodeError>,
            |
                broadcast::parsed_as(j, Some(req)) && broadcast::handled(
                    b0.view(),
                    b1.view(),
                    id,
                    base,
                    req,
                    out,
                ) && match out {
                    Ok(v) => wire_ok(r, v@),
                    Err(e) => r == Err::<Vec<Message<Result<String, ErrorBody>>>, NodeError>(e),
                },
            (Layer::GCounter(c0), Layer::GCounter(c1)) => exists|
                req: Message<gcounter::Req>,
                out: Seq<Message<Result<gcounter::Resp, ErrorBody>>>,
            |
                gcounter::parsed_as(j, Some(req)) && gcounter::handled(
                    c0.view(),
                    c1.view(),
                    id,
                    members,
                    base,
                    req,
                    out,
                ) && wire_ok(r, out),
            _ => false,
        }
    }

    pub fn reply_bound(&self, members: usize) -> (r: u128)
        ensures
            r == self.max_replies(members as nat),
            r <= u64::MAX as u128 + 1,
    {
        let n: usize = match self {
            Layer::Broadcast(b) => b.neighbour_count(),
            Layer::GCounter(_) => members,
            _ => 0,
        };
        n as u128 + 1
    }

    /// Whether an answer of this layer fits the ids from the node's next one.
    fn ids_fit<D: NodeData>(&self, node: &D) -> (r: bool)
        ensures
            r == (node.spec_next_message_id() + self.max_replies(node.spec_all_nodes().len())
                <= u32::MAX),
    {
        let members = node.all_nodes();
        let bound = self.reply_bound(members.len());
        node.next_message_id() as u128 + bound <= u32::MAX as u128
    }

    /// Answers `j` if the layer's schema accepts it; `None`, and no change, if not.
    pub fn handle<D: NodeData>(&mut self, node: &D, j: &Json) -> (r: Option<
        Result<Vec<Message<Result<String, ErrorBody>>>, NodeError>,
    >)
        ensures
            match r {
                None => !old(self).accepts(*j) && *final(self) == *old(self),
                Some(res) => old(self).accepts(*j) && old(self).handled(
                    *final(self),
                    node.spec_node_id(),
                    node.spec_all_nodes(),
                    node.spec_next_message_id(),
                    *j,
                    res,
                ),
            },
    {
        let ghost before = *self;
        match &*self {
            Layer::Echo(_) => {
                let req = match EchoLayer::parse_request(j) {
                    Some(req) => req,
                    None => {
                        proof {
                            echo::lemma_rejected(*j);
                        }
                        return None;
                    },
                };
                if !self.ids_fit(node) {
                    assert(echo::parsed_as(*j, Some(req)));
                    return Some(Err(NodeError::IdsExhausted));
                }
                match self {
                    Layer::Echo(l) => {
                        let out = l.handle(node, req);
                        Some(Ok(to_wire(&out)))
                    },
                    _ => None,
                }
            },
            Layer::Generate(_) => {
                let req = match GenerateLayer::parse_request(j) {
                    Some(req) => req,
                    None => {
                        proof {
                            generate::lemma_rejected(*j);
                        }
                        return None;
                    },
                };
                if !self.ids_fit(node) {
                    assert(generate::parsed_as(*j, Some(req)));
                    return Some(Err(NodeError::IdsExhausted));
                }
                match self {
                    Layer::Generate(l) => {
                        let out = l.handle(node, req);
                        Some(Ok(to_wire(&out)))
                    },
                    _ => None,
                }
            },
            Layer::Broadcast(_) => {
                let req = match BroadcastLayer::parse_request(j) {
                    Some(req) => req,
                    None => {
                        proof {
                            broadcast::lemma_rejected(*j);
                        }
                        return None;
                    },
                };
                if !self.ids_fit(node) {
                    assert(broadcast::parsed_as(*j, Some(req)));
                    return Some(Err(NodeError::IdsExhausted));
                }
                match self {
                    Layer::Broadcast(l) => {
                        let ghost req0 = req;
                        let res = l.handle(node, req);
                        assert(*self is Broadcast);
                        assert(broadcast::parsed_as(*j, Some(req0)));
                        assert(broadcast::handled(
                            before->Broadcast_0.view(),
                            self->Broadcast_0.view(),
                            node.spec_node_id(),
                            node.spec_next_message_id(),
                            req0,
                            res,
                        ));
                        match res {
                            Ok(out) => Some(Ok(to_wire(&out))),
                            Err(e) => Some(Err(e)),
                        }
                    },
                    _ => None,
                }
            },
            Layer::GCounter(_) => {
                let req = match GCounterLayer::parse_request(j) {
                    Some(req) => req,
                    None => {
                        proof {
                            gcounter::lemma_rejected(*j);
                        }
                        return None;
                    },
                };
                if !self.ids_fit(node) {
                    assert(gcounter::parsed_as(*j, Some(req)));
                    return Some(Err(NodeError::IdsExhausted));
                }
                match self {
                    Layer::GCounter(l) => {
                        let ghost req0 = req;
                        let out = l.handle(node, req);
                        assert(*self is GCounter);
                        assert(gcounter::parsed_as(*j, Some(req0)));
                        assert(gcounter::handled(
                            before->GCounter_0.view(),
                            self->GCounter_0.view(),
                            node.spec_node_id(),
                            node.spec_all_nodes(),
                            node.spec_next_message_id(),
                            req0,
                            out@,
                        ));
                        Some(Ok(to_wire(&out)))
                    },
                    _ => None,
                }
            },
        }
    }
}

/// The index of the layer that answers `j`: the last installed whose schema
/// accepts it.
pub open spec fn chosen(layers: Seq<Layer>, j: Json) -> Option<int>
    decreases layers.len(),
{
    if layers.len() == 0 {
        None
    } else if layers.last().accepts(j) {
        Some(layers.len() - 1)
    } else {
        chosen(layers.drop_last(), j)
    }
}

/// `r` answers nothing.
pub open spec fn empty_reply(r: Result<Vec<Message<Result<String, ErrorBody>>>, NodeError>) -> bool {
    match r {
        Ok(v) => v@.len() == 0,
        Err(_) => false,
    }
}

/// How the layers `s` answer the request `j`: `t` is the layers afterwards
/// and `r` what goes out.
pub open spec fn dispatched_json(
    s: Seq<Layer>,
    t: Seq<Layer>,
    id: String,
    members: Seq<String>,
    base: u32,
    j: Json,
    r: Result<Vec<Message<Result<String, ErrorBody>>>, NodeError>,
) -> bool {
    match chosen(s, j) {
        Some(i) => t.len() == s.len() && (forall|k: int|
            0 <= k < s.len() && k != i ==> t[k] == s[k]) && s[i].handled(t[i], id, members, base, j, r),
        None => t == s && empty_reply(r),
    }
}

/// How the layers `s` answer the line `line`: `t` is the layers afterwards and
/// `r` what goes out. A line that is no JSON is answered with nothing.
pub open spec fn dispatched(
    s: Seq<Layer>,
    t: Seq<Layer>,
    id: String,
    members: Seq<String>,
    base: u32,
    line: Seq<char>,
    r: Result<Vec<Message<Result<String, ErrorBody>>>, NodeError>,
) -> bool {
    match parsed_json(line) {
        Some(j) => dispatched_json(s, t, id, members, base, j, r),
        None => t == s && empty_reply(r),
    }
}

/// No installed layer accepts `line`, or it is no JSON at all.
pub open spec fn unmatched(layers: Seq<Layer>, line: Seq<char>) -> bool {
    parsed_json(line) matches Some(j) ==> forall|k: int|
        0 <= k < layers.len() ==> !#[trigger] layers[k].accepts(j)
}

/// The installed layers; the one installed last is tried first.
#[derive(Debug)]
pub struct NodeLayer {
    layers: Vec<Layer>,
}

impl NodeLayer {
    /// The layers in order of installation.
    pub closed spec fn layers(&self) -> Seq<Layer> {
        self.layers@
    }

    /// A chain with no layer.
    pub fn new() -> (r: NodeLayer)
        ensures
            r.layers() == Seq::<Layer>::empty(),
    {
        let r = NodeLayer { layers: Vec::new() };
        assert(r.layers() =~= Seq::<Layer>::empty());
        r
    }

    /// The chain with `layer` installed in front of the others.
    pub fn with_layer(self, layer: Layer) -> (r: NodeLayer)
        ensures
            r.layers() == self.layers().push(layer),
    {
        let mut layers = self.layers;
        layers.push(layer);
        NodeLayer { layers }
    }

    /// The most messages a request can send, on a cluster of `members` nodes.
    pub fn reply_bound(&self, members: usize) -> (r: u128)
        ensures
            forall|i: int|
                0 <= i < self.layers().len() ==> #[trigger] self.layers()[i].max_replies(
                    members as nat,
                ) <= r,
            r == 0 || exists|i: int|
                0 <= i < self.layers().len() && r == #[trigger] self.layers()[i].max_replies(
                    members as nat,
                ),
            r <= u64::MAX as u128 + 1,
    {
        let mut r: u128 = 0;
        let mut i: usize = 0;
        while i < self.layers.len()
            invariant
                i <= self.layers@.len(),
                forall|k: int|
                    0 <= k < i ==> #[trigger] self.layers()[k].max_replies(members as nat) <= r,
                r == 0 || exists|k: int|
                    0 <= k < i && r == #[trigger] self.layers()[k].max_replies(members as nat),
                r <= u64::MAX as u128 + 1,
            decreases self.layers@.len() - i,
        {
            let b = self.layers[i].reply_bound(members);
            if b > r {
                r = b;
                assert(r == self.layers()[i as int].max_replies(members as nat));
            }
            i = i + 1;
        }
        r
    }

    /// Hands `buf` to the last installed layer whose schema accepts it, and to
    /// no other; a line that no layer accepts is answered with nothing.
    pub fn parse_and_handle_layer_msg<D: NodeData>(&mut self, data: &D, buf: &str) -> (r: Result<
        Vec<Message<Result<String, ErrorBody>>>,
        NodeError,
    >)
        ensures
            dispatched(
                old(self).layers(),
                final(self).layers(),
                data.spec_node_id(),
                data.spec_all_nodes(),
                data.spec_next_message_id(),
                buf@,
                r,
            ),
    {
        match parse_json(buf) {
            Some(j) => self.dispatch(data, &j),
            None => Ok(Vec::new()),
        }
    }

    /// Hands the request `j` to the last installed layer whose schema accepts
    /// it, and to no other; a request that no layer accepts is answered with
    /// nothing.
    pub fn dispatch<D: NodeData>(&mut self, data: &D, j: &Json) -> (r: Result<
        Vec<Message<Result<String, ErrorBody>>>,
        NodeError,
    >)
        ensures
            dispatched_json(
                old(self).layers(),
                final(self).layers(),
                data.spec_node_id(),
                data.spec_all_nodes(),
                data.spec_next_message_id(),
                *j,
                r,
            ),
    {
        let ghost s = self.layers@;
        let mut i: usize = self.layers.len();
        assert(s.take(i as int) =~= s);
        while i > 0
            invariant
                i <= s.len(),
                self.layers@ == s,
                s == old(self).layers(),
                chosen(s, *j) == chosen(s.take(i as int), *j),
            decreases i,
        {
            i = i - 1;
            let ghost prefix = s.take(i + 1);
            assert(prefix.drop_last() =~= s.take(i as int));
            let res = self.layers[i].handle(data, j);
            match res {
                Some(r) => {
                    assert(chosen(s, *j) == Some(i as int));
                    return r;
                },
                None => {
                    assert(self.layers@ =~= s);
                },
            }
        }
        Ok(Vec::new())
    }
}

/// What the first line of a session says: who sent it, its id, this node's
/// id and the cluster.
pub open spec fn init_of(j: Json) -> Option<(String, u32, String, Seq<String>)> {
    match envelope_of(j) {
        Some(env) => if tagged(env.body, "init"@) {
            match (u32_member(env.body, "msg_id"@), str_member(env.body, "node_id"@), lookup(
                env.body,
                "node_ids"@,
            )) {
                (Some(msg_id), Some(node_id), Some(Json::Array(items))) => match strings_of(
                    items@,
                ) {
                    Some(ids) => Some((env.src, msg_id, node_id, ids)),
                    None => None,
                },
                _ => None,
            }
        } else {
            None
        },
        None => None,
    }
}

/// The body that acknowledges the init message `msg_id`.
pub open spec fn init_ok_text(msg_id: u32) -> Seq<char> {
    open_body("init_ok"@) + num_field("msg_id"@, 0) + num_field("in_reply_to"@, msg_id as nat)
        + seq!['}']
}

/// A node of the cluster: its identity, its id allocator and its layers.
#[derive(Debug)]
pub struct Node {
    pub id: String,
    /// The id that the next message sent will carry; only the node moves it.
    next_msg_id: u32,
    pub all_nodes: Vec<String>,
    pub inner: NodeLayer,
}

impl Node {
    pub closed spec fn spec_id(&self) -> String {
        self.id
    }

    pub closed spec fn spec_members(&self) -> Seq<String> {
        self.all_nodes@
    }

    pub closed spec fn spec_layers(&self) -> Seq<Layer> {
        self.inner.layers()
    }

    /// The id that the next message sent will carry.
    pub closed spec fn next_id(&self) -> u32 {
        self.next_msg_id
    }

    /// A node with no layer, whose first message will carry `first_msg_id`.
    pub fn new(id: String, all_nodes: Vec<String>, first_msg_id: u32) -> (r: Node)
        ensures
            r.spec_id() == id,
            r.spec_members() == all_nodes@,
            r.next_id() == first_msg_id,
            r.spec_layers() == Seq::<Layer>::empty(),
    {
        Node { id, next_msg_id: first_msg_id, all_nodes, inner: NodeLayer::new() }
    }

    /// The id that the next message sent will carry.
    pub fn next_message_id(&self) -> (r: u32)
        ensures
            r == self.next_id(),
    {
        self.next_msg_id
    }

    /// Starts a node from the first line of a session. Gives the node, with no
    /// layer, and the line that acknowledges the init message.
    pub fn try_init(line: &str) -> (r: Result<(Node, String), NodeError>)
        ensures
            match r {
                Ok((node, reply)) => parsed_json(line@) matches Some(j) && init_of(j) matches Some(
                    init,
                ) && node.spec_id() == init.2 && node.spec_members() == init.3 && node.next_id()
                    == 1 && node.spec_layers() == Seq::<Layer>::empty() && reply@
                    == envelope_text(init.2@, init.0@, init_ok_text(init.1)),
                Err(e) => e == NodeError::BadInit && !(parsed_json(line@) matches Some(j)
                    && init_of(j) is Some),
            },
    {
        let j = match parse_json(line) {
            Some(j) => j,
            None => return Err(NodeError::BadInit),
        };
        let env = match envelope(&j) {
            Some(env) => env,
            None => return Err(NodeError::BadInit),
        };
        if !has_tag(env.body, "init") {
            return Err(NodeError::BadInit);
        }
        let msg_id = match get_u32(env.body, "msg_id") {
            Some(m) => m,
            None => return Err(NodeError::BadInit),
        };
        let node_id = match get_str(env.body, "node_id") {
            Some(n) => n,
            None => return Err(NodeError::BadInit),
        };
        let all_nodes = match find_member(env.body, "node_ids") {
            Some(i) => match &env.body[i].1 {
                Json::Array(items) => match get_strings(items) {
                    Some(v) => v,
                    None => return Err(NodeError::BadInit),
                },
                _ => return Err(NodeError::BadInit),
            },
            None => return Err(NodeError::BadInit),
        };
        let mut body = String::new();
        push_open_body(&mut body, "init_ok");
        push_num_field(&mut body, "msg_id", 0);
        push_num_field(&mut body, "in_reply_to", msg_id as u64);
        proof {
            reveal_strlit("}");
        }
        body.append("}");
        assert(body@ =~= init_ok_text(msg_id));
        let reply = render_line(&Message { src: node_id.clone(), dest: env.src, body: Ok(body) });
        let node = Node::new(node_id, all_nodes, 1);
        Ok((node, reply))
    }

    /// The node with `layer` installed in front of its other layers.
    pub fn with_layer(self, layer: Layer) -> (r: Node)
        ensures
            r.spec_id() == self.spec_id(),
            r.spec_members() == self.spec_members(),
            r.next_id() == self.next_id(),
            r.spec_layers() == self.spec_layers().push(layer),
    {
        let Node { id, next_msg_id, all_nodes, inner } = self;
        let inner = inner.with_layer(layer);
        Node { id, next_msg_id, all_nodes, inner }
    }

    /// Answers one line of input: the lines to send back, each message with
    /// an id of its own. Fails only where the node cannot go on.
    pub fn handle_incoming_message(&mut self, line: &str) -> (r: Result<Vec<String>, NodeError>)
        ensures
            final(self).spec_id() == old(self).spec_id(),
            final(self).spec_members() == old(self).spec_members(),
            unmatched(old(self).spec_layers(), line@) ==> (r matches Ok(v) && v@.len() == 0)
                && final(self).spec_layers() == old(self).spec_layers() && final(self).next_id()
                == old(self).next_id(),
            exists|w: Result<Vec<Message<Result<String, ErrorBody>>>, NodeError>|
                dispatched(
                    old(self).spec_layers(),
                    final(self).spec_layers(),
                    old(self).spec_id(),
                    old(self).spec_members(),
                    old(self).next_id(),
                    line@,
                    w,
                ) && #[trigger] rendered(w, r, old(self).next_id(), final(self).next_id()),
    {
        let ctx = NodeContext {
            node_id: self.id.clone(),
            all_nodes: clone_strings(&self.all_nodes),
            next_msg_id: self.next_msg_id,
        };
        let w = self.inner.parse_and_handle_layer_msg(&ctx, line);
        let ghost w0 = w;
        proof {
            if unmatched(old(self).spec_layers(), line@) {
                lemma_unmatched_input(
                    old(self).spec_layers(),
                    self.spec_layers(),
                    ctx.node_id,
                    ctx.all_nodes@,
                    ctx.next_msg_id,
                    line@,
                    w0,
                );
            }
        }
        let msgs = match w {
            Ok(msgs) => msgs,
            Err(e) => {
                assert(rendered(w0, Err(e), old(self).next_id(), self.next_id()));
                return Err(e);
            },
        };
        let mut lines: Vec<String> = Vec::new();
        let mut i: usize = 0;
        while i < msgs.len()
            invariant
                i <= msgs@.len(),
                lines@.len() == i,
                forall|k: int| 0 <= k < i ==> #[trigger] lines@[k]@ == line_text(msgs@[k]),
            decreases msgs@.len() - i,
        {
            lines.push(render_line(&msgs[i]));
            i = i + 1;
        }
        proof {
            lemma_dispatch_count(
                old(self).inner.layers(),
                self.inner.layers(),
                ctx.node_id,
                ctx.all_nodes@,
                ctx.next_msg_id,
                line@,
                w0,
            );
        }
        self.next_msg_id = self.next_msg_id + lines.len() as u32;
        assert(rendered(w0, Ok(lines), old(self).next_id(), self.next_id()));
        Ok(lines)
    }
}

/// `r` is `w` as lines of output, and the id allocator moved from `before` to
/// `after`: one id for each message sent.
pub open spec fn rendered(
    w: Result<Vec<Message<Result<String, ErrorBody>>>, NodeError>,
    r: Result<Vec<String>, NodeError>,
    before: u32,
    after: u32,
) -> bool {
    match (w, r) {
        (Ok(msgs), Ok(lines)) => lines@.len() == msgs@.len() && after == before + lines@.len()
            && forall|k: int| 0 <= k < lines@.len() ==> #[trigger] lines@[k]@ == line_text(msgs@[k]),
        (Err(e), Err(f)) => e == f && after == before,
        _ => false,
    }
}

/// A layer sends no more messages than its bound.
proof fn lemma_reply_count(
    l: Layer,
    next: Layer,
    id: String,
    members: Seq<String>,
    base: u32,
    j: Json,
    ws: Vec<Message<Result<String, ErrorBody>>>,
)
    requires
        l.handled(next, id, members, base, j, Ok(ws)),
    ensures
        base + l.max_replies(members.len()) <= u32::MAX,
        ws@.len() <= l.max_replies(members.len()),
{
    match (l, next) {
        (Layer::Generate(g0), Layer::Generate(g1)) => {
            let (req, out) = choose|
                req: Message<generate::Req>,
                out: Seq<Message<Result<generate::Resp, ErrorBody>>>,
            |
                generate::parsed_as(j, Some(req)) && generate::handled(g0.count(), id, base, req, out)
                    && g1.count() == (if g0.count() < u32::MAX {
                    g0.count() + 1
                } else {
                    g0.count() as int
                }) && wire_ok(Ok(ws), out);
        },
        (Layer::Broadcast(b0), Layer::Broadcast(b1)) => {
            let (req, out) = choose|
                req: Message<broadcast::Req>,
                out: Result<Vec<Message<Result<broadcast::Resp, ErrorBody>>>, NodeError>,
            |
                broadcast::parsed_as(j, Some(req)) && broadcast::handled(
                    b0.view(),
                    b1.view(),
                    id,
                    base,
                    req,
                    out,
                ) && match out {
                    Ok(v) => wire_ok(Ok(ws), v@),
                    Err(e) => Ok::<Vec<Message<Result<String, ErrorBody>>>, NodeError>(ws) == Err::<
                        Vec<Message<Result<String, ErrorBody>>>,
                        NodeError,
                    >(e),
                };
        },
        (Layer::GCounter(c0), Layer::GCounter(c1)) => {
            let (req, out) = choose|
                req: Message<gcounter::Req>,
                out: Seq<Message<Result<gcounter::Resp, ErrorBody>>>,
            |
                gcounter::parsed_as(j, Some(req)) && gcounter::handled(
                    c0.view(),
                    c1.view(),
                    id,
                    members,
                    base,
                    req,
                    out,
                ) && wire_ok(Ok(ws), out);
            gcounter::lemma_peers_len(members, id@);
        },
        _ => {},
    }
}

/// A dispatch within the id bound sends no more messages than the bound allows.
proof fn lemma_dispatch_count(
    s: Seq<Layer>,
    t: Seq<Layer>,
    id: String,
    members: Seq<String>,
    base: u32,
    line: Seq<char>,
    w: Result<Vec<Message<Result<String, ErrorBody>>>, NodeError>,
)
    requires
        dispatched(s, t, id, members, base, line, w),
    ensures
        w matches Ok(ws) ==> base + ws@.len() <= u32::MAX,
{
    if let Ok(ws) = w {
        if let Some(j) = parsed_json(line) {
            if let Some(i) = chosen(s, j) {
                lemma_chosen_in_range(s, j);
                lemma_reply_count(s[i], t[i], id, members, base, j, ws);
            }
        }
    }
}

proof fn lemma_chosen_in_range(s: Seq<Layer>, j: Json)
    ensures
        chosen(s, j) matches Some(i) ==> 0 <= i < s.len() && s[i].accepts(j),
    decreases s.len(),
{
    if s.len() > 0 {
        lemma_chosen_in_range(s.drop_last(), j);
    }
}

/// The chosen layer accepts the request, and no layer installed after it does.
proof fn lemma_chosen_last(s: Seq<Layer>, j: Json)
    ensures
        match chosen(s, j) {
            Some(c) => 0 <= c < s.len() && s[c].accepts(j) && forall|k: int|
                c < k < s.len() ==> !#[trigger] s[k].accepts(j),
            None => forall|k: int| 0 <= k < s.len() ==> !#[trigger] s[k].accepts(j),
        },
    decreases s.len(),
{
    if s.len() > 0 {
        lemma_chosen_last(s.drop_last(), j);
        assert forall|k: int| 0 <= k < s.len() - 1 implies #[trigger] s[k] == s.drop_last()[k] by {}
    }
}

/// Of two installed layers whose schemas both accept a request, the earlier one
/// is left as it was; the request goes to the later one, or to a layer installed
/// after both.
pub proof fn lemma_dispatch_precedence(
    s: Seq<Layer>,
    t: Seq<Layer>,
    id: String,
    members: Seq<String>,
    base: u32,
    j: Json,
    r: Result<Vec<Message<Result<String, ErrorBody>>>, NodeError>,
    earlier: int,
    later: int,
)
    requires
        dispatched_json(s, t, id, members, base, j, r),
        0 <= earlier < later < s.len(),
        s[earlier].accepts(j),
        s[later].accepts(j),
    ensures
        t[earlier] == s[earlier],
        chosen(s, j) matches Some(c) && later <= c && s[c].handled(t[c], id, members, base, j, r),
        (forall|k: int| later < k < s.len() ==> !#[trigger] s[k].accepts(j)) ==> chosen(s, j)
            == Some(later),
{
    lemma_chosen_last(s, j);
}

/// A line that no installed layer accepts, or that is no JSON at all, is
/// answered with nothing and leaves every layer as it was.
pub proof fn lemma_unmatched_input(
    s: Seq<Layer>,
    t: Seq<Layer>,
    id: String,
    members: Seq<String>,
    base: u32,
    line: Seq<char>,
    r: Result<Vec<Message<Result<String, ErrorBody>>>, NodeError>,
)
    requires
        dispatched(s, t, id, members, base, line, r),
        parsed_json(line) matches Some(j) ==> forall|k: int|
            0 <= k < s.len() ==> !#[trigger] s[k].accepts(j),
    ensures
        t == s,
        empty_reply(r),
{
    if let Some(j) = parsed_json(line) {
        lemma_chosen_last(s, j);
    }
}

} // verus!
