use vstd::prelude::*;

use crate::context::{clone_strings, NodeData};
use crate::json::{
    get_object, get_strings, get_text, get_u32, json_text, lookup, object_member, strings_of,
    u32_member, Json,
};
use crate::message::{
    envelope, envelope_of, has_tag, joined, key, num_field, push_key, open_body, push_array_of_texts,
    push_num_field, push_open_body, push_raw_field, raw_field, tagged, texts, ErrorBody, Message,
    Response,
};
use crate::node::NodeError;

verus! {

/// Flood-fill broadcast over a topology that is handed to the node once.
#[derive(Debug)]
pub struct BroadcastLayer {
    neighbours: Vec<String>,
    /// The compact JSON text of each distinct value seen, in order of arrival.
    received: Vec<String>,
}

/// What a broadcast layer holds, as values.
pub ghost struct BroadcastView {
    pub neighbours: Seq<String>,
    pub received: Seq<Seq<char>>,
}

#[derive(Debug)]
pub enum Req {
    Topology { msg_id: u32, topology: Vec<(String, Vec<String>)> },
    /// `message` is the compact JSON text of the value broadcast.
    Broadcast { message: String, msg_id: u32 },
    Read { msg_id: u32 },
}

#[derive(Debug)]
pub enum Resp {
    TopologyOk { msg_id: u32, in_reply_to: u32 },
    BroadcastOk { msg_id: u32, in_reply_to: u32 },
    Broadcast { message: String, msg_id: u32 },
    ReadOk { msg_id: u32, messages: Vec<String>, in_reply_to: u32 },
}

/// A topology as values: each node with its neighbours.
pub open spec fn topology_view(t: Seq<(String, Vec<String>)>) -> Seq<(String, Seq<String>)> {
    t.map_values(|e: (String, Vec<String>)| (e.0, e.1@))
}

/// The members of a topology object, if each one is a list of node ids.
pub open spec fn topology_of(members: Seq<(String, Json)>) -> Option<Seq<(String, Seq<String>)>>
    decreases members.len(),
{
    if members.len() == 0 {
        Some(Seq::empty())
    } else {
        match (topology_of(members.drop_last()), members.last().1) {
            (Some(init), Json::Array(items)) => match strings_of(items@) {
                Some(ns) => Some(init.push((members.last().0, ns))),
                None => None,
            },
            _ => None,
        }
    }
}

/// The neighbours that the topology gives to `id`: the first entry for it.
pub open spec fn neighbours_of(t: Seq<(String, Seq<String>)>, id: Seq<char>) -> Option<Seq<String>>
    decreases t.len(),
{
    if t.len() == 0 {
        None
    } else if t[0].0@ == id {
        Some(t[0].1)
    } else {
        neighbours_of(t.drop_first(), id)
    }
}

/// Whether `j` is a request of this layer, and `r` what it reads as.
pub open spec fn parsed_as(j: Json, r: Option<Message<Req>>) -> bool {
    match envelope_of(j) {
        None => r is None,
        Some(env) => {
            let b = env.body;
            if tagged(b, "topology"@) {
                match (u32_member(b, "msg_id"@), object_member(b, "topology"@)) {
                    (Some(id), Some(t)) => match topology_of(t) {
                        Some(tv) => match r {
                            Some(m) => m.src == env.src && m.dest == env.dest && match m.body {
                                Req::Topology { msg_id, topology } => msg_id == id
                                    && topology_view(topology@) == tv,
                                _ => false,
                            },
                            None => false,
                        },
                        None => r is None,
                    },
                    _ => r is None,
                }
            } else if tagged(b, "broadcast"@) {
                match (lookup(b, "message"@), u32_member(b, "msg_id"@)) {
                    (Some(v), Some(id)) => match r {
                        Some(m) => m.src == env.src && m.dest == env.dest && match m.body {
                            Req::Broadcast { message, msg_id } => msg_id == id && message@
                                == json_text(v),
                            _ => false,
                        },
                        None => false,
                    },
                    _ => r is None,
                }
            } else if tagged(b, "read"@) {
                match u32_member(b, "msg_id"@) {
                    Some(id) => r == Some(
                        Message { src: env.src, dest: env.dest, body: Req::Read { msg_id: id } },
                    ),
                    None => r is None,
                }
            } else {
                r is None
            }
        },
    }
}

/// Whether `j` is a request of this layer.
pub open spec fn accepts(j: Json) -> bool {
    exists|m: Message<Req>| parsed_as(j, Some(m))
}

/// A request read as nothing is not one of this layer.
pub proof fn lemma_rejected(j: Json)
    requires
        parsed_as(j, None),
    ensures
        !accepts(j),
{
    assert forall|m: Message<Req>| !parsed_as(j, Some(m)) by {}
}

/// The state after a value arrives: a value not seen before is recorded.
pub open spec fn on_broadcast(s: BroadcastView, v: Seq<char>) -> BroadcastView {
    if s.received.contains(v) {
        s
    } else {
        BroadcastView { received: s.received.push(v), ..s }
    }
}

/// How many copies of `v` go out when it arrives in state `s`.
pub open spec fn forwards(s: BroadcastView, v: Seq<char>) -> nat {
    if s.received.contains(v) {
        0
    } else {
        s.neighbours.len()
    }
}

/// The state is sound: no value is recorded twice.
pub open spec fn received_unique(s: BroadcastView) -> bool {
    s.received.no_duplicates()
}

/// The reply that `resp` makes from `id` to `dest`.
pub open spec fn reply(id: String, dest: String, resp: Resp) -> Message<Result<Resp, ErrorBody>> {
    Message { src: id, dest, body: Ok(resp) }
}

/// What goes out when `message` arrives from `src` in state `s`: a copy to
/// each neighbour if it is new, then the acknowledgement; ids count up from `base`.
pub open spec fn flood(
    s: BroadcastView,
    id: String,
    src: String,
    message: String,
    msg_id: u32,
    base: u32,
) -> Seq<Message<Result<Resp, ErrorBody>>> {
    let n = forwards(s, message@);
    Seq::new(
        n,
        |i: int| reply(id, s.neighbours[i], Resp::Broadcast { message, msg_id: (base + i) as u32 }),
    ).push(reply(id, src, Resp::BroadcastOk { msg_id: (base + n) as u32, in_reply_to: msg_id }))
}

/// How the layer answers `req` in state `s`, on node `id`, with ids from `base`:
/// `t` is the state afterwards and `r` what is sent.
pub open spec fn handled(
    s: BroadcastView,
    t: BroadcastView,
    id: String,
    base: u32,
    req: Message<Req>,
    r: Result<Vec<Message<Result<Resp, ErrorBody>>>, NodeError>,
) -> bool {
    match req.body {
        Req::Topology { msg_id, topology } => match neighbours_of(topology_view(topology@), id@) {
            Some(ns) => t == BroadcastView { neighbours: ns, ..s } && match r {
                Ok(out) => out@ == seq![
                    reply(id, req.src, Resp::TopologyOk { msg_id: base, in_reply_to: msg_id }),
                ],
                Err(_) => false,
            },
            None => t == s && r == Err::<Vec<Message<Result<Resp, ErrorBody>>>, NodeError>(
                NodeError::MissingNeighbours,
            ),
        },
        Req::Broadcast { message, msg_id } => t == on_broadcast(s, message@) && match r {
            Ok(out) => out@ == flood(s, id, req.src, message, msg_id, base),
            Err(_) => false,
        },
        Req::Read { msg_id } => t == s && match r {
            Ok(out) => out@.len() == 1 && out@[0].src == id && out@[0].dest == req.src
                && match out@[0].body {
                Ok(Resp::ReadOk { msg_id: m, messages, in_reply_to }) => m == base && in_reply_to
                    == msg_id && texts(messages@) == s.received,
                _ => false,
            },
            Err(_) => false,
        },
    }
}

impl Response for Resp {
    open spec fn text_of(&self) -> Seq<char> {
        match self {
            Resp::TopologyOk { msg_id, in_reply_to } => open_body("topology_ok"@) + num_field(
                "msg_id"@,
                msg_id as nat,
            ) + num_field("in_reply_to"@, in_reply_to as nat) + seq!['}'],
            Resp::BroadcastOk { msg_id, in_reply_to } => open_body("broadcast_ok"@) + num_field(
                "msg_id"@,
                msg_id as nat,
            ) + num_field("in_reply_to"@, in_reply_to as nat) + seq!['}'],
            Resp::Broadcast { message, msg_id } => open_body("broadcast"@) + raw_field(
                "message"@,
                message@,
            ) + num_field("msg_id"@, msg_id as nat) + seq!['}'],
            Resp::ReadOk { msg_id, messages, in_reply_to } => open_body("read_ok"@) + num_field(
                "msg_id"@,
                msg_id as nat,
            ) + key("messages"@) + seq!['['] + joined(texts(messages@)) + seq![']'] + num_field(
                "in_reply_to"@,
                in_reply_to as nat,
            ) + seq!['}'],
        }
    }

    fn write(&self, out: &mut String) {
        proof {
            reveal_strlit("}");
        }
        match self {
            Resp::TopologyOk { msg_id, in_reply_to } => {
                push_open_body(out, "topology_ok");
                push_num_field(out, "msg_id", *msg_id as u64);
                push_num_field(out, "in_reply_to", *in_reply_to as u64);
            },
            Resp::BroadcastOk { msg_id, in_reply_to } => {
                push_open_body(out, "broadcast_ok");
                push_num_field(out, "msg_id", *msg_id as u64);
                push_num_field(out, "in_reply_to", *in_reply_to as u64);
            },
            Resp::Broadcast { message, msg_id } => {
                push_open_body(out, "broadcast");
                push_raw_field(out, "message", message.as_str());
                push_num_field(out, "msg_id", *msg_id as u64);
            },
            Resp::ReadOk { msg_id, messages, in_reply_to } => {
                push_open_body(out, "read_ok");
                push_num_field(out, "msg_id", *msg_id as u64);
                push_key(out, "messages");
                push_array_of_texts(out, messages);
                push_num_field(out, "in_reply_to", *in_reply_to as u64);
            },
        }
        out.append("}");
        assert(final(out)@ =~= old(out)@ + self.text_of());
    }
}

/// Reads a topology object whose members are lists of node ids.
fn parse_topology(m: &Vec<(String, Json)>) -> (r: Option<Vec<(String, Vec<String>)>>)
    ensures
        match r {
            Some(t) => topology_of(m@) == Some(topology_view(t@)),
            None => topology_of(m@) is None,
        },
{
    let mut out: Vec<(String, Vec<String>)> = Vec::new();
    let mut i: usize = 0;
    assert(topology_view(out@) =~= Seq::<(String, Seq<String>)>::empty());
    assert(m@.take(0) =~= Seq::<(String, Json)>::empty());
    while i < m.len()
        invariant
            i <= m@.len(),
            topology_of(m@.take(i as int)) == Some(topology_view(out@)),
        decreases m@.len() - i,
    {
        let ghost t = m@.take(i + 1);
        assert(t.drop_last() =~= m@.take(i as int));
        let ns = match &m[i].1 {
            Json::Array(items) => get_strings(items),
            _ => None,
        };
        match ns {
            Some(ns) => {
                let ghost before = out@;
                out.push((m[i].0.clone(), ns));
                assert(topology_view(out@) =~= topology_view(before).push((m@[i as int].0, ns@)));
            },
            None => {
                assert(topology_of(t) is None);
                assert forall|k: int| i + 1 <= k <= m@.len() implies #[trigger] topology_of(
                    m@.take(k),
                ) is None by {
                    lemma_topology_prefix(m@, i + 1, k);
                }
                assert(m@.take(m@.len() as int) =~= m@);
                return None;
            },
        }
        i = i + 1;
    }
    assert(m@.take(i as int) =~= m@);
    Some(out)
}

proof fn lemma_topology_prefix(m: Seq<(String, Json)>, i: int, k: int)
    requires
        0 <= i <= k <= m.len(),
        topology_of(m.take(i)) is None,
    ensures
        topology_of(m.take(k)) is None,
    decreases k - i,
{
    if k > i {
        lemma_topology_prefix(m, i, k - 1);
        assert(m.take(k).drop_last() =~= m.take(k - 1));
    }
}

/// The neighbours listed for `id`: those of its first entry.
fn find_neighbours(t: &Vec<(String, Vec<String>)>, id: &String) -> (r: Option<Vec<String>>)
    ensures
        match r {
            Some(ns) => neighbours_of(topology_view(t@), id@) == Some(ns@),
            None => neighbours_of(topology_view(t@), id@) is None,
        },
{
    let ghost tv = topology_view(t@);
    let mut i: usize = 0;
    assert(tv.subrange(0, tv.len() as int) =~= tv);
    while i < t.len()
        invariant
            i <= t@.len(),
            tv == topology_view(t@),
            neighbours_of(tv, id@) == neighbours_of(tv.subrange(i as int, tv.len() as int), id@),
        decreases t@.len() - i,
    {
        let ghost rest = tv.subrange(i as int, tv.len() as int);
        assert(rest[0] == tv[i as int]);
        if t[i].0 == *id {
            return Some(clone_strings(&t[i].1));
        }
        assert(rest.drop_first() =~= tv.subrange(i + 1, tv.len() as int));
        i = i + 1;
    }
    None
}

impl BroadcastLayer {
    pub closed spec fn view(&self) -> BroadcastView {
        BroadcastView { neighbours: self.neighbours@, received: texts(self.received@) }
    }

    #[verifier::type_invariant]
    spec fn inv(&self) -> bool {
        received_unique(self.view())
    }

    /// The greatest number of messages one request can send out.
    pub open spec fn max_replies(&self) -> nat {
        self.view().neighbours.len() + 1
    }

    pub fn new() -> (r: BroadcastLayer)
        ensures
            received_unique(r.view()),
            r.view().neighbours.len() == 0,
            r.view().received.len() == 0,
    {
        let r = BroadcastLayer { neighbours: Vec::new(), received: Vec::new() };
        assert(r.view().received =~= Seq::<Seq<char>>::empty());
        r
    }

    pub fn neighbour_count(&self) -> (r: usize)
        ensures
            r == self.view().neighbours.len(),
    {
        self.neighbours.len()
    }

    /// Whether `v` has been seen.
    fn has_received(&self, v: &String) -> (r: bool)
        ensures
            r == self.view().received.contains(v@),
    {
        let mut i: usize = 0;
        while i < self.received.len()
            invariant
                i <= self.received@.len(),
                forall|k: int| 0 <= k < i ==> self.received@[k]@ != v@,
            decreases self.received@.len() - i,
        {
            if self.received[i] == *v {
                assert(self.view().received[i as int] == v@);
                return true;
            }
            i = i + 1;
        }
        proof {
            if self.view().received.contains(v@) {
                let k = self.view().received.index_of(v@);
                assert(self.received@[k]@ == v@);
            }
        }
        false
    }

    /// Reads `j` as a request of this layer.
    pub fn parse_request(j: &Json) -> (r: Option<Message<Req>>)
        ensures
            parsed_as(*j, r),
    {
        let env = match envelope(j) {
            Some(env) => env,
            None => return None,
        };
        let b = env.body;
        if has_tag(b, "topology") {
            match (get_u32(b, "msg_id"), get_object(b, "topology")) {
                (Some(msg_id), Some(t)) => match parse_topology(t) {
                    Some(topology) => Some(
                        Message {
                            src: env.src,
                            dest: env.dest,
                            body: Req::Topology { msg_id, topology },
                        },
                    ),
                    None => None,
                },
                _ => None,
            }
        } else if has_tag(b, "broadcast") {
            match (get_text(b, "message"), get_u32(b, "msg_id")) {
                (Some(message), Some(msg_id)) => Some(
                    Message { src: env.src, dest: env.dest, body: Req::Broadcast { message, msg_id } },
                ),
                _ => None,
            }
        } else if has_tag(b, "read") {
            match get_u32(b, "msg_id") {
                Some(msg_id) => Some(
                    Message { src: env.src, dest: env.dest, body: Req::Read { msg_id } },
                ),
                None => None,
            }
        } else {
            None
        }
    }

    /// Answers one request: stores the topology, floods a new value, or
    /// lists the values seen.
    pub fn handle<D: NodeData>(&mut self, node: &D, req: Message<Req>) -> (r: Result<
        Vec<Message<Result<Resp, ErrorBody>>>,
        NodeError,
    >)
        requires
            node.spec_next_message_id() + old(self).max_replies() <= u32::MAX,
        ensures
            received_unique(final(self).view()),
            handled(
                old(self).view(),
                final(self).view(),
                node.spec_node_id(),
                node.spec_next_message_id(),
                req,
                r,
            ),
    {
        proof {
            use_type_invariant(&*self);
        }
        let base = node.next_message_id();
        let Message { src, dest: _, body } = req;
        let r = match body {
            Req::Topology { msg_id, topology } => {
                match find_neighbours(&topology, &node.node_id()) {
                    Some(ns) => {
                        self.neighbours = ns;
                        let out = vec![
                            Message {
                                src: node.node_id(),
                                dest: src,
                                body: Ok(Resp::TopologyOk { msg_id: base, in_reply_to: msg_id }),
                            },
                        ];
                        assert(self.view() =~= BroadcastView { neighbours: ns@, ..old(self).view() });
                        assert(out@ =~= seq![
                            reply(
                                node.spec_node_id(),
                                src,
                                Resp::TopologyOk { msg_id: base, in_reply_to: msg_id },
                            ),
                        ]);
                        Ok(out)
                    },
                    None => Err(NodeError::MissingNeighbours),
                }
            },
            Req::Broadcast { message, msg_id } => {
                let ghost s = self.view();
                let seen = self.has_received(&message);
                let mut out: Vec<Message<Result<Resp, ErrorBody>>> = Vec::new();
                if !seen {
                    let id = node.node_id();
                    let mut i: usize = 0;
                    while i < self.neighbours.len()
                        invariant
                            self.view() == s,
                            !s.received.contains(message@),
                            i <= s.neighbours.len(),
                            base + s.neighbours.len() + 1 <= u32::MAX,
                            id == node.spec_node_id(),
                            base == node.spec_next_message_id(),
                            out@ == Seq::new(
                                i as nat,
                                |k: int|
                                    reply(
                                        id,
                                        s.neighbours[k],
                                        Resp::Broadcast { message, msg_id: (base + k) as u32 },
                                    ),
                            ),
                        decreases s.neighbours.len() - i,
                    {
                        out.push(
                            Message {
                                src: id.clone(),
                                dest: self.neighbours[i].clone(),
                                body: Ok(
                                    Resp::Broadcast { message: message.clone(), msg_id: base + i as u32 },
                                ),
                            },
                        );
                        i = i + 1;
                        assert(out@ =~= Seq::new(
                            i as nat,
                            |k: int|
                                reply(
                                    id,
                                    s.neighbours[k],
                                    Resp::Broadcast { message, msg_id: (base + k) as u32 },
                                ),
                        ));
                    }
                    let mut received: Vec<String> = Vec::new();
                    std::mem::swap(&mut received, &mut self.received);
                    let ghost old_received = received@;
                    received.push(message.clone());
                    assert(texts(received@) =~= texts(old_received).push(message@));
                    proof {
                        lemma_on_broadcast_sound(s, message@);
                    }
                    self.received = received;
                }
                let count = out.len() as u32;
                out.push(
                    Message {
                        src: node.node_id(),
                        dest: src,
                        body: Ok(Resp::BroadcastOk { msg_id: base + count, in_reply_to: msg_id }),
                    },
                );
                assert(out@ =~= flood(s, node.spec_node_id(), src, message, msg_id, base));
                Ok(out)
            },
            Req::Read { msg_id } => {
                let messages = clone_strings(&self.received);
                let out = vec![
                    Message {
                        src: node.node_id(),
                        dest: src,
                        body: Ok(Resp::ReadOk { msg_id: base, messages, in_reply_to: msg_id }),
                    },
                ];
                assert(out@[0].body matches Ok(Resp::ReadOk { messages: m, .. }) && texts(m@)
                    == self.view().received);
                Ok(out)
            },
        };
        proof {
            use_type_invariant(&*self);
        }
        r
    }
}

/// The state after `v` arrives `n` times in a row.
pub open spec fn deliver_times(s: BroadcastView, v: Seq<char>, n: nat) -> BroadcastView
    decreases n,
{
    if n == 0 {
        s
    } else {
        on_broadcast(deliver_times(s, v, (n - 1) as nat), v)
    }
}

/// The copies of `v` sent over those `n` arrivals.
pub open spec fn forwards_times(s: BroadcastView, v: Seq<char>, n: nat) -> nat
    decreases n,
{
    if n == 0 {
        0
    } else {
        forwards_times(s, v, (n - 1) as nat) + forwards(deliver_times(s, v, (n - 1) as nat), v)
    }
}

/// Recording a value keeps the state sound, and records it.
pub proof fn lemma_on_broadcast_sound(s: BroadcastView, v: Seq<char>)
    requires
        received_unique(s),
    ensures
        received_unique(on_broadcast(s, v)),
        on_broadcast(s, v).received.contains(v),
        on_broadcast(s, v).neighbours == s.neighbours,
{
    if !s.received.contains(v) {
        let t = s.received.push(v);
        assert(t[s.received.len() as int] == v);
        assert forall|i: int, j: int| 0 <= i < t.len() && 0 <= j < t.len() && i != j implies t[i]
            != t[j] by {
            if i == s.received.len() {
                assert(s.received[j] == t[j]);
            } else if j == s.received.len() {
                assert(s.received[i] == t[i]);
            }
        }
    }
}

/// A value that has arrived is sent on no more.
pub proof fn lemma_seen_after(s: BroadcastView, v: Seq<char>)
    ensures
        on_broadcast(s, v).received.contains(v),
        on_broadcast(on_broadcast(s, v), v) == on_broadcast(s, v),
        forwards(on_broadcast(s, v), v) == 0,
        on_broadcast(s, v).neighbours == s.neighbours,
{
    if !s.received.contains(v) {
        assert(s.received.push(v)[s.received.len() as int] == v);
    }
}

/// The same value delivered `n >= 1` times is recorded once, as after one
/// delivery, and is sent on to the neighbours at most once.
pub proof fn lemma_broadcast_idempotent(s: BroadcastView, v: Seq<char>, n: nat)
    requires
        received_unique(s),
        n >= 1,
    ensures
        deliver_times(s, v, n) == on_broadcast(s, v),
        received_unique(deliver_times(s, v, n)),
        deliver_times(s, v, n).received.contains(v),
        forwards_times(s, v, n) == forwards(s, v),
        forwards_times(s, v, n) <= s.neighbours.len(),
    decreases n,
{
    lemma_on_broadcast_sound(s, v);
    lemma_seen_after(s, v);
    assert(deliver_times(s, v, 0) == s);
    assert(forwards_times(s, v, 0) == 0);
    if n > 1 {
        lemma_broadcast_idempotent(s, v, (n - 1) as nat);
        lemma_seen_after(on_broadcast(s, v), v);
        assert(forwards(deliver_times(s, v, (n - 1) as nat), v) == 0);
    } else {
        assert(forwards_times(s, v, 1) == forwards(s, v));
    }
}

/// The states of a cluster's nodes after `v` arrives at the nodes `arrivals`
/// (indices into `states`), one after another.
pub open spec fn flood_run(states: Seq<BroadcastView>, v: Seq<char>, arrivals: Seq<int>) -> Seq<
    BroadcastView,
>
    decreases arrivals.len(),
{
    if arrivals.len() == 0 {
        states
    } else {
        let prev = flood_run(states, v, arrivals.drop_last());
        let d = arrivals.last();
        if 0 <= d < prev.len() {
            prev.update(d, on_broadcast(prev[d], v))
        } else {
            prev
        }
    }
}

/// The copies of `v` that the nodes send over that run.
pub open spec fn flood_sent(states: Seq<BroadcastView>, v: Seq<char>, arrivals: Seq<int>) -> nat
    decreases arrivals.len(),
{
    if arrivals.len() == 0 {
        0
    } else {
        let prev = flood_run(states, v, arrivals.drop_last());
        let d = arrivals.last();
        flood_sent(states, v, arrivals.drop_last()) + if 0 <= d < prev.len() {
            forwards(prev[d], v)
        } else {
            0
        }
    }
}

/// The number of neighbour links over all nodes.
pub open spec fn degree_sum(states: Seq<BroadcastView>) -> nat
    decreases states.len(),
{
    if states.len() == 0 {
        0
    } else {
        degree_sum(states.drop_last()) + states.last().neighbours.len()
    }
}

/// The links of the nodes that have not yet seen `v`.
pub open spec fn pending(states: Seq<BroadcastView>, v: Seq<char>) -> nat
    decreases states.len(),
{
    if states.len() == 0 {
        0
    } else {
        pending(states.drop_last(), v) + forwards(states.last(), v)
    }
}

proof fn lemma_pending_le_degrees(states: Seq<BroadcastView>, v: Seq<char>)
    ensures
        pending(states, v) <= degree_sum(states),
    decreases states.len(),
{
    if states.len() > 0 {
        lemma_pending_le_degrees(states.drop_last(), v);
    }
}

proof fn lemma_pending_step(states: Seq<BroadcastView>, v: Seq<char>, d: int)
    requires
        0 <= d < states.len(),
    ensures
        pending(states.update(d, on_broadcast(states[d], v)), v) + forwards(states[d], v)
            == pending(states, v),
    decreases states.len(),
{
    let t = states.update(d, on_broadcast(states[d], v));
    lemma_seen_after(states[d], v);
    if d == states.len() - 1 {
        assert(t.drop_last() =~= states.drop_last());
    } else {
        assert(t.drop_last() =~= states.drop_last().update(d, on_broadcast(states[d], v)));
        lemma_pending_step(states.drop_last(), v, d);
    }
}

proof fn lemma_flood_pending(states: Seq<BroadcastView>, v: Seq<char>, arrivals: Seq<int>)
    ensures
        flood_sent(states, v, arrivals) + pending(flood_run(states, v, arrivals), v) == pending(
            states,
            v,
        ),
        flood_run(states, v, arrivals).len() == states.len(),
    decreases arrivals.len(),
{
    if arrivals.len() > 0 {
        lemma_flood_pending(states, v, arrivals.drop_last());
        let prev = flood_run(states, v, arrivals.drop_last());
        let d = arrivals.last();
        if 0 <= d < prev.len() {
            lemma_pending_step(prev, v, d);
        }
    }
}

/// However often and in whatever order a value reaches the nodes of a cluster,
/// whatever cycles the topology has, they send it on at most once per
/// neighbour link in all: the flood ends.
pub proof fn lemma_flood_terminates(states: Seq<BroadcastView>, v: Seq<char>, arrivals: Seq<int>)
    ensures
        flood_sent(states, v, arrivals) <= degree_sum(states),
{
    lemma_flood_pending(states, v, arrivals);
    lemma_pending_le_degrees(states, v);
}

proof fn lemma_pending_none_seen(states: Seq<BroadcastView>, v: Seq<char>)
    requires
        forall|i: int| 0 <= i < states.len() ==> !(#[trigger] states[i]).received.contains(v),
    ensures
        pending(states, v) == degree_sum(states),
    decreases states.len(),
{
    if states.len() > 0 {
        let init = states.drop_last();
        assert forall|i: int| 0 <= i < init.len() implies !(#[trigger] init[i]).received.contains(v) by {
            assert(init[i] == states[i]);
        }
        lemma_pending_none_seen(init, v);
        assert(!states[states.len() - 1].received.contains(v));
    }
}

proof fn lemma_pending_all_seen(states: Seq<BroadcastView>, v: Seq<char>)
    requires
        forall|i: int| 0 <= i < states.len() ==> (#[trigger] states[i]).received.contains(v),
    ensures
        pending(states, v) == 0,
    decreases states.len(),
{
    if states.len() > 0 {
        let init = states.drop_last();
        assert forall|i: int| 0 <= i < init.len() implies (#[trigger] init[i]).received.contains(v) by {
            assert(init[i] == states[i]);
        }
        lemma_pending_all_seen(init, v);
        assert(states[states.len() - 1].received.contains(v));
    }
}

/// A flood that starts where no node holds `v` and ends with every node
/// holding it has sent exactly one copy over each neighbour link.
pub proof fn lemma_flood_reaches_all(states: Seq<BroadcastView>, v: Seq<char>, arrivals: Seq<int>)
    requires
        forall|i: int| 0 <= i < states.len() ==> !(#[trigger] states[i]).received.contains(v),
        forall|i: int|
            0 <= i < states.len() ==> (#[trigger] flood_run(states, v, arrivals)[i]).received.contains(
                v,
            ),
    ensures
        flood_sent(states, v, arrivals) == degree_sum(states),
{
    lemma_flood_pending(states, v, arrivals);
    lemma_pending_none_seen(states, v);
    lemma_pending_all_seen(flood_run(states, v, arrivals), v);
}

/// A value handled again right after it arrived leaves the state as it was,
/// goes to no neighbour, and is acknowledged once; the value is recorded once.
pub proof fn lemma_broadcast_repeat(
    s0: BroadcastView,
    s1: BroadcastView,
    s2: BroadcastView,
    id: String,
    base1: u32,
    base2: u32,
    req1: Message<Req>,
    req2: Message<Req>,
    r1: Result<Vec<Message<Result<Resp, ErrorBody>>>, NodeError>,
    r2: Result<Vec<Message<Result<Resp, ErrorBody>>>, NodeError>,
)
    requires
        received_unique(s0),
        handled(s0, s1, id, base1, req1, r1),
        handled(s1, s2, id, base2, req2, r2),
        req1.body matches Req::Broadcast { message: v1, .. } && req2.body matches Req::Broadcast {
            message: v2,
            ..
        } && v1@ == v2@,
    ensures
        s2 == s1,
        received_unique(s2),
        s2.received.contains(req1.body->Broadcast_message@),
        r2 matches Ok(out) && out@ == seq![
            reply(
                id,
                req2.src,
                Resp::BroadcastOk { msg_id: base2, in_reply_to: req2.body->Broadcast_msg_id },
            ),
        ],
{
    let v = req1.body->Broadcast_message@;
    lemma_on_broadcast_sound(s0, v);
    lemma_seen_after(s0, v);
    let out = r2->Ok_0;
    assert(out@ =~= seq![
        reply(
            id,
            req2.src,
            Resp::BroadcastOk { msg_id: base2, in_reply_to: req2.body->Broadcast_msg_id },
        ),
    ]);
}

} // verus!
