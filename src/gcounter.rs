use vstd::prelude::*;

use crate::context::NodeData;
use crate::json::{
    decimal, get_str, get_u32, push_decimal, str_member, u32_member, Json,
};
use crate::message::{
    envelope, envelope_of, has_tag, num_field, open_body, push_num_field, push_open_body,
    push_str_field, str_field, tagged, ErrorBody, Message, Response,
};

verus! {

/// Error code of a contribution that would carry the total past `u64::MAX`.
pub const COUNTER_OVERFLOW: u32 = 1000;

/// A grow-only counter: the sum of contributions, each under a key that names
/// the event it came from.
#[derive(Debug)]
pub struct GCounterLayer {
    /// Each key once, in order of arrival.
    entries: Vec<(String, u32)>,
    /// The sum of the contributions.
    total: u64,
}

#[derive(Debug)]
pub enum Req {
    Add { delta: u32, msg_id: u32 },
    Read { msg_id: u32 },
    PeerAdd { key: String, delta: u32, msg_id: u32 },
}

#[derive(Debug)]
pub enum Resp {
    AddOk { msg_id: u32, in_reply_to: u32 },
    ReadOk { msg_id: u32, in_reply_to: u32, value: u64 },
    PeerAdd { key: String, delta: u32, msg_id: u32 },
    PeerAddOk { msg_id: u32, in_reply_to: u32 },
}

/// The key of the increment that `origin` asked for in its message `msg_id`.
pub open spec fn event_key(origin: Seq<char>, msg_id: u32) -> Seq<char> {
    origin + seq!['-'] + decimal(msg_id as nat)
}

/// Whether a contribution is recorded under `k`.
pub open spec fn has_key(log: Seq<(Seq<char>, u32)>, k: Seq<char>) -> bool {
    exists|i: int| 0 <= i < log.len() && #[trigger] log[i].0 == k
}

/// No key is recorded twice.
pub open spec fn keys_unique(log: Seq<(Seq<char>, u32)>) -> bool {
    forall|i: int, j: int|
        0 <= i < log.len() && 0 <= j < log.len() && i != j ==> #[trigger] log[i].0
            != #[trigger] log[j].0
}

/// The sum of the contributions.
pub open spec fn sum(log: Seq<(Seq<char>, u32)>) -> int
    decreases log.len(),
{
    if log.len() == 0 {
        0
    } else {
        sum(log.drop_last()) + log.last().1
    }
}

/// The contributions by key.
pub open spec fn contributions(log: Seq<(Seq<char>, u32)>) -> Map<Seq<char>, u32>
    decreases log.len(),
{
    if log.len() == 0 {
        Map::empty()
    } else {
        contributions(log.drop_last()).insert(log.last().0, log.last().1)
    }
}

/// Merges one contribution: a key already known keeps its value.
pub open spec fn merge(log: Seq<(Seq<char>, u32)>, k: Seq<char>, delta: u32) -> Seq<(Seq<char>, u32)> {
    if has_key(log, k) {
        log
    } else {
        log.push((k, delta))
    }
}

/// Whether merging `(k, delta)` keeps the total within `u64`.
pub open spec fn fits(log: Seq<(Seq<char>, u32)>, k: Seq<char>, delta: u32) -> bool {
    sum(merge(log, k, delta)) <= u64::MAX
}

/// The cluster's other members: those whose id is not `id`.
pub open spec fn peers(members: Seq<String>, id: Seq<char>) -> Seq<String>
    decreases members.len(),
{
    if members.len() == 0 {
        Seq::empty()
    } else if members.last()@ == id {
        peers(members.drop_last(), id)
    } else {
        peers(members.drop_last(), id).push(members.last())
    }
}

pub open spec fn reply(id: String, dest: String, resp: Resp) -> Message<Result<Resp, ErrorBody>> {
    Message { src: id, dest, body: Ok(resp) }
}

/// Whether `m` is the answer to a contribution that does not fit.
pub open spec fn is_overflow_reply(
    m: Message<Result<Resp, ErrorBody>>,
    id: String,
    dest: String,
    msg_id: u32,
) -> bool {
    m.src == id && m.dest == dest && match m.body {
        Err(e) => e.in_reply_to == msg_id && e.code == COUNTER_OVERFLOW && e.text@ == overflow_text(),
        Ok(_) => false,
    }
}

pub open spec fn overflow_text() -> Seq<char> {
    "counter total would pass the largest 64-bit value"@
}

impl Response for Resp {
    open spec fn text_of(&self) -> Seq<char> {
        match self {
            Resp::AddOk { msg_id, in_reply_to } => open_body("add_ok"@) + num_field(
                "msg_id"@,
                msg_id as nat,
            ) + num_field("in_reply_to"@, in_reply_to as nat) + seq!['}'],
            Resp::ReadOk { msg_id, in_reply_to, value } => open_body("read_ok"@) + num_field(
                "msg_id"@,
                msg_id as nat,
            ) + num_field("in_reply_to"@, in_reply_to as nat) + num_field(
                "value"@,
                value as nat,
            ) + seq!['}'],
            Resp::PeerAdd { key, delta, msg_id } => open_body("peer_add"@) + str_field(
                "key"@,
                key@,
            ) + num_field("delta"@, delta as nat) + num_field("msg_id"@, msg_id as nat) + seq!['}'],
            Resp::PeerAddOk { msg_id, in_reply_to } => open_body("peer_add_ok"@) + num_field(
                "msg_id"@,
                msg_id as nat,
            ) + num_field("in_reply_to"@, in_reply_to as nat) + seq!['}'],
        }
    }

    fn write(&self, out: &mut String) {
        proof {
            reveal_strlit("}");
        }
        match self {
            Resp::AddOk { msg_id, in_reply_to } => {
                push_open_body(out, "add_ok");
                push_num_field(out, "msg_id", *msg_id as u64);
                push_num_field(out, "in_reply_to", *in_reply_to as u64);
            },
            Resp::ReadOk { msg_id, in_reply_to, value } => {
                push_open_body(out, "read_ok");
                push_num_field(out, "msg_id", *msg_id as u64);
                push_num_field(out, "in_reply_to", *in_reply_to as u64);
                push_num_field(out, "value", *value);
            },
            Resp::PeerAdd { key, delta, msg_id } => {
                push_open_body(out, "peer_add");
                push_str_field(out, "key", key.as_str());
                push_num_field(out, "delta", *delta as u64);
                push_num_field(out, "msg_id", *msg_id as u64);
            },
            Resp::PeerAddOk { msg_id, in_reply_to } => {
                push_open_body(out, "peer_add_ok");
                push_num_field(out, "msg_id", *msg_id as u64);
                push_num_field(out, "in_reply_to", *in_reply_to as u64);
            },
        }
        out.append("}");
        assert(final(out)@ =~= old(out)@ + self.text_of());
    }
}

/// Whether `j` is a request of this layer, and `r` what it reads as.
pub open spec fn parsed_as(j: Json, r: Option<Message<Req>>) -> bool {
    match envelope_of(j) {
        None => r is None,
        Some(env) => {
            let b = env.body;
            if tagged(b, "add"@) {
                match (u32_member(b, "delta"@), u32_member(b, "msg_id"@)) {
                    (Some(delta), Some(msg_id)) => r == Some(
                        Message { src: env.src, dest: env.dest, body: Req::Add { delta, msg_id } },
                    ),
                    _ => r is None,
                }
            } else if tagged(b, "read"@) {
                match u32_member(b, "msg_id"@) {
                    Some(msg_id) => r == Some(
                        Message { src: env.src, dest: env.dest, body: Req::Read { msg_id } },
                    ),
                    None => r is None,
                }
            } else if tagged(b, "peer_add"@) {
                match (str_member(b, "key"@), u32_member(b, "delta"@), u32_member(b, "msg_id"@)) {
                    (Some(key), Some(delta), Some(msg_id)) => r == Some(
                        Message {
                            src: env.src,
                            dest: env.dest,
                            body: Req::PeerAdd { key, delta, msg_id },
                        },
                    ),
                    _ => r is None,
                }
            } else {
                r is None
            }
        },
    }
}

/// Whether `j` is a request of this layer.
pub open spec fn accepts(j: Json) -> bool {
    exists|m: Message<Req>| parsed_as(j, Some(m))
}

/// A request read as nothing is not one of this layer.
pub proof fn lemma_rejected(j: Json)
    requires
        parsed_as(j, None),
    ensures
        !accepts(j),
{
    assert forall|m: Message<Req>| !parsed_as(j, Some(m)) by {}
}

/// Whether `m` hands the contribution `(k, delta)` to `dest`, under id `msg_id`.
pub open spec fn is_gossip(
    m: Message<Result<Resp, ErrorBody>>,
    id: String,
    dest: String,
    k: Seq<char>,
    delta: u32,
    msg_id: u32,
) -> bool {
    m.src == id && m.dest == dest && match m.body {
        Ok(Resp::PeerAdd { key, delta: d, msg_id: i }) => key@ == k && d == delta && i == msg_id,
        _ => false,
    }
}

/// How the layer answers `req` with contributions `s`, on node `id` of the
/// cluster `members`, with ids from `base`: `t` is the log afterwards and `out`
/// what is sent.
pub open spec fn handled(
    s: Seq<(Seq<char>, u32)>,
    t: Seq<(Seq<char>, u32)>,
    id: String,
    members: Seq<String>,
    base: u32,
    req: Message<Req>,
    out: Seq<Message<Result<Resp, ErrorBody>>>,
) -> bool {
    match req.body {
        Req::Add { delta, msg_id } => {
            let k = event_key(req.src@, msg_id);
            let ps = peers(members, id@);
            if fits(s, k, delta) {
                t == merge(s, k, delta) && out.len() == ps.len() + 1 && (forall|i: int|
                    0 <= i < ps.len() ==> #[trigger] is_gossip(
                        out[i],
                        id,
                        ps[i],
                        k,
                        delta,
                        (base + i) as u32,
                    )) && out[ps.len() as int] == reply(
                    id,
                    req.src,
                    Resp::AddOk { msg_id: (base + ps.len()) as u32, in_reply_to: msg_id },
                )
            } else {
                t == s && out.len() == 1 && is_overflow_reply(out[0], id, req.src, msg_id)
            }
        },
        Req::Read { msg_id } => t == s && out == seq![
            reply(
                id,
                req.src,
                Resp::ReadOk { msg_id: base, in_reply_to: msg_id, value: sum(s) as u64 },
            ),
        ],
        Req::PeerAdd { key, delta, msg_id } => if fits(s, key@, delta) {
            t == merge(s, key@, delta) && out == seq![
                reply(id, req.src, Resp::PeerAddOk { msg_id: base, in_reply_to: msg_id }),
            ]
        } else {
            t == s && out.len() == 1 && is_overflow_reply(out[0], id, req.src, msg_id)
        },
    }
}

pub proof fn lemma_peers_len(members: Seq<String>, id: Seq<char>)
    ensures
        peers(members, id).len() <= members.len(),
    decreases members.len(),
{
    if members.len() > 0 {
        lemma_peers_len(members.drop_last(), id);
    }
}

/// The sum of a log whose last entry is new.
proof fn lemma_sum_push(log: Seq<(Seq<char>, u32)>, e: (Seq<char>, u32))
    ensures
        sum(log.push(e)) == sum(log) + e.1,
{
    assert(log.push(e).drop_last() =~= log);
}

impl GCounterLayer {
    /// The contributions in order of arrival.
    pub closed spec fn view(&self) -> Seq<(Seq<char>, u32)> {
        self.entries@.map_values(|e: (String, u32)| (e.0@, e.1))
    }

    #[verifier::type_invariant]
    spec fn inv(&self) -> bool {
        keys_unique(self.view()) && self.total == sum(self.view())
    }

    pub fn new() -> (r: GCounterLayer)
        ensures
            keys_unique(r.view()),
            sum(r.view()) == 0,
            r.view().len() == 0,
    {
        let r = GCounterLayer { entries: Vec::new(), total: 0 };
        assert(r.view() =~= Seq::<(Seq<char>, u32)>::empty());
        r
    }

    /// The sum of the contributions.
    pub fn value(&self) -> (r: u64)
        ensures
            r == sum(self.view()),
    {
        proof {
            use_type_invariant(self);
        }
        self.total
    }

    fn find_key(&self, k: &String) -> (r: bool)
        ensures
            r == has_key(self.view(), k@),
    {
        let mut i: usize = 0;
        while i < self.entries.len()
            invariant
                i <= self.entries@.len(),
                forall|j: int| 0 <= j < i ==> self.view()[j].0 != k@,
            decreases self.entries@.len() - i,
        {
            if self.entries[i].0 == *k {
                assert(self.view()[i as int].0 == k@);
                return true;
            }
            i = i + 1;
        }
        false
    }

    /// Merges `(key, delta)` unless the total would pass `u64::MAX`; tells
    /// whether it fitted.
    fn merge_entry(&mut self, key: String, delta: u32) -> (r: bool)
        ensures
            r == fits(old(self).view(), key@, delta),
            r ==> final(self).view() == merge(old(self).view(), key@, delta),
            !r ==> final(self).view() == old(self).view(),
    {
        proof {
            use_type_invariant(&*self);
        }
        let ghost s = self.view();
        if self.find_key(&key) {
            return true;
        }
        proof {
            lemma_sum_push(s, (key@, delta));
        }
        if self.total > u64::MAX - delta as u64 {
            return false;
        }
        let mut cur = GCounterLayer::new();
        std::mem::swap(&mut cur, self);
        proof {
            use_type_invariant(&cur);
        }
        let GCounterLayer { mut entries, total } = cur;
        let ghost k = key@;
        entries.push((key, delta));
        let ghost nv = entries@.map_values(|e: (String, u32)| (e.0@, e.1));
        assert(nv =~= s.push((k, delta)));
        assert(keys_unique(nv)) by {
            assert forall|i: int, j: int|
                0 <= i < nv.len() && 0 <= j < nv.len() && i != j implies #[trigger] nv[i].0
                != #[trigger] nv[j].0 by {
                if i == s.len() as int {
                    assert(s[j].0 != k);
                } else if j == s.len() as int {
                    assert(s[i].0 != k);
                } else {
                    assert(nv[i] == s[i] && nv[j] == s[j]);
                }
            }
        }
        *self = GCounterLayer { entries, total: total + delta as u64 };
        true
    }

    /// Reads `j` as a request of this layer.
    pub fn parse_request(j: &Json) -> (r: Option<Message<Req>>)
        ensures
            parsed_as(*j, r),
    {
        let env = match envelope(j) {
            Some(env) => env,
            None => return None,
        };
        let b = env.body;
        if has_tag(b, "add") {
            match (get_u32(b, "delta"), get_u32(b, "msg_id")) {
                (Some(delta), Some(msg_id)) => Some(
                    Message { src: env.src, dest: env.dest, body: Req::Add { delta, msg_id } },
                ),
                _ => None,
            }
        } else if has_tag(b, "read") {
            match get_u32(b, "msg_id") {
                Some(msg_id) => Some(
                    Message { src: env.src, dest: env.dest, body: Req::Read { msg_id } },
                ),
                None => None,
            }
        } else if has_tag(b, "peer_add") {
            match (get_str(b, "key"), get_u32(b, "delta"), get_u32(b, "msg_id")) {
                (Some(key), Some(delta), Some(msg_id)) => Some(
                    Message {
                        src: env.src,
                        dest: env.dest,
                        body: Req::PeerAdd { key, delta, msg_id },
                    },
                ),
                _ => None,
            }
        } else {
            None
        }
    }

    fn overflow_reply(id: String, dest: String, msg_id: u32) -> (r: Message<Result<Resp, ErrorBody>>)
        ensures
            is_overflow_reply(r, id, dest, msg_id),
    {
        proof {
            reveal_strlit("counter total would pass the largest 64-bit value");
        }
        let text = String::from_str("counter total would pass the largest 64-bit value");
        Message {
            src: id,
            dest,
            body: Err(ErrorBody { in_reply_to: msg_id, code: COUNTER_OVERFLOW, text }),
        }
    }

    /// Answers one request: records a local increment and hands it to every
    /// peer, reports the total, or merges a peer's contribution. Keys stay
    /// unique and the total stays within `u64`.
    pub fn handle<D: NodeData>(&mut self, node: &D, req: Message<Req>) -> (out: Vec<
        Message<Result<Resp, ErrorBody>>,
    >)
        requires
            node.spec_next_message_id() + node.spec_all_nodes().len() + 1 <= u32::MAX,
        ensures
            keys_unique(final(self).view()),
            sum(final(self).view()) <= u64::MAX,
            handled(
                old(self).view(),
                final(self).view(),
                node.spec_node_id(),
                node.spec_all_nodes(),
                node.spec_next_message_id(),
                req,
                out@,
            ),
    {
        let out = self.respond(node, req);
        proof {
            use_type_invariant(&*self);
        }
        out
    }

    fn respond<D: NodeData>(&mut self, node: &D, req: Message<Req>) -> (out: Vec<
        Message<Result<Resp, ErrorBody>>,
    >)
        requires
            node.spec_next_message_id() + node.spec_all_nodes().len() + 1 <= u32::MAX,
        ensures
            handled(
                old(self).view(),
                final(self).view(),
                node.spec_node_id(),
                node.spec_all_nodes(),
                node.spec_next_message_id(),
                req,
                out@,
            ),
    {
        proof {
            use_type_invariant(&*self);
        }
        let base = node.next_message_id();
        let id = node.node_id();
        let Message { src, dest: _, body } = req;
        match body {
            Req::Add { delta, msg_id } => {
                let mut key = src.clone();
                key.append("-");
                push_decimal(&mut key, msg_id as u64);
                proof {
                    reveal_strlit("-");
                    assert(key@ =~= event_key(src@, msg_id));
                }
                if !self.merge_entry(key.clone(), delta) {
                    return vec![Self::overflow_reply(id, src, msg_id)];
                }
                let members = node.all_nodes();
                let mut out: Vec<Message<Result<Resp, ErrorBody>>> = Vec::new();
                let mut i: usize = 0;
                while i < members.len()
                    invariant
                        i <= members@.len(),
                        members@ == node.spec_all_nodes(),
                        id == node.spec_node_id(),
                        base == node.spec_next_message_id(),
                        base + members@.len() + 1 <= u32::MAX,
                        key@ == event_key(src@, msg_id),
                        out@.len() == peers(members@.take(i as int), id@).len(),
                        forall|k: int|
                            0 <= k < out@.len() ==> #[trigger] is_gossip(
                                out@[k],
                                id,
                                peers(members@.take(i as int), id@)[k],
                                key@,
                                delta,
                                (base + k) as u32,
                            ),
                    decreases members@.len() - i,
                {
                    let ghost before = out@;
                    let ghost t = members@.take(i + 1);
                    assert(t.drop_last() =~= members@.take(i as int));
                    proof {
                        lemma_peers_len(members@.take(i as int), id@);
                    }
                    if !(members[i] == id) {
                        let n = out.len() as u32;
                        out.push(
                            Message {
                                src: id.clone(),
                                dest: members[i].clone(),
                                body: Ok(Resp::PeerAdd { key: key.clone(), delta, msg_id: base + n }),
                            },
                        );
                        assert(peers(t, id@) == peers(members@.take(i as int), id@).push(
                            members@[i as int],
                        ));
                        assert forall|k: int| 0 <= k < out@.len() implies #[trigger] is_gossip(
                            out@[k],
                            id,
                            peers(t, id@)[k],
                            key@,
                            delta,
                            (base + k) as u32,
                        ) by {
                            if k < before.len() {
                                assert(out@[k] == before[k]);
                            }
                        }
                    }
                    i = i + 1;
                }
                assert(members@.take(i as int) =~= members@);
                proof {
                    lemma_peers_len(members@, id@);
                }
                let n = out.len() as u32;
                out.push(
                    Message {
                        src: id,
                        dest: src,
                        body: Ok(Resp::AddOk { msg_id: base + n, in_reply_to: msg_id }),
                    },
                );
                assert forall|k: int| 0 <= k < peers(members@, id@).len() implies #[trigger] is_gossip(
                    out@[k],
                    id,
                    peers(members@, id@)[k],
                    event_key(src@, msg_id),
                    delta,
                    (base + k) as u32,
                ) by {
                    assert(out@[k] == out@.drop_last()[k]);
                }
                out
            },
            Req::Read { msg_id } => {
                let out = vec![
                    Message {
                        src: id,
                        dest: src,
                        body: Ok(Resp::ReadOk { msg_id: base, in_reply_to: msg_id, value: self.total }),
                    },
                ];
                assert(out@ =~= seq![
                    reply(
                        id,
                        src,
                        Resp::ReadOk { msg_id: base, in_reply_to: msg_id, value: sum(self.view()) as u64 },
                    ),
                ]);
                out
            },
            Req::PeerAdd { key, delta, msg_id } => {
                if !self.merge_entry(key, delta) {
                    return vec![Self::overflow_reply(id, src, msg_id)];
                }
                let out = vec![
                    Message {
                        src: id,
                        dest: src,
                        body: Ok(Resp::PeerAddOk { msg_id: base, in_reply_to: msg_id }),
                    },
                ];
                assert(out@ =~= seq![
                    reply(id, src, Resp::PeerAddOk { msg_id: base, in_reply_to: msg_id }),
                ]);
                out
            },
        }
    }
}

/// The log after the contribution `(k, delta)` is merged `n` times.
pub open spec fn merge_times(log: Seq<(Seq<char>, u32)>, k: Seq<char>, delta: u32, n: nat) -> Seq<
    (Seq<char>, u32),
>
    decreases n,
{
    if n == 0 {
        log
    } else {
        merge(merge_times(log, k, delta, (n - 1) as nat), k, delta)
    }
}

/// Merging the same contribution `n >= 1` times gives the log, and the total,
/// of merging it once.
pub proof fn lemma_merge_idempotent(log: Seq<(Seq<char>, u32)>, k: Seq<char>, delta: u32, n: nat)
    requires
        n >= 1,
    ensures
        merge_times(log, k, delta, n) == merge(log, k, delta),
        sum(merge_times(log, k, delta, n)) == sum(merge(log, k, delta)),
    decreases n,
{
    assert(merge_times(log, k, delta, 0) == log);
    if n > 1 {
        lemma_merge_idempotent(log, k, delta, (n - 1) as nat);
        let m = merge(log, k, delta);
        if !has_key(log, k) {
            assert(m[log.len() as int].0 == k);
        }
        assert(has_key(m, k));
        assert(merge(m, k, delta) == m);
    }
}

/// The log after merging the contributions of `other`, in their order.
pub open spec fn merge_all(log: Seq<(Seq<char>, u32)>, other: Seq<(Seq<char>, u32)>) -> Seq<
    (Seq<char>, u32),
>
    decreases other.len(),
{
    if other.len() == 0 {
        log
    } else {
        merge(merge_all(log, other.drop_last()), other.last().0, other.last().1)
    }
}

/// Two logs give the same value to every key that both hold.
pub open spec fn compatible(a: Seq<(Seq<char>, u32)>, b: Seq<(Seq<char>, u32)>) -> bool {
    forall|i: int, j: int|
        0 <= i < a.len() && 0 <= j < b.len() && #[trigger] a[i].0 == #[trigger] b[j].0 ==> a[i].1
            == b[j].1
}

/// In a sound log, the map of contributions holds exactly the entries.
proof fn lemma_contributions_entries(log: Seq<(Seq<char>, u32)>)
    requires
        keys_unique(log),
    ensures
        forall|k: Seq<char>| #[trigger] contributions(log).contains_key(k) <==> has_key(log, k),
        forall|i: int| 0 <= i < log.len() ==> contributions(log)[#[trigger] log[i].0] == log[i].1,
    decreases log.len(),
{
    if log.len() > 0 {
        let init = log.drop_last();
        assert(keys_unique(init)) by {
            assert forall|i: int, j: int|
                0 <= i < init.len() && 0 <= j < init.len() && i != j implies #[trigger] init[i].0
                != #[trigger] init[j].0 by {
                assert(init[i] == log[i] && init[j] == log[j]);
            }
        }
        lemma_contributions_entries(init);
        let last = log[log.len() - 1];
        assert(contributions(log) == contributions(init).insert(last.0, last.1));
        assert forall|k: Seq<char>| #[trigger] contributions(log).contains_key(k) <==> has_key(
            log,
            k,
        ) by {
            if has_key(log, k) {
                let i = choose|i: int| 0 <= i < log.len() && #[trigger] log[i].0 == k;
                if i < log.len() - 1 {
                    assert(init[i].0 == k);
                    assert(has_key(init, k));
                }
            }
            if contributions(log).contains_key(k) {
                if k == last.0 {
                    assert(log[log.len() - 1].0 == k);
                } else {
                    assert(contributions(init).contains_key(k));
                    assert(has_key(init, k));
                    let i = choose|i: int| 0 <= i < init.len() && #[trigger] init[i].0 == k;
                    assert(log[i].0 == k);
                }
            }
        }
        assert forall|i: int| 0 <= i < log.len() implies contributions(log)[#[trigger] log[i].0]
            == log[i].1 by {
            if i < log.len() - 1 {
                assert(log[i].0 != log[log.len() - 1].0);
                assert(init[i] == log[i]);
            }
        }
    }
}

proof fn lemma_merge_unique(log: Seq<(Seq<char>, u32)>, k: Seq<char>, delta: u32)
    requires
        keys_unique(log),
    ensures
        keys_unique(merge(log, k, delta)),
{
    if !has_key(log, k) {
        let t = log.push((k, delta));
        assert forall|i: int, j: int|
            0 <= i < t.len() && 0 <= j < t.len() && i != j implies #[trigger] t[i].0
            != #[trigger] t[j].0 by {
            if i == log.len() {
                assert(log[j] == t[j]);
            } else if j == log.len() {
                assert(log[i] == t[i]);
            } else {
                assert(log[i] == t[i] && log[j] == t[j]);
            }
        }
    }
}

/// Merging a sound log into a sound log gives a sound log whose contributions
/// are those of both, the receiver's kept where both hold a key.
proof fn lemma_merge_all_contributions(a: Seq<(Seq<char>, u32)>, b: Seq<(Seq<char>, u32)>)
    requires
        keys_unique(a),
        keys_unique(b),
    ensures
        keys_unique(merge_all(a, b)),
        contributions(merge_all(a, b)) == contributions(b).union_prefer_right(contributions(a)),
    decreases b.len(),
{
    if b.len() == 0 {
        assert(contributions(b) == Map::<Seq<char>, u32>::empty());
        assert(contributions(b).union_prefer_right(contributions(a)) =~= contributions(a));
    } else {
        let init = b.drop_last();
        let (k, d) = b.last();
        assert(keys_unique(init)) by {
            assert forall|i: int, j: int|
                0 <= i < init.len() && 0 <= j < init.len() && i != j implies #[trigger] init[i].0
                != #[trigger] init[j].0 by {
                assert(init[i] == b[i] && init[j] == b[j]);
            }
        }
        lemma_merge_all_contributions(a, init);
        let l = merge_all(a, init);
        lemma_merge_unique(l, k, d);
        lemma_contributions_entries(l);
        lemma_contributions_entries(a);
        lemma_contributions_entries(init);
        assert(!has_key(init, k)) by {
            if has_key(init, k) {
                let i = choose|i: int| 0 <= i < init.len() && #[trigger] init[i].0 == k;
                assert(b[i].0 == b[b.len() - 1].0);
            }
        }
        assert(merge_all(a, b) == merge(l, k, d));
        assert(contributions(b) == contributions(init).insert(k, d));
        assert(!contributions(init).contains_key(k));
        if has_key(l, k) {
            assert(contributions(l).contains_key(k));
            assert(contributions(a).contains_key(k));
            assert(contributions(merge_all(a, b)) =~= contributions(b).union_prefer_right(
                contributions(a),
            ));
        } else {
            assert(l.push((k, d)).drop_last() =~= l);
            assert(contributions(merge(l, k, d)) == contributions(l).insert(k, d));
            assert(!contributions(l).contains_key(k));
            assert(contributions(l) == contributions(init).union_prefer_right(contributions(a)));
            assert(!contributions(a).contains_key(k));
            assert(contributions(merge_all(a, b)) =~= contributions(b).union_prefer_right(
                contributions(a),
            ));
        }
    }
}

/// A sound log holds no entry twice.
proof fn lemma_unique_no_duplicates(log: Seq<(Seq<char>, u32)>)
    requires
        keys_unique(log),
    ensures
        log.no_duplicates(),
{
    assert forall|i: int, j: int| 0 <= i < log.len() && 0 <= j < log.len() && i != j implies log[i]
        != log[j] by {
        assert(log[i].0 != log[j].0);
    }
}

spec fn add_entry() -> spec_fn(int, (Seq<char>, u32)) -> int {
    |acc: int, e: (Seq<char>, u32)| acc + e.1
}

proof fn lemma_sum_fold(log: Seq<(Seq<char>, u32)>)
    ensures
        sum(log) == log.fold_left(0int, add_entry()),
    decreases log.len(),
{
    if log.len() > 0 {
        lemma_sum_fold(log.drop_last());
    }
}

/// Two sound logs with the same contributions have the same total.
proof fn lemma_sum_same_contributions(x: Seq<(Seq<char>, u32)>, y: Seq<(Seq<char>, u32)>)
    requires
        keys_unique(x),
        keys_unique(y),
        contributions(x) == contributions(y),
    ensures
        sum(x) == sum(y),
{
    broadcast use vstd::seq_lib::group_to_multiset_ensures;

    lemma_contributions_entries(x);
    lemma_contributions_entries(y);
    lemma_unique_no_duplicates(x);
    lemma_unique_no_duplicates(y);
    x.lemma_multiset_has_no_duplicates();
    y.lemma_multiset_has_no_duplicates();
    assert forall|e: (Seq<char>, u32)| x.contains(e) <==> y.contains(e) by {
        if x.contains(e) {
            let i = x.index_of(e);
            assert(x[i].0 == e.0);
            assert(has_key(x, e.0));
            assert(contributions(x).contains_key(e.0));
            assert(has_key(y, e.0));
            let j = choose|j: int| 0 <= j < y.len() && #[trigger] y[j].0 == e.0;
            assert(y[j] == e);
        }
        if y.contains(e) {
            let j = y.index_of(e);
            assert(y[j].0 == e.0);
            assert(has_key(y, e.0));
            assert(contributions(y).contains_key(e.0));
            assert(has_key(x, e.0));
            let i = choose|i: int| 0 <= i < x.len() && #[trigger] x[i].0 == e.0;
            assert(x[i] == e);
        }
    }
    assert(x.to_multiset() =~= y.to_multiset()) by {
        assert forall|e: (Seq<char>, u32)| x.to_multiset().count(e) == y.to_multiset().count(e) by {
            if x.contains(e) {
                assert(x.to_multiset().contains(e));
                assert(y.to_multiset().contains(e));
            } else {
                assert(!y.contains(e));
            }
        }
    }
    lemma_sum_fold(x);
    lemma_sum_fold(y);
    vstd::seq_lib::lemma_fold_left_permutation(x, y, add_entry(), 0int);
}

/// Two replicas whose logs are sound and agree on the keys both hold, once
/// each has merged every contribution of the other, hold the same
/// contributions, those of both together, and so report the same total.
pub proof fn lemma_gcounter_converges(a: Seq<(Seq<char>, u32)>, b: Seq<(Seq<char>, u32)>)
    requires
        keys_unique(a),
        keys_unique(b),
        compatible(a, b),
    ensures
        contributions(merge_all(a, b)) == contributions(merge_all(b, a)),
        contributions(merge_all(a, b)) == contributions(b).union_prefer_right(contributions(a)),
        sum(merge_all(a, b)) == sum(merge_all(b, a)),
{
    lemma_merge_all_contributions(a, b);
    lemma_merge_all_contributions(b, a);
    lemma_contributions_entries(a);
    lemma_contributions_entries(b);
    assert(contributions(b).union_prefer_right(contributions(a)) =~= contributions(
        a,
    ).union_prefer_right(contributions(b))) by {
        assert forall|k: Seq<char>|
            contributions(a).contains_key(k) && contributions(b).contains_key(
                k,
            ) implies contributions(a)[k] == contributions(b)[k] by {
            let i = choose|i: int| 0 <= i < a.len() && #[trigger] a[i].0 == k;
            let j = choose|j: int| 0 <= j < b.len() && #[trigger] b[j].0 == k;
        }
    }
    lemma_sum_same_contributions(merge_all(a, b), merge_all(b, a));
}

/// A peer contribution handled again right after it was merged leaves the
/// contributions, and so the total, as they were, and is acknowledged once.
pub proof fn lemma_peer_add_repeat(
    s0: Seq<(Seq<char>, u32)>,
    s1: Seq<(Seq<char>, u32)>,
    s2: Seq<(Seq<char>, u32)>,
    id: String,
    members: Seq<String>,
    base1: u32,
    base2: u32,
    req1: Message<Req>,
    req2: Message<Req>,
    out1: Seq<Message<Result<Resp, ErrorBody>>>,
    out2: Seq<Message<Result<Resp, ErrorBody>>>,
)
    requires
        handled(s0, s1, id, members, base1, req1, out1),
        handled(s1, s2, id, members, base2, req2, out2),
        req1.body matches Req::PeerAdd { key: k1, delta: d1, .. } && req2.body matches Req::PeerAdd {
            key: k2,
            delta: d2,
            ..
        } && k1@ == k2@ && d1 == d2 && fits(s0, k1@, d1),
    ensures
        s2 == s1,
        sum(s2) == sum(s1),
        out2 == seq![
            reply(
                id,
                req2.src,
                Resp::PeerAddOk { msg_id: base2, in_reply_to: req2.body->PeerAdd_msg_id },
            ),
        ],
{
    let k = req1.body->PeerAdd_key@;
    let d = req1.body->PeerAdd_delta;
    if !has_key(s0, k) {
        assert(s1[s0.len() as int].0 == k);
    }
    assert(has_key(s1, k));
    assert(merge(s1, k, d) == s1);
}

} // verus!
