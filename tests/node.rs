use botnet::broadcast::BroadcastLayer;
use botnet::echo::EchoLayer;
use botnet::gcounter::GCounterLayer;
use botnet::generate::GenerateLayer;
use botnet::{Layer, Node, NodeError};

fn init_line(node: &str, all: &[&str]) -> String {
    let ids: Vec<String> = all.iter().map(|n| format!("\"{}\"", n)).collect();
    format!(
        "{{\"src\":\"c0\",\"dest\":\"{}\",\"body\":{{\"type\":\"init\",\"msg_id\":7,\"node_id\":\"{}\",\"node_ids\":[{}]}}}}",
        node,
        node,
        ids.join(",")
    )
}

fn start(node: &str, all: &[&str]) -> Node {
    let (n, reply) = Node::try_init(&init_line(node, all)).unwrap();
    assert_eq!(
        reply,
        format!(
            "{{\"src\":\"{}\",\"dest\":\"c0\",\"body\":{{\"type\":\"init_ok\",\"msg_id\":0,\"in_reply_to\":7}}}}",
            node
        )
    );
    n
}

fn line(src: &str, dest: &str, body: &str) -> String {
    format!("{{\"src\":\"{}\",\"dest\":\"{}\",\"body\":{}}}", src, dest, body)
}

fn send(node: &mut Node, src: &str, body: &str) -> Vec<String> {
    let dest = node.id.clone();
    node.handle_incoming_message(&line(src, &dest, body)).unwrap()
}

#[test]
fn init_sets_identity() {
    let n = start("n1", &["n1", "n2", "n3"]);
    assert_eq!(n.id, "n1");
    assert_eq!(n.all_nodes, vec!["n1".to_string(), "n2".to_string(), "n3".to_string()]);
    assert_eq!(n.next_message_id(), 1);
}

#[test]
fn init_rejects_other_messages() {
    let l = line("c0", "n1", "{\"type\":\"echo\",\"echo\":\"x\",\"msg_id\":1}");
    assert!(matches!(Node::try_init(&l), Err(NodeError::BadInit)));
    assert!(matches!(Node::try_init("not json"), Err(NodeError::BadInit)));
}

#[test]
fn broadcast_scenario() {
    let mut n = start("n1", &["n1", "n2", "n3"]).with_layer(Layer::Broadcast(BroadcastLayer::new()));
    let out = send(&mut n, "c1", "{\"type\":\"topology\",\"msg_id\":9,\"topology\":{\"n1\":[\"n2\",\"n3\"],\"n2\":[\"n1\"],\"n3\":[\"n1\"]}}");
    assert_eq!(out, vec![line("n1", "c1", "{\"type\":\"topology_ok\",\"msg_id\":1,\"in_reply_to\":9}")]);
    let out = send(&mut n, "c1", "{\"type\":\"broadcast\",\"message\":5,\"msg_id\":1}");
    assert_eq!(
        out,
        vec![
            line("n1", "n2", "{\"type\":\"broadcast\",\"message\":5,\"msg_id\":2}"),
            line("n1", "n3", "{\"type\":\"broadcast\",\"message\":5,\"msg_id\":3}"),
            line("n1", "c1", "{\"type\":\"broadcast_ok\",\"msg_id\":4,\"in_reply_to\":1}"),
        ]
    );
    let out = send(&mut n, "c1", "{\"type\":\"read\",\"msg_id\":2}");
    assert_eq!(
        out,
        vec![line("n1", "c1", "{\"type\":\"read_ok\",\"msg_id\":5,\"messages\":[5],\"in_reply_to\":2}")]
    );
    assert_eq!(n.next_message_id(), 6);
}

#[test]
fn broadcast_repeated_value_is_kept_once() {
    let mut n = start("n1", &["n1", "n2", "n3"]).with_layer(Layer::Broadcast(BroadcastLayer::new()));
    send(&mut n, "c1", "{\"type\":\"topology\",\"msg_id\":1,\"topology\":{\"n1\":[\"n2\",\"n3\"]}}");
    let first = send(&mut n, "c1", "{\"type\":\"broadcast\",\"message\":{\"a\":[1,2]},\"msg_id\":2}");
    assert_eq!(first.len(), 3);
    for k in 0..3 {
        let again = send(&mut n, "n2", "{\"type\":\"broadcast\",\"message\":{\"a\":[1,2]},\"msg_id\":3}");
        assert_eq!(again.len(), 1, "round {}", k);
        assert!(again[0].contains("broadcast_ok"));
        assert!(again[0].contains("\"dest\":\"n2\""));
    }
    let out = send(&mut n, "c1", "{\"type\":\"read\",\"msg_id\":4}");
    assert!(out[0].contains("\"messages\":[{\"a\":[1,2]}]"));
}

#[test]
fn broadcast_on_a_cycle_terminates() {
    let names = ["a", "b", "c"];
    let mut nodes: Vec<Node> = names
        .iter()
        .map(|n| start(n, &names).with_layer(Layer::Broadcast(BroadcastLayer::new())))
        .collect();
    let topo = "{\"type\":\"topology\",\"msg_id\":1,\"topology\":{\"a\":[\"b\",\"c\"],\"b\":[\"c\",\"a\"],\"c\":[\"a\",\"b\"]}}";
    for n in nodes.iter_mut() {
        send(n, "c0", topo);
    }
    let mut queue: Vec<String> = vec![line("c1", "a", "{\"type\":\"broadcast\",\"message\":42,\"msg_id\":5}")];
    let mut delivered = 0;
    while let Some(msg) = queue.pop() {
        delivered += 1;
        assert!(delivered < 100, "the flood does not end");
        let idx = names.iter().position(|n| msg.contains(&format!("\"dest\":\"{}\"", n)));
        if let Some(i) = idx {
            for out in nodes[i].handle_incoming_message(&msg).unwrap() {
                if out.contains("\"type\":\"broadcast\"") {
                    queue.push(out);
                }
            }
        }
    }
    // one delivery from the client, then each node sends to its two neighbours once
    assert_eq!(delivered, 1 + 3 * 2);
    for n in nodes.iter_mut() {
        let out = send(n, "c1", "{\"type\":\"read\",\"msg_id\":9}");
        assert!(out[0].contains("\"messages\":[42]"));
    }
}

#[test]
fn topology_without_this_node_is_fatal() {
    let mut n = start("n1", &["n1", "n2"]).with_layer(Layer::Broadcast(BroadcastLayer::new()));
    let l = line("c1", "n1", "{\"type\":\"topology\",\"msg_id\":1,\"topology\":{\"n2\":[\"n1\"]}}");
    assert!(matches!(n.handle_incoming_message(&l), Err(NodeError::MissingNeighbours)));
}

#[test]
fn gcounter_scenario() {
    let mut n1 = start("n1", &["n1", "n2"]).with_layer(Layer::GCounter(GCounterLayer::new()));
    let mut n2 = start("n2", &["n1", "n2"]).with_layer(Layer::GCounter(GCounterLayer::new()));
    let out = send(&mut n1, "c1", "{\"type\":\"add\",\"delta\":10,\"msg_id\":1}");
    assert_eq!(
        out,
        vec![
            line("n1", "n2", "{\"type\":\"peer_add\",\"key\":\"c1-1\",\"delta\":10,\"msg_id\":1}"),
            line("n1", "c1", "{\"type\":\"add_ok\",\"msg_id\":2,\"in_reply_to\":1}"),
        ]
    );
    let ack = n2.handle_incoming_message(&out[0]).unwrap();
    assert_eq!(ack, vec![line("n2", "n1", "{\"type\":\"peer_add_ok\",\"msg_id\":1,\"in_reply_to\":1}")]);
    let read = send(&mut n2, "c2", "{\"type\":\"read\",\"msg_id\":3}");
    assert_eq!(
        read,
        vec![line("n2", "c2", "{\"type\":\"read_ok\",\"msg_id\":2,\"in_reply_to\":3,\"value\":10}")]
    );
}

#[test]
fn gcounter_merge_is_idempotent() {
    let mut n = start("n2", &["n1", "n2"]).with_layer(Layer::GCounter(GCounterLayer::new()));
    for id in 0..4 {
        let body = format!("{{\"type\":\"peer_add\",\"key\":\"n1-7\",\"delta\":3,\"msg_id\":{}}}", id);
        let out = send(&mut n, "n1", &body);
        assert!(out[0].contains("peer_add_ok"));
    }
    let read = send(&mut n, "c1", "{\"type\":\"read\",\"msg_id\":1}");
    assert!(read[0].contains("\"value\":3}"));
}

#[test]
fn gcounter_first_writer_wins() {
    let mut n = start("n2", &["n1", "n2"]).with_layer(Layer::GCounter(GCounterLayer::new()));
    send(&mut n, "n1", "{\"type\":\"peer_add\",\"key\":\"n1-7\",\"delta\":3,\"msg_id\":1}");
    send(&mut n, "n1", "{\"type\":\"peer_add\",\"key\":\"n1-7\",\"delta\":9,\"msg_id\":2}");
    let read = send(&mut n, "c1", "{\"type\":\"read\",\"msg_id\":1}");
    assert!(read[0].contains("\"value\":3}"));
}

#[test]
fn gcounter_converges() {
    let all = ["n1", "n2"];
    let mut n1 = start("n1", &all).with_layer(Layer::GCounter(GCounterLayer::new()));
    let mut n2 = start("n2", &all).with_layer(Layer::GCounter(GCounterLayer::new()));
    let mut to_n1 = Vec::new();
    let mut to_n2 = Vec::new();
    for (d, id) in [(4, 1), (6, 2)] {
        let out = send(&mut n1, "c1", &format!("{{\"type\":\"add\",\"delta\":{},\"msg_id\":{}}}", d, id));
        to_n2.push(out[0].clone());
    }
    let out = send(&mut n2, "c2", "{\"type\":\"add\",\"delta\":5,\"msg_id\":1}");
    to_n1.push(out[0].clone());
    for m in to_n2.iter() {
        n2.handle_incoming_message(m).unwrap();
    }
    for m in to_n1.iter() {
        n1.handle_incoming_message(m).unwrap();
    }
    let r1 = send(&mut n1, "c1", "{\"type\":\"read\",\"msg_id\":8}");
    let r2 = send(&mut n2, "c1", "{\"type\":\"read\",\"msg_id\":8}");
    assert!(r1[0].contains("\"value\":15}"));
    assert!(r2[0].contains("\"value\":15}"));
}

#[test]
fn add_from_the_node_itself_is_not_sent_to_itself() {
    let mut n = start("n1", &["n1", "n2", "n3"]).with_layer(Layer::GCounter(GCounterLayer::new()));
    let out = send(&mut n, "c1", "{\"type\":\"add\",\"delta\":1,\"msg_id\":3}");
    assert_eq!(out.len(), 3);
    assert!(out[0].contains("\"dest\":\"n2\""));
    assert!(out[1].contains("\"dest\":\"n3\""));
    assert!(out[2].contains("add_ok"));
}

#[test]
fn later_layer_takes_precedence() {
    let mut n = start("n1", &["n1", "n2"])
        .with_layer(Layer::Broadcast(BroadcastLayer::new()))
        .with_layer(Layer::GCounter(GCounterLayer::new()));
    send(&mut n, "c1", "{\"type\":\"topology\",\"msg_id\":1,\"topology\":{\"n1\":[\"n2\"]}}");
    send(&mut n, "c1", "{\"type\":\"broadcast\",\"message\":8,\"msg_id\":2}");
    let out = send(&mut n, "c1", "{\"type\":\"read\",\"msg_id\":3}");
    assert_eq!(out.len(), 1);
    assert!(out[0].contains("\"value\":0}"));
    assert!(!out[0].contains("messages"));
}

#[test]
fn unmatched_line_yields_nothing() {
    let mut n = start("n1", &["n1"]).with_layer(Layer::Echo(EchoLayer::new()));
    let before = n.next_message_id();
    assert_eq!(n.handle_incoming_message("garbage").unwrap(), Vec::<String>::new());
    assert_eq!(send(&mut n, "c1", "{\"type\":\"unknown\",\"msg_id\":1}"), Vec::<String>::new());
    assert_eq!(send(&mut n, "c1", "{\"type\":\"echo\",\"msg_id\":1}"), Vec::<String>::new());
    assert_eq!(n.next_message_id(), before);
}

#[test]
fn echo_replies_with_text() {
    let mut n = start("n1", &["n1"]).with_layer(Layer::Echo(EchoLayer::new()));
    let out = send(&mut n, "c1", "{\"type\":\"echo\",\"echo\":\"hi \\\"there\\\"\",\"msg_id\":4,\"extra\":true}");
    assert_eq!(
        out,
        vec![line("n1", "c1", "{\"type\":\"echo_ok\",\"echo\":\"hi \\\"there\\\"\",\"msg_id\":1,\"in_reply_to\":4}")]
    );
}

#[test]
fn generate_gives_distinct_ids() {
    let mut n = start("n7", &["n7"]).with_layer(Layer::Generate(GenerateLayer::new()));
    let a = send(&mut n, "c1", "{\"type\":\"generate\",\"msg_id\":1}");
    let b = send(&mut n, "c1", "{\"type\":\"generate\",\"msg_id\":2}");
    assert_eq!(a, vec![line("n7", "c1", "{\"type\":\"generate_ok\",\"id\":\"n71\",\"msg_id\":1,\"in_reply_to\":1}")]);
    assert_eq!(b, vec![line("n7", "c1", "{\"type\":\"generate_ok\",\"id\":\"n72\",\"msg_id\":2,\"in_reply_to\":2}")]);
}

#[test]
fn ids_exhausted_is_reported() {
    let all = vec!["n1".to_string()];
    let mut n = Node::new("n1".to_string(), all.clone(), u32::MAX).with_layer(Layer::Echo(EchoLayer::new()));
    let l = line("c1", "n1", "{\"type\":\"echo\",\"echo\":\"x\",\"msg_id\":1}");
    assert!(matches!(n.handle_incoming_message(&l), Err(NodeError::IdsExhausted)));
    assert_eq!(n.next_message_id(), u32::MAX);
    assert_eq!(n.handle_incoming_message("garbage").unwrap(), Vec::<String>::new());
    let other = line("c1", "n1", "{\"type\":\"read\",\"msg_id\":1}");
    assert_eq!(n.handle_incoming_message(&other).unwrap(), Vec::<String>::new());
    assert_eq!(n.next_message_id(), u32::MAX);
    let mut n = Node::new("n1".to_string(), all, u32::MAX - 1).with_layer(Layer::Echo(EchoLayer::new()));
    let out = n.handle_incoming_message(&l).unwrap();
    assert!(out[0].contains(&format!("\"msg_id\":{}", u32::MAX - 1)));
    assert_eq!(n.next_message_id(), u32::MAX);
}

#[test]
fn msg_id_beyond_u32_is_unmatched() {
    let mut n = start("n1", &["n1"]).with_layer(Layer::Echo(EchoLayer::new()));
    let out = send(&mut n, "c1", "{\"type\":\"echo\",\"echo\":\"x\",\"msg_id\":4294967296}");
    assert_eq!(out, Vec::<String>::new());
    let out = send(&mut n, "c1", "{\"type\":\"echo\",\"echo\":\"x\",\"msg_id\":4294967295}");
    assert_eq!(out.len(), 1);
}
