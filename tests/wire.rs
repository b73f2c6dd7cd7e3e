use botnet::broadcast::BroadcastLayer;
use botnet::context::NodeContext;
use botnet::json::{push_decimal, push_json, push_quoted, Json};
use botnet::message::render_line;
use botnet::{ErrorBody, Layer, Message, Node, NodeData};

#[test]
fn decimal_digits() {
    let mut s = String::new();
    push_decimal(&mut s, 0);
    assert_eq!(s, "0");
    let mut s = String::from("x");
    push_decimal(&mut s, 1234567890123);
    assert_eq!(s, "x1234567890123");
    let mut s = String::new();
    push_decimal(&mut s, u64::MAX);
    assert_eq!(s, "18446744073709551615");
}

#[test]
fn quoting_escapes() {
    let mut s = String::new();
    push_quoted(&mut s, "a\"b\\c\n");
    assert_eq!(s, "\"a\\\"b\\\\c\\n\"");
    let mut s = String::new();
    push_quoted(&mut s, "\u{1}\u{8}\u{c}\r\t\u{1f}/\u{7f}\u{e9}");
    assert_eq!(s, "\"\\u0001\\b\\f\\r\\t\\u001f/\u{7f}\u{e9}\"");
}

fn read_back(value: &str) -> String {
    let mut n = Node::try_init(
        "{\"src\":\"c0\",\"dest\":\"n1\",\"body\":{\"type\":\"init\",\"msg_id\":1,\"node_id\":\"n1\",\"node_ids\":[\"n1\"]}}",
    )
    .unwrap()
    .0
    .with_layer(Layer::Broadcast(BroadcastLayer::new()));
    let b = format!(
        "{{\"src\":\"c1\",\"dest\":\"n1\",\"body\":{{\"type\":\"broadcast\",\"message\":{},\"msg_id\":1}}}}",
        value
    );
    n.handle_incoming_message(&b).unwrap();
    let r = "{\"src\":\"c1\",\"dest\":\"n1\",\"body\":{\"type\":\"read\",\"msg_id\":2}}";
    n.handle_incoming_message(r).unwrap().remove(0)
}

#[test]
fn parsed_values_keep_their_kind() {
    let out = read_back("[1,-2,2.5,\"s\",null,true]");
    assert!(out.contains("\"messages\":[[1,-2,2.5,\"s\",null,true]]"), "{}", out);
}

#[test]
fn compact_text_of_a_value() {
    let out = read_back(" { \"b\" : [ 1 , { \"c\" : \"d\" } ] , \"a\" : false } ");
    assert!(out.contains("\"messages\":[{\"a\":false,\"b\":[1,{\"c\":\"d\"}]}]"), "{}", out);
}

#[test]
fn json_text_of_a_tree() {
    let j = Json::Object(vec![
        ("k".to_string(), Json::Array(vec![Json::UInt(3), Json::Number("-1".to_string()), Json::Null])),
        ("t".to_string(), Json::Str("x\ty".to_string())),
    ]);
    let mut s = String::new();
    push_json(&mut s, &j);
    assert_eq!(s, "{\"k\":[3,-1,null],\"t\":\"x\\ty\"}");
}

#[test]
fn error_line() {
    let m: Message<Result<String, ErrorBody>> = Message {
        src: "n1".to_string(),
        dest: "c1".to_string(),
        body: Err(ErrorBody { in_reply_to: 3, code: 1000, text: "no".to_string() }),
    };
    assert_eq!(
        render_line(&m),
        "{\"src\":\"n1\",\"dest\":\"c1\",\"body\":{\"type\":\"error\",\"in_reply_to\":3,\"code\":1000,\"text\":\"no\"}}"
    );
}

#[test]
fn message_map_keeps_envelope() {
    let m = Message { src: "a".to_string(), dest: "b".to_string(), body: 20u32 };
    let r = m.map(|x| x + 1);
    assert_eq!(r.src, "a");
    assert_eq!(r.dest, "b");
    assert_eq!(r.body, 21);
}

#[test]
fn context_reports_identity() {
    let c = NodeContext { node_id: "n1".to_string(), all_nodes: vec!["n1".to_string(), "n2".to_string()], next_msg_id: 5 };
    assert_eq!(c.node_id(), "n1");
    assert_eq!(c.all_nodes(), vec!["n1".to_string(), "n2".to_string()]);
    assert_eq!(c.next_message_id(), 5);
}
