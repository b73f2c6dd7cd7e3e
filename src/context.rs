use vstd::prelude::*;

verus! {

/// What a layer may know of the node it runs on.
pub trait NodeData {
    spec fn spec_node_id(&self) -> String;

    spec fn spec_all_nodes(&self) -> Seq<String>;

    spec fn spec_next_message_id(&self) -> u32;

    /// This node's id.
    fn node_id(&self) -> (r: String)
        ensures
            r == self.spec_node_id(),
    ;

    /// Every node of the cluster, this one included.
    fn all_nodes(&self) -> (r: Vec<String>)
        ensures
            r@ == self.spec_all_nodes(),
    ;

    /// The id of the first message that the current request sends out; the
    /// next ones follow it one by one.
    fn next_message_id(&self) -> (r: u32)
        ensures
            r == self.spec_next_message_id(),
    ;
}

/// A snapshot of the node's identity, handed to a layer for one request.
#[derive(Debug)]
pub struct NodeContext {
    pub node_id: String,
    pub all_nodes: Vec<String>,
    pub next_msg_id: u32,
}

/// A copy of `v`, element for element.
pub fn clone_strings(v: &Vec<String>) -> (r: Vec<String>)
    ensures
        r@ == v@,
{
    let mut r: Vec<String> = Vec::new();
    let mut i: usize = 0;
    while i < v.len()
        invariant
            i <= v@.len(),
            r@ == v@.take(i as int),
        decreases v@.len() - i,
    {
        r.push(v[i].clone());
        assert(r@ =~= v@.take(i + 1));
        i = i + 1;
    }
    assert(v@.take(i as int) =~= v@);
    r
}

impl NodeData for NodeContext {
    open spec fn spec_node_id(&self) -> String {
        self.node_id
    }

    open spec fn spec_all_nodes(&self) -> Seq<String> {
        self.all_nodes@
    }

    open spec fn spec_next_message_id(&self) -> u32 {
        self.next_msg_id
    }

    fn node_id(&self) -> (r: String) {
        self.node_id.clone()
    }

    fn all_nodes(&self) -> (r: Vec<String>) {
        clone_strings(&self.all_nodes)
    }

    fn next_message_id(&self) -> (r: u32) {
        self.next_msg_id
    }
}

} // verus!
