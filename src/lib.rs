//! One node of a peer-to-peer cluster that talks in line-delimited JSON
//! messages. Protocol layers (echo, id generation, flood broadcast and a
//! grow-only counter) are stacked into a chain; each incoming line goes to the
//! most recently installed layer whose request schema accepts it.

pub mod broadcast;
pub mod context;
pub mod echo;
pub mod gcounter;
pub mod generate;
pub mod json;
pub mod message;
pub mod node;

pub use context::{NodeContext, NodeData};
pub use message::{ErrorBody, Message};
pub use node::{Layer, Node, NodeError, NodeLayer};
