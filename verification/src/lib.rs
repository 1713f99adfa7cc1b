//! A node of the Mainline distributed hash table.
//!
//! [`rpc::Rpc`] walks the network for peers and values, stores them at other nodes, and answers
//! requests. It does no input or output of its own: it is handed the time, random bytes, the
//! outcome of looking up host names and what arrives, and hands back what is to be sent and what
//! its users are to be told.
//!
//! Each type has a view, a mathematical value that says what it holds. [`state`] says what each
//! operation makes of the view of a node, and [`rpc`] is proved to do just that. [`integrity`]
//! proves what every node keeps whatever it does, and [`laws`] what follows for those who use it.

pub mod address;
pub mod buffer;
pub mod cache;
pub mod clock;
pub mod closest;
pub mod crypto;
pub mod id;
pub mod integrity;
pub mod item;
pub mod laws;
pub mod messages;
pub mod node;
pub mod peers;
pub mod query;
pub mod response;
pub mod routing_table;
pub mod rpc;
pub mod seqs;
pub mod socket;
pub mod state;
pub mod tokens;
