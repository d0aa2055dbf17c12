//! A HyParView membership protocol node: the peer model, the partial
//! views, the protocol messages, the view state machine and the wire
//! formats that carry messages between peers.

pub mod addr;
pub mod peer_set;
pub mod message;
pub mod action;
pub mod random;
pub mod state;
pub mod buffer;
pub mod frame;
pub mod messages;
pub mod codec;
pub mod command;
pub mod backoff;
