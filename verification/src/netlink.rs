//! Virtual netlink sockets: which are known, and what their calls are answered.

pub mod handlers;
pub mod state;
