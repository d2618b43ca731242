//! A small runtime for servers that never block, and the exchange that they serve: one
//! answer to every request.
//!
//! Nothing here touches a socket. The runtime and the handlers are told what has
//! happened and say what to do next; whoever owns the sockets does it.

pub mod blocking;
pub mod exchange;
pub mod future;
pub mod handler;
pub mod http;
pub mod listener;
pub mod pipeline;
pub mod reactor;
pub mod scheduler;
pub mod server;
