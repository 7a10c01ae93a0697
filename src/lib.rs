//! Session and room engine of a datagram game server: the binary wire codec,
//! recyclable identifier pools, the session and room registries, and the
//! per-packet dispatch that turns datagrams into registry changes and replies.
pub mod game;
pub mod ids;
pub mod laws;
pub mod message;
pub mod server;
pub mod trace;

pub use game::{Endpoint, Member, Player, Room};
pub use ids::IdPool;
pub use message::{DecodeError, Message};
pub use server::{ping_broadcast, BroadcastMessage, Outbound, ServerContext, ServerError, Session};
pub use trace::{set_trace, Tracer};
