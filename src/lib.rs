//! Authoritative core of a turn-based elimination party game: the message
//! sets exchanged between clients and server, the tick-driven game engine,
//! the server's session manager and the client's reaction to server messages.

pub mod packet;
pub mod engine;
pub mod server;
pub mod client;
