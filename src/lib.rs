//! Protocol engine for the handshake, status and login phase of a length-prefixed
//! binary game protocol: the VarInt codec, the per-connection byte buffers, the
//! packet dispatcher with its connection state machine, and the store of connection
//! states. It works on bytes in memory; reading and writing sockets is left to the
//! caller.

pub mod varnums;
pub mod byte_handlers;
pub mod packets;
pub mod state_store;
