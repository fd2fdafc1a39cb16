//! Server-side synchronisation core: a tick-indexed command buffer and an
//! entity-scope-gated waitlist for outgoing messages.

pub mod command_receiver;
pub mod entity_message_waitlist;
pub mod server_packet_writer;
pub mod wire;
