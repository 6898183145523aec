//! A minimal key-value server's core: the wire framing of its messages, an
//! incremental frame decoder, request parsing, the shared store and the
//! per-connection handler's state machine.

pub mod args_parser;
pub mod codec;
pub mod command;
pub mod decoder;
pub mod frame;
pub mod handler;
pub mod laws;
pub mod server;
pub mod store;
