//! A small key-value server core: a codec for a Redis-style wire protocol and
//! the engine that runs its commands against a store with lazy expiry.

pub mod codec_laws;
pub mod commands;
pub mod decimal;
pub mod engine_laws;
pub mod resp;
pub mod semantics;
pub mod store;
pub mod text;
pub mod value;

pub use commands::{
    handle_array_command, handle_request, handle_simple_string, save_reply, Outcome,
};
pub use resp::{parse_resp, parse_resp_recursive, RespMessage};
pub use store::Store;
pub use value::ValueWithExpiry;
