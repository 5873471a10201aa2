//! Control-stream messages of a connection and their wire format.

pub mod codec;
pub mod message;

pub use message::{ClientHello, ConnectionErrorMsg, ConnectionMessage, Headers, ServerHello};
