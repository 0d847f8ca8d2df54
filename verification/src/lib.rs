//! A verified client core for a RESP2 key/value cache protocol.
//!
//! The crate covers the pure heart of such a client: encoding pipelined
//! commands to wire bytes, decoding server replies from received bytes,
//! interpreting the replies of the basic key/value operations, and the
//! arbitration state of a fixed-size connection pool. Socket I/O itself is
//! left to the embedding program, which feeds bytes in and out.

pub mod align;
pub mod chat;
pub mod codec;
pub mod command;
pub mod error;
pub mod numbers;
pub mod pool;
pub mod session;
pub mod user;
pub mod value;

pub use chat::{Chat, ChatType};
pub use error::Error;
pub use user::User;
pub use value::Value;
