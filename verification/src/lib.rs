//! Client-side core of a line-oriented key-value registry protocol.
//!
//! One connection carries many calls at once, and the server's change
//! notifications besides. This crate holds what decides: the wire format
//! ([`codec`]), the buffer that cuts a byte stream into frames ([`buffer`]),
//! the registry that pairs replies with the calls that wait for them
//! ([`client`], over the model in [`session`]), and the meaning of each
//! operation's reply ([`reply`]). Sockets, tasks and timers are the
//! caller's.

pub mod buffer;
pub mod client;
pub mod codec;
pub mod decimal;
pub mod error;
pub mod message;
pub mod reply;
pub mod session;
pub mod text;

pub use buffer::FrameBuffer;
pub use client::Client;
pub use codec::{decode, encode, read_line, read_lines};
pub use error::{CallError, FramingError};
pub use message::Message;
pub use session::{Dispatch, Resolution, SessionState};
