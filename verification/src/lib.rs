//! Server-side core of a text/binary message-framing protocol over a byte
//! stream: a one-time upgrade handshake followed by a symmetric frame codec
//! that carries whole messages.

pub mod codec;
pub mod driver;
pub mod frame;
pub mod handshake;
pub mod message;
